//! The entity graph a report is built from: games, their drop campaigns and
//! the campaigns' rewards, with timestamps as Unix seconds (UTC).
use vstd::prelude::*;

use crate::ts_ok;

verus! {

/// An unlockable reward inside a drop campaign.
pub struct Reward {
    pub name: String,
    pub minutes_required: u16,
}

/// A time-bounded drop campaign. `start_at` and `end_at` are Unix seconds.
/// The feed is trusted as-is: `end_at` may lie in the past, and no order
/// between `start_at` and `end_at` is assumed.
pub struct DropCampaign {
    pub name: String,
    pub start_at: i64,
    pub end_at: i64,
    pub rewards: Vec<Reward>,
}

/// A game together with its active drop campaigns.
pub struct Game {
    pub display_name: String,
    pub drops: Vec<DropCampaign>,
}

/// Mathematical image of a `Reward`.
#[verifier::ext_equal]
pub ghost struct RewardV {
    pub name: Seq<char>,
    pub minutes_required: u16,
}

/// Mathematical image of a `DropCampaign`.
#[verifier::ext_equal]
pub ghost struct DropV {
    pub name: Seq<char>,
    pub start_at: int,
    pub end_at: int,
    pub rewards: Seq<RewardV>,
}

/// Mathematical image of a `Game`.
#[verifier::ext_equal]
pub ghost struct GameV {
    pub name: Seq<char>,
    pub drops: Seq<DropV>,
}

impl View for Reward {
    type V = RewardV;

    open spec fn view(&self) -> RewardV {
        RewardV { name: self.name@, minutes_required: self.minutes_required }
    }
}

impl View for DropCampaign {
    type V = DropV;

    open spec fn view(&self) -> DropV {
        DropV {
            name: self.name@,
            start_at: self.start_at as int,
            end_at: self.end_at as int,
            rewards: self.rewards@.map_values(|r: Reward| r@),
        }
    }
}

impl View for Game {
    type V = GameV;

    open spec fn view(&self) -> GameV {
        GameV {
            name: self.display_name@,
            drops: self.drops@.map_values(|d: DropCampaign| d@),
        }
    }
}

/// All timestamps of a game's drops lie in the range the report accepts.
pub open spec fn wf_game(g: GameV) -> bool {
    forall|i: int|
        0 <= i < g.drops.len() ==> ts_ok((#[trigger] g.drops[i]).start_at) && ts_ok(
            g.drops[i].end_at,
        )
}

/// All timestamps of every game in the list are acceptable.
pub open spec fn wf_games(games: Seq<GameV>) -> bool {
    forall|i: int| 0 <= i < games.len() ==> wf_game(#[trigger] games[i])
}

} // verus!
