//! Rendering of the report: the recent-drops section, the full catalog and
//! the document around them.
use vstd::prelude::*;
use vstd::string::StringExecFns;

use crate::model::DropV;
use crate::model::Game;
use crate::model::GameV;
use crate::model::Reward;
use crate::model::RewardV;
use crate::model::DropCampaign;
use crate::ordering::views_of;
use crate::phrase::ends_in_days;
use crate::phrase::ends_phrase;
use crate::recent::group_recent;
use crate::recent::grouping_ok;
use crate::recent::entries_of;
use crate::recent::DateGroup;
use crate::recent::DateGroupV;
use crate::recent::EntryV;
use crate::recent::GameGroup;
use crate::recent::GameGroupV;
use crate::text::dec_str;
use crate::text::escape_markdown;
use crate::text::escape_spec;
use crate::text::u64_to_string;
use crate::ts_ok;
use crate::unix_day;
use crate::whole_days;

verus! {

/// The `YYYY-MM-DD` text of a Unix day number, as the calendar library
/// formats it. It depends on the day number alone.
pub uninterp spec fn date_str_of(day: int) -> Seq<char>;

/// Relies on chrono's `DateTime::from_timestamp`, `date_naive` and
/// `%Y-%m-%d` formatting: the UTC calendar date of a timestamp is determined
/// by its Unix day number (`from_timestamp` floor-divides the seconds by the
/// day length), and the rendered text by that date alone. The timestamp
/// range keeps `from_timestamp` from returning `None`.
#[verifier::external_body]
fn format_utc_date(secs: i64) -> (r: String)
    requires
        ts_ok(secs as int),
    ensures
        r@ == date_str_of(unix_day(secs as int)),
{
    let dt = chrono::DateTime::<chrono::Utc>::from_timestamp(secs, 0).unwrap();
    dt.date_naive().format("%Y-%m-%d").to_string()
}

/// One drop line of the recent section.
pub open spec fn entry_line(e: EntryV, now: int) -> Seq<char> {
    "  - "@ + escape_spec(e.drop_name) + " ("@ + ends_phrase(whole_days(e.end_at - now)) + ")\n"@
}

/// The drop lines of one game bucket, in order.
pub open spec fn entry_lines(es: Seq<EntryV>, now: int) -> Seq<char>
    decreases es.len(),
{
    if es.len() == 0 {
        Seq::empty()
    } else {
        entry_lines(es.drop_last(), now) + entry_line(es.last(), now)
    }
}

/// One game bucket of the recent section: its name line, then its drops.
pub open spec fn bucket_lines(b: GameGroupV, now: int) -> Seq<char> {
    "- "@ + escape_spec(b.name) + "\n"@ + entry_lines(b.drops, now)
}

/// The game buckets of one date, in order.
pub open spec fn buckets_lines(bs: Seq<GameGroupV>, now: int) -> Seq<char>
    decreases bs.len(),
{
    if bs.len() == 0 {
        Seq::empty()
    } else {
        buckets_lines(bs.drop_last(), now) + bucket_lines(bs.last(), now)
    }
}

/// One date of the recent section: its date line, its games, a blank line.
pub open spec fn date_group_lines(dg: DateGroupV, now: int) -> Seq<char> {
    date_str_of(unix_day(dg.stamp)) + "\n"@ + buckets_lines(dg.games, now) + "\n"@
}

/// The date blocks of the recent section, in order.
pub open spec fn groups_lines(gs: Seq<DateGroupV>, now: int) -> Seq<char>
    decreases gs.len(),
{
    if gs.len() == 0 {
        Seq::empty()
    } else {
        groups_lines(gs.drop_last(), now) + date_group_lines(gs.last(), now)
    }
}

/// The whole recent section: heading, then either the explanatory line for
/// an empty window or the date blocks.
pub open spec fn recent_section_spec(gs: Seq<DateGroupV>, now: int) -> Seq<char> {
    "## Recent Drops\n\n"@ + if gs.len() == 0 {
        "No drop campaigns started in the last 7 days.\n\n"@
    } else {
        groups_lines(gs, now)
    }
}

/// One reward line of the catalog.
pub open spec fn reward_line(r: RewardV) -> Seq<char> {
    "  - "@ + escape_spec(r.name) + " ("@ + dec_str(r.minutes_required as nat)
        + " minutes watched)\n"@
}

/// The reward lines of one drop, in order.
pub open spec fn reward_lines(rs: Seq<RewardV>) -> Seq<char>
    decreases rs.len(),
{
    if rs.len() == 0 {
        Seq::empty()
    } else {
        reward_lines(rs.drop_last()) + reward_line(rs.last())
    }
}

/// One drop of the catalog: its line, then its rewards.
pub open spec fn drop_block(d: DropV, now: int) -> Seq<char> {
    "- "@ + escape_spec(d.name) + " ("@ + ends_phrase(whole_days(d.end_at - now)) + ")\n"@
        + reward_lines(d.rewards)
}

/// The drop blocks of one game, in order.
pub open spec fn drop_blocks(ds: Seq<DropV>, now: int) -> Seq<char>
    decreases ds.len(),
{
    if ds.len() == 0 {
        Seq::empty()
    } else {
        drop_blocks(ds.drop_last(), now) + drop_block(ds.last(), now)
    }
}

/// One game of the catalog: its name line, its drops, a blank line.
pub open spec fn game_block(g: GameV, now: int) -> Seq<char> {
    escape_spec(g.name) + "\n"@ + drop_blocks(g.drops, now) + "\n"@
}

/// The game blocks of the catalog, in order.
pub open spec fn game_blocks(gs: Seq<GameV>, now: int) -> Seq<char>
    decreases gs.len(),
{
    if gs.len() == 0 {
        Seq::empty()
    } else {
        game_blocks(gs.drop_last(), now) + game_block(gs.last(), now)
    }
}

/// The whole catalog section.
pub open spec fn all_section_spec(games: Seq<GameV>, now: int) -> Seq<char> {
    "## All drops\n\n"@ + game_blocks(games, now)
}

/// The title line every report starts with.
pub open spec fn report_title() -> Seq<char> {
    "# Twitch Drops Campaigns\n\n"@
}

/// The single line an empty feed collapses to.
pub open spec fn no_campaigns_line() -> Seq<char> {
    "No active drops campaigns found.\n"@
}

/// Every timestamp a rendered group reads is acceptable.
pub open spec fn wf_bucket_ts(b: GameGroupV) -> bool {
    forall|k: int| 0 <= k < b.drops.len() ==> ts_ok((#[trigger] b.drops[k]).end_at)
}

/// Every timestamp a rendered date group reads is acceptable.
pub open spec fn wf_group_ts(dg: DateGroupV) -> bool {
    &&& ts_ok(dg.stamp)
    &&& forall|j: int| 0 <= j < dg.games.len() ==> wf_bucket_ts(#[trigger] dg.games[j])
}

/// Every timestamp the recent section reads is acceptable.
pub open spec fn wf_groups_ts(gs: Seq<DateGroupV>) -> bool {
    forall|i: int| 0 <= i < gs.len() ==> wf_group_ts(#[trigger] gs[i])
}

/// Render one drop line of the recent section.
fn render_entry_line(e: &crate::recent::Entry, now: i64) -> (r: String)
    requires
        ts_ok(e.end_at as int),
        ts_ok(now as int),
    ensures
        r@ == entry_line(e@, now as int),
{
    let mut s = String::from_str("  - ");
    let esc = escape_markdown(e.drop_name.as_str());
    s.append(esc.as_str());
    s.append(" (");
    let phrase = ends_in_days(e.end_at, now);
    s.append(phrase.as_str());
    s.append(")\n");
    s
}

/// Render one game bucket of the recent section.
fn render_bucket(b: &GameGroup, now: i64) -> (r: String)
    requires
        wf_bucket_ts(b@),
        ts_ok(now as int),
    ensures
        r@ == bucket_lines(b@, now as int),
{
    let ghost es = b@.drops;
    let mut s = String::from_str("- ");
    let esc = escape_markdown(b.name.as_str());
    s.append(esc.as_str());
    s.append("\n");
    let ghost head = s@;
    let mut k: usize = 0;
    proof {
        assert(entry_lines(es.take(0), now as int) =~= Seq::<char>::empty());
        assert(s@ =~= head + entry_lines(es.take(0), now as int));
    }
    while k < b.drops.len()
        invariant
            0 <= k <= b.drops@.len(),
            es == b@.drops,
            es.len() == b.drops@.len(),
            wf_bucket_ts(b@),
            ts_ok(now as int),
            head == "- "@ + escape_spec(b@.name) + "\n"@,
            s@ == head + entry_lines(es.take(k as int), now as int),
        decreases b.drops@.len() - k,
    {
        proof {
            assert(es[k as int] == b.drops@[k as int]@);
            assert(ts_ok(es[k as int].end_at));
        }
        let line = render_entry_line(&b.drops[k], now);
        s.append(line.as_str());
        proof {
            assert(es.take(k + 1).drop_last() =~= es.take(k as int));
            assert(es.take(k + 1).last() == es[k as int]);
            assert(s@ =~= head + entry_lines(es.take(k + 1), now as int));
        }
        k = k + 1;
    }
    proof {
        assert(es.take(b.drops@.len() as int) =~= es);
    }
    s
}

/// Render one date block of the recent section.
fn render_group(g: &DateGroup, now: i64) -> (r: String)
    requires
        wf_group_ts(g@),
        ts_ok(now as int),
    ensures
        r@ == date_group_lines(g@, now as int),
{
    let ghost bs = g@.games;
    let mut s = format_utc_date(g.stamp);
    s.append("\n");
    let ghost head = s@;
    let mut j: usize = 0;
    proof {
        assert(buckets_lines(bs.take(0), now as int) =~= Seq::<char>::empty());
        assert(s@ =~= head + buckets_lines(bs.take(0), now as int));
    }
    while j < g.games.len()
        invariant
            0 <= j <= g.games@.len(),
            bs == g@.games,
            bs.len() == g.games@.len(),
            wf_group_ts(g@),
            ts_ok(now as int),
            head == date_str_of(unix_day(g@.stamp)) + "\n"@,
            s@ == head + buckets_lines(bs.take(j as int), now as int),
        decreases g.games@.len() - j,
    {
        proof {
            assert(bs[j as int] == g.games@[j as int]@);
            assert(wf_bucket_ts(bs[j as int]));
        }
        let block = render_bucket(&g.games[j], now);
        s.append(block.as_str());
        proof {
            assert(bs.take(j + 1).drop_last() =~= bs.take(j as int));
            assert(bs.take(j + 1).last() == bs[j as int]);
            assert(s@ =~= head + buckets_lines(bs.take(j + 1), now as int));
        }
        j = j + 1;
    }
    s.append("\n");
    proof {
        assert(bs.take(g.games@.len() as int) =~= bs);
        assert(s@ =~= date_group_lines(g@, now as int));
    }
    s
}

/// Render the recent section of the given groups.
pub fn render_recent_section(groups: &Vec<DateGroup>, now: i64) -> (r: String)
    requires
        wf_groups_ts(crate::recent::group_views(groups@)),
        ts_ok(now as int),
    ensures
        r@ == recent_section_spec(crate::recent::group_views(groups@), now as int),
{
    let ghost gv = crate::recent::group_views(groups@);
    let mut s = String::from_str("## Recent Drops\n\n");
    if groups.len() == 0 {
        s.append("No drop campaigns started in the last 7 days.\n\n");
        return s;
    }
    let ghost head = s@;
    let mut i: usize = 0;
    proof {
        assert(groups_lines(gv.take(0), now as int) =~= Seq::<char>::empty());
        assert(s@ =~= head + groups_lines(gv.take(0), now as int));
    }
    while i < groups.len()
        invariant
            0 <= i <= groups@.len(),
            gv == crate::recent::group_views(groups@),
            gv.len() == groups@.len(),
            wf_groups_ts(gv),
            ts_ok(now as int),
            head == "## Recent Drops\n\n"@,
            s@ == head + groups_lines(gv.take(i as int), now as int),
        decreases groups@.len() - i,
    {
        proof {
            assert(gv[i as int] == groups@[i as int]@);
            assert(wf_group_ts(gv[i as int]));
        }
        let block = render_group(&groups[i], now);
        s.append(block.as_str());
        proof {
            assert(gv.take(i + 1).drop_last() =~= gv.take(i as int));
            assert(gv.take(i + 1).last() == gv[i as int]);
            assert(s@ =~= head + groups_lines(gv.take(i + 1), now as int));
        }
        i = i + 1;
    }
    proof {
        assert(gv.take(groups@.len() as int) =~= gv);
    }
    s
}

/// Render one reward line of the catalog.
fn render_reward_line(rw: &Reward) -> (r: String)
    ensures
        r@ == reward_line(rw@),
{
    let mut s = String::from_str("  - ");
    let esc = escape_markdown(rw.name.as_str());
    s.append(esc.as_str());
    s.append(" (");
    let minutes = u64_to_string(rw.minutes_required as u64);
    s.append(minutes.as_str());
    s.append(" minutes watched)\n");
    s
}

/// Render one drop of the catalog, rewards included.
fn render_drop_block(d: &DropCampaign, now: i64) -> (r: String)
    requires
        ts_ok(d.end_at as int),
        ts_ok(now as int),
    ensures
        r@ == drop_block(d@, now as int),
{
    let ghost rs = d@.rewards;
    let mut s = String::from_str("- ");
    let esc = escape_markdown(d.name.as_str());
    s.append(esc.as_str());
    s.append(" (");
    let phrase = ends_in_days(d.end_at, now);
    s.append(phrase.as_str());
    s.append(")\n");
    let ghost head = s@;
    let mut k: usize = 0;
    proof {
        assert(reward_lines(rs.take(0)) =~= Seq::<char>::empty());
        assert(s@ =~= head + reward_lines(rs.take(0)));
    }
    while k < d.rewards.len()
        invariant
            0 <= k <= d.rewards@.len(),
            rs == d@.rewards,
            rs.len() == d.rewards@.len(),
            head == "- "@ + escape_spec(d@.name) + " ("@ + ends_phrase(
                whole_days(d@.end_at - now as int),
            ) + ")\n"@,
            s@ == head + reward_lines(rs.take(k as int)),
        decreases d.rewards@.len() - k,
    {
        proof {
            assert(rs[k as int] == d.rewards@[k as int]@);
        }
        let line = render_reward_line(&d.rewards[k]);
        s.append(line.as_str());
        proof {
            assert(rs.take(k + 1).drop_last() =~= rs.take(k as int));
            assert(rs.take(k + 1).last() == rs[k as int]);
            assert(s@ =~= head + reward_lines(rs.take(k + 1)));
        }
        k = k + 1;
    }
    proof {
        assert(rs.take(d.rewards@.len() as int) =~= rs);
    }
    s
}

/// Render one game of the catalog, drops and rewards included.
fn render_game_block(g: &Game, now: i64) -> (r: String)
    requires
        crate::model::wf_game(g@),
        ts_ok(now as int),
    ensures
        r@ == game_block(g@, now as int),
{
    let ghost ds = g@.drops;
    let esc = escape_markdown(g.display_name.as_str());
    let mut s = esc;
    s.append("\n");
    let ghost head = s@;
    let mut k: usize = 0;
    proof {
        assert(drop_blocks(ds.take(0), now as int) =~= Seq::<char>::empty());
        assert(s@ =~= head + drop_blocks(ds.take(0), now as int));
    }
    while k < g.drops.len()
        invariant
            0 <= k <= g.drops@.len(),
            ds == g@.drops,
            ds.len() == g.drops@.len(),
            crate::model::wf_game(g@),
            ts_ok(now as int),
            head == escape_spec(g@.name) + "\n"@,
            s@ == head + drop_blocks(ds.take(k as int), now as int),
        decreases g.drops@.len() - k,
    {
        proof {
            assert(ds[k as int] == g.drops@[k as int]@);
            assert(ts_ok(ds[k as int].end_at));
        }
        let block = render_drop_block(&g.drops[k], now);
        s.append(block.as_str());
        proof {
            assert(ds.take(k + 1).drop_last() =~= ds.take(k as int));
            assert(ds.take(k + 1).last() == ds[k as int]);
            assert(s@ =~= head + drop_blocks(ds.take(k + 1), now as int));
        }
        k = k + 1;
    }
    s.append("\n");
    proof {
        assert(ds.take(g.drops@.len() as int) =~= ds);
        assert(s@ =~= game_block(g@, now as int));
    }
    s
}

/// Render the full catalog of the given games, in their given order.
pub fn render_all_section(games: &Vec<Game>, now: i64) -> (r: String)
    requires
        crate::model::wf_games(views_of(games@)),
        ts_ok(now as int),
    ensures
        r@ == all_section_spec(views_of(games@), now as int),
{
    let ghost gv = views_of(games@);
    let mut s = String::from_str("## All drops\n\n");
    let ghost head = s@;
    let mut i: usize = 0;
    proof {
        assert(game_blocks(gv.take(0), now as int) =~= Seq::<char>::empty());
        assert(s@ =~= head + game_blocks(gv.take(0), now as int));
    }
    while i < games.len()
        invariant
            0 <= i <= games@.len(),
            gv == views_of(games@),
            gv.len() == games@.len(),
            crate::model::wf_games(gv),
            ts_ok(now as int),
            head == "## All drops\n\n"@,
            s@ == head + game_blocks(gv.take(i as int), now as int),
        decreases games@.len() - i,
    {
        proof {
            assert(gv[i as int] == games@[i as int]@);
            assert(crate::model::wf_game(gv[i as int]));
        }
        let block = render_game_block(&games[i], now);
        s.append(block.as_str());
        proof {
            assert(gv.take(i + 1).drop_last() =~= gv.take(i as int));
            assert(gv.take(i + 1).last() == gv[i as int]);
            assert(s@ =~= head + game_blocks(gv.take(i + 1), now as int));
        }
        i = i + 1;
    }
    proof {
        assert(gv.take(games@.len() as int) =~= gv);
    }
    s
}

/// Build the whole report for the given games, in their given order: the
/// title line, then - unless the game list is empty - the recent section
/// followed by the full catalog. An empty list collapses to the title and
/// the no-campaigns line alone.
pub fn render_report(games: &Vec<Game>, now: i64) -> (r: String)
    requires
        crate::model::wf_games(views_of(games@)),
        ts_ok(now as int),
    ensures
        games@.len() == 0 ==> r@ == report_title() + no_campaigns_line(),
        games@.len() > 0 ==> {
            let entries = entries_of(views_of(games@), crate::recent_cutoff(now as int));
            &&& grouping_ok(entries, crate::recent::recent_groups_of(entries))
            &&& r@ == report_title() + recent_section_spec(
                crate::recent::recent_groups_of(entries),
                now as int,
            ) + all_section_spec(views_of(games@), now as int)
        },
{
    let mut s = String::from_str("# Twitch Drops Campaigns\n\n");
    if games.len() == 0 {
        s.append("No active drops campaigns found.\n");
        return s;
    }
    let groups = group_recent(games, now);
    let ghost gv = crate::recent::group_views(groups@);
    let ghost entries = entries_of(views_of(games@), crate::recent_cutoff(now as int));
    proof {
        crate::recent::lemma_entries_wf(views_of(games@), crate::recent_cutoff(now as int));
        assert forall|i: int| 0 <= i < gv.len() implies wf_group_ts(#[trigger] gv[i]) by {
            assert(crate::recent::wf_date_group(entries, gv[i]));
            crate::recent::lemma_first_stamp_entry(entries, gv[i].day);
            let w = choose|t: int|
                0 <= t < entries.len() && (#[trigger] entries[t]).day == gv[i].day
                    && entries[t].stamp == crate::recent::first_stamp(entries, gv[i].day);
            assert(ts_ok(entries[w].stamp));
            assert(gv[i].stamp == entries[w].stamp);
            assert forall|j: int| 0 <= j < gv[i].games.len() implies wf_bucket_ts(
                #[trigger] gv[i].games[j],
            ) by {
                assert(crate::recent::wf_game_group(entries, gv[i].day, gv[i].games[j]));
                let drops = gv[i].games[j].drops;
                assert forall|k: int| 0 <= k < drops.len() implies ts_ok(
                    (#[trigger] drops[k]).end_at,
                ) by {
                    let pred = crate::recent::dn_pred(gv[i].day, gv[i].games[j].name);
                    assert(drops.contains(drops[k]));
                    entries.lemma_filter_contains_rev(pred, drops[k]);
                    let u = choose|u: int| 0 <= u < entries.len() && entries[u] == drops[k];
                    assert(ts_ok(entries[u].end_at));
                }
            }
        }
    }
    let rs = render_recent_section(&groups, now);
    s.append(rs.as_str());
    let alls = render_all_section(games, now);
    s.append(alls.as_str());
    proof {
        assert(grouping_ok(entries, gv));
        let chosen = crate::recent::recent_groups_of(entries);
        assert(grouping_ok(entries, chosen)) by {
            assert(exists|gs: Seq<DateGroupV>| grouping_ok(entries, gs));
        }
        crate::recent::lemma_grouping_unique(entries, chosen, gv);
        assert(s@ =~= report_title() + recent_section_spec(gv, now as int) + all_section_spec(
            views_of(games@),
            now as int,
        ));
    }
    s
}

} // verus!
