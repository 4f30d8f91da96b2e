//! The "recent drops" view: every campaign that started inside the trailing
//! window, bucketed by UTC calendar date and, inside a date, by the exact
//! display name of its game.
use vstd::prelude::*;
use vstd::arithmetic::div_mod::lemma_fundamental_div_mod;
use vstd::arithmetic::div_mod::lemma_fundamental_div_mod_converse;

use crate::model::Game;
use crate::model::GameV;
use crate::model::DropV;
use crate::text::lex_lt;
use crate::text::str_lt;
use crate::ts_ok;
use crate::unix_day;
use crate::SECS_PER_DAY;

verus! {

/// One qualifying (game, drop) pair, flattened out of the game list in
/// source order: game after game, and inside a game drop after drop.
pub struct Entry {
    /// Unix day number of the drop's start.
    pub day: i64,
    /// The drop's start timestamp, Unix seconds.
    pub stamp: i64,
    /// Exact display name of the owning game.
    pub game_name: String,
    /// Name of the drop campaign.
    pub drop_name: String,
    /// The drop's end timestamp, Unix seconds.
    pub end_at: i64,
}

/// Mathematical image of an `Entry`.
#[verifier::ext_equal]
pub ghost struct EntryV {
    pub day: int,
    pub stamp: int,
    pub game_name: Seq<char>,
    pub drop_name: Seq<char>,
    pub end_at: int,
}

impl View for Entry {
    type V = EntryV;

    open spec fn view(&self) -> EntryV {
        EntryV {
            day: self.day as int,
            stamp: self.stamp as int,
            game_name: self.game_name@,
            drop_name: self.drop_name@,
            end_at: self.end_at as int,
        }
    }
}

/// The views of a sequence of entries, element by element.
pub open spec fn entry_views(s: Seq<Entry>) -> Seq<EntryV> {
    s.map_values(|e: Entry| e@)
}

/// The entry a qualifying drop of a game flattens to.
pub open spec fn drop_entry(g: GameV, d: DropV) -> EntryV {
    EntryV {
        day: unix_day(d.start_at),
        stamp: d.start_at,
        game_name: g.name,
        drop_name: d.name,
        end_at: d.end_at,
    }
}

/// Holds of the drops that started strictly after the cutoff instant.
pub open spec fn qual_pred(cutoff: int) -> spec_fn(DropV) -> bool {
    |d: DropV| d.start_at > cutoff
}

/// Maps a drop of game `g` to its flattened entry.
pub open spec fn entry_fn(g: GameV) -> spec_fn(DropV) -> EntryV {
    |d: DropV| drop_entry(g, d)
}

/// The qualifying entries of one game, in the drops' source order.
pub open spec fn game_entries(g: GameV, cutoff: int) -> Seq<EntryV> {
    g.drops.filter(qual_pred(cutoff)).map_values(entry_fn(g))
}

/// Every qualifying entry of the whole game list, in source order.
pub open spec fn entries_of(games: Seq<GameV>, cutoff: int) -> Seq<EntryV>
    decreases games.len(),
{
    if games.len() == 0 {
        Seq::empty()
    } else {
        entries_of(games.drop_last(), cutoff) + game_entries(games.last(), cutoff)
    }
}

/// The Unix day number a timestamp falls on (floor division by the day length).
pub fn unix_day_exec(secs: i64) -> (d: i64)
    requires
        ts_ok(secs as int),
    ensures
        d as int == unix_day(secs as int),
{
    if secs >= 0 {
        let q = (secs as u64) / (SECS_PER_DAY as u64);
        q as i64
    } else {
        let m = (-secs) as u64;
        let q = m / (SECS_PER_DAY as u64);
        let rem = m % (SECS_PER_DAY as u64);
        proof {
            lemma_fundamental_div_mod(m as int, SECS_PER_DAY as int);
        }
        if rem == 0 {
            proof {
                lemma_fundamental_div_mod_converse(
                    secs as int,
                    SECS_PER_DAY as int,
                    -(q as int),
                    0,
                );
            }
            -(q as i64)
        } else {
            proof {
                lemma_fundamental_div_mod_converse(
                    secs as int,
                    SECS_PER_DAY as int,
                    -(q as int) - 1,
                    SECS_PER_DAY as int - rem as int,
                );
            }
            -(q as i64) - 1
        }
    }
}

/// Flatten the game list into its qualifying entries, in source order.
pub fn collect_entries(games: &Vec<Game>, cutoff: i64) -> (r: Vec<Entry>)
    requires
        crate::model::wf_games(crate::ordering::views_of(games@)),
    ensures
        entry_views(r@) == entries_of(crate::ordering::views_of(games@), cutoff as int),
{
    let ghost gv = crate::ordering::views_of(games@);
    let mut out: Vec<Entry> = Vec::new();
    let mut gi: usize = 0;
    proof {
        assert(entry_views(out@) =~= entries_of(gv.take(0), cutoff as int)) by {
            assert(gv.take(0).len() == 0);
        }
    }
    while gi < games.len()
        invariant
            0 <= gi <= games@.len(),
            gv == crate::ordering::views_of(games@),
            crate::model::wf_games(gv),
            entry_views(out@) == entries_of(gv.take(gi as int), cutoff as int),
        decreases games@.len() - gi,
    {
        let game = &games[gi];
        let ghost g = gv[gi as int];
        proof {
            assert(g == game@);
            assert(crate::model::wf_game(g));
        }
        let mut dj: usize = 0;
        proof {
            assert(g.drops.take(0).filter(qual_pred(cutoff as int)) =~= Seq::<DropV>::empty())
                by {
                reveal(Seq::filter);
                assert(g.drops.take(0).len() == 0);
            }
            assert(entry_views(out@) + g.drops.take(0).filter(qual_pred(cutoff as int)).map_values(
                entry_fn(g),
            ) =~= entry_views(out@));
        }
        while dj < game.drops.len()
            invariant
                0 <= dj <= game.drops@.len(),
                g == game@,
                crate::model::wf_game(g),
                g.drops.len() == game.drops@.len(),
                entry_views(out@) == entries_of(gv.take(gi as int), cutoff as int) + g.drops.take(
                    dj as int,
                ).filter(qual_pred(cutoff as int)).map_values(entry_fn(g)),
            decreases game.drops@.len() - dj,
        {
            let d = &game.drops[dj];
            let ghost dv = g.drops[dj as int];
            proof {
                assert(dv == d@);
                assert(g.drops.take(dj + 1).drop_last() =~= g.drops.take(dj as int));
                assert(g.drops.take(dj + 1).last() == dv);
                g.drops.take(dj as int).lemma_filter_push(dv, qual_pred(cutoff as int));
                assert(g.drops.take(dj as int).push(dv) =~= g.drops.take(dj + 1));
            }
            if d.start_at > cutoff {
                let entry = Entry {
                    day: unix_day_exec(d.start_at),
                    stamp: d.start_at,
                    game_name: d_name_clone(&game.display_name),
                    drop_name: d_name_clone(&d.name),
                    end_at: d.end_at,
                };
                proof {
                    assert(entry@ == drop_entry(g, dv));
                }
                let ghost pre_out = out@;
                out.push(entry);
                proof {
                    assert(entry_views(out@) =~= entry_views(pre_out).push(drop_entry(g, dv))) by {
                        assert forall|i: int| 0 <= i < out@.len() implies entry_views(out@)[i]
                            == entry_views(pre_out).push(drop_entry(g, dv))[i] by {
                            if i < pre_out.len() {
                                assert(out@[i] == pre_out[i]);
                            } else {
                                assert(out@[i] == entry);
                            }
                        }
                    }
                    let pre = g.drops.take(dj as int).filter(qual_pred(cutoff as int));
                    pre.lemma_push_map_commute(entry_fn(g), dv);
                    assert(entry_views(out@) =~= entries_of(gv.take(gi as int), cutoff as int)
                        + g.drops.take(dj + 1).filter(qual_pred(cutoff as int)).map_values(
                        entry_fn(g),
                    ));
                }
            } else {
                proof {
                    assert(g.drops.take(dj + 1).filter(qual_pred(cutoff as int)) == g.drops.take(
                        dj as int,
                    ).filter(qual_pred(cutoff as int)));
                }
            }
            dj = dj + 1;
        }
        proof {
            assert(g.drops.take(game.drops@.len() as int) =~= g.drops);
            assert(gv.take(gi + 1).drop_last() =~= gv.take(gi as int));
            assert(gv.take(gi + 1).last() == g);
            assert(entry_views(out@) == entries_of(gv.take(gi + 1), cutoff as int));
        }
        gi = gi + 1;
    }
    proof {
        assert(gv.take(games@.len() as int) =~= gv);
    }
    out
}

/// Copy a name; the copy reads the same.
fn d_name_clone(s: &String) -> (r: String)
    ensures
        r@ == s@,
{
    s.clone()
}

/// Copy an entry; the copy reads the same.
fn clone_entry(e: &Entry) -> (r: Entry)
    ensures
        r@ == e@,
{
    Entry {
        day: e.day,
        stamp: e.stamp,
        game_name: d_name_clone(&e.game_name),
        drop_name: d_name_clone(&e.drop_name),
        end_at: e.end_at,
    }
}

/// The drops of one game inside one date bucket, in source order.
pub struct GameGroup {
    /// Exact display name of the game (the grouping key).
    pub name: String,
    /// The game's qualifying entries for this date, in source order.
    pub drops: Vec<Entry>,
}

/// Mathematical image of a `GameGroup`.
#[verifier::ext_equal]
pub ghost struct GameGroupV {
    pub name: Seq<char>,
    pub drops: Seq<EntryV>,
}

impl View for GameGroup {
    type V = GameGroupV;

    open spec fn view(&self) -> GameGroupV {
        GameGroupV { name: self.name@, drops: entry_views(self.drops@) }
    }
}

/// One calendar date of the recent section, with its games in ascending
/// name order.
pub struct DateGroup {
    /// Unix day number shared by every entry of the bucket.
    pub day: i64,
    /// Start timestamp of the bucket's first entry in source order; it
    /// determines the rendered date line.
    pub stamp: i64,
    /// The games with entries on this date, ascending by exact name.
    pub games: Vec<GameGroup>,
}

/// Mathematical image of a `DateGroup`.
#[verifier::ext_equal]
pub ghost struct DateGroupV {
    pub day: int,
    pub stamp: int,
    pub games: Seq<GameGroupV>,
}

/// The views of a sequence of game buckets, element by element.
pub open spec fn bucket_views(s: Seq<GameGroup>) -> Seq<GameGroupV> {
    s.map_values(|g: GameGroup| g@)
}

impl View for DateGroup {
    type V = DateGroupV;

    open spec fn view(&self) -> DateGroupV {
        DateGroupV {
            day: self.day as int,
            stamp: self.stamp as int,
            games: bucket_views(self.games@),
        }
    }
}

/// The views of a sequence of date groups, element by element.
pub open spec fn group_views(s: Seq<DateGroup>) -> Seq<DateGroupV> {
    s.map_values(|g: DateGroup| g@)
}

/// Holds of the entries of day `d` that belong to the game named `n`.
pub open spec fn dn_pred(d: int, n: Seq<char>) -> spec_fn(EntryV) -> bool {
    |e: EntryV| e.day == d && e.game_name == n
}

/// Some entry starts on day `d`.
pub open spec fn has_day(entries: Seq<EntryV>, d: int) -> bool {
    exists|i: int| 0 <= i < entries.len() && #[trigger] entries[i].day == d
}

/// Some entry of day `d` belongs to the game named `n`.
pub open spec fn has_day_name(entries: Seq<EntryV>, d: int, n: Seq<char>) -> bool {
    exists|i: int|
        0 <= i < entries.len() && #[trigger] entries[i].day == d && entries[i].game_name == n
}

/// The start timestamp of the first entry of day `d`, in source order.
pub open spec fn first_stamp(entries: Seq<EntryV>, d: int) -> int
    recommends
        has_day(entries, d),
    decreases entries.len(),
{
    if entries.len() == 0 {
        0
    } else if entries[0].day == d {
        entries[0].stamp
    } else {
        first_stamp(entries.drop_first(), d)
    }
}

/// A game bucket holds exactly the entries of its date and name, in source
/// order, and is not empty.
pub open spec fn wf_game_group(entries: Seq<EntryV>, d: int, gg: GameGroupV) -> bool {
    &&& gg.drops == entries.filter(dn_pred(d, gg.name))
    &&& has_day_name(entries, d, gg.name)
}

/// A date bucket: dated by its first entry, games strictly ascending by
/// exact name, one well-formed game bucket for every name of the date and
/// none for any other.
pub open spec fn wf_date_group(entries: Seq<EntryV>, dg: DateGroupV) -> bool {
    &&& has_day(entries, dg.day)
    &&& dg.stamp == first_stamp(entries, dg.day)
    &&& forall|i: int, j: int|
        0 <= i < j < dg.games.len() ==> lex_lt(
            (#[trigger] dg.games[i]).name,
            (#[trigger] dg.games[j]).name,
        )
    &&& forall|i: int|
        0 <= i < dg.games.len() ==> wf_game_group(entries, dg.day, #[trigger] dg.games[i])
    &&& forall|n: Seq<char>|
        has_day_name(entries, dg.day, n) ==> exists|i: int|
            0 <= i < dg.games.len() && (#[trigger] dg.games[i]).name == n
}

/// The whole recent grouping: dates strictly descending, one well-formed
/// date bucket for every day that occurs among the entries and none for any
/// other day.
pub open spec fn grouping_ok(entries: Seq<EntryV>, gs: Seq<DateGroupV>) -> bool {
    &&& forall|i: int, j: int|
        0 <= i < j < gs.len() ==> (#[trigger] gs[i]).day > (#[trigger] gs[j]).day
    &&& forall|i: int| 0 <= i < gs.len() ==> wf_date_group(entries, #[trigger] gs[i])
    &&& forall|d: int| has_day(entries, d) ==> exists|i: int|
        0 <= i < gs.len() && (#[trigger] gs[i]).day == d
}

/// Day `d` occurs in the list.
pub open spec fn days_has(days: Seq<i64>, d: int) -> bool {
    exists|i: int| 0 <= i < days.len() && #[trigger] days[i] as int == d
}

/// The distinct start days of the entries, strictly descending.
fn distinct_days(entries: &Vec<Entry>) -> (days: Vec<i64>)
    ensures
        forall|i: int, j: int| 0 <= i < j < days@.len() ==> days@[i] > days@[j],
        forall|d: int| days_has(days@, d) <==> has_day(entry_views(entries@), d),
{
    let ghost ev = entry_views(entries@);
    let mut days: Vec<i64> = Vec::new();
    let mut idx: usize = 0;
    while idx < entries.len()
        invariant
            0 <= idx <= entries@.len(),
            ev == entry_views(entries@),
            forall|i: int, j: int| 0 <= i < j < days@.len() ==> days@[i] > days@[j],
            forall|d: int| days_has(days@, d) <==> has_day(ev.take(idx as int), d),
        decreases entries@.len() - idx,
    {
        let ed = entries[idx].day;
        proof {
            assert(ev[idx as int].day == ed as int);
            assert(ev.take(idx + 1).drop_last() =~= ev.take(idx as int));
            assert(ev.take(idx + 1).last() == ev[idx as int]);
        }
        let mut p: usize = 0;
        while p < days.len() && days[p] > ed
            invariant
                0 <= p <= days@.len(),
                forall|j: int| 0 <= j < p ==> days@[j] > ed,
            decreases days@.len() - p,
        {
            p = p + 1;
        }
        let ghost old_days = days@;
        if p < days.len() && days[p] == ed {
            proof {
                assert(days_has(days@, ed as int));
                assert forall|d: int| days_has(days@, d) <==> has_day(
                    ev.take(idx + 1),
                    d,
                ) by {
                    if has_day(ev.take(idx + 1), d) {
                        let w = choose|i: int|
                            0 <= i < ev.take(idx + 1).len() && #[trigger] ev.take(idx + 1)[i].day
                                == d;
                        if w < idx {
                            assert(has_day(ev.take(idx as int), d)) by {
                                assert(ev.take(idx as int)[w].day == d);
                            }
                        } else {
                            assert(d == ed as int);
                        }
                    }
                    if days_has(days@, d) {
                        assert(has_day(ev.take(idx as int), d));
                        let w = choose|i: int|
                            0 <= i < ev.take(idx as int).len() && #[trigger] ev.take(
                                idx as int,
                            )[i].day == d;
                        assert(ev.take(idx + 1)[w].day == d);
                    }
                }
            }
        } else {
            proof {
                if p < days@.len() {
                    assert(days@[p as int] < ed);
                }
            }
            days.insert(p, ed);
            proof {
                old_days.insert_ensures(p as int, ed);
                assert(days@ == old_days.insert(p as int, ed));
                assert forall|i: int, j: int|
                    0 <= i < j < days@.len() implies days@[i] > days@[j] by {
                    if j < p {
                    } else if i == p && j > p {
                        assert(days@[j] == old_days[j - 1]);
                        assert(old_days[p as int] < ed || p == old_days.len());
                        if j - 1 > p {
                            assert(old_days[j - 1] < old_days[p as int]);
                        }
                    } else if i < p && j == p {
                        assert(days@[i] == old_days[i]);
                    } else if i < p && j > p {
                        assert(days@[i] == old_days[i] && days@[j] == old_days[j - 1]);
                        assert(old_days[i] > ed);
                        assert(days@[j] == old_days[j - 1]);
                        if j - 1 >= p {
                            if j - 1 == p {
                                if p < old_days.len() {
                                    assert(old_days[p as int] < ed);
                                }
                            } else {
                                assert(old_days[j - 1] < old_days[p as int]);
                            }
                        }
                    } else if i > p && j > p {
                        assert(days@[i] == old_days[i - 1] && days@[j] == old_days[j - 1]);
                    }
                }
                assert forall|d: int| days_has(days@, d) <==> has_day(
                    ev.take(idx + 1),
                    d,
                ) by {
                    if days_has(days@, d) {
                        let w = choose|i: int|
                            0 <= i < days@.len() && #[trigger] days@[i] as int == d;
                        if w == p {
                            assert(ev.take(idx + 1)[idx as int].day == d);
                        } else {
                            let ow: int = if w < p {
                                w
                            } else {
                                w - 1
                            };
                            assert(old_days[ow] as int == d);
                            assert(days_has(old_days, d));
                            assert(has_day(ev.take(idx as int), d));
                            let u = choose|i: int|
                                0 <= i < ev.take(idx as int).len() && #[trigger] ev.take(
                                    idx as int,
                                )[i].day == d;
                            assert(ev.take(idx + 1)[u].day == d);
                        }
                    }
                    if has_day(ev.take(idx + 1), d) {
                        let w = choose|i: int|
                            0 <= i < ev.take(idx + 1).len() && #[trigger] ev.take(idx + 1)[i].day
                                == d;
                        if w < idx {
                            assert(ev.take(idx as int)[w].day == d);
                            assert(has_day(ev.take(idx as int), d));
                            assert(days_has(old_days, d));
                            let u = choose|i: int|
                                0 <= i < old_days.len() && #[trigger] old_days[i] as int == d;
                            let nu: int = if u < p {
                                u
                            } else {
                                u + 1
                            };
                            assert(days@[nu] as int == d);
                        } else {
                            assert(d == ed as int);
                            assert(days@[p as int] as int == d);
                        }
                    }
                }
            }
        }
        idx = idx + 1;
    }
    proof {
        assert(ev.take(entries@.len() as int) =~= ev);
    }
    days
}

/// The first entry of day `d` supplies the first stamp.
proof fn lemma_first_stamp_prefix(entries: Seq<EntryV>, d: int, k: int)
    requires
        0 <= k < entries.len(),
        forall|m: int| 0 <= m < k ==> (#[trigger] entries[m]).day != d,
        entries[k].day == d,
    ensures
        first_stamp(entries, d) == entries[k].stamp,
    decreases k,
{
    if k == 0 {
    } else {
        assert(entries[0].day != d);
        lemma_first_stamp_prefix(entries.drop_first(), d, k - 1);
        assert(entries.drop_first()[k - 1] == entries[k]);
        assert forall|m: int| 0 <= m < k - 1 implies (#[trigger] entries.drop_first()[m]).day
            != d by {
            assert(entries.drop_first()[m] == entries[m + 1]);
        }
    }
}

/// The first stamp of a day that occurs belongs to one of its entries.
pub proof fn lemma_first_stamp_entry(entries: Seq<EntryV>, d: int)
    requires
        has_day(entries, d),
    ensures
        exists|i: int|
            0 <= i < entries.len() && (#[trigger] entries[i]).day == d && entries[i].stamp
                == first_stamp(entries, d),
    decreases entries.len(),
{
    if entries[0].day == d {
        assert(entries[0].stamp == first_stamp(entries, d));
    } else {
        assert(has_day(entries.drop_first(), d)) by {
            let w = choose|i: int| 0 <= i < entries.len() && #[trigger] entries[i].day == d;
            assert(entries.drop_first()[w - 1].day == d);
        }
        lemma_first_stamp_entry(entries.drop_first(), d);
        let w = choose|i: int|
            0 <= i < entries.drop_first().len() && (#[trigger] entries.drop_first()[i]).day == d
                && entries.drop_first()[i].stamp == first_stamp(entries.drop_first(), d);
        assert(entries[w + 1].day == d && entries[w + 1].stamp == first_stamp(entries, d));
    }
}

/// The start timestamp of the first entry of day `d`, in source order.
fn find_first_stamp(entries: &Vec<Entry>, d: i64) -> (s: i64)
    requires
        has_day(entry_views(entries@), d as int),
    ensures
        s as int == first_stamp(entry_views(entries@), d as int),
{
    let ghost ev = entry_views(entries@);
    let n = entries.len();
    let mut k: usize = 0;
    proof {
        let w = choose|i: int| 0 <= i < ev.len() && #[trigger] ev[i].day == d as int;
        assert(entries@.len() > 0);
    }
    loop
        invariant
            n == entries@.len(),
            0 <= k < n,
            ev == entry_views(entries@),
            has_day(ev, d as int),
            forall|m: int| 0 <= m < k ==> (#[trigger] ev[m]).day != d as int,
        decreases entries@.len() - k,
    {
        if entries[k].day == d {
            proof {
                lemma_first_stamp_prefix(ev, d as int, k as int);
            }
            return entries[k].stamp;
        }
        proof {
            assert(ev[k as int].day != d as int);
            let w = choose|i: int| 0 <= i < ev.len() && #[trigger] ev[i].day == d as int;
            assert(w > k);
        }
        k = k + 1;
    }
}

/// `n` occurs among the names.
pub open spec fn names_has(names: Seq<String>, n: Seq<char>) -> bool {
    exists|i: int| 0 <= i < names.len() && #[trigger] names[i]@ == n
}

/// Whether two names read the same.
fn string_eq(a: &String, b: &String) -> (r: bool)
    ensures
        r == (a@ == b@),
{
    *a == *b
}

/// The distinct game names among the entries of day `d`, strictly ascending
/// in exact-name order.
fn names_for_day(entries: &Vec<Entry>, d: i64) -> (names: Vec<String>)
    ensures
        forall|i: int, j: int| 0 <= i < j < names@.len() ==> lex_lt(names@[i]@, names@[j]@),
        forall|n: Seq<char>| names_has(names@, n) <==> has_day_name(
            entry_views(entries@),
            d as int,
            n,
        ),
{
    let ghost ev = entry_views(entries@);
    let mut names: Vec<String> = Vec::new();
    let mut idx: usize = 0;
    while idx < entries.len()
        invariant
            0 <= idx <= entries@.len(),
            ev == entry_views(entries@),
            forall|i: int, j: int| 0 <= i < j < names@.len() ==> lex_lt(names@[i]@, names@[j]@),
            forall|n: Seq<char>| names_has(names@, n) <==> has_day_name(
                ev.take(idx as int),
                d as int,
                n,
            ),
        decreases entries@.len() - idx,
    {
        proof {
            assert(ev.take(idx + 1).drop_last() =~= ev.take(idx as int));
            assert(ev.take(idx + 1).last() == ev[idx as int]);
        }
        if entries[idx].day == d {
            let x = &entries[idx].game_name;
            proof {
                assert(ev[idx as int].game_name == x@ && ev[idx as int].day == d as int);
            }
            let mut p: usize = 0;
            while p < names.len() && str_lt(names[p].as_str(), x.as_str())
                invariant
                    0 <= p <= names@.len(),
                    forall|j: int| 0 <= j < p ==> lex_lt(names@[j]@, x@),
                decreases names@.len() - p,
            {
                p = p + 1;
            }
            let ghost old_names = names@;
            if p < names.len() && string_eq(&names[p], x) {
                proof {
                    assert(names_has(names@, x@));
                    assert forall|n: Seq<char>| names_has(names@, n) <==> has_day_name(
                        ev.take(idx + 1),
                        d as int,
                        n,
                    ) by {
                        if has_day_name(ev.take(idx + 1), d as int, n) {
                            let w = choose|i: int|
                                0 <= i < ev.take(idx + 1).len() && #[trigger] ev.take(
                                    idx + 1,
                                )[i].day == d as int && ev.take(idx + 1)[i].game_name == n;
                            if w < idx {
                                assert(ev.take(idx as int)[w].day == d as int && ev.take(
                                    idx as int,
                                )[w].game_name == n);
                                assert(has_day_name(ev.take(idx as int), d as int, n));
                            } else {
                                assert(n == x@);
                            }
                        }
                        if names_has(names@, n) {
                            assert(has_day_name(ev.take(idx as int), d as int, n));
                            let w = choose|i: int|
                                0 <= i < ev.take(idx as int).len() && #[trigger] ev.take(
                                    idx as int,
                                )[i].day == d as int && ev.take(idx as int)[i].game_name == n;
                            assert(ev.take(idx + 1)[w].day == d as int && ev.take(
                                idx + 1,
                            )[w].game_name == n);
                        }
                    }
                }
            } else {
                proof {
                    if p < names@.len() {
                        crate::text::lemma_lex_lt_total(names@[p as int]@, x@);
                        assert(lex_lt(x@, names@[p as int]@));
                    }
                }
                let copy = d_name_clone(x);
                names.insert(p, copy);
                proof {
                    old_names.insert_ensures(p as int, copy);
                    assert forall|i: int, j: int| 0 <= i < j < names@.len() implies lex_lt(
                        names@[i]@,
                        names@[j]@,
                    ) by {
                        if j < p {
                        } else if i == p && j > p {
                            assert(names@[j] == old_names[j - 1]);
                            if j - 1 == p {
                            } else {
                                crate::text::lemma_lex_lt_transitive(
                                    x@,
                                    old_names[p as int]@,
                                    old_names[j - 1]@,
                                );
                            }
                        } else if i < p && j == p {
                            assert(names@[i] == old_names[i]);
                        } else if i < p && j > p {
                            assert(names@[i] == old_names[i] && names@[j] == old_names[j - 1]);
                            if j - 1 == p {
                                crate::text::lemma_lex_lt_transitive(
                                    old_names[i]@,
                                    x@,
                                    names@[j]@,
                                );
                            } else {
                                crate::text::lemma_lex_lt_transitive(
                                    old_names[i]@,
                                    x@,
                                    old_names[p as int]@,
                                );
                                crate::text::lemma_lex_lt_transitive(
                                    old_names[i]@,
                                    old_names[p as int]@,
                                    old_names[j - 1]@,
                                );
                            }
                        } else {
                            assert(names@[i] == old_names[i - 1] && names@[j] == old_names[j - 1]);
                        }
                    }
                    assert forall|n: Seq<char>| names_has(names@, n) <==> has_day_name(
                        ev.take(idx + 1),
                        d as int,
                        n,
                    ) by {
                        if names_has(names@, n) {
                            let w = choose|i: int|
                                0 <= i < names@.len() && #[trigger] names@[i]@ == n;
                            if w == p {
                                assert(ev.take(idx + 1)[idx as int].day == d as int && ev.take(
                                    idx + 1,
                                )[idx as int].game_name == n);
                            } else {
                                let ow: int = if w < p {
                                    w
                                } else {
                                    w - 1
                                };
                                assert(old_names[ow]@ == n);
                                assert(names_has(old_names, n));
                                assert(has_day_name(ev.take(idx as int), d as int, n));
                                let u = choose|i: int|
                                    0 <= i < ev.take(idx as int).len() && #[trigger] ev.take(
                                        idx as int,
                                    )[i].day == d as int && ev.take(idx as int)[i].game_name == n;
                                assert(ev.take(idx + 1)[u].day == d as int && ev.take(
                                    idx + 1,
                                )[u].game_name == n);
                            }
                        }
                        if has_day_name(ev.take(idx + 1), d as int, n) {
                            let w = choose|i: int|
                                0 <= i < ev.take(idx + 1).len() && #[trigger] ev.take(
                                    idx + 1,
                                )[i].day == d as int && ev.take(idx + 1)[i].game_name == n;
                            if w < idx {
                                assert(ev.take(idx as int)[w].day == d as int && ev.take(
                                    idx as int,
                                )[w].game_name == n);
                                assert(has_day_name(ev.take(idx as int), d as int, n));
                                assert(names_has(old_names, n));
                                let u = choose|i: int|
                                    0 <= i < old_names.len() && #[trigger] old_names[i]@ == n;
                                let nu: int = if u < p {
                                    u
                                } else {
                                    u + 1
                                };
                                assert(names@[nu]@ == n);
                            } else {
                                assert(n == x@);
                                assert(names@[p as int]@ == n);
                            }
                        }
                    }
                }
            }
        } else {
            proof {
                assert(ev[idx as int].day != d as int);
                assert forall|n: Seq<char>| names_has(names@, n) <==> has_day_name(
                    ev.take(idx + 1),
                    d as int,
                    n,
                ) by {
                    if has_day_name(ev.take(idx + 1), d as int, n) {
                        let w = choose|i: int|
                            0 <= i < ev.take(idx + 1).len() && #[trigger] ev.take(idx + 1)[i].day
                                == d as int && ev.take(idx + 1)[i].game_name == n;
                        assert(w < idx);
                        assert(ev.take(idx as int)[w].day == d as int && ev.take(
                            idx as int,
                        )[w].game_name == n);
                        assert(has_day_name(ev.take(idx as int), d as int, n));
                    }
                    if names_has(names@, n) {
                        assert(has_day_name(ev.take(idx as int), d as int, n));
                        let w = choose|i: int|
                            0 <= i < ev.take(idx as int).len() && #[trigger] ev.take(
                                idx as int,
                            )[i].day == d as int && ev.take(idx as int)[i].game_name == n;
                        assert(ev.take(idx + 1)[w].day == d as int && ev.take(
                            idx + 1,
                        )[w].game_name == n);
                    }
                }
            }
        }
        idx = idx + 1;
    }
    proof {
        assert(ev.take(entries@.len() as int) =~= ev);
    }
    names
}

/// The entries of day `d` that belong to the game named as `name`, in
/// source order.
fn drops_for(entries: &Vec<Entry>, d: i64, name: &String) -> (r: Vec<Entry>)
    ensures
        entry_views(r@) == entry_views(entries@).filter(dn_pred(d as int, name@)),
{
    let ghost ev = entry_views(entries@);
    let ghost pred = dn_pred(d as int, name@);
    let mut out: Vec<Entry> = Vec::new();
    let mut idx: usize = 0;
    proof {
        assert(ev.take(0).filter(pred) =~= Seq::<EntryV>::empty()) by {
            reveal(Seq::filter);
        }
        assert(entry_views(out@) =~= ev.take(0).filter(pred));
    }
    while idx < entries.len()
        invariant
            0 <= idx <= entries@.len(),
            ev == entry_views(entries@),
            pred == dn_pred(d as int, name@),
            entry_views(out@) == ev.take(idx as int).filter(pred),
        decreases entries@.len() - idx,
    {
        proof {
            assert(ev.take(idx + 1).drop_last() =~= ev.take(idx as int));
            assert(ev.take(idx + 1).last() == ev[idx as int]);
            ev.take(idx as int).lemma_filter_push(ev[idx as int], pred);
            assert(ev.take(idx as int).push(ev[idx as int]) =~= ev.take(idx + 1));
        }
        let e = &entries[idx];
        if e.day == d && string_eq(&e.game_name, name) {
            proof {
                assert(pred(ev[idx as int]));
            }
            let copy = clone_entry(e);
            let ghost pre_out = out@;
            out.push(copy);
            proof {
                assert(entry_views(out@) =~= entry_views(pre_out).push(ev[idx as int])) by {
                    assert forall|i: int| 0 <= i < out@.len() implies entry_views(out@)[i]
                        == entry_views(pre_out).push(ev[idx as int])[i] by {
                        if i < pre_out.len() {
                            assert(out@[i] == pre_out[i]);
                        } else {
                            assert(out@[i] == copy);
                        }
                    }
                }
            }
        } else {
            proof {
                assert(!pred(ev[idx as int]));
            }
        }
        idx = idx + 1;
    }
    proof {
        assert(ev.take(entries@.len() as int) =~= ev);
    }
    out
}

/// Bucket the qualifying entries of the game list: one group per calendar
/// day (strictly descending), inside a day one game bucket per exact game
/// name (strictly ascending), inside a bucket the drops in source order.
pub fn group_recent(games: &Vec<Game>, now: i64) -> (gs: Vec<DateGroup>)
    requires
        crate::model::wf_games(crate::ordering::views_of(games@)),
        ts_ok(now as int),
    ensures
        grouping_ok(
            entries_of(crate::ordering::views_of(games@), crate::recent_cutoff(now as int)),
            group_views(gs@),
        ),
{
    let cutoff = now - crate::WINDOW_DAYS * SECS_PER_DAY;
    proof {
        assert(cutoff as int == crate::recent_cutoff(now as int));
    }
    let entries = collect_entries(games, cutoff);
    let ghost ev = entry_views(entries@);
    let days = distinct_days(&entries);
    let mut gs: Vec<DateGroup> = Vec::new();
    let mut di: usize = 0;
    while di < days.len()
        invariant
            0 <= di <= days@.len(),
            ev == entry_views(entries@),
            forall|i: int, j: int| 0 <= i < j < days@.len() ==> days@[i] > days@[j],
            forall|d: int| days_has(days@, d) <==> has_day(ev, d),
            gs@.len() == di,
            forall|i: int|
                0 <= i < di ==> (#[trigger] group_views(gs@)[i]).day == days@[i] as int,
            forall|i: int| 0 <= i < di ==> wf_date_group(ev, #[trigger] group_views(gs@)[i]),
        decreases days@.len() - di,
    {
        let d = days[di];
        proof {
            assert(days_has(days@, d as int)) by {
                assert(days@[di as int] as int == d as int);
            }
            assert(has_day(ev, d as int));
        }
        let stamp = find_first_stamp(&entries, d);
        let names = names_for_day(&entries, d);
        let mut buckets: Vec<GameGroup> = Vec::new();
        let mut ni: usize = 0;
        while ni < names.len()
            invariant
                0 <= ni <= names@.len(),
                ev == entry_views(entries@),
                forall|i: int, j: int| 0 <= i < j < names@.len() ==> lex_lt(
                    names@[i]@,
                    names@[j]@,
                ),
                forall|n: Seq<char>| names_has(names@, n) <==> has_day_name(ev, d as int, n),
                buckets@.len() == ni,
                forall|i: int|
                    0 <= i < ni ==> (#[trigger] bucket_views(buckets@)[i]).name == names@[i]@,
                forall|i: int|
                    0 <= i < ni ==> wf_game_group(ev, d as int, #[trigger] bucket_views(
                        buckets@,
                    )[i]),
            decreases names@.len() - ni,
        {
            let name = &names[ni];
            let drops = drops_for(&entries, d, name);
            let bucket = GameGroup { name: d_name_clone(name), drops };
            proof {
                assert(bucket@.name == names@[ni as int]@);
                assert(bucket@.drops == ev.filter(dn_pred(d as int, bucket@.name)));
                assert(has_day_name(ev, d as int, bucket@.name)) by {
                    assert(names_has(names@, names@[ni as int]@)) by {
                        assert(names@[ni as int]@ == names@[ni as int]@);
                    }
                }
            }
            let ghost pre = buckets@;
            buckets.push(bucket);
            proof {
                assert forall|i: int|
                    0 <= i < buckets@.len() implies #[trigger] bucket_views(buckets@)[i] == if i
                    < pre.len() {
                    bucket_views(pre)[i]
                } else {
                    bucket@
                } by {
                    if i < pre.len() {
                        assert(buckets@[i] == pre[i]);
                    } else {
                        assert(buckets@[i] == bucket);
                    }
                }
            }
            ni = ni + 1;
        }
        let group = DateGroup { day: d, stamp, games: buckets };
        proof {
            assert(group@.day == d as int);
            assert(group@.stamp == first_stamp(ev, d as int));
            assert(wf_date_group(ev, group@)) by {
                assert forall|n: Seq<char>| has_day_name(ev, group@.day, n) implies exists|i: int|
                    0 <= i < group@.games.len() && (#[trigger] group@.games[i]).name == n by {
                    assert(names_has(names@, n));
                    let w = choose|i: int| 0 <= i < names@.len() && #[trigger] names@[i]@ == n;
                    assert(group@.games[w].name == n);
                }
            }
        }
        let ghost pre_gs = gs@;
        gs.push(group);
        proof {
            assert forall|i: int| 0 <= i < gs@.len() implies #[trigger] group_views(gs@)[i] == if i
                < pre_gs.len() {
                group_views(pre_gs)[i]
            } else {
                group@
            } by {
                if i < pre_gs.len() {
                    assert(gs@[i] == pre_gs[i]);
                } else {
                    assert(gs@[i] == group);
                }
            }
        }
        di = di + 1;
    }
    proof {
        assert(grouping_ok(ev, group_views(gs@))) by {
            assert forall|d: int| has_day(ev, d) implies exists|i: int|
                0 <= i < group_views(gs@).len() && (#[trigger] group_views(gs@)[i]).day == d by {
                assert(days_has(days@, d));
                let w = choose|i: int| 0 <= i < days@.len() && #[trigger] days@[i] as int == d;
                assert(group_views(gs@)[w].day == d);
            }
        }
    }
    gs
}

/// Membership in a concatenation is membership in one of the halves.
proof fn lemma_contains_add<A>(a: Seq<A>, b: Seq<A>, e: A)
    ensures
        (a + b).contains(e) <==> a.contains(e) || b.contains(e),
{
    if (a + b).contains(e) {
        let i = choose|i: int| 0 <= i < (a + b).len() && (a + b)[i] == e;
        if i < a.len() {
            assert(a[i] == e);
        } else {
            assert(b[i - a.len()] == e);
        }
    }
    if a.contains(e) {
        let i = choose|i: int| 0 <= i < a.len() && a[i] == e;
        assert((a + b)[i] == e);
    }
    if b.contains(e) {
        let i = choose|i: int| 0 <= i < b.len() && b[i] == e;
        assert((a + b)[a.len() + i] == e);
    }
}

/// An entry flattens out of one game exactly when one of the game's drops
/// qualifies and maps to it.
proof fn lemma_game_entries_membership(g: GameV, cutoff: int, e: EntryV)
    ensures
        game_entries(g, cutoff).contains(e) <==> exists|dj: int|
            0 <= dj < g.drops.len() && (#[trigger] g.drops[dj]).start_at > cutoff && e
                == drop_entry(g, g.drops[dj]),
{
    let pred = qual_pred(cutoff);
    let f = entry_fn(g);
    let fl = g.drops.filter(pred);
    if game_entries(g, cutoff).contains(e) {
        let jf = choose|i: int| 0 <= i < fl.map_values(f).len() && fl.map_values(f)[i] == e;
        assert(fl.map_values(f)[jf] == f(fl[jf]));
        g.drops.lemma_filter_pred(pred, jf);
        assert(fl.contains(fl[jf]));
        g.drops.lemma_filter_contains_rev(pred, fl[jf]);
        let dj = choose|i: int| 0 <= i < g.drops.len() && g.drops[i] == fl[jf];
        assert(g.drops[dj].start_at > cutoff && e == drop_entry(g, g.drops[dj]));
    }
    if exists|dj: int|
        0 <= dj < g.drops.len() && (#[trigger] g.drops[dj]).start_at > cutoff && e == drop_entry(
            g,
            g.drops[dj],
        ) {
        let dj = choose|dj: int|
            0 <= dj < g.drops.len() && (#[trigger] g.drops[dj]).start_at > cutoff && e
                == drop_entry(g, g.drops[dj]);
        g.drops.lemma_filter_contains(pred, dj);
        let jf = choose|i: int| 0 <= i < fl.len() && fl[i] == g.drops[dj];
        assert(fl.map_values(f)[jf] == f(fl[jf]));
        assert(fl.map_values(f)[jf] == e);
        assert(game_entries(g, cutoff).contains(e));
    }
}

/// An entry flattens out of the game list exactly when some drop of some
/// game qualifies and maps to it.
pub proof fn lemma_entries_of_membership(games: Seq<GameV>, cutoff: int, e: EntryV)
    ensures
        entries_of(games, cutoff).contains(e) <==> exists|gi: int, dj: int|
            0 <= gi < games.len() && 0 <= dj < (#[trigger] games[gi]).drops.len() && (
            #[trigger] games[gi].drops[dj]).start_at > cutoff && e == drop_entry(
                games[gi],
                games[gi].drops[dj],
            ),
    decreases games.len(),
{
    if games.len() == 0 {
    } else {
        let prefix = games.drop_last();
        let last = games.last();
        lemma_entries_of_membership(prefix, cutoff, e);
        lemma_game_entries_membership(last, cutoff, e);
        lemma_contains_add(entries_of(prefix, cutoff), game_entries(last, cutoff), e);
        if entries_of(games, cutoff).contains(e) {
            if entries_of(prefix, cutoff).contains(e) {
                let (gi, dj) = choose|gi: int, dj: int|
                    0 <= gi < prefix.len() && 0 <= dj < (#[trigger] prefix[gi]).drops.len() && (
                    #[trigger] prefix[gi].drops[dj]).start_at > cutoff && e == drop_entry(
                        prefix[gi],
                        prefix[gi].drops[dj],
                    );
                assert(games[gi] == prefix[gi]);
                assert(games[gi].drops[dj].start_at > cutoff && e == drop_entry(
                    games[gi],
                    games[gi].drops[dj],
                ));
            } else {
                let dj = choose|dj: int|
                    0 <= dj < last.drops.len() && (#[trigger] last.drops[dj]).start_at > cutoff
                        && e == drop_entry(last, last.drops[dj]);
                let gi = games.len() - 1;
                assert(games[gi] == last);
                assert(games[gi].drops[dj].start_at > cutoff && e == drop_entry(
                    games[gi],
                    games[gi].drops[dj],
                ));
            }
        }
        if exists|gi: int, dj: int|
            0 <= gi < games.len() && 0 <= dj < (#[trigger] games[gi]).drops.len() && (
            #[trigger] games[gi].drops[dj]).start_at > cutoff && e == drop_entry(
                games[gi],
                games[gi].drops[dj],
            ) {
            let (gi, dj) = choose|gi: int, dj: int|
                0 <= gi < games.len() && 0 <= dj < (#[trigger] games[gi]).drops.len() && (
                #[trigger] games[gi].drops[dj]).start_at > cutoff && e == drop_entry(
                    games[gi],
                    games[gi].drops[dj],
                );
            if gi < games.len() - 1 {
                assert(prefix[gi] == games[gi]);
                assert(prefix[gi].drops[dj].start_at > cutoff && e == drop_entry(
                    prefix[gi],
                    prefix[gi].drops[dj],
                ));
                assert(entries_of(prefix, cutoff).contains(e));
            } else {
                assert(last == games[gi]);
                assert(game_entries(last, cutoff).contains(e));
            }
        }
    }
}

/// Every flattened entry carries acceptable timestamps and the day number of
/// its own start.
pub proof fn lemma_entries_wf(games: Seq<GameV>, cutoff: int)
    requires
        crate::model::wf_games(games),
    ensures
        forall|i: int|
            0 <= i < entries_of(games, cutoff).len() ==> {
                let e = #[trigger] entries_of(games, cutoff)[i];
                ts_ok(e.stamp) && ts_ok(e.end_at) && e.day == unix_day(e.stamp)
            },
{
    let es = entries_of(games, cutoff);
    assert forall|i: int| 0 <= i < es.len() implies {
        let e = #[trigger] es[i];
        ts_ok(e.stamp) && ts_ok(e.end_at) && e.day == unix_day(e.stamp)
    } by {
        let e = es[i];
        assert(es.contains(e));
        lemma_entries_of_membership(games, cutoff, e);
        let (gi, dj) = choose|gi: int, dj: int|
            0 <= gi < games.len() && 0 <= dj < (#[trigger] games[gi]).drops.len() && (
            #[trigger] games[gi].drops[dj]).start_at > cutoff && e == drop_entry(
                games[gi],
                games[gi].drops[dj],
            );
        assert(crate::model::wf_game(games[gi]));
        assert(ts_ok(games[gi].drops[dj].start_at));
    }
}

/// The dates of the recent grouping are strictly descending, most recent
/// first, and no day number appears twice.
pub proof fn lemma_recent_dates_descending(entries: Seq<EntryV>, gs: Seq<DateGroupV>)
    requires
        grouping_ok(entries, gs),
    ensures
        forall|i: int, j: int|
            0 <= i < j < gs.len() ==> (#[trigger] gs[i]).day > (#[trigger] gs[j]).day,
        forall|i: int, j: int|
            0 <= i < j < gs.len() ==> (#[trigger] gs[i]).day != (#[trigger] gs[j]).day,
{
}

/// Two strictly descending sequences with the same members are equal.
proof fn lemma_unique_desc_ints(a: Seq<int>, b: Seq<int>)
    requires
        forall|i: int, j: int| 0 <= i < j < a.len() ==> #[trigger] a[i] > #[trigger] a[j],
        forall|i: int, j: int| 0 <= i < j < b.len() ==> #[trigger] b[i] > #[trigger] b[j],
        forall|d: int| a.contains(d) <==> b.contains(d),
    ensures
        a == b,
    decreases a.len(),
{
    if a.len() == 0 {
        if b.len() > 0 {
            assert(b.contains(b[0]));
            assert(a.contains(b[0]));
            assert(false);
        }
        assert(a =~= b);
    } else {
        if b.len() == 0 {
            assert(a.contains(a[0]));
            assert(b.contains(a[0]));
            assert(false);
        }
        assert(a[0] == b[0]) by {
            assert(a.contains(a[0]));
            assert(b.contains(a[0]));
            let k = choose|k: int| 0 <= k < b.len() && b[k] == a[0];
            assert(b.contains(b[0]));
            assert(a.contains(b[0]));
            let m = choose|m: int| 0 <= m < a.len() && a[m] == b[0];
            if k > 0 {
                assert(b[0] > a[0]);
                if m > 0 {
                    assert(a[0] > b[0]);
                }
                assert(false);
            }
        }
        let at = a.skip(1);
        let bt = b.skip(1);
        assert forall|d: int| at.contains(d) <==> bt.contains(d) by {
            if at.contains(d) {
                let i = choose|i: int| 0 <= i < at.len() && at[i] == d;
                assert(a[i + 1] == d);
                assert(a.contains(d));
                assert(d < a[0]);
                assert(b.contains(d));
                let k = choose|k: int| 0 <= k < b.len() && b[k] == d;
                assert(k > 0);
                assert(bt[k - 1] == d);
            }
            if bt.contains(d) {
                let i = choose|i: int| 0 <= i < bt.len() && bt[i] == d;
                assert(b[i + 1] == d);
                assert(b.contains(d));
                assert(d < b[0]);
                assert(a.contains(d));
                let k = choose|k: int| 0 <= k < a.len() && a[k] == d;
                assert(k > 0);
                assert(at[k - 1] == d);
            }
        }
        assert forall|i: int, j: int| 0 <= i < j < at.len() implies #[trigger] at[i]
            > #[trigger] at[j] by {
            assert(at[i] == a[i + 1] && at[j] == a[j + 1]);
        }
        assert forall|i: int, j: int| 0 <= i < j < bt.len() implies #[trigger] bt[i]
            > #[trigger] bt[j] by {
            assert(bt[i] == b[i + 1] && bt[j] == b[j + 1]);
        }
        lemma_unique_desc_ints(at, bt);
        assert(a =~= b) by {
            assert forall|i: int| 0 <= i < a.len() implies a[i] == b[i] by {
                if i > 0 {
                    assert(a[i] == at[i - 1] && b[i] == bt[i - 1]);
                }
            }
        }
    }
}

/// Two strictly ascending name sequences with the same members are equal.
proof fn lemma_unique_asc_names(a: Seq<Seq<char>>, b: Seq<Seq<char>>)
    requires
        forall|i: int, j: int|
            0 <= i < j < a.len() ==> lex_lt(#[trigger] a[i], #[trigger] a[j]),
        forall|i: int, j: int|
            0 <= i < j < b.len() ==> lex_lt(#[trigger] b[i], #[trigger] b[j]),
        forall|n: Seq<char>| a.contains(n) <==> b.contains(n),
    ensures
        a == b,
    decreases a.len(),
{
    if a.len() == 0 {
        if b.len() > 0 {
            assert(b.contains(b[0]));
            assert(a.contains(b[0]));
            assert(false);
        }
        assert(a =~= b);
    } else {
        if b.len() == 0 {
            assert(a.contains(a[0]));
            assert(b.contains(a[0]));
            assert(false);
        }
        assert(a[0] == b[0]) by {
            assert(a.contains(a[0]));
            assert(b.contains(a[0]));
            let k = choose|k: int| 0 <= k < b.len() && b[k] == a[0];
            assert(b.contains(b[0]));
            assert(a.contains(b[0]));
            let m = choose|m: int| 0 <= m < a.len() && a[m] == b[0];
            if k > 0 {
                assert(lex_lt(b[0], a[0]));
                if m > 0 {
                    assert(lex_lt(a[0], b[0]));
                    crate::text::lemma_lex_lt_asymmetric(a[0], b[0]);
                }
                crate::text::lemma_lex_lt_asymmetric(b[0], a[0]);
                assert(false);
            }
        }
        let at = a.skip(1);
        let bt = b.skip(1);
        assert forall|n: Seq<char>| at.contains(n) <==> bt.contains(n) by {
            if at.contains(n) {
                let i = choose|i: int| 0 <= i < at.len() && at[i] == n;
                assert(a[i + 1] == n);
                assert(a.contains(n));
                assert(lex_lt(a[0], n));
                assert(b.contains(n));
                let k = choose|k: int| 0 <= k < b.len() && b[k] == n;
                if k == 0 {
                    crate::text::lemma_lex_lt_asymmetric(a[0], n);
                    assert(false);
                }
                assert(bt[k - 1] == n);
            }
            if bt.contains(n) {
                let i = choose|i: int| 0 <= i < bt.len() && bt[i] == n;
                assert(b[i + 1] == n);
                assert(b.contains(n));
                assert(lex_lt(b[0], n));
                assert(a.contains(n));
                let k = choose|k: int| 0 <= k < a.len() && a[k] == n;
                if k == 0 {
                    crate::text::lemma_lex_lt_asymmetric(b[0], n);
                    assert(false);
                }
                assert(at[k - 1] == n);
            }
        }
        assert forall|i: int, j: int| 0 <= i < j < at.len() implies lex_lt(
            #[trigger] at[i],
            #[trigger] at[j],
        ) by {
            assert(at[i] == a[i + 1] && at[j] == a[j + 1]);
        }
        assert forall|i: int, j: int| 0 <= i < j < bt.len() implies lex_lt(
            #[trigger] bt[i],
            #[trigger] bt[j],
        ) by {
            assert(bt[i] == b[i + 1] && bt[j] == b[j + 1]);
        }
        lemma_unique_asc_names(at, bt);
        assert(a =~= b) by {
            assert forall|i: int| 0 <= i < a.len() implies a[i] == b[i] by {
                if i > 0 {
                    assert(a[i] == at[i - 1] && b[i] == bt[i - 1]);
                }
            }
        }
    }
}

/// The entries determine the recent grouping completely: any two groupings
/// of the same entries are equal.
pub proof fn lemma_grouping_unique(entries: Seq<EntryV>, g1: Seq<DateGroupV>, g2: Seq<DateGroupV>)
    requires
        grouping_ok(entries, g1),
        grouping_ok(entries, g2),
    ensures
        g1 == g2,
{
    let d1 = Seq::new(g1.len(), |i: int| g1[i].day);
    let d2 = Seq::new(g2.len(), |i: int| g2[i].day);
    assert forall|d: int| d1.contains(d) <==> d2.contains(d) by {
        if d1.contains(d) {
            let i = choose|i: int| 0 <= i < d1.len() && d1[i] == d;
            assert(wf_date_group(entries, g1[i]));
            assert(has_day(entries, d));
            let k = choose|k: int| 0 <= k < g2.len() && (#[trigger] g2[k]).day == d;
            assert(d2[k] == d);
        }
        if d2.contains(d) {
            let i = choose|i: int| 0 <= i < d2.len() && d2[i] == d;
            assert(wf_date_group(entries, g2[i]));
            assert(has_day(entries, d));
            let k = choose|k: int| 0 <= k < g1.len() && (#[trigger] g1[k]).day == d;
            assert(d1[k] == d);
        }
    }
    assert forall|i: int, j: int| 0 <= i < j < d1.len() implies #[trigger] d1[i]
        > #[trigger] d1[j] by {
        assert(g1[i].day > g1[j].day);
    }
    assert forall|i: int, j: int| 0 <= i < j < d2.len() implies #[trigger] d2[i]
        > #[trigger] d2[j] by {
        assert(g2[i].day > g2[j].day);
    }
    lemma_unique_desc_ints(d1, d2);
    assert(g1.len() == g2.len());
    assert forall|i: int| 0 <= i < g1.len() implies g1[i] == g2[i] by {
        assert(d1[i] == d2[i]);
        let day = g1[i].day;
        assert(g2[i].day == day);
        assert(wf_date_group(entries, g1[i]));
        assert(wf_date_group(entries, g2[i]));
        assert(g1[i].stamp == g2[i].stamp);
        let n1 = Seq::new(g1[i].games.len(), |j: int| g1[i].games[j].name);
        let n2 = Seq::new(g2[i].games.len(), |j: int| g2[i].games[j].name);
        assert forall|n: Seq<char>| n1.contains(n) <==> n2.contains(n) by {
            if n1.contains(n) {
                let j = choose|j: int| 0 <= j < n1.len() && n1[j] == n;
                assert(wf_game_group(entries, day, g1[i].games[j]));
                assert(has_day_name(entries, day, n));
                let k = choose|k: int|
                    0 <= k < g2[i].games.len() && (#[trigger] g2[i].games[k]).name == n;
                assert(n2[k] == n);
            }
            if n2.contains(n) {
                let j = choose|j: int| 0 <= j < n2.len() && n2[j] == n;
                assert(wf_game_group(entries, day, g2[i].games[j]));
                assert(has_day_name(entries, day, n));
                let k = choose|k: int|
                    0 <= k < g1[i].games.len() && (#[trigger] g1[i].games[k]).name == n;
                assert(n1[k] == n);
            }
        }
        assert forall|s: int, t: int| 0 <= s < t < n1.len() implies lex_lt(
            #[trigger] n1[s],
            #[trigger] n1[t],
        ) by {
            assert(lex_lt(g1[i].games[s].name, g1[i].games[t].name));
        }
        assert forall|s: int, t: int| 0 <= s < t < n2.len() implies lex_lt(
            #[trigger] n2[s],
            #[trigger] n2[t],
        ) by {
            assert(lex_lt(g2[i].games[s].name, g2[i].games[t].name));
        }
        lemma_unique_asc_names(n1, n2);
        assert(g1[i].games =~= g2[i].games) by {
            assert forall|j: int| 0 <= j < g1[i].games.len() implies g1[i].games[j]
                == g2[i].games[j] by {
                assert(n1[j] == n2[j]);
                assert(g1[i].games[j].name == g2[i].games[j].name);
                assert(wf_game_group(entries, day, g1[i].games[j]));
                assert(wf_game_group(entries, day, g2[i].games[j]));
                assert(g1[i].games[j].drops == g2[i].games[j].drops);
            }
        }
        assert(g1[i] =~= g2[i]);
    }
    assert(g1 =~= g2);
}

/// The one grouping the entries allow.
pub open spec fn recent_groups_of(entries: Seq<EntryV>) -> Seq<DateGroupV> {
    choose|gs: Seq<DateGroupV>| grouping_ok(entries, gs)
}

/// The entry occurs in some game bucket of some date group.
pub open spec fn appears_in(gs: Seq<DateGroupV>, e: EntryV) -> bool {
    exists|i: int, j: int|
        0 <= i < gs.len() && 0 <= j < (#[trigger] gs[i]).games.len()
            && (#[trigger] gs[i].games[j]).drops.contains(e)
}

/// A drop stands in the recent grouping exactly when it started strictly
/// after the cutoff: drops at or before the cutoff never appear, later ones
/// always do.
pub proof fn lemma_recent_window(games: Seq<GameV>, now: int, gs: Seq<DateGroupV>)
    requires
        grouping_ok(entries_of(games, crate::recent_cutoff(now)), gs),
    ensures
        forall|gi: int, dj: int|
            0 <= gi < games.len() && 0 <= dj < (#[trigger] games[gi]).drops.len() ==> ((
            #[trigger] games[gi].drops[dj]).start_at > crate::recent_cutoff(now) <==> appears_in(
                gs,
                drop_entry(games[gi], games[gi].drops[dj]),
            )),
{
    let cutoff = crate::recent_cutoff(now);
    let entries = entries_of(games, cutoff);
    assert forall|gi: int, dj: int|
        0 <= gi < games.len() && 0 <= dj < (#[trigger] games[gi]).drops.len() implies ((
    #[trigger] games[gi].drops[dj]).start_at > cutoff <==> appears_in(
        gs,
        drop_entry(games[gi], games[gi].drops[dj]),
    )) by {
        let e = drop_entry(games[gi], games[gi].drops[dj]);
        lemma_entries_of_membership(games, cutoff, e);
        if games[gi].drops[dj].start_at > cutoff {
            assert(entries.contains(e));
            let w = choose|i: int| 0 <= i < entries.len() && entries[i] == e;
            assert(has_day(entries, e.day)) by {
                assert(entries[w].day == e.day);
            }
            let i = choose|i: int| 0 <= i < gs.len() && (#[trigger] gs[i]).day == e.day;
            assert(wf_date_group(entries, gs[i]));
            assert(has_day_name(entries, e.day, e.game_name)) by {
                assert(entries[w].day == e.day && entries[w].game_name == e.game_name);
            }
            let j = choose|j: int|
                0 <= j < gs[i].games.len() && (#[trigger] gs[i].games[j]).name == e.game_name;
            assert(wf_game_group(entries, gs[i].day, gs[i].games[j]));
            let pred = dn_pred(gs[i].day, e.game_name);
            assert(pred(e));
            entries.lemma_filter_contains(pred, w);
            assert(gs[i].games[j].drops.contains(e));
            assert(appears_in(gs, e));
        }
        if appears_in(gs, e) {
            let (i, j) = choose|i: int, j: int|
                0 <= i < gs.len() && 0 <= j < (#[trigger] gs[i]).games.len()
                    && (#[trigger] gs[i].games[j]).drops.contains(e);
            assert(wf_date_group(entries, gs[i]));
            assert(wf_game_group(entries, gs[i].day, gs[i].games[j]));
            entries.lemma_filter_contains_rev(dn_pred(gs[i].day, gs[i].games[j].name), e);
            assert(entries.contains(e));
            let (gi2, dj2) = choose|gi2: int, dj2: int|
                0 <= gi2 < games.len() && 0 <= dj2 < (#[trigger] games[gi2]).drops.len() && (
                #[trigger] games[gi2].drops[dj2]).start_at > cutoff && e == drop_entry(
                    games[gi2],
                    games[gi2].drops[dj2],
                );
            assert(games[gi2].drops[dj2].start_at == e.stamp);
            assert(games[gi].drops[dj].start_at == e.stamp);
        }
    }
}

} // verus!
