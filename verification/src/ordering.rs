//! Case-insensitive, stable ordering of the game list.
use vstd::prelude::*;
use vstd::seq_lib::lemma_multiset_commutative;

use crate::model::Game;
use crate::model::GameV;
use crate::text::lemma_lex_lt_asymmetric;
use crate::text::lemma_lex_lt_total;
use crate::text::lex_le;
use crate::text::lex_lt;
use crate::text::lower_of;
use crate::text::lowercase;
use crate::text::str_lt;

verus! {

/// The sort key of a game: its display name folded to a single case.
pub open spec fn game_key(g: GameV) -> Seq<char> {
    lower_of(g.name)
}

/// The views of a sequence of games, element by element.
pub open spec fn views_of(s: Seq<Game>) -> Seq<GameV> {
    s.map_values(|g: Game| g@)
}

/// Holds of the games whose sort key is `k`.
pub open spec fn key_pred(k: Seq<char>) -> spec_fn(GameV) -> bool {
    |g: GameV| game_key(g) == k
}

/// The subsequence of games whose sort key is `k`, in their original order.
pub open spec fn by_key(s: Seq<GameV>, k: Seq<char>) -> Seq<GameV> {
    s.filter(key_pred(k))
}

/// Neighbours are in ascending case-insensitive order of display name.
pub open spec fn sorted_ci(s: Seq<GameV>) -> bool {
    forall|i: int| 0 <= i < s.len() - 1 ==> lex_le(game_key(#[trigger] s[i]), game_key(s[i + 1]))
}

/// Whether `a` sorts strictly before `b` once both names are case-folded.
fn folded_lt(a: &str, b: &str) -> (r: bool)
    ensures
        r == lex_lt(lower_of(a@), lower_of(b@)),
{
    let la = lowercase(a);
    let lb = lowercase(b);
    str_lt(la.as_str(), lb.as_str())
}

/// Taking views commutes with inserting one element.
proof fn lemma_views_insert(s: Seq<Game>, p: int, x: Game)
    requires
        0 <= p <= s.len(),
    ensures
        views_of(s.insert(p, x)) == views_of(s).insert(p, x@),
{
    s.insert_ensures(p, x);
    views_of(s).insert_ensures(p, x@);
    assert forall|i: int| 0 <= i < s.len() + 1 implies views_of(s.insert(p, x))[i] == views_of(
        s,
    ).insert(p, x@)[i] by {
        if i < p {
            assert(s.insert(p, x)[i] == s[i]);
        } else if i == p {
            assert(s.insert(p, x)[i] == x);
        } else {
            assert(s.insert(p, x)[i] == s[i - 1]);
            assert(views_of(s).insert(p, x@)[i] == views_of(s)[i - 1]);
        }
    }
    assert(views_of(s.insert(p, x)) =~= views_of(s).insert(p, x@));
}

/// Sort the games by case-folded display name, ascending and stable: games
/// whose folded names compare equal keep their relative order from the input,
/// and nothing is added, dropped or renamed.
pub fn sort_games(games: Vec<Game>) -> (r: Vec<Game>)
    ensures
        sorted_ci(views_of(r@)),
        forall|k: Seq<char>| #[trigger] by_key(views_of(r@), k) == by_key(views_of(games@), k),
        views_of(r@).to_multiset() == views_of(games@).to_multiset(),
        r@.len() == games@.len(),
{
    let ghost orig: Seq<GameV> = views_of(games@);
    let mut input = games;
    let mut out: Vec<Game> = Vec::new();
    let ghost mut done: Seq<GameV> = Seq::empty();
    proof {
        assert(done + views_of(input@) =~= orig);
        assert(views_of(out@) =~= done);
    }
    while input.len() > 0
        invariant
            done + views_of(input@) == orig,
            out@.len() == done.len(),
            sorted_ci(views_of(out@)),
            forall|k: Seq<char>| #[trigger] by_key(views_of(out@), k) == by_key(done, k),
            views_of(out@).to_multiset() == done.to_multiset(),
        decreases input.len(),
    {
        let ghost pre_input = input@;
        let x = input.remove(0);
        let ghost kx = game_key(x@);
        proof {
            assert(done.push(x@) + views_of(input@) =~= done + views_of(pre_input)) by {
                assert forall|i: int|
                    0 <= i < views_of(pre_input).len() implies #[trigger] (done.push(x@)
                    + views_of(input@))[done.len() + i] == (done + views_of(pre_input))[done.len()
                    + i] by {
                    if i > 0 {
                        assert(pre_input.remove(0)[i - 1] == pre_input[i]);
                    }
                }
            }
        }
        let mut p: usize = out.len();
        while p > 0 && folded_lt(x.display_name.as_str(), out[p - 1].display_name.as_str())
            invariant
                0 <= p <= out@.len(),
                forall|j: int|
                    p <= j < out@.len() ==> lex_lt(kx, game_key(#[trigger] views_of(out@)[j])),
                kx == game_key(x@),
            decreases p,
        {
            p = p - 1;
        }
        let ghost oseq = out@;
        let ghost ov = views_of(out@);
        proof {
            if p > 0 {
                lemma_lex_lt_total(game_key(ov[p - 1]), kx);
                lemma_lex_lt_asymmetric(kx, game_key(ov[p - 1]));
                assert(lex_le(game_key(ov[p - 1]), kx));
            }
        }
        out.insert(p, x);
        proof {
            lemma_views_insert(oseq, p as int, x);
            let nv = views_of(out@);
            assert(nv == ov.insert(p as int, x@));
            let a = ov.subrange(0, p as int);
            let b = ov.subrange(p as int, ov.len() as int);
            assert(nv == a.push(x@) + b);
            assert(ov =~= a + b);

            // the inserted game sits between its neighbours
            assert forall|i: int|
                0 <= i < nv.len() - 1 implies lex_le(
                game_key(#[trigger] nv[i]),
                game_key(nv[i + 1]),
            ) by {
                ov.insert_ensures(p as int, x@);
                if i + 1 < p {
                    assert(nv[i] == ov[i] && nv[i + 1] == ov[i + 1]);
                } else if i + 1 == p {
                    assert(nv[i] == ov[i] && nv[i + 1] == x@);
                } else if i == p {
                    assert(nv[i] == x@ && nv[i + 1] == ov[i]);
                    assert(lex_lt(kx, game_key(ov[p as int])));
                } else {
                    assert(nv[i] == ov[i - 1] && nv[i + 1] == ov[i]);
                }
            }

            // per-key subsequences only gain the new game, at their end
            assert forall|k: Seq<char>| #[trigger] by_key(nv, k) == by_key(done.push(x@), k) by {
                let pred = key_pred(k);
                assert(by_key(ov, k) == by_key(done, k));
                Seq::filter_distributes_over_add(a.push(x@), b, pred);
                a.lemma_filter_push(x@, pred);
                Seq::filter_distributes_over_add(a, b, pred);
                done.lemma_filter_push(x@, pred);
                assert(nv.filter(pred) == a.push(x@).filter(pred) + b.filter(pred));
                assert(ov.filter(pred) == a.filter(pred) + b.filter(pred));
                if k == kx {
                    assert forall|m: int| 0 <= m < b.len() implies !pred(#[trigger] b[m]) by {
                        assert(b[m] == views_of(oseq)[p + m]);
                        assert(lex_lt(kx, game_key(b[m])));
                        lemma_lex_lt_asymmetric(kx, game_key(b[m]));
                    }
                    b.lemma_all_neg_filter_empty(pred);
                    assert(b.filter(pred).len() == 0);
                    assert(pred(x@));
                    assert(nv.filter(pred) == a.filter(pred).push(x@) + b.filter(pred));
                    assert(nv.filter(pred) =~= (a.filter(pred) + b.filter(pred)).push(x@));
                    assert(nv.filter(pred) == ov.filter(pred).push(x@));
                    assert(done.push(x@).filter(pred) == done.filter(pred).push(x@));
                    assert(by_key(nv, k) == by_key(done.push(x@), k));
                } else {
                    assert(!pred(x@));
                    assert(a.push(x@).filter(pred) == a.filter(pred));
                    assert(nv.filter(pred) == ov.filter(pred));
                    assert(done.push(x@).filter(pred) == done.filter(pred));
                    assert(by_key(nv, k) == by_key(done.push(x@), k));
                }
            }

            // multiset: one more copy of the new game, nothing else changes
            lemma_multiset_commutative(a.push(x@), b);
            lemma_multiset_commutative(a, b);
            a.to_multiset_ensures();
            done.to_multiset_ensures();
            assert(nv.to_multiset() =~= done.push(x@).to_multiset());

            done = done.push(x@);
            assert(done + views_of(input@) =~= orig);
        }
    }
    proof {
        assert(views_of(input@) =~= Seq::<GameV>::empty());
        assert(done + views_of(input@) =~= done);
        assert(orig.len() == views_of(games@).len());
    }
    out
}

} // verus!
