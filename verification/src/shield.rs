//! The safety shield: which move runs, given the model's ranking of the four directions.

use vstd::prelude::*;
use crate::game::{Dir, SnakeGame};

verus! {

/// Where `d` stands in the shield's starting list: the model's pick first, then the other
/// directions in the canonical order.
pub open spec fn start_pos(top: Dir, d: Dir) -> int {
    if d == top {
        0
    } else if d.spec_index() < top.spec_index() {
        d.spec_index() + 1
    } else {
        d.spec_index()
    }
}

/// `a` ranks above `b`: a larger key, or an equal key and an earlier start position.
pub open spec fn ranks_above(keys: Seq<u64>, top: Dir, a: Dir, b: Dir) -> bool {
    keys[a.spec_index()] > keys[b.spec_index()] || (keys[a.spec_index()] == keys[b.spec_index()] && start_pos(top, a) < start_pos(
        top,
        b,
    ))
}

/// `r` lists the four directions from most to least likely, ties broken in favour of the model's
/// pick and then the canonical order (a stable sort of the starting list by key, descending).
pub open spec fn rank_ok(keys: Seq<u64>, top: Dir, r: Seq<Dir>) -> bool {
    &&& r.len() == 4
    &&& r.no_duplicates()
    &&& forall|i: int, j: int| 0 <= i < j < 4 ==> ranks_above(keys, top, #[trigger] r[i], #[trigger] r[j])
}

fn swap_if_above(keys: &[u64; 4], a: Dir, b: Dir) -> (r: (Dir, Dir))
    ensures
        keys@[b.spec_index()] > keys@[a.spec_index()] ==> r == (b, a),
        !(keys@[b.spec_index()] > keys@[a.spec_index()]) ==> r == (a, b),
{
    if keys[b.index()] > keys[a.index()] {
        (b, a)
    } else {
        (a, b)
    }
}

/// The directions from most to least likely by `keys` (indexed by direction), stable on ties over
/// the list that starts with `top` and goes on in the canonical order.
pub fn rank_moves(keys: &[u64; 4], top: Dir) -> (r: [Dir; 4])
    ensures
        rank_ok(keys@, top, r@),
{
    let mut rest: [Dir; 3] = [Dir::Up, Dir::Up, Dir::Up];
    let mut n: usize = 0;
    let mut k: usize = 0;
    while k < 4
        invariant
            k <= 4,
            n <= 3,
            n == (if top.spec_index() < k { k - 1 } else { k as int }),
            forall|m: int| 0 <= m < n ==> (#[trigger] rest@[m]).spec_index() < k && rest@[m] != top,
            forall|m: int| 0 <= m < n ==> start_pos(top, #[trigger] rest@[m]) == m + 1,
        decreases 4 - k,
    {
        let d = Dir::from_index(k);
        if d != top {
            rest[n] = d;
            n += 1;
        }
        k += 1;
    }
    let (a0, a1) = swap_if_above(keys, top, rest[0]);
    let (a1, a2) = swap_if_above(keys, a1, rest[1]);
    let (a0, a1) = swap_if_above(keys, a0, a1);
    let (a2, a3) = swap_if_above(keys, a2, rest[2]);
    let (a1, a2) = swap_if_above(keys, a1, a2);
    let (a0, a1) = swap_if_above(keys, a0, a1);
    let r = [a0, a1, a2, a3];
    proof {
        crate::grid::lemma_dir_at_index(top);
        assert(r@.no_duplicates());
    }
    r
}

/// What the shield does with a ranking: with the shield off the first move runs; with it on,
/// the first move in the ranking that is not fatal runs, flagged as an override when it is not
/// the first; when all four are fatal the first runs unflagged.
pub open spec fn shield_outcome(game: SnakeGame, ranked: Seq<Dir>, enabled: bool) -> (Dir, bool) {
    if !enabled || !game.fatal(ranked[0]) {
        (ranked[0], false)
    } else if !game.fatal(ranked[1]) {
        (ranked[1], ranked[1] != ranked[0])
    } else if !game.fatal(ranked[2]) {
        (ranked[2], ranked[2] != ranked[0])
    } else if !game.fatal(ranked[3]) {
        (ranked[3], ranked[3] != ranked[0])
    } else {
        (ranked[0], false)
    }
}

/// The move to execute and whether the safety shield overrode the model's top choice. The shield
/// walks the directions from most to least likely (by `keys`, one order key per direction) and
/// takes the first one that is not fatal; ties go to the model's own pick (`top`). With the
/// shield off, or when every move is fatal, the most likely move runs.
pub fn apply_shield(keys: &[u64; 4], top: Dir, game: &SnakeGame, enabled: bool) -> (r: (Dir, bool))
    requires
        game.wf(),
    ensures
        exists|ranked: Seq<Dir>| #[trigger] rank_ok(keys@, top, ranked),
        forall|ranked: Seq<Dir>| #[trigger] rank_ok(keys@, top, ranked) ==> r == shield_outcome(*game, ranked, enabled),
        r.1 ==> enabled && !game.fatal(r.0),
        forall|ranked: Seq<Dir>| #[trigger] rank_ok(keys@, top, ranked) ==> first_safe_runs(*game, ranked, enabled, r),
{
    let ranked = rank_moves(keys, top);
    assert(rank_ok(keys@, top, ranked@));
    proof {
        assert forall|other: Seq<Dir>| #[trigger] rank_ok(keys@, top, other) implies other == ranked@ by {
            lemma_rank_unique(keys@, top, other, ranked@);
        }
    }
    proof {
        lemma_shield_runs_first_safe(*game, ranked@, enabled);
    }
    let first = ranked[0];
    if !enabled {
        return (first, false);
    }
    let mut i: usize = 0;
    while i < 4
        invariant
            game.wf(),
            i <= 4,
            enabled,
            first == ranked@[0],
            rank_ok(keys@, top, ranked@),
            forall|other: Seq<Dir>| #[trigger] rank_ok(keys@, top, other) ==> other == ranked@,
            forall|j: int| 0 <= j < i ==> game.fatal(#[trigger] ranked@[j]),
        decreases 4 - i,
    {
        let direction = ranked[i];
        if !game.is_fatal(direction) {
            proof {
                assert(ranked@[i as int] == direction);
                if i >= 1 { assert(game.fatal(ranked@[0])); }
                if i >= 2 { assert(game.fatal(ranked@[1])); }
                if i >= 3 { assert(game.fatal(ranked@[2])); }
            }
            return (direction, direction != first);
        }
        i += 1;
    }
    proof {
        assert(game.fatal(ranked@[0]) && game.fatal(ranked@[1]) && game.fatal(ranked@[2]) && game.fatal(ranked@[3]));
    }
    (first, false)
}

/// What the shield runs, said of the ranking itself: with the shield off the most likely move;
/// with it on, a move at some place `i` of the ranking that is safe while every move ranked above
/// it is fatal (the most likely safe move), flagged exactly when it is not the most likely move;
/// and the most likely move, unflagged, when no move is safe.
pub open spec fn first_safe_runs(game: SnakeGame, ranked: Seq<Dir>, enabled: bool, r: (Dir, bool)) -> bool {
    &&& !enabled ==> r == (ranked[0], false)
    &&& enabled && (forall|i: int| 0 <= i < 4 ==> game.fatal(#[trigger] ranked[i])) ==> r == (ranked[0], false)
    &&& enabled && (exists|i: int| 0 <= i < 4 && !game.fatal(#[trigger] ranked[i])) ==> exists|i: int| {
        &&& 0 <= i < 4
        &&& r.0 == #[trigger] ranked[i]
        &&& !game.fatal(ranked[i])
        &&& (forall|j: int| 0 <= j < i ==> game.fatal(#[trigger] ranked[j]))
        &&& r.1 == (i != 0)
    }
}

/// The shield runs the most likely safe move: every move the ranking puts above the one it runs
/// is fatal.
pub proof fn lemma_shield_runs_first_safe(game: SnakeGame, ranked: Seq<Dir>, enabled: bool)
    requires
        ranked.len() == 4,
        ranked.no_duplicates(),
    ensures
        first_safe_runs(game, ranked, enabled, shield_outcome(game, ranked, enabled)),
{
    let r = shield_outcome(game, ranked, enabled);
    assert(ranked[1] != ranked[0] && ranked[2] != ranked[0] && ranked[3] != ranked[0]);
    if enabled && (exists|i: int| 0 <= i < 4 && !game.fatal(#[trigger] ranked[i])) {
        if !game.fatal(ranked[0]) {
            assert(r.0 == ranked[0]);
        } else if !game.fatal(ranked[1]) {
            assert(r.0 == ranked[1]);
        } else if !game.fatal(ranked[2]) {
            assert(r.0 == ranked[2]);
        } else {
            let i = choose|i: int| 0 <= i < 4 && !game.fatal(#[trigger] ranked[i]);
            assert(i == 3);
            assert(r.0 == ranked[3]);
        }
    }
    if enabled && (forall|i: int| 0 <= i < 4 ==> game.fatal(#[trigger] ranked[i])) {
        assert(game.fatal(ranked[0]) && game.fatal(ranked[1]) && game.fatal(ranked[2]) && game.fatal(ranked[3]));
    }
}

/// The shield overrides the model's pick only when that pick is immediately fatal and a safe
/// alternative exists; an override always runs a safe move, and otherwise the pick runs as it is.
pub proof fn lemma_shield_overrides_only_fatal_picks(game: SnakeGame, ranked: Seq<Dir>, enabled: bool)
    requires
        ranked.len() == 4,
        ranked.no_duplicates(),
    ensures
        shield_outcome(game, ranked, enabled).1 <==> (enabled && game.fatal(ranked[0]) && exists|i: int|
            0 <= i < 4 && !game.fatal(#[trigger] ranked[i])),
        shield_outcome(game, ranked, enabled).1 ==> !game.fatal(shield_outcome(game, ranked, enabled).0),
        !shield_outcome(game, ranked, enabled).1 ==> shield_outcome(game, ranked, enabled).0 == ranked[0],
{
    assert(ranked[1] != ranked[0] && ranked[2] != ranked[0] && ranked[3] != ranked[0]);
    if enabled && game.fatal(ranked[0]) && exists|i: int| 0 <= i < 4 && !game.fatal(#[trigger] ranked[i]) {
        let i = choose|i: int| 0 <= i < 4 && !game.fatal(#[trigger] ranked[i]);
        assert(i == 1 || i == 2 || i == 3);
    }
}

/// Only one list ranks the directions.
pub proof fn lemma_rank_unique(keys: Seq<u64>, top: Dir, a: Seq<Dir>, b: Seq<Dir>)
    requires
        rank_ok(keys, top, a),
        rank_ok(keys, top, b),
    ensures
        a == b,
{
    assert forall|d: Dir| #[trigger] a.contains(d) by {
        lemma_all_dirs_in(a, d);
    }
    assert forall|d: Dir| #[trigger] b.contains(d) by {
        lemma_all_dirs_in(b, d);
    }
    // Each direction's place is the number of directions ranked above it.
    assert forall|i: int| 0 <= i < 4 implies a[i] == b[i] by {
        let x = a[i];
        assert(b.contains(x));
        let j = choose|j: int| 0 <= j < 4 && b[j] == x;
        if j < i {
            lemma_place_by_count(keys, top, a, b, i, j);
        } else if j > i {
            lemma_place_by_count(keys, top, b, a, j, i);
        }
    }
    assert(a =~= b);
}

/// Four distinct directions are all of them.
proof fn lemma_all_dirs_in(a: Seq<Dir>, d: Dir)
    requires
        a.len() == 4,
        a.no_duplicates(),
    ensures
        a.contains(d),
{
    if !a.contains(d) {
        // The places of `a` would map one to one into the three indices other than d's.
        let di = d.spec_index();
        let g = |k: int| if a[k].spec_index() < di { a[k].spec_index() } else { a[k].spec_index() - 1 };
        assert forall|k: int| 0 <= k < 4 implies 0 <= #[trigger] g(k) < 3 by {
            crate::grid::lemma_dir_at_index(a[k]);
            crate::grid::lemma_dir_at_index(d);
            assert(a[k] != d);
        }
        lemma_pigeonhole(g, 4, 3);
        let (k, l) = choose|k: int, l: int| 0 <= k < l < 4 && #[trigger] g(k) == #[trigger] g(l);
        crate::grid::lemma_dir_at_index(a[k]);
        crate::grid::lemma_dir_at_index(a[l]);
        assert(a[k] != d && a[l] != d);
        assert(a[k].spec_index() == a[l].spec_index());
        assert(a[k] == a[l]);
    }
}

/// In two rankings, the direction at place `i` of `a` does not stand at an earlier place `j`
/// of `b`.
proof fn lemma_place_by_count(keys: Seq<u64>, top: Dir, a: Seq<Dir>, b: Seq<Dir>, i: int, j: int)
    requires
        rank_ok(keys, top, a),
        rank_ok(keys, top, b),
        forall|d: Dir| #[trigger] a.contains(d),
        forall|d: Dir| #[trigger] b.contains(d),
        0 <= j < i < 4,
    ensures
        b[j] != a[i],
{
    if b[j] == a[i] {
        // The i directions ranked above a[i] in `a` are ranked above it in `b` too, so they all
        // sit in b before place j: i of them in j places.
        let x = a[i];
        assert forall|k: int| 0 <= k < i implies #[trigger] ranks_above(keys, top, a[k], x) by {}
        assert forall|k: int| j < k < 4 implies !#[trigger] ranks_above(keys, top, b[k], x) by {
            assert(ranks_above(keys, top, x, b[k]));
        }
        assert forall|k: int| #![trigger a[k]] 0 <= k < i implies exists|m: int| 0 <= m < j && #[trigger] b[m] == a[k] by {
            let y = a[k];
            assert(b.contains(y));
            let m = choose|m: int| 0 <= m < 4 && b[m] == y;
            if m > j {
                assert(!ranks_above(keys, top, b[m], x));
            }
            if m == j {
                assert(a[k] == a[i]);
            }
        }
        let f = |k: int| choose|m: int| 0 <= m < j && b[m] == a[k];
        assert forall|k: int| 0 <= k < i implies 0 <= #[trigger] f(k) < j && b[f(k)] == a[k] by {}
        lemma_pigeonhole(f, i, j);
        let (k, l) = choose|k: int, l: int| 0 <= k < l < i && #[trigger] f(k) == #[trigger] f(l);
        assert(b[f(k)] == a[k] && b[f(l)] == a[l]);
        assert(a[k] != a[l]);
    }
}

/// A map from `0..n` into `0..m` with `m < n` sends two points to one.
proof fn lemma_pigeonhole(f: spec_fn(int) -> int, n: int, m: int)
    requires
        0 <= m < n,
        forall|k: int| 0 <= k < n ==> 0 <= #[trigger] f(k) < m,
    ensures
        exists|k: int, l: int| 0 <= k < l < n && #[trigger] f(k) == #[trigger] f(l),
    decreases n,
{
    if m == 0 {
        assert(0 <= f(0) < m);
    } else if exists|k: int| 0 <= k < n && #[trigger] f(k) == m - 1 {
        let k0 = choose|k: int| 0 <= k < n && #[trigger] f(k) == m - 1;
        if exists|k: int| 0 <= k < n && k != k0 && #[trigger] f(k) == m - 1 {
            let k1 = choose|k: int| 0 <= k < n && k != k0 && #[trigger] f(k) == m - 1;
            if k0 < k1 {
                assert(f(k0) == f(k1));
            } else {
                assert(f(k1) == f(k0));
            }
        } else {
            // Drop k0 and shift the rest down: a map from 0..n-1 into 0..m-1.
            let g = |k: int| if k < k0 { f(k) } else { f(k + 1) };
            assert forall|k: int| 0 <= k < n - 1 implies 0 <= #[trigger] g(k) < m - 1 by {
                if k < k0 {
                    assert(f(k) != m - 1);
                } else {
                    assert(f(k + 1) != m - 1);
                }
            }
            lemma_pigeonhole(g, n - 1, m - 1);
            let (k, l) = choose|k: int, l: int| 0 <= k < l < n - 1 && #[trigger] g(k) == #[trigger] g(l);
            let kk = if k < k0 { k } else { k + 1 };
            let ll = if l < k0 { l } else { l + 1 };
            assert(f(kk) == g(k) && f(ll) == g(l));
            assert(f(kk) == f(ll));
        }
    } else {
        assert forall|k: int| 0 <= k < n - 1 implies 0 <= #[trigger] f(k) < m - 1 by {
            assert(f(k) != m - 1);
        }
        lemma_pigeonhole(f, n - 1, m - 1);
        let (k, l) = choose|k: int, l: int| 0 <= k < l < n - 1 && #[trigger] f(k) == #[trigger] f(l);
        assert(f(k) == f(l));
    }
}

/// A ranking goes from most to least likely: keys never grow along it, the first move has the
/// largest key of all four, and the model's own pick comes first whenever no key beats its key.
pub proof fn lemma_ranking_by_likelihood(keys: Seq<u64>, top: Dir, r: Seq<Dir>)
    requires
        rank_ok(keys, top, r),
    ensures
        forall|i: int, j: int| 0 <= i < j < 4 ==> keys[(#[trigger] r[i]).spec_index()] >= keys[(#[trigger] r[j]).spec_index()],
        forall|d: Dir| keys[r[0].spec_index()] >= keys[#[trigger] d.spec_index()],
        (forall|d: Dir| keys[top.spec_index()] >= keys[#[trigger] d.spec_index()]) ==> r[0] == top,
{
    assert forall|d: Dir| keys[r[0].spec_index()] >= keys[#[trigger] d.spec_index()] by {
        lemma_all_dirs_in(r, d);
        let j = choose|j: int| 0 <= j < 4 && r[j] == d;
        if j > 0 {
            assert(ranks_above(keys, top, r[0], r[j]));
        }
    }
    if forall|d: Dir| keys[top.spec_index()] >= keys[#[trigger] d.spec_index()] {
        lemma_all_dirs_in(r, top);
        let j = choose|j: int| 0 <= j < 4 && r[j] == top;
        if j > 0 {
            assert(ranks_above(keys, top, r[0], r[j]));
            assert(keys[r[0].spec_index()] >= keys[top.spec_index()]);
            assert(start_pos(top, top) == 0);
        }
    }
}

} // verus!
