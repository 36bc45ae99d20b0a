use vstd::prelude::*;
use crate::rules::RuleSet;
use crate::domain::{count_true, dg_narrows, lemma_dg_narrows_trans, DomainGrid};
use crate::propagate::propogate_changes;

verus! {

/// The search budget: how many times `solve` may enter before it settles
/// for whatever the domains hold.
pub const MAX_ITERATION_COUNT: usize = 500;

/// Every cell is decided: collapsed to one symbol or contradictory.
pub open spec fn dg_all_decided(v: Seq<Seq<Seq<bool>>>) -> bool {
    forall|x: int, y: int|
        0 <= x < v.len() && 0 <= y < v[0].len() ==> count_true(#[trigger] v[x][y]) <= 1
}

/// An unsolved tile `(x, y, entropy)` recorded against the board it was
/// read from.
spec fn tile_ok(v: Seq<Seq<Seq<bool>>>, t: (usize, usize, usize)) -> bool {
    &&& (t.0 as int) < v.len()
    &&& (t.1 as int) < v[0].len()
    &&& t.2 == count_true(v[t.0 as int][t.1 as int])
    &&& t.2 > 1
}

/// The branching order: ascending entropy, ties broken by ascending cell
/// coordinates.
pub open spec fn tile_le(a: (usize, usize, usize), b: (usize, usize, usize)) -> bool {
    ||| a.2 < b.2
    ||| (a.2 == b.2 && a.0 < b.0)
    ||| (a.2 == b.2 && a.0 == b.0 && a.1 <= b.1)
}

fn tile_le_exec(a: (usize, usize, usize), b: (usize, usize, usize)) -> (r: bool)
    ensures
        r == tile_le(a, b),
{
    a.2 < b.2 || (a.2 == b.2 && (a.0 < b.0 || (a.0 == b.0 && a.1 <= b.1)))
}

/// Stable insertion sort of the unsolved tiles by `tile_le`.
#[verifier::loop_isolation(false)]
fn sort_tiles(tiles: &mut Vec<(usize, usize, usize)>)
    ensures
        final(tiles)@.len() == old(tiles)@.len(),
        final(tiles)@.to_multiset() == old(tiles)@.to_multiset(),
        forall|a: int, b: int|
            0 <= a < b < final(tiles)@.len() ==> tile_le(
                #[trigger] final(tiles)@[a],
                #[trigger] final(tiles)@[b],
            ),
{
    let len = tiles.len();
    if len < 2 {
        return;
    }
    for i in 1..len
        invariant
            tiles@.len() == len,
            tiles@.to_multiset() == old(tiles)@.to_multiset(),
            forall|a: int, b: int|
                0 <= a < b < i ==> tile_le(#[trigger] tiles@[a], #[trigger] tiles@[b]),
    {
        let mut j = i;
        while j > 0 && !tile_le_exec(tiles[j - 1], tiles[j])
            invariant
                j <= i,
                tiles@.len() == len,
                tiles@.to_multiset() == old(tiles)@.to_multiset(),
                forall|a: int, b: int|
                    0 <= a < b <= i && b != j ==> tile_le(#[trigger] tiles@[a], #[trigger] tiles@[b]),
            decreases j,
        {
            let ghost pre = tiles@;
            let prev = tiles[j - 1];
            let cur = tiles[j];
            tiles[j - 1] = cur;
            tiles[j] = prev;
            proof {
                broadcast use vstd::seq_lib::group_to_multiset_ensures;

                assert(tiles@ == pre.update(j - 1, cur).update(j as int, prev));
                assert(pre.update(j - 1, cur)[j as int] == cur);
                assert(tiles@.to_multiset() =~= pre.to_multiset());
            }
            j = j - 1;
        }
    }
}

/// Determinism of the branching order: the order the search visits
/// unsolved tiles in is a function of the tiles alone. Ties in entropy
/// are broken by the fixed ascending cell order, so any two duplicate-free
/// listings of the same tiles, both sorted by `tile_le`, coincide.
pub proof fn lemma_branch_order_unique(a: Seq<(usize, usize, usize)>, b: Seq<(usize, usize, usize)>)
    requires
        a.no_duplicates(),
        a.to_multiset() == b.to_multiset(),
        forall|i: int, j: int| 0 <= i < j < a.len() ==> tile_le(#[trigger] a[i], #[trigger] a[j]),
        forall|i: int, j: int| 0 <= i < j < b.len() ==> tile_le(#[trigger] b[i], #[trigger] b[j]),
    ensures
        a == b,
    decreases a.len(),
{
    broadcast use vstd::seq_lib::group_to_multiset_ensures;

    assert(a.to_multiset().len() == a.len());
    assert(b.to_multiset().len() == b.len());
    if a.len() == 0 {
        assert(a =~= b);
    } else {
        // The two heads are each other's lower bounds, so they coincide.
        assert(a.contains(a[0]));
        assert(a.to_multiset().count(a[0]) > 0);
        assert(b.contains(a[0]));
        let i = choose|i: int| 0 <= i < b.len() && b[i] == a[0];
        assert(b.contains(b[0]));
        assert(b.to_multiset().count(b[0]) > 0);
        assert(a.contains(b[0]));
        let j = choose|j: int| 0 <= j < a.len() && a[j] == b[0];
        assert(tile_le(b[0], a[0]));
        assert(tile_le(a[0], b[0]));
        assert(a[0] == b[0]);

        // Strip the heads and recurse.
        let a1 = a.drop_first();
        let b1 = b.drop_first();
        assert(a.remove(0) =~= a1);
        assert(b.remove(0) =~= b1);
        assert(a1.to_multiset() == b1.to_multiset());
        assert forall|i2: int, j2: int|
            0 <= i2 < j2 < a1.len() implies tile_le(#[trigger] a1[i2], #[trigger] a1[j2]) by {
            assert(tile_le(a[i2 + 1], a[j2 + 1]));
        }
        assert forall|i2: int, j2: int|
            0 <= i2 < j2 < b1.len() implies tile_le(#[trigger] b1[i2], #[trigger] b1[j2]) by {
            assert(tile_le(b[i2 + 1], b[j2 + 1]));
        }
        assert(a1.no_duplicates());
        lemma_branch_order_unique(a1, b1);
        assert forall|k: int| 0 <= k < a.len() implies a[k] == b[k] by {
            if k > 0 {
                assert(a1[k - 1] == b1[k - 1]);
            }
        }
        assert(a =~= b);
    }
}

/// Depth-first backtracking over the domain grid: take the unsolved cells
/// in minimum-remaining-values order, try each surviving symbol of each in
/// ascending order on a cloned board, propagate, and recurse; the first
/// fully decided board wins. Every entry spends one unit of the shared
/// iteration budget; once the budget is exceeded the current board comes
/// back unchanged as an anytime best-effort result. `None` means every
/// branch ran into a contradiction.
#[verifier::loop_isolation(false)]
pub fn solve(rules: &RuleSet, domains: DomainGrid, iterations: &mut usize) -> (res: Option<
    DomainGrid,
>)
    requires
        rules.wf(),
        domains.wf(),
        *old(iterations) < usize::MAX,
    ensures
        *final(iterations) > *old(iterations),
        *old(iterations) >= MAX_ITERATION_COUNT ==> (*final(iterations) == *old(iterations) + 1
            && res == Some(domains)),
        *old(iterations) < MAX_ITERATION_COUNT ==> *final(iterations) <= MAX_ITERATION_COUNT + 1,
        res is None ==> *final(iterations) <= MAX_ITERATION_COUNT,
        res is None ==> !dg_all_decided(domains@),
        dg_all_decided(domains@) ==> (res == Some(domains) && *final(iterations) == *old(
            iterations,
        ) + 1),
        match res {
            Some(sol) => {
                &&& sol.wf()
                &&& sol@.len() == domains@.len()
                &&& sol@[0].len() == domains@[0].len()
                &&& dg_narrows(sol@, domains@)
                &&& (*final(iterations) <= MAX_ITERATION_COUNT ==> dg_all_decided(sol@))
            },
            None => true,
        },
    decreases MAX_ITERATION_COUNT + 1 - *old(iterations),
{
    *iterations = *iterations + 1;
    if *iterations > MAX_ITERATION_COUNT {
        proof {
            assert(dg_narrows(domains@, domains@));
        }
        return Some(domains);
    }
    let width: usize = domains.width();
    let height: usize = domains.height();

    // Collect the cells that still hold more than one candidate.
    let mut unsolved: Vec<(usize, usize, usize)> = Vec::new();
    for x in 0..width
        invariant
            forall|k: int| 0 <= k < unsolved@.len() ==> tile_ok(domains@, #[trigger] unsolved@[k]),
            unsolved@.len() == 0 ==> forall|i: int, j: int|
                0 <= i < x && 0 <= j < height ==> count_true(#[trigger] domains@[i][j]) <= 1,
            dg_all_decided(domains@) ==> unsolved@.len() == 0,
    {
        for y in 0..height
            invariant
                forall|k: int|
                    0 <= k < unsolved@.len() ==> tile_ok(domains@, #[trigger] unsolved@[k]),
                unsolved@.len() == 0 ==> forall|i: int, j: int|
                    0 <= i < x && 0 <= j < height ==> count_true(#[trigger] domains@[i][j]) <= 1,
                unsolved@.len() == 0 ==> forall|j: int|
                    0 <= j < y ==> count_true(#[trigger] domains@[x as int][j]) <= 1,
                dg_all_decided(domains@) ==> unsolved@.len() == 0,
        {
            let entropy = domains.cardinality_at(x, y);
            if entropy > 1 {
                unsolved.push((x, y, entropy));
            }
        }
    }
    if unsolved.len() == 0 {
        proof {
            assert(dg_narrows(domains@, domains@));
            assert(dg_all_decided(domains@));
        }
        return Some(domains);
    }
    proof {
        assert(tile_ok(domains@, unsolved@[0]));
    }
    let ghost presort = unsolved@;

    // Most-constrained cells first.
    sort_tiles(&mut unsolved);
    proof {
        broadcast use vstd::seq_lib::group_to_multiset_ensures;

        assert forall|k: int| 0 <= k < unsolved@.len() implies tile_ok(
            domains@,
            #[trigger] unsolved@[k],
        ) by {
            assert(unsolved@.to_multiset().count(unsolved@[k]) > 0);
            assert(presort.contains(unsolved@[k]));
            let m = choose|m: int| 0 <= m < presort.len() && presort[m] == unsolved@[k];
            assert(tile_ok(domains@, presort[m]));
        }
    }

    let tile_count = unsolved.len();
    for idx in 0..tile_count
        invariant
            tile_count == unsolved@.len(),
            forall|k: int| 0 <= k < unsolved@.len() ==> tile_ok(domains@, #[trigger] unsolved@[k]),
            *iterations <= MAX_ITERATION_COUNT,
            *iterations > *old(iterations),
    {
        let tile = unsolved[idx];
        let x = tile.0;
        let y = tile.1;
        for color in 0..10usize
            invariant
                x == unsolved@[idx as int].0,
                y == unsolved@[idx as int].1,
                *iterations <= MAX_ITERATION_COUNT,
                *iterations > *old(iterations),
        {
            proof {
                assert(tile_ok(domains@, unsolved@[idx as int]));
            }
            if domains.test_slot(x, y, color) {
                // Branch on a private copy of the board.
                let mut branch = domains.duplicate();
                branch.collapse_to(x, y, color);
                proof {
                    assert forall|i: int, j: int|
                        0 <= i < branch@.len() && 0 <= j < branch@[i].len()
                        implies (#[trigger] branch@[i][j]).len() == domains@[i][j].len() by {
                        assert(branch@[i].len() == branch@[0].len());
                        assert(domains@[i].len() == domains@[0].len());
                    }
                    assert(dg_narrows(branch@, domains@));
                }
                let ghost collapsed = branch@;
                if propogate_changes(rules, &mut branch, x, y) {
                    let ghost propagated = branch@;
                    match solve(rules, branch, iterations) {
                        Some(solution) => {
                            proof {
                                lemma_dg_narrows_trans(propagated, collapsed, domains@);
                                lemma_dg_narrows_trans(solution@, propagated, domains@);
                            }
                            return Some(solution);
                        },
                        None => {},
                    }
                }
            }
        }
    }
    proof {
        assert(tile_ok(domains@, unsolved@[0]));
        let t = unsolved@[0];
        assert(count_true(domains@[t.0 as int][t.1 as int]) > 1);
        assert(!dg_all_decided(domains@));
    }
    None
}

} // verus!
