use vstd::prelude::*;
use std::collections::VecDeque;
use crate::rules::{Direction, Rule, RuleSet};
use crate::domain::{
    count_true, lemma_count_true_le, lemma_count_true_lt, grid_total, lemma_grid_total_nonneg,
    lemma_grid_total_update, dg_wf, dg_update, dg_narrows, lemma_dg_narrows_trans, Domain,
    DomainGrid,
};

verus! {

/// Whether the rules let symbol `c` stand in this cell given the
/// neighbor's surviving candidates in direction `d`: some surviving
/// neighbor symbol `t` must admit `Rule(d, c, t)`.
pub open spec fn supported(rs: Set<Rule>, d: Direction, c: int, neighbor: Seq<bool>) -> bool {
    exists|t: int| 0 <= t < 10 && neighbor[t] && rs.contains(Rule(d, c as u8, t as u8))
}

/// Cells of the outer ring are never propagation targets; only cells with
/// all four orthogonal neighbors in bounds are.
pub open spec fn dg_interior(v: Seq<Seq<Seq<bool>>>, x: int, y: int) -> bool {
    0 < x < v.len() - 1 && 0 < y < v[0].len() - 1
}

/// One support pass over the domain of interior cell `(x, y)`: a symbol
/// survives iff it survived before and every orthogonal neighbor supports
/// it.
pub open spec fn constrained_cell(
    rs: Set<Rule>,
    v: Seq<Seq<Seq<bool>>>,
    x: int,
    y: int,
) -> Seq<bool> {
    Seq::new(
        10,
        |c: int|
            v[x][y][c] && supported(rs, Direction::North, c, v[x][y - 1]) && supported(
                rs,
                Direction::West,
                c,
                v[x - 1][y],
            ) && supported(rs, Direction::South, c, v[x][y + 1]) && supported(
                rs,
                Direction::East,
                c,
                v[x + 1][y],
            ),
    )
}

/// Whether a support pass over cell `(x, y)` would remove some symbol.
pub open spec fn cell_would_change(rs: Set<Rule>, v: Seq<Seq<Seq<bool>>>, x: int, y: int) -> bool {
    exists|c: int| 0 <= c < 10 && v[x][y][c] && !constrained_cell(rs, v, x, y)[c]
}

/// A fixpoint of propagation: no support pass over any interior cell
/// removes a symbol.
pub open spec fn is_fixpoint(rs: Set<Rule>, v: Seq<Seq<Seq<bool>>>) -> bool {
    forall|x: int, y: int| dg_interior(v, x, y) ==> !cell_would_change(rs, v, x, y)
}

/// A support pass is monotone: what survives the pass over a narrowed
/// board also survives the pass over the board it narrows.
pub proof fn lemma_constrained_cell_monotone(
    rs: Set<Rule>,
    a: Seq<Seq<Seq<bool>>>,
    b: Seq<Seq<Seq<bool>>>,
    x: int,
    y: int,
)
    requires
        dg_wf(a),
        dg_narrows(a, b),
        dg_interior(a, x, y),
    ensures
        forall|c: int|
            0 <= c < 10 && #[trigger] constrained_cell(rs, a, x, y)[c] ==> constrained_cell(
                rs,
                b,
                x,
                y,
            )[c],
{
    assert forall|c: int| 0 <= c < 10 && #[trigger] constrained_cell(rs, a, x, y)[c]
        implies constrained_cell(rs, b, x, y)[c] by {
        assert(a[x].len() == a[0].len());
        assert(a[x - 1].len() == a[0].len());
        assert(a[x + 1].len() == a[0].len());
        assert(a[x][y - 1].len() == 10);
        assert(a[x][y + 1].len() == 10);
        assert(a[x - 1][y].len() == 10);
        assert(a[x + 1][y].len() == 10);
        assert(a[x][y][c]);
        let tn = choose|t: int|
            0 <= t < 10 && a[x][y - 1][t] && #[trigger] rs.contains(Rule(Direction::North, c as u8, t as u8));
        assert(b[x][y - 1][tn]);
        let tw = choose|t: int|
            0 <= t < 10 && a[x - 1][y][t] && #[trigger] rs.contains(Rule(Direction::West, c as u8, t as u8));
        assert(b[x - 1][y][tw]);
        let ts = choose|t: int|
            0 <= t < 10 && a[x][y + 1][t] && #[trigger] rs.contains(Rule(Direction::South, c as u8, t as u8));
        assert(b[x][y + 1][ts]);
        let te = choose|t: int|
            0 <= t < 10 && a[x + 1][y][t] && #[trigger] rs.contains(Rule(Direction::East, c as u8, t as u8));
        assert(b[x + 1][y][te]);
        assert(supported(rs, Direction::North, c, b[x][y - 1]));
        assert(supported(rs, Direction::West, c, b[x - 1][y]));
        assert(supported(rs, Direction::South, c, b[x][y + 1]));
        assert(supported(rs, Direction::East, c, b[x + 1][y]));
    }
}

/// Arc-consistency at a fixpoint: every surviving symbol of every
/// interior cell has, in each orthogonal direction, at least one
/// surviving supporting symbol in the neighbor domain.
pub proof fn lemma_fixpoint_arc_consistent(
    rs: Set<Rule>,
    v: Seq<Seq<Seq<bool>>>,
    x: int,
    y: int,
    c: int,
)
    requires
        is_fixpoint(rs, v),
        dg_interior(v, x, y),
        0 <= c < 10,
        v[x][y][c],
    ensures
        supported(rs, Direction::North, c, v[x][y - 1]),
        supported(rs, Direction::West, c, v[x - 1][y]),
        supported(rs, Direction::South, c, v[x][y + 1]),
        supported(rs, Direction::East, c, v[x + 1][y]),
{
    assert(!cell_would_change(rs, v, x, y));
    if !constrained_cell(rs, v, x, y)[c] {
        assert(cell_would_change(rs, v, x, y));
    }
    assert(constrained_cell(rs, v, x, y)[c]);
}

/// Whether some surviving symbol of `other_tile` supports `color` in
/// direction `direction` under the given rules.
#[verifier::loop_isolation(false)]
pub fn supported_by_other(
    rules: &RuleSet,
    direction: Direction,
    color: u8,
    other_tile: &Domain,
) -> (b: bool)
    requires
        rules.wf(),
        other_tile.wf(),
        color < 10,
    ensures
        b == supported(rules@, direction, color as int, other_tile@),
{
    for t in 0..10usize
        invariant
            forall|u: int|
                0 <= u < t ==> !(#[trigger] other_tile@[u] && rules@.contains(
                    Rule(direction, color, u as u8),
                )),
    {
        if other_tile.test(t) && rules.contains(Rule(direction, color, t as u8)) {
            proof {
                assert(other_tile@[t as int] && rules@.contains(
                    Rule(direction, color, (t as int) as u8),
                ));
            }
            return true;
        }
    }
    proof {
        if supported(rules@, direction, color as int, other_tile@) {
            let u = choose|u: int|
                0 <= u < 10 && other_tile@[u] && rules@.contains(
                    Rule(direction, (color as int) as u8, u as u8),
                );
            assert(!(other_tile@[u] && rules@.contains(Rule(direction, color, u as u8))));
        }
    }
    false
}

/// The propagator's answer for one constrained cell.
#[derive(Clone, Copy, Debug, PartialEq, Eq, Structural)]
pub enum ConstraintResult {
    Collapsed,
    Valid,
    Invalid,
}

/// Run one support pass over the domain of interior cell `(x, y)` against
/// its four orthogonal neighbors, and report whether the cell newly
/// collapsed, newly became a contradiction, or neither.
#[verifier::loop_isolation(false)]
pub fn constrain_tile(rules: &RuleSet, domains: &mut DomainGrid, x: usize, y: usize) -> (res:
    ConstraintResult)
    requires
        rules.wf(),
        old(domains).wf(),
        dg_interior(old(domains)@, x as int, y as int),
    ensures
        final(domains).wf(),
        final(domains)@ == dg_update(
            old(domains)@,
            x as int,
            y as int,
            constrained_cell(rules@, old(domains)@, x as int, y as int),
        ),
        (res == ConstraintResult::Invalid <==> (cell_would_change(
            rules@,
            old(domains)@,
            x as int,
            y as int,
        ) && count_true(constrained_cell(rules@, old(domains)@, x as int, y as int)) == 0)),
        (res == ConstraintResult::Collapsed <==> (cell_would_change(
            rules@,
            old(domains)@,
            x as int,
            y as int,
        ) && count_true(constrained_cell(rules@, old(domains)@, x as int, y as int)) == 1)),
{
    let ghost v0 = domains@;
    let ghost xi = x as int;
    let ghost yi = y as int;
    let ghost newcell = constrained_cell(rules@, v0, xi, yi);
    let mut change = false;
    let width: usize = domains.width();
    let height: usize = domains.height();
    proof {
        assert(width == v0.len());
        assert(height == v0[0].len());
        assert(v0[xi].len() == v0[0].len());
        assert(v0[xi - 1].len() == v0[0].len());
        assert(v0[xi + 1].len() == v0[0].len());
    }
    for c in 0..10usize
        invariant
            domains.wf(),
            domains@.len() == v0.len(),
            domains@[0].len() == v0[0].len(),
            forall|i: int, j: int|
                0 <= i < v0.len() && 0 <= j < v0[0].len() && !(i == xi && j == yi)
                    ==> #[trigger] domains@[i][j] == v0[i][j],
            forall|k: int|
                0 <= k < 10 ==> #[trigger] domains@[xi][yi][k] == if k < c {
                    newcell[k]
                } else {
                    v0[xi][yi][k]
                },
            change <==> exists|k: int| 0 <= k < c && v0[xi][yi][k] && !newcell[k],
    {
        let ghost ci = c as int;
        if domains.test_slot(x, y, c) {
            let north = supported_by_other(rules, Direction::North, c as u8, domains.domain_at(x, y - 1));
            let west = supported_by_other(rules, Direction::West, c as u8, domains.domain_at(x - 1, y));
            let south = supported_by_other(rules, Direction::South, c as u8, domains.domain_at(x, y + 1));
            let east = supported_by_other(rules, Direction::East, c as u8, domains.domain_at(x + 1, y));
            let keep = north && west && south && east;
            proof {
                assert(newcell[ci] == keep);
            }
            domains.set_slot(x, y, c, keep);
            if !keep {
                change = true;
                proof {
                    assert(v0[xi][yi][ci] && !newcell[ci]);
                }
            }
            proof {
                assert forall|k: int| 0 <= k < 10 implies #[trigger] domains@[xi][yi][k] == if k
                    < ci + 1 {
                    newcell[k]
                } else {
                    v0[xi][yi][k]
                } by {}
            }
        } else {
            proof {
                assert(!v0[xi][yi][ci]);
                assert(!newcell[ci]);
            }
        }
    }
    proof {
        assert(domains@[xi][yi] =~= newcell);
        assert(domains@[xi] =~= v0[xi].update(yi, newcell));
        assert forall|i: int| 0 <= i < v0.len() && i != xi implies domains@[i] =~= v0[i] by {
            assert(domains@[i].len() == domains@[0].len());
            assert(v0[i].len() == v0[0].len());
        }
        assert(domains@ =~= dg_update(v0, xi, yi, newcell));
        assert(change == cell_would_change(rules@, v0, xi, yi));
    }
    if change {
        let card = domains.cardinality_at(x, y);
        if card == 0 {
            ConstraintResult::Invalid
        } else if card == 1 {
            ConstraintResult::Collapsed
        } else {
            ConstraintResult::Valid
        }
    } else {
        ConstraintResult::Valid
    }
}

/// Constrain one interior worklist target and enqueue it if it newly
/// collapsed; `false` reports a contradiction at the target.
fn visit_neighbor(
    rules: &RuleSet,
    domains: &mut DomainGrid,
    queue: &mut VecDeque<(usize, usize)>,
    xx: usize,
    yy: usize,
) -> (ok: bool)
    requires
        rules.wf(),
        old(domains).wf(),
        dg_interior(old(domains)@, xx as int, yy as int),
    ensures
        final(domains).wf(),
        final(domains)@.len() == old(domains)@.len(),
        final(domains)@[0].len() == old(domains)@[0].len(),
        final(domains)@ == dg_update(
            old(domains)@,
            xx as int,
            yy as int,
            constrained_cell(rules@, old(domains)@, xx as int, yy as int),
        ),
        dg_narrows(final(domains)@, old(domains)@),
        forall|i: int, j: int|
            0 <= i < old(domains)@.len() && 0 <= j < old(domains)@[0].len() && !(i == xx as int && j
                == yy as int) ==> final(domains)@[i][j] == old(domains)@[i][j],
        final(queue)@ == old(queue)@ || final(queue)@ == old(queue)@.push((xx, yy)),
        5 * grid_total(final(domains)@) + final(queue)@.len() <= 5 * grid_total(old(domains)@)
            + old(queue)@.len(),
        !ok ==> count_true(final(domains)@[xx as int][yy as int]) == 0,
        is_fixpoint(rules@, old(domains)@) ==> (ok && final(domains)@ == old(domains)@
            && final(queue)@ == old(queue)@),
{
    let ghost v0 = domains@;
    let ghost xi = xx as int;
    let ghost yi = yy as int;
    let ghost nc = constrained_cell(rules@, v0, xi, yi);
    let res = constrain_tile(rules, domains, xx, yy);
    proof {
        assert(v0[xi].len() == v0[0].len());
        assert(v0[xi][yi].len() == 10);
        assert forall|k: int| 0 <= k < 10 && #[trigger] nc[k] implies v0[xi][yi][k] by {}
        lemma_count_true_le(nc, v0[xi][yi]);
        lemma_grid_total_update(v0, xi, yi, nc);
        assert(dg_narrows(domains@, v0)) by {
            assert forall|i: int, j: int|
                0 <= i < domains@.len() && 0 <= j < domains@[i].len()
                implies (#[trigger] domains@[i][j]).len() == v0[i][j].len() by {
                assert(domains@[i].len() == domains@[0].len());
                assert(v0[i].len() == v0[0].len());
            }
        }
        if is_fixpoint(rules@, v0) {
            assert(!cell_would_change(rules@, v0, xi, yi));
            assert forall|k: int| 0 <= k < 10 implies nc[k] == v0[xi][yi][k] by {
                if v0[xi][yi][k] && !nc[k] {
                    assert(cell_would_change(rules@, v0, xi, yi));
                }
            }
            assert(nc =~= v0[xi][yi]);
            assert forall|i: int| 0 <= i < v0.len() implies domains@[i] =~= v0[i] by {
                assert(domains@[i].len() == domains@[0].len());
                assert(v0[i].len() == v0[0].len());
            }
            assert(domains@ =~= v0);
        }
    }
    match res {
        ConstraintResult::Collapsed => {
            proof {
                let w = choose|k: int| 0 <= k < 10 && v0[xi][yi][k] && !nc[k];
                lemma_count_true_lt(nc, v0[xi][yi], w);
            }
            queue.push_back((xx, yy));
            true
        },
        ConstraintResult::Invalid => false,
        ConstraintResult::Valid => true,
    }
}

/// Every candidate of the four interior diagonal targets of `(x, y)`
/// that survives a call sits inside one support pass over the board the
/// call started from.
pub open spec fn diagonals_constrained(
    rs: Set<Rule>,
    before: Seq<Seq<Seq<bool>>>,
    after: Seq<Seq<Seq<bool>>>,
    x: int,
    y: int,
) -> bool {
    forall|xx: int, yy: int, c: int|
        dg_interior(before, xx, yy) && (xx == x - 1 || xx == x + 1) && (yy == y - 1 || yy == y + 1)
            && 0 <= c < 10 && #[trigger] after[xx][yy][c] ==> constrained_cell(
            rs,
            before,
            xx,
            yy,
        )[c]
}

/// Constrain the four diagonal offsets of one popped cell, skipping
/// targets on the outer ring, and enqueue every target that newly
/// collapses.
#[verifier::loop_isolation(false)]
#[verifier::rlimit(100)]
fn spread_from(
    rules: &RuleSet,
    domains: &mut DomainGrid,
    queue: &mut VecDeque<(usize, usize)>,
    x: usize,
    y: usize,
) -> (ok: bool)
    requires
        rules.wf(),
        old(domains).wf(),
        x < old(domains)@.len(),
        y < old(domains)@[0].len(),
    ensures
        final(domains).wf(),
        final(domains)@.len() == old(domains)@.len(),
        final(domains)@[0].len() == old(domains)@[0].len(),
        dg_narrows(final(domains)@, old(domains)@),
        forall|i: int, j: int|
            0 <= i < old(domains)@.len() && 0 <= j < old(domains)@[0].len() && !((i == x - 1 || i
                == x + 1) && (j == y - 1 || j == y + 1) && dg_interior(old(domains)@, i, j))
                ==> final(domains)@[i][j] == old(domains)@[i][j],
        old(queue)@.len() <= final(queue)@.len(),
        forall|k: int| 0 <= k < old(queue)@.len() ==> final(queue)@[k] == old(queue)@[k],
        forall|k: int|
            old(queue)@.len() <= k < final(queue)@.len() ==> ((#[trigger] final(queue)@[k]).0 as int)
                < old(domains)@.len() && (final(queue)@[k].1 as int) < old(domains)@[0].len(),
        5 * grid_total(final(domains)@) + final(queue)@.len() <= 5 * grid_total(old(domains)@)
            + old(queue)@.len(),
        !ok ==> exists|i: int, j: int|
            dg_interior(final(domains)@, i, j) && count_true(#[trigger] final(domains)@[i][j])
                == 0,
        is_fixpoint(rules@, old(domains)@) ==> (ok && final(domains)@ == old(domains)@
            && final(queue)@ == old(queue)@),
        ok ==> diagonals_constrained(rules@, old(domains)@, final(domains)@, x as int, y as int),
{
    let ghost v0 = domains@;
    let width: usize = domains.width();
    let height: usize = domains.height();

    if x > 1 && y > 1 {
        let r = visit_neighbor(rules, domains, queue, x - 1, y - 1);
        if !r {
            return false;
        }
    }
    let ghost a1 = domains@;
    proof {
        assert(dg_narrows(a1, v0));
        assert forall|xx: int, yy: int, c: int|
            dg_interior(v0, xx, yy) && xx == x - 1 && yy == y - 1 && 0 <= c < 10
                && #[trigger] a1[xx][yy][c] implies constrained_cell(rules@, v0, xx, yy)[c] by {
            assert(x > 1 && y > 1);
            assert(a1[xx][yy] == constrained_cell(rules@, v0, xx, yy));
        }
    }

    if x > 1 && y + 1 < height - 1 {
        let r = visit_neighbor(rules, domains, queue, x - 1, y + 1);
        proof {
            lemma_dg_narrows_trans(domains@, a1, v0);
        }
        if !r {
            return false;
        }
        proof {
            lemma_constrained_cell_monotone(rules@, a1, v0, x as int - 1, y as int + 1);
        }
    }
    let ghost a2 = domains@;
    proof {
        assert(dg_narrows(a2, v0));
        assert forall|xx: int, yy: int, c: int|
            dg_interior(v0, xx, yy) && xx == x - 1 && (yy == y - 1 || yy == y + 1) && 0 <= c < 10
                && #[trigger] a2[xx][yy][c] implies constrained_cell(rules@, v0, xx, yy)[c] by {
            assert(a2[xx].len() == a2[0].len());
            assert(a2[xx][yy].len() == 10);
            if yy == y + 1 {
                assert(x > 1 && y + 1 < height - 1);
                assert(a2[xx][yy] == constrained_cell(rules@, a1, xx, yy));
            } else {
                assert(a1[xx][yy][c]);
            }
        }
    }

    if x + 1 < width - 1 && y > 1 {
        let r = visit_neighbor(rules, domains, queue, x + 1, y - 1);
        proof {
            lemma_dg_narrows_trans(domains@, a2, v0);
        }
        if !r {
            return false;
        }
        proof {
            lemma_constrained_cell_monotone(rules@, a2, v0, x as int + 1, y as int - 1);
        }
    }
    let ghost a3 = domains@;
    proof {
        assert(dg_narrows(a3, v0));
        assert forall|xx: int, yy: int, c: int|
            dg_interior(v0, xx, yy) && (xx == x - 1 || (xx == x + 1 && yy == y - 1)) && (yy == y
                - 1 || yy == y + 1) && 0 <= c < 10 && #[trigger] a3[xx][yy][c]
            implies constrained_cell(rules@, v0, xx, yy)[c] by {
            assert(a3[xx].len() == a3[0].len());
            assert(a3[xx][yy].len() == 10);
            if xx == x + 1 && yy == y - 1 {
                assert(x + 1 < width - 1 && y > 1);
                assert(a3[xx][yy] == constrained_cell(rules@, a2, xx, yy));
            } else {
                assert(a2[xx][yy][c]);
            }
        }
    }

    if x + 1 < width - 1 && y + 1 < height - 1 {
        let r = visit_neighbor(rules, domains, queue, x + 1, y + 1);
        proof {
            lemma_dg_narrows_trans(domains@, a3, v0);
        }
        if !r {
            return false;
        }
        proof {
            lemma_constrained_cell_monotone(rules@, a3, v0, x as int + 1, y as int + 1);
        }
    }
    let ghost a4 = domains@;
    proof {
        assert(dg_narrows(a4, v0));
        assert(diagonals_constrained(rules@, v0, a4, x as int, y as int)) by {
            assert forall|xx: int, yy: int, c: int|
                dg_interior(v0, xx, yy) && (xx == x - 1 || xx == x + 1) && (yy == y - 1 || yy == y
                    + 1) && 0 <= c < 10 && #[trigger] a4[xx][yy][c] implies constrained_cell(
                rules@,
                v0,
                xx,
                yy,
            )[c] by {
                assert(a4[xx].len() == a4[0].len());
                assert(a4[xx][yy].len() == 10);
                if xx == x + 1 && yy == y + 1 {
                    assert(x + 1 < width - 1 && y + 1 < height - 1);
                    assert(a4[xx][yy] == constrained_cell(rules@, a3, xx, yy));
                } else {
                    assert(a3[xx][yy][c]);
                }
            }
        }
    }
    true
}

/// Worklist propagation from a changed cell: constrain the four diagonal
/// offsets of each popped cell (interior targets only), enqueue targets
/// that newly collapse, and stop at the first contradiction (`false`) or
/// when the queue runs dry (`true`). Cells of the outer ring are never
/// narrowed here; they keep whatever the seeding gave them.
#[verifier::loop_isolation(false)]
#[verifier::rlimit(60)]
pub fn propogate_changes(
    rules: &RuleSet,
    domains: &mut DomainGrid,
    initial_x: usize,
    initial_y: usize,
) -> (ok: bool)
    requires
        rules.wf(),
        old(domains).wf(),
        initial_x < old(domains)@.len(),
        initial_y < old(domains)@[0].len(),
    ensures
        final(domains).wf(),
        final(domains)@.len() == old(domains)@.len(),
        final(domains)@[0].len() == old(domains)@[0].len(),
        dg_narrows(final(domains)@, old(domains)@),
        forall|i: int, j: int|
            0 <= i < old(domains)@.len() && 0 <= j < old(domains)@[0].len() && !dg_interior(
                old(domains)@,
                i,
                j,
            ) ==> final(domains)@[i][j] == old(domains)@[i][j],
        !ok ==> exists|i: int, j: int|
            dg_interior(final(domains)@, i, j) && count_true(#[trigger] final(domains)@[i][j])
                == 0,
        is_fixpoint(rules@, old(domains)@) ==> (ok && final(domains)@ == old(domains)@),
        ok ==> diagonals_constrained(
            rules@,
            old(domains)@,
            final(domains)@,
            initial_x as int,
            initial_y as int,
        ),
{
    let mut queue: VecDeque<(usize, usize)> = VecDeque::new();
    queue.push_back((initial_x, initial_y));
    let ghost mut seeded_pass_done: bool = false;
    while queue.len() > 0
        invariant
            domains.wf(),
            domains@.len() == old(domains)@.len(),
            domains@[0].len() == old(domains)@[0].len(),
            dg_narrows(domains@, old(domains)@),
            forall|i: int, j: int|
                0 <= i < old(domains)@.len() && 0 <= j < old(domains)@[0].len() && !dg_interior(
                    old(domains)@,
                    i,
                    j,
                ) ==> domains@[i][j] == old(domains)@[i][j],
            forall|k: int|
                0 <= k < queue@.len() ==> ((#[trigger] queue@[k]).0 as int) < old(domains)@.len()
                    && (queue@[k].1 as int) < old(domains)@[0].len(),
            is_fixpoint(rules@, old(domains)@) ==> domains@ == old(domains)@,
            !seeded_pass_done ==> (queue@ =~= seq![(initial_x, initial_y)] && domains@ == old(
                domains,
            )@),
            seeded_pass_done ==> diagonals_constrained(
                rules@,
                old(domains)@,
                domains@,
                initial_x as int,
                initial_y as int,
            ),
        decreases 5 * grid_total(domains@) + queue@.len(),
    {
        let ghost m0 = 5 * grid_total(domains@) + queue@.len();
        let ghost was_seeded_pass = !seeded_pass_done;
        let ghost s0 = domains@;
        let popped = queue.pop_front();
        if let Some(cell) = popped {
            let x = cell.0;
            let y = cell.1;
            let r = spread_from(rules, domains, &mut queue, x, y);
            proof {
                lemma_dg_narrows_trans(domains@, s0, old(domains)@);
                assert forall|i: int, j: int|
                    0 <= i < old(domains)@.len() && 0 <= j < old(domains)@[0].len()
                        && !dg_interior(old(domains)@, i, j) implies domains@[i][j] == old(
                    domains,
                )@[i][j] by {
                    assert(!dg_interior(s0, i, j));
                    assert(s0[i][j] == old(domains)@[i][j]);
                }
            }
            if !r {
                return false;
            }
            proof {
                lemma_grid_total_nonneg(domains@);
                assert(5 * grid_total(domains@) + queue@.len() < m0);
                if was_seeded_pass {
                    assert(x == initial_x && y == initial_y);
                    seeded_pass_done = true;
                } else {
                    assert(diagonals_constrained(
                        rules@,
                        old(domains)@,
                        domains@,
                        initial_x as int,
                        initial_y as int,
                    )) by {
                        assert forall|xx: int, yy: int, c: int|
                            dg_interior(old(domains)@, xx, yy) && (xx == initial_x - 1 || xx
                                == initial_x + 1) && (yy == initial_y - 1 || yy == initial_y + 1)
                                && 0 <= c < 10 && #[trigger] domains@[xx][yy][c]
                            implies constrained_cell(rules@, old(domains)@, xx, yy)[c] by {
                            assert(domains@[xx].len() == domains@[0].len());
                            assert(domains@[xx][yy].len() == 10);
                            assert(s0[xx][yy][c]);
                        }
                    }
                }
            }
        } else {
            proof {
                assert(false);
            }
        }
    }
    true
}

} // verus!
