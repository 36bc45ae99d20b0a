use vstd::prelude::*;
use crate::grid::{Grid, Pair, grid_view, grid_dims_ok};
use crate::rules::{Direction, Rule, RuleSet};
use crate::domain::{
    count_true, dg_wf, dg_narrows, lemma_dg_narrows_trans, Domain, DomainGrid,
};
use crate::propagate::{propogate_changes, is_fixpoint};
use crate::search::{solve, dg_all_decided};

verus! {

// ---------------------------------------------------------------------------
// Seeding from the input frame
// ---------------------------------------------------------------------------

/// The candidates the Above rules admit over input symbol `c`.
pub open spec fn above_mask(rs: Set<Rule>, c: u8) -> Seq<bool> {
    Seq::new(10, |s: int| rs.contains(Rule(Direction::Above, s as u8, c)))
}

/// A cell's domain right after seeding from input symbol `c`: the Above
/// mask — unless that mask is empty, in which case the cell keeps the full
/// domain, a defensive fallback that lets an unseeded cell keep exploring
/// every symbol instead of failing the whole search at once.
pub open spec fn seeded_cell(rs: Set<Rule>, c: u8) -> Seq<bool> {
    if exists|s: int| 0 <= s < 10 && above_mask(rs, c)[s] {
        above_mask(rs, c)
    } else {
        Seq::new(10, |s: int| true)
    }
}

/// The whole board right after seeding, as a value.
pub open spec fn seeded_view(rs: Set<Rule>, inp: Seq<Seq<u8>>) -> Seq<Seq<Seq<bool>>> {
    Seq::new(inp.len(), |x: int| Seq::new(inp[0].len(), |y: int| seeded_cell(rs, inp[x][y])))
}

/// The seeded domain of one cell, as a value.
fn above_domain(rules: &RuleSet, c: u8) -> (d: Domain)
    requires
        rules.wf(),
    ensures
        d.wf(),
        d@ == seeded_cell(rules@, c),
{
    let mut d = Domain::uniform(false);
    let mut any = false;
    for s in 0..10usize
        invariant
            rules.wf(),
            d.wf(),
            forall|k: int| 0 <= k < s ==> #[trigger] d@[k] == above_mask(rules@, c)[k],
            forall|k: int| s <= k < 10 ==> !(#[trigger] d@[k]),
            any <==> exists|k: int| 0 <= k < s && above_mask(rules@, c)[k],
    {
        let hit = rules.contains(Rule(Direction::Above, s as u8, c));
        proof {
            assert(above_mask(rules@, c)[s as int] == hit);
        }
        d.set(s, hit);
        if hit {
            any = true;
            proof {
                assert(above_mask(rules@, c)[s as int]);
            }
        }
    }
    if any {
        proof {
            assert(d@ =~= above_mask(rules@, c));
        }
        d
    } else {
        let full = Domain::uniform(true);
        proof {
            if exists|s: int| 0 <= s < 10 && above_mask(rules@, c)[s] {
                let s = choose|s: int| 0 <= s < 10 && above_mask(rules@, c)[s];
                assert(false);
            }
            assert(full@ =~= seeded_cell(rules@, c));
        }
        full
    }
}

/// Seed a fresh domain grid from the test input: each cell's domain is
/// intersected with the symbols the Above rules admit over its input
/// symbol, keeping the full domain where no Above rule applies.
#[verifier::loop_isolation(false)]
pub fn seed_domains(rules: &RuleSet, input: &Grid) -> (dg: DomainGrid)
    requires
        rules.wf(),
        grid_dims_ok(grid_view(*input)),
    ensures
        dg.wf(),
        dg@.len() == grid_view(*input).len(),
        dg@[0].len() == grid_view(*input)[0].len(),
        forall|x: int, y: int|
            0 <= x < dg@.len() && 0 <= y < dg@[0].len() ==> #[trigger] dg@[x][y] == seeded_cell(
                rules@,
                grid_view(*input)[x][y],
            ),
        dg@ == seeded_view(rules@, grid_view(*input)),
{
    let ghost inp = grid_view(*input);
    let width = input.len();
    let height = input[0].len();
    let mut dg = DomainGrid::full(width, height);
    for x in 0..width
        invariant
            dg.wf(),
            dg@.len() == width,
            dg@[0].len() == height,
            forall|i: int, j: int|
                0 <= i < x && 0 <= j < height ==> #[trigger] dg@[i][j] == seeded_cell(
                    rules@,
                    inp[i][j],
                ),
            forall|i: int, j: int, c: int|
                x <= i < width && 0 <= j < height && 0 <= c < 10 ==> #[trigger] dg@[i][j][c],
    {
        for y in 0..height
            invariant
                dg.wf(),
                dg@.len() == width,
                dg@[0].len() == height,
                forall|i: int, j: int|
                    0 <= i < x && 0 <= j < height ==> #[trigger] dg@[i][j] == seeded_cell(
                        rules@,
                        inp[i][j],
                    ),
                forall|j: int|
                    0 <= j < y ==> #[trigger] dg@[x as int][j] == seeded_cell(
                        rules@,
                        inp[x as int][j],
                    ),
                forall|i: int, j: int, c: int|
                    x < i < width && 0 <= j < height && 0 <= c < 10 ==> #[trigger] dg@[i][j][c],
                forall|j: int, c: int|
                    y <= j < height && 0 <= c < 10 ==> #[trigger] dg@[x as int][j][c],
        {
            proof {
                assert(inp[x as int].len() == inp[0].len());
            }
            let c = input[x][y];
            proof {
                assert(c == inp[x as int][y as int]);
            }
            let d = above_domain(rules, c);
            dg.set_cell(x, y, d);
        }
    }
    proof {
        assert forall|x: int| 0 <= x < width implies dg@[x] =~= seeded_view(rules@, inp)[x] by {}
        assert(dg@ =~= seeded_view(rules@, inp));
    }
    dg
}

// ---------------------------------------------------------------------------
// Extraction: reading the final board off into a grid plus diagnostics
// ---------------------------------------------------------------------------

/// Tally of a column of cells: how many hold zero candidates
/// (contradictions), exactly one (collapsed), and more than one
/// (still ambiguous).
pub open spec fn col_tally(col: Seq<Seq<bool>>) -> (int, int, int)
    decreases col.len(),
{
    if col.len() == 0 {
        (0, 0, 0)
    } else {
        let rest = col_tally(col.drop_last());
        let c = count_true(col.last());
        if c == 0 {
            (rest.0 + 1, rest.1, rest.2)
        } else if c == 1 {
            (rest.0, rest.1 + 1, rest.2)
        } else {
            (rest.0, rest.1, rest.2 + 1)
        }
    }
}

/// Tally of a whole board: contradiction, collapsed and ambiguous cell
/// counts.
pub open spec fn grid_tally(v: Seq<Seq<Seq<bool>>>) -> (int, int, int)
    decreases v.len(),
{
    if v.len() == 0 {
        (0, 0, 0)
    } else {
        let rest = grid_tally(v.drop_last());
        let col = col_tally(v.last());
        (rest.0 + col.0, rest.1 + col.1, rest.2 + col.2)
    }
}

proof fn lemma_col_tally_nonneg(col: Seq<Seq<bool>>)
    ensures
        col_tally(col).0 >= 0,
        col_tally(col).1 >= 0,
        col_tally(col).2 >= 0,
    decreases col.len(),
{
    if col.len() > 0 {
        lemma_col_tally_nonneg(col.drop_last());
    }
}

proof fn lemma_grid_tally_nonneg(v: Seq<Seq<Seq<bool>>>)
    ensures
        grid_tally(v).0 >= 0,
        grid_tally(v).1 >= 0,
        grid_tally(v).2 >= 0,
    decreases v.len(),
{
    if v.len() > 0 {
        lemma_grid_tally_nonneg(v.drop_last());
        lemma_col_tally_nonneg(v.last());
    }
}

/// Every cell of a column is of exactly one kind.
proof fn lemma_col_tally_total(col: Seq<Seq<bool>>)
    ensures
        col_tally(col).0 + col_tally(col).1 + col_tally(col).2 == col.len(),
    decreases col.len(),
{
    if col.len() > 0 {
        lemma_col_tally_total(col.drop_last());
    }
}

proof fn lemma_grid_tally_total(v: Seq<Seq<Seq<bool>>>, h: int)
    requires
        forall|x: int| 0 <= x < v.len() ==> (#[trigger] v[x]).len() == h,
    ensures
        grid_tally(v).0 + grid_tally(v).1 + grid_tally(v).2 == v.len() * h,
    decreases v.len(),
{
    if v.len() > 0 {
        lemma_grid_tally_total(v.drop_last(), h);
        lemma_col_tally_total(v.last());
        assert((v.len() - 1) * h + h == v.len() * h) by (nonlinear_arith);
    }
}

/// Accounting: the contradiction, collapsed and ambiguous cell counts
/// together cover the whole board, whatever state it is in.
pub proof fn lemma_accounting(v: Seq<Seq<Seq<bool>>>)
    requires
        dg_wf(v),
    ensures
        grid_tally(v).0 + grid_tally(v).1 + grid_tally(v).2 == v.len() * v[0].len(),
{
    lemma_grid_tally_total(v, v[0].len() as int);
}

/// A column of collapsed cells tallies no contradictions and no
/// ambiguity.
proof fn lemma_col_tally_collapsed(col: Seq<Seq<bool>>)
    requires
        forall|j: int| 0 <= j < col.len() ==> count_true(#[trigger] col[j]) == 1,
    ensures
        col_tally(col).0 == 0,
        col_tally(col).2 == 0,
    decreases col.len(),
{
    if col.len() > 0 {
        assert forall|j: int| 0 <= j < col.drop_last().len() implies count_true(
            #[trigger] col.drop_last()[j],
        ) == 1 by {
            assert(count_true(col[j]) == 1);
        }
        lemma_col_tally_collapsed(col.drop_last());
    }
}

/// A board of collapsed cells tallies no contradictions and no
/// ambiguity.
proof fn lemma_grid_tally_collapsed(v: Seq<Seq<Seq<bool>>>)
    requires
        forall|x: int, y: int|
            0 <= x < v.len() && 0 <= y < v[x].len() ==> count_true(#[trigger] v[x][y]) == 1,
    ensures
        grid_tally(v).0 == 0,
        grid_tally(v).2 == 0,
    decreases v.len(),
{
    if v.len() > 0 {
        assert forall|x: int, y: int|
            0 <= x < v.drop_last().len() && 0 <= y < v.drop_last()[x].len() implies count_true(
            #[trigger] v.drop_last()[x][y],
        ) == 1 by {
            assert(count_true(v[x][y]) == 1);
        }
        lemma_grid_tally_collapsed(v.drop_last());
        assert forall|y: int| 0 <= y < v.last().len() implies count_true(#[trigger] v.last()[y])
            == 1 by {
            assert(count_true(v[v.len() - 1][y]) == 1);
        }
        lemma_col_tally_collapsed(v.last());
    }
}

proof fn lemma_col_tally_step(col: Seq<Seq<bool>>, j: int)
    requires
        0 <= j < col.len(),
    ensures
        col_tally(col.take(j + 1)) == {
            let rest = col_tally(col.take(j));
            let c = count_true(col[j]);
            if c == 0 {
                (rest.0 + 1, rest.1, rest.2)
            } else if c == 1 {
                (rest.0, rest.1 + 1, rest.2)
            } else {
                (rest.0, rest.1, rest.2 + 1)
            }
        },
{
    assert(col.take(j + 1).drop_last() =~= col.take(j));
    assert(col.take(j + 1).last() == col[j]);
}

proof fn lemma_grid_tally_step(v: Seq<Seq<Seq<bool>>>, x: int)
    requires
        0 <= x < v.len(),
    ensures
        grid_tally(v.take(x + 1)) == {
            let rest = grid_tally(v.take(x));
            let col = col_tally(v[x]);
            (rest.0 + col.0, rest.1 + col.1, rest.2 + col.2)
        },
{
    assert(v.take(x + 1).drop_last() =~= v.take(x));
    assert(v.take(x + 1).last() == v[x]);
}

/// The partial counts over the processed prefix stay under the board's
/// cell count.
proof fn lemma_prefix_tally_bound(v: Seq<Seq<Seq<bool>>>, x: int, y: int)
    requires
        dg_wf(v),
        0 <= x < v.len(),
        0 <= y < v[0].len(),
    ensures
        0 <= grid_tally(v.take(x)).0 + col_tally(v[x].take(y)).0 <= x * v[0].len() + y,
        0 <= grid_tally(v.take(x)).1 + col_tally(v[x].take(y)).1 <= x * v[0].len() + y,
        0 <= grid_tally(v.take(x)).2 + col_tally(v[x].take(y)).2 <= x * v[0].len() + y,
        x * v[0].len() + y < v.len() * v[0].len(),
{
    let h = v[0].len() as int;
    assert(v[x].len() == h);
    assert forall|i: int| 0 <= i < v.take(x).len() implies (#[trigger] v.take(x)[i]).len()
        == h by {
        assert(v[i].len() == h);
    }
    lemma_grid_tally_total(v.take(x), h);
    lemma_grid_tally_nonneg(v.take(x));
    lemma_col_tally_total(v[x].take(y));
    lemma_col_tally_nonneg(v[x].take(y));
    assert(x * h + y <= (v.len() - 1) * h + (h - 1) && (v.len() - 1) * h + (h - 1) < v.len() * h)
        by (nonlinear_arith)
        requires
            0 <= x < v.len(),
            0 <= y < h,
            h > 0,
    ;
}

/// How one extraction pass relates the final board, the grid it was handed
/// and the grid it returns: a collapsed cell's unique surviving symbol is
/// written out; every other cell keeps the sentinel it arrived with.
pub open spec fn extraction_ok(
    sv: Seq<Seq<Seq<bool>>>,
    before: Seq<Seq<u8>>,
    after: Seq<Seq<u8>>,
) -> bool {
    &&& after.len() == before.len()
    &&& forall|x: int| 0 <= x < after.len() ==> (#[trigger] after[x]).len() == before[x].len()
    &&& forall|x: int, y: int|
        #![trigger sv[x][y]]
        0 <= x < sv.len() && 0 <= y < sv[0].len() ==> {
            &&& (count_true(sv[x][y]) == 1 ==> after[x][y] < 10 && sv[x][y][after[x][y] as int])
            &&& (count_true(sv[x][y]) != 1 ==> after[x][y] == before[x][y])
        }
}

/// What `deduce` hands back: the best-effort output grid plus the two
/// diagnostic counts. A partial result is a valid outcome; "no solution"
/// is reported through the counts, never as an error.
pub struct Deduction {
    pub output: Pair,
    pub uncollapsed_tile_count: usize,
    pub no_solution_count: usize,
}

/// Convert the final domain grid into a concrete output grid: write each
/// collapsed cell's symbol, leave every contradictory or still-ambiguous
/// cell at its sentinel, and count both kinds.
#[verifier::loop_isolation(false)]
pub fn extract(test: Pair, solution: &DomainGrid) -> (d: Deduction)
    requires
        solution.wf(),
        grid_dims_ok(grid_view(test.output)),
        grid_view(test.output).len() == solution@.len(),
        grid_view(test.output)[0].len() == solution@[0].len(),
        solution@.len() * solution@[0].len() <= usize::MAX,
    ensures
        d.output.input == test.input,
        extraction_ok(solution@, grid_view(test.output), grid_view(d.output.output)),
        d.no_solution_count == grid_tally(solution@).0,
        d.uncollapsed_tile_count == grid_tally(solution@).2,
{
    let ghost sv = solution@;
    let ghost out0 = grid_view(test.output);
    let mut result = test;
    let mut uncollapsed_tile_count: usize = 0;
    let mut no_solution_count: usize = 0;
    let width = solution.width();
    let height = solution.height();
    for x in 0..width
        invariant
            result.input == test.input,
            grid_view(result.output).len() == out0.len(),
            forall|i: int|
                0 <= i < out0.len() ==> (#[trigger] grid_view(result.output)[i]).len()
                    == out0[i].len(),
            forall|i: int, j: int|
                #![trigger sv[i][j]]
                0 <= i < x && 0 <= j < height ==> {
                    &&& (count_true(sv[i][j]) == 1 ==> grid_view(result.output)[i][j] < 10
                        && sv[i][j][grid_view(result.output)[i][j] as int])
                    &&& (count_true(sv[i][j]) != 1 ==> grid_view(result.output)[i][j]
                        == out0[i][j])
                },
            forall|i: int, j: int|
                0 <= i < out0.len() && 0 <= j < out0[i].len() && i >= x ==> grid_view(
                    result.output,
                )[i][j] == out0[i][j],
            no_solution_count == grid_tally(sv.take(x as int)).0,
            uncollapsed_tile_count == grid_tally(sv.take(x as int)).2,
    {
        for y in 0..height
            invariant
                result.input == test.input,
                grid_view(result.output).len() == out0.len(),
                forall|i: int|
                    0 <= i < out0.len() ==> (#[trigger] grid_view(result.output)[i]).len()
                        == out0[i].len(),
                forall|i: int, j: int|
                    #![trigger sv[i][j]]
                    0 <= i < x && 0 <= j < height ==> {
                        &&& (count_true(sv[i][j]) == 1 ==> grid_view(result.output)[i][j] < 10
                            && sv[i][j][grid_view(result.output)[i][j] as int])
                        &&& (count_true(sv[i][j]) != 1 ==> grid_view(result.output)[i][j]
                            == out0[i][j])
                    },
                forall|j: int|
                    #![trigger sv[x as int][j]]
                    0 <= j < y ==> {
                        &&& (count_true(sv[x as int][j]) == 1 ==> grid_view(result.output)[x as int][j]
                            < 10 && sv[x as int][j][grid_view(result.output)[x as int][j] as int])
                        &&& (count_true(sv[x as int][j]) != 1 ==> grid_view(result.output)[x as int][j]
                            == out0[x as int][j])
                    },
                forall|i: int, j: int|
                    0 <= i < out0.len() && 0 <= j < out0[i].len() && (i > x || (i == x && j >= y))
                        ==> grid_view(result.output)[i][j] == out0[i][j],
                no_solution_count == grid_tally(sv.take(x as int)).0 + col_tally(
                    sv[x as int].take(y as int),
                ).0,
                uncollapsed_tile_count == grid_tally(sv.take(x as int)).2 + col_tally(
                    sv[x as int].take(y as int),
                ).2,
        {
            proof {
                assert(sv[x as int].len() == sv[0].len());
                assert(out0[x as int].len() == out0[0].len());
                lemma_prefix_tally_bound(sv, x as int, y as int);
                lemma_col_tally_step(sv[x as int], y as int);
            }
            let entropy = solution.cardinality_at(x, y);
            if entropy == 0 {
                no_solution_count = no_solution_count + 1;
            } else if entropy > 1 {
                uncollapsed_tile_count = uncollapsed_tile_count + 1;
            } else {
                let ghost before = grid_view(result.output);
                let symbol = solution.domain_at(x, y).unique_symbol();
                result.output[x][y] = symbol;
                proof {
                    assert forall|i: int|
                        0 <= i < out0.len() implies (#[trigger] grid_view(result.output)[i]).len()
                        == out0[i].len() by {
                        assert(before[i].len() == out0[i].len());
                    }
                    assert forall|i: int, j: int|
                        0 <= i < out0.len() && 0 <= j < out0[i].len() && !(i == x as int && j
                            == y as int) implies grid_view(result.output)[i][j] == before[i][j] by {}
                }
            }
        }
        proof {
            lemma_grid_tally_step(sv, x as int);
            assert(sv[x as int].take(sv[x as int].len() as int) =~= sv[x as int]);
        }
    }
    proof {
        assert(sv.take(sv.len() as int) =~= sv);
    }
    Deduction { output: result, uncollapsed_tile_count, no_solution_count }
}

// ---------------------------------------------------------------------------
// The deduction entry point
// ---------------------------------------------------------------------------

/// Every candidate the board still holds was admitted by the seeding.
pub open spec fn narrows_seeded(
    rs: Set<Rule>,
    inp: Seq<Seq<u8>>,
    v: Seq<Seq<Seq<bool>>>,
) -> bool {
    forall|x: int, y: int, c: int|
        0 <= x < v.len() && 0 <= y < v[0].len() && 0 <= c < 10 && #[trigger] v[x][y][c]
            ==> seeded_cell(rs, inp[x][y])[c]
}

/// The input frame alone already decides the board: every cell's seeded
/// domain holds exactly one symbol, and the seeded board is a fixpoint
/// of propagation. On such boards the whole run is forced.
pub open spec fn seeding_decides(rs: Set<Rule>, inp: Seq<Seq<u8>>) -> bool {
    &&& is_fixpoint(rs, seeded_view(rs, inp))
    &&& forall|x: int, y: int|
        0 <= x < inp.len() && 0 <= y < inp[0].len() ==> count_true(
            #[trigger] seeded_view(rs, inp)[x][y],
        ) == 1
}

/// Solve one test pair against an induced rule set: seed the domains from
/// the input frame, propagate every cell once, search the remaining
/// ambiguity under the iteration budget, and read the final board off into
/// the output grid plus diagnostic counts. The result is best-effort:
/// contradictions and leftover ambiguity are reported through the counts,
/// and the affected cells keep the sentinel the output grid arrived with.
#[verifier::loop_isolation(false)]
pub fn deduce(test: Pair, rules: &RuleSet) -> (d: Deduction)
    requires
        rules.wf(),
        grid_dims_ok(grid_view(test.input)),
        grid_dims_ok(grid_view(test.output)),
        grid_view(test.output).len() == grid_view(test.input).len(),
        grid_view(test.output)[0].len() == grid_view(test.input)[0].len(),
        grid_view(test.input).len() * grid_view(test.input)[0].len() <= usize::MAX,
    ensures
        d.output.input == test.input,
        exists|v: Seq<Seq<Seq<bool>>>|
            {
                &&& dg_wf(v)
                &&& v.len() == grid_view(test.input).len()
                &&& v[0].len() == grid_view(test.input)[0].len()
                &&& narrows_seeded(rules@, grid_view(test.input), v)
                &&& extraction_ok(v, grid_view(test.output), grid_view(d.output.output))
                &&& d.no_solution_count == grid_tally(v).0
                &&& d.uncollapsed_tile_count == grid_tally(v).2
            },
        d.no_solution_count + d.uncollapsed_tile_count <= grid_view(test.input).len() * grid_view(
            test.input,
        )[0].len(),
        seeding_decides(rules@, grid_view(test.input)) ==> {
            &&& d.no_solution_count == 0
            &&& d.uncollapsed_tile_count == 0
            &&& forall|x: int, y: int|
                0 <= x < grid_view(test.input).len() && 0 <= y < grid_view(test.input)[0].len()
                    ==> ((#[trigger] grid_view(d.output.output)[x][y]) < 10 && seeded_cell(
                    rules@,
                    grid_view(test.input)[x][y],
                )[grid_view(d.output.output)[x][y] as int])
        },
{
    let ghost inp = grid_view(test.input);
    let width = test.input.len();
    let height = test.input[0].len();

    // Applies constraints from the input frame.
    let mut domains = seed_domains(rules, &test.input);
    let ghost seeded = domains@;

    // Propagates changes for the freshly seeded domains. A contradiction
    // here is recoverable: the empty cells survive into extraction, which
    // reports them.
    for x in 0..width
        invariant
            domains.wf(),
            domains@.len() == width,
            domains@[0].len() == height,
            dg_narrows(domains@, seeded),
            seeding_decides(rules@, inp) ==> domains@ == seeded,
    {
        for y in 0..height
            invariant
                domains.wf(),
                domains@.len() == width,
                domains@[0].len() == height,
                dg_narrows(domains@, seeded),
                seeding_decides(rules@, inp) ==> domains@ == seeded,
        {
            let ghost pre = domains@;
            propogate_changes(rules, &mut domains, x, y);
            proof {
                lemma_dg_narrows_trans(domains@, pre, seeded);
            }
        }
    }

    // Finds a solution within the iteration budget.
    let mut iterations: usize = 0;
    let ghost propagated = domains@;
    proof {
        if seeding_decides(rules@, inp) {
            assert(dg_all_decided(propagated));
        }
    }
    let solution = match solve(rules, domains, &mut iterations) {
        Some(s) => {
            proof {
                lemma_dg_narrows_trans(s@, propagated, seeded);
            }
            s
        },
        None => DomainGrid::uniform(width, height, false),
    };
    proof {
        assert(narrows_seeded(rules@, inp, solution@));
        lemma_accounting(solution@);
        lemma_grid_tally_nonneg(solution@);
        if seeding_decides(rules@, inp) {
            assert(solution@ == seeded);
            assert forall|x: int, y: int|
                0 <= x < solution@.len() && 0 <= y < solution@[x].len() implies count_true(
                #[trigger] solution@[x][y],
            ) == 1 by {
                assert(solution@[x].len() == solution@[0].len());
                assert(count_true(seeded_view(rules@, inp)[x][y]) == 1);
            }
            lemma_grid_tally_collapsed(solution@);
        }
    }

    // Converts the solution domains into a grid.
    let d = extract(test, &solution);
    proof {
        let ghost v = solution@;
        assert(dg_wf(v) && narrows_seeded(rules@, inp, v) && extraction_ok(
            v,
            grid_view(test.output),
            grid_view(d.output.output),
        ) && d.no_solution_count == grid_tally(v).0 && d.uncollapsed_tile_count == grid_tally(
            v,
        ).2);
        if seeding_decides(rules@, inp) {
            assert forall|x: int, y: int|
                0 <= x < inp.len() && 0 <= y < inp[0].len() implies ((#[trigger] grid_view(
                d.output.output,
            )[x][y]) < 10 && seeded_cell(rules@, inp[x][y])[grid_view(d.output.output)[x][y] as int]) by {
                assert(count_true(v[x][y]) == 1);
                assert(v[x][y] == seeded_cell(rules@, inp[x][y]));
            }
        }
    }
    d
}

} // verus!
