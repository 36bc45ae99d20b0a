use vstd::prelude::*;
use crate::grid::{Pair, grid_view, grid_dims_ok, grid_symbols_ok, same_dims};

verus! {

// ---------------------------------------------------------------------------
// Symbol frequencies
// ---------------------------------------------------------------------------

/// How often symbol `c` occurs in one column.
pub open spec fn count_sym_col(col: Seq<u8>, c: int) -> int
    decreases col.len(),
{
    if col.len() == 0 {
        0
    } else {
        count_sym_col(col.drop_last(), c) + if col.last() as int == c {
            1int
        } else {
            0int
        }
    }
}

/// How often symbol `c` occurs in a grid.
pub open spec fn count_sym(g: Seq<Seq<u8>>, c: int) -> int
    decreases g.len(),
{
    if g.len() == 0 {
        0
    } else {
        count_sym(g.drop_last(), c) + count_sym_col(g.last(), c)
    }
}

proof fn lemma_count_sym_col_step(col: Seq<u8>, j: int, c: int)
    requires
        0 <= j < col.len(),
    ensures
        count_sym_col(col.take(j + 1), c) == count_sym_col(col.take(j), c) + if col[j] as int
            == c {
            1int
        } else {
            0int
        },
{
    assert(col.take(j + 1).drop_last() =~= col.take(j));
    assert(col.take(j + 1).last() == col[j]);
}

proof fn lemma_count_sym_step(g: Seq<Seq<u8>>, x: int, c: int)
    requires
        0 <= x < g.len(),
    ensures
        count_sym(g.take(x + 1), c) == count_sym(g.take(x), c) + count_sym_col(g[x], c),
{
    assert(g.take(x + 1).drop_last() =~= g.take(x));
    assert(g.take(x + 1).last() == g[x]);
}

proof fn lemma_count_sym_col_bound(col: Seq<u8>, c: int)
    ensures
        0 <= count_sym_col(col, c) <= col.len(),
    decreases col.len(),
{
    if col.len() > 0 {
        lemma_count_sym_col_bound(col.drop_last(), c);
    }
}

proof fn lemma_count_sym_bound(g: Seq<Seq<u8>>, c: int, h: int)
    requires
        forall|x: int| 0 <= x < g.len() ==> (#[trigger] g[x]).len() <= h,
        h >= 0,
    ensures
        0 <= count_sym(g, c) <= g.len() * h,
    decreases g.len(),
{
    if g.len() > 0 {
        assert forall|x: int| 0 <= x < g.drop_last().len() implies (#[trigger] g.drop_last()[x]).len()
            <= h by {
            assert(g[x].len() <= h);
        }
        lemma_count_sym_bound(g.drop_last(), c, h);
        lemma_count_sym_col_bound(g.last(), c);
        assert((g.len() - 1) * h + h == g.len() * h) by (nonlinear_arith);
    }
}

// ---------------------------------------------------------------------------
// The canonical color ordering
// ---------------------------------------------------------------------------

/// Symbol `a` comes before symbol `b`: rarer in the grid, ties broken by
/// ascending symbol value.
pub open spec fn color_key_lt(g: Seq<Seq<u8>>, a: int, b: int) -> bool {
    ||| count_sym(g, a) < count_sym(g, b)
    ||| (count_sym(g, a) == count_sym(g, b) && a < b)
}

/// `ord` is the frequency-ranked ordering of the ten symbols for grid
/// `g`: a permutation of `0..10`, ascending by occurrence count with ties
/// by symbol value. The order is unique for a given grid.
pub open spec fn is_color_order(g: Seq<Seq<u8>>, ord: Seq<u8>) -> bool {
    &&& ord.len() == 10
    &&& forall|i: int| 0 <= i < 10 ==> (#[trigger] ord[i]) < 10
    &&& forall|i: int, j: int|
        0 <= i < j < 10 ==> color_key_lt(g, #[trigger] ord[i] as int, #[trigger] ord[j] as int)
    &&& forall|c: u8| c < 10 ==> #[trigger] ord.contains(c)
}

/// Whether symbol `a` must come after symbol `b` under the frequency
/// order, given the tabulated counts.
fn out_of_order(counts: &Vec<usize>, a: u8, b: u8) -> (r: bool)
    requires
        counts@.len() == 10,
        a < 10,
        b < 10,
    ensures
        r == (counts@[a as int] > counts@[b as int] || (counts@[a as int] == counts@[b as int]
            && a > b)),
{
    counts[a as usize] > counts[b as usize] || (counts[a as usize] == counts[b as usize] && a > b)
}

/// Two sequences with the same multiset and no duplicated values on one
/// side have none on the other.
proof fn lemma_ms_equal_distinct(init: Seq<u8>, s: Seq<u8>)
    requires
        init.no_duplicates(),
        s.to_multiset() == init.to_multiset(),
    ensures
        s.no_duplicates(),
{
    init.lemma_multiset_has_no_duplicates();
    s.lemma_multiset_has_no_duplicates_conv();
}

/// Compute the frequency-ranked symbol ordering of a pair's input grid.
/// Only the input grid is counted.
#[verifier::loop_isolation(false)]
#[verifier::rlimit(60)]
pub fn color_ordering(pair: &Pair) -> (order: Vec<u8>)
    requires
        grid_dims_ok(grid_view(pair.input)),
        grid_symbols_ok(grid_view(pair.input)),
        grid_view(pair.input).len() * grid_view(pair.input)[0].len() <= usize::MAX,
    ensures
        is_color_order(grid_view(pair.input), order@),
{
    let ghost g = grid_view(pair.input);
    let width = pair.input.len();
    let height = pair.input[0].len();

    // Count how often each symbol occurs in the input grid.
    let mut counts: Vec<usize> = Vec::new();
    for c in 0..10usize
        invariant
            counts@.len() == c,
            forall|k: int| 0 <= k < c ==> #[trigger] counts@[k] == 0,
    {
        counts.push(0);
    }
    for x in 0..width
        invariant
            counts@.len() == 10,
            forall|k: int| 0 <= k < 10 ==> #[trigger] counts@[k] == count_sym(g.take(x as int), k),
    {
        for y in 0..height
            invariant
                counts@.len() == 10,
                forall|k: int|
                    0 <= k < 10 ==> #[trigger] counts@[k] == count_sym(g.take(x as int), k)
                        + count_sym_col(g[x as int].take(y as int), k),
        {
            proof {
                assert(g[x as int].len() == g[0].len());
            }
            let sym = pair.input[x][y];
            proof {
                assert(sym == g[x as int][y as int]);
                assert(sym < 10);
                assert forall|k: int| 0 <= k < 10 implies count_sym(g.take(x as int), k)
                    + count_sym_col(g[x as int].take(y as int), k) <= x as int * g[0].len()
                    + y as int by {
                    assert forall|i: int| 0 <= i < g.take(x as int).len() implies (#[trigger] g.take(
                        x as int,
                    )[i]).len() <= g[0].len() by {
                        assert(g[i].len() == g[0].len());
                    }
                    lemma_count_sym_bound(g.take(x as int), k, g[0].len() as int);
                    lemma_count_sym_col_bound(g[x as int].take(y as int), k);
                }
                assert(((x as int) * (g[0].len() as int) + (y as int)) < (g.len() as int) * (
                g[0].len() as int)) by (nonlinear_arith)
                    requires
                        0 <= (x as int) < g.len(),
                        0 <= (y as int) < g[0].len(),
                ;
                lemma_count_sym_col_step(g[x as int], y as int, sym as int);
                assert forall|k: int| 0 <= k < 10 && k != sym as int implies count_sym_col(
                    g[x as int].take(y as int + 1),
                    k,
                ) == count_sym_col(g[x as int].take(y as int), k) by {
                    lemma_count_sym_col_step(g[x as int], y as int, k);
                }
            }
            let current = counts[sym as usize];
            counts[sym as usize] = current + 1;
        }
        proof {
            assert(g[x as int].take(g[x as int].len() as int) =~= g[x as int]);
            assert forall|k: int| 0 <= k < 10 implies count_sym(g.take(x as int), k)
                + count_sym_col(g[x as int], k) == count_sym(g.take(x as int + 1), k) by {
                lemma_count_sym_step(g, x as int, k);
            }
        }
    }
    proof {
        assert(g.take(g.len() as int) =~= g);
    }

    // The ten symbols, stable-sorted ascending by (count, symbol).
    let mut order: Vec<u8> = Vec::new();
    for c in 0..10usize
        invariant
            order@.len() == c,
            forall|k: int| 0 <= k < c ==> #[trigger] order@[k] as int == k,
    {
        order.push(c as u8);
    }
    let ghost init = order@;
    proof {
        assert(init.no_duplicates());
    }
    for i in 1..10usize
        invariant
            order@.len() == 10,
            order@.to_multiset() == init.to_multiset(),
            forall|k: int| 0 <= k < 10 ==> (#[trigger] order@[k]) < 10,
            forall|k: int| 0 <= k < 10 ==> #[trigger] counts@[k] == count_sym(g, k),
            forall|a: int, b: int|
                0 <= a < b < i ==> (color_key_lt(g, #[trigger] order@[a] as int, #[trigger] order@[b] as int)
                    || order@[a] == order@[b]),
    {
        let mut j = i;
        while j > 0 && out_of_order(&counts, order[j - 1], order[j])
            invariant
                counts@.len() == 10,
                j <= i,
                order@.len() == 10,
                order@.to_multiset() == init.to_multiset(),
                forall|k: int| 0 <= k < 10 ==> (#[trigger] order@[k]) < 10,
                forall|a: int, b: int|
                    0 <= a < b <= i && b != j ==> (color_key_lt(
                        g,
                        #[trigger] order@[a] as int,
                        #[trigger] order@[b] as int,
                    ) || order@[a] == order@[b]),
            decreases j,
        {
            let ghost pre = order@;
            let prev = order[j - 1];
            let cur = order[j];
            order[j - 1] = cur;
            order[j] = prev;
            proof {
                broadcast use vstd::seq_lib::group_to_multiset_ensures;

                assert(order@ == pre.update(j - 1, cur).update(j as int, prev));
                assert(pre.update(j - 1, cur)[j as int] == cur);
                assert(order@.to_multiset() =~= pre.to_multiset());
            }
            j = j - 1;
        }
    }
    proof {
        lemma_ms_equal_distinct(init, order@);
        assert forall|a: int, b: int| 0 <= a < b < 10 implies color_key_lt(
            g,
            order@[a] as int,
            order@[b] as int,
        ) by {
            assert(order@[a] != order@[b]);
        }
        broadcast use vstd::seq_lib::group_to_multiset_ensures;

        assert forall|c: u8| c < 10 implies order@.contains(c) by {
            assert(init[c as int] == c);
            assert(init.contains(c));
            assert(order@.to_multiset().count(c) > 0);
        }
    }
    order
}

// ---------------------------------------------------------------------------
// Remapping a pair through a target ordering
// ---------------------------------------------------------------------------

/// Where symbol `c` sits in an ordering.
pub open spec fn rank_in(ord: Seq<u8>, c: u8) -> int {
    choose|i: int| 0 <= i < ord.len() && ord[i] == c
}

/// A usable remap target: ten entries, all symbols.
pub open spec fn ordering_ok(ord: Seq<u8>) -> bool {
    &&& ord.len() == 10
    &&& forall|i: int| 0 <= i < 10 ==> (#[trigger] ord[i]) < 10
}

/// Remap both grids of a pair consistently: each symbol is replaced by
/// the entry of `ordering` at the symbol's rank in the pair's own
/// frequency order. Recoloring a pair into a shared ordering before
/// induction and deduction lets rules generalize across tasks that use
/// arbitrary symbol assignments for structurally equivalent roles.
#[verifier::loop_isolation(false)]
#[verifier::rlimit(60)]
pub fn recolor(pair: &mut Pair, ordering: &Vec<u8>)
    requires
        grid_dims_ok(grid_view(old(pair).input)),
        grid_symbols_ok(grid_view(old(pair).input)),
        grid_symbols_ok(grid_view(old(pair).output)),
        same_dims(grid_view(old(pair).output), grid_view(old(pair).input)),
        grid_view(old(pair).input).len() * grid_view(old(pair).input)[0].len() <= usize::MAX,
        ordering_ok(ordering@),
    ensures
        same_dims(grid_view(final(pair).input), grid_view(old(pair).input)),
        same_dims(grid_view(final(pair).output), grid_view(old(pair).output)),
        exists|own: Seq<u8>|
            {
                &&& is_color_order(grid_view(old(pair).input), own)
                &&& forall|x: int, y: int|
                    0 <= x < grid_view(old(pair).input).len() && 0 <= y < grid_view(
                        old(pair).input,
                    )[x].len() ==> #[trigger] grid_view(final(pair).input)[x][y] == ordering@[rank_in(
                        own,
                        grid_view(old(pair).input)[x][y],
                    )]
                &&& forall|x: int, y: int|
                    0 <= x < grid_view(old(pair).output).len() && 0 <= y < grid_view(
                        old(pair).output,
                    )[x].len() ==> #[trigger] grid_view(final(pair).output)[x][y] == ordering@[rank_in(
                        own,
                        grid_view(old(pair).output)[x][y],
                    )]
            },
{
    let ghost in0 = grid_view(old(pair).input);
    let ghost out0 = grid_view(old(pair).output);

    // The pair's own frequency order, and its inverse: symbol -> rank.
    let own = color_ordering(pair);
    let mut inv: Vec<u8> = Vec::new();
    for c in 0..10usize
        invariant
            inv@.len() == c,
            forall|k: int| 0 <= k < c ==> (#[trigger] inv@[k]) < 10,
    {
        inv.push(0);
    }
    for i in 0..10usize
        invariant
            inv@.len() == 10,
            forall|k: int| 0 <= k < 10 ==> (#[trigger] inv@[k]) < 10,
            forall|k: int| 0 <= k < i ==> inv@[(#[trigger] own@[k]) as int] as int == k,
    {
        let ghost pre = inv@;
        let sym = own[i];
        inv[sym as usize] = i as u8;
        proof {
            assert forall|k: int| 0 <= k < i + 1 implies inv@[(#[trigger] own@[k]) as int] as int
                == k by {
                if k < i && own@[k] == own@[i as int] {
                    assert(color_key_lt(in0, own@[k] as int, own@[i as int] as int));
                }
            }
        }
    }
    proof {
        assert forall|c: u8| c < 10 implies 0 <= rank_in(own@, c) < 10 && inv@[c as int] as int
            == rank_in(own@, c) by {
            assert(own@.contains(c));
            let r = rank_in(own@, c);
            assert(own@[r] == c);
            assert(inv@[own@[r] as int] as int == r);
        }
    }

    // Remap every cell of both grids.
    let width = pair.input.len();
    let height = pair.input[0].len();
    for x in 0..width
        invariant
            inv@.len() == 10,
            forall|k: int| 0 <= k < 10 ==> (#[trigger] inv@[k]) < 10,
            forall|c: u8| c < 10 ==> (0 <= rank_in(own@, c) < 10 && inv@[c as int] as int
                == #[trigger] rank_in(own@, c)),
            same_dims(grid_view(pair.input), in0),
            same_dims(grid_view(pair.output), out0),
            forall|i: int, j: int|
                0 <= i < x && 0 <= j < in0[i].len() ==> #[trigger] grid_view(pair.input)[i][j]
                    == ordering@[rank_in(own@, in0[i][j])],
            forall|i: int, j: int|
                0 <= i < x && 0 <= j < out0[i].len() ==> #[trigger] grid_view(pair.output)[i][j]
                    == ordering@[rank_in(own@, out0[i][j])],
            forall|i: int, j: int|
                x <= i < in0.len() && 0 <= j < in0[i].len() ==> #[trigger] grid_view(pair.input)[i][j]
                    == in0[i][j],
            forall|i: int, j: int|
                x <= i < out0.len() && 0 <= j < out0[i].len() ==> #[trigger] grid_view(
                    pair.output,
                )[i][j] == out0[i][j],
    {
        for y in 0..height
            invariant
                inv@.len() == 10,
                forall|k: int| 0 <= k < 10 ==> (#[trigger] inv@[k]) < 10,
                forall|c: u8| c < 10 ==> (0 <= rank_in(own@, c) < 10 && inv@[c as int] as int
                    == #[trigger] rank_in(own@, c)),
                same_dims(grid_view(pair.input), in0),
                same_dims(grid_view(pair.output), out0),
                forall|i: int, j: int|
                    0 <= i < x && 0 <= j < in0[i].len() ==> #[trigger] grid_view(pair.input)[i][j]
                        == ordering@[rank_in(own@, in0[i][j])],
                forall|i: int, j: int|
                    0 <= i < x && 0 <= j < out0[i].len() ==> #[trigger] grid_view(pair.output)[i][j]
                        == ordering@[rank_in(own@, out0[i][j])],
                forall|j: int|
                    0 <= j < y ==> #[trigger] grid_view(pair.input)[x as int][j] == ordering@[rank_in(
                        own@,
                        in0[x as int][j],
                    )],
                forall|j: int|
                    0 <= j < y ==> #[trigger] grid_view(pair.output)[x as int][j] == ordering@[rank_in(
                        own@,
                        out0[x as int][j],
                    )],
                forall|i: int, j: int|
                    0 <= i < in0.len() && 0 <= j < in0[i].len() && (i > x || (i == x && j >= y))
                        ==> #[trigger] grid_view(pair.input)[i][j] == in0[i][j],
                forall|i: int, j: int|
                    0 <= i < out0.len() && 0 <= j < out0[i].len() && (i > x || (i == x && j >= y))
                        ==> #[trigger] grid_view(pair.output)[i][j] == out0[i][j],
        {
            proof {
                assert(in0[x as int].len() == in0[0].len());
                assert(out0[x as int].len() == in0[x as int].len());
                assert(grid_view(pair.input)[x as int].len() == in0[x as int].len());
                assert(grid_view(pair.output)[x as int].len() == out0[x as int].len());
                assert(grid_view(pair.input)[x as int][y as int] == in0[x as int][y as int]);
                assert(grid_view(pair.output)[x as int][y as int] == out0[x as int][y as int]);
            }
            let ghost pre_in = grid_view(pair.input);
            let ic = pair.input[x][y];
            proof {
                assert(ic == in0[x as int][y as int]);
                assert(ic < 10);
            }
            let ri = inv[ic as usize];
            pair.input[x][y] = ordering[ri as usize];
            proof {
                assert forall|i: int| 0 <= i < in0.len() implies (#[trigger] grid_view(
                    pair.input,
                )[i]).len() == in0[i].len() by {
                    assert(pre_in[i].len() == in0[i].len());
                }
                assert forall|i: int, j: int|
                    0 <= i < in0.len() && 0 <= j < in0[i].len() && !(i == x as int && j
                        == y as int) implies #[trigger] grid_view(pair.input)[i][j] == pre_in[i][j] by {}
            }
            let ghost pre_out = grid_view(pair.output);
            let oc = pair.output[x][y];
            proof {
                assert(oc == out0[x as int][y as int]);
                assert(oc < 10);
            }
            let ro = inv[oc as usize];
            pair.output[x][y] = ordering[ro as usize];
            proof {
                assert forall|i: int| 0 <= i < out0.len() implies (#[trigger] grid_view(
                    pair.output,
                )[i]).len() == out0[i].len() by {
                    assert(pre_out[i].len() == out0[i].len());
                }
                assert forall|i: int, j: int|
                    0 <= i < out0.len() && 0 <= j < out0[i].len() && !(i == x as int && j
                        == y as int) implies #[trigger] grid_view(pair.output)[i][j] == pre_out[i][j] by {}
            }
        }
    }
    proof {
        let own_v = own@;
        assert(is_color_order(in0, own_v) && (forall|x: int, y: int|
            0 <= x < in0.len() && 0 <= y < in0[x].len() ==> #[trigger] grid_view(pair.input)[x][y]
                == ordering@[rank_in(own_v, in0[x][y])]) && (forall|x: int, y: int|
            0 <= x < out0.len() && 0 <= y < out0[x].len() ==> #[trigger] grid_view(pair.output)[x][y]
                == ordering@[rank_in(own_v, out0[x][y])]));
    }
}

} // verus!
