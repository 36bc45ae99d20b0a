use vstd::prelude::*;
use crate::grid::{Pair, grid_view};

verus! {

/// The relation a rule speaks about. North, West, South and East relate a
/// cell of the output grid to its spatial neighbor in the same grid; Above
/// relates a cell's output symbol to the input symbol of the same cell, a
/// layer relation rather than a spatial one.
#[derive(Clone, Copy, Debug, PartialEq, Eq, Structural)]
pub enum Direction {
    North,
    West,
    South,
    East,
    Above,
}

/// `Rule(d, a, b)` states that symbol `a` may legally appear with symbol
/// `b` in direction `d`.
#[derive(Clone, Copy, Debug, PartialEq, Eq, Structural)]
pub struct Rule(pub Direction, pub u8, pub u8);

/// Both symbols of the rule are drawn from the ten-symbol alphabet.
pub open spec fn rule_valid(r: Rule) -> bool {
    r.1 < 10 && r.2 < 10
}

/// An explicit Direction-to-index mapping; the encoding does not lean on
/// declaration order.
pub open spec fn direction_index(d: Direction) -> int {
    match d {
        Direction::North => 0,
        Direction::West => 1,
        Direction::South => 2,
        Direction::East => 3,
        Direction::Above => 4,
    }
}

/// Where a valid rule lives in the membership table.
pub open spec fn rule_slot(r: Rule) -> int {
    direction_index(r.0) * 100 + r.1 * 10 + r.2
}

/// Distinct valid rules occupy distinct table slots.
proof fn lemma_rule_slot_injective(r1: Rule, r2: Rule)
    requires
        rule_valid(r1),
        rule_valid(r2),
        rule_slot(r1) == rule_slot(r2),
    ensures
        r1 == r2,
{
    assert(direction_index(r1.0) == direction_index(r2.0));
    assert(r1.0 == r2.0);
}

fn direction_slot(d: Direction) -> (i: usize)
    ensures
        i == direction_index(d),
{
    match d {
        Direction::North => 0,
        Direction::West => 1,
        Direction::South => 2,
        Direction::East => 3,
        Direction::Above => 4,
    }
}

/// Five directions times ten symbols times ten symbols.
const RULE_TABLE_SIZE: usize = 500;

/// An immutable set of admissibility rules, queried by membership. Stored
/// as a dense bit-table over the 500 possible (direction, symbol, symbol)
/// triples.
pub struct RuleSet {
    table: Vec<bool>,
}

impl View for RuleSet {
    type V = Set<Rule>;

    closed spec fn view(&self) -> Set<Rule> {
        Set::new(|r: Rule| rule_valid(r) && self.table@[rule_slot(r)])
    }
}

impl RuleSet {
    pub closed spec fn wf(&self) -> bool {
        self.table@.len() == 500
    }

    /// The empty rule set.
    pub fn new() -> (rules: RuleSet)
        ensures
            rules.wf(),
            rules@ == Set::<Rule>::empty(),
    {
        let mut table: Vec<bool> = Vec::new();
        for i in 0..RULE_TABLE_SIZE
            invariant
                table@.len() == i,
                forall|k: int| 0 <= k < i ==> !(#[trigger] table@[k]),
        {
            table.push(false);
        }
        let rules = RuleSet { table };
        proof {
            assert(rules@ =~= Set::<Rule>::empty());
        }
        rules
    }

    /// Add one rule.
    pub fn insert(&mut self, r: Rule)
        requires
            old(self).wf(),
            rule_valid(r),
        ensures
            final(self).wf(),
            final(self)@ == old(self)@.insert(r),
    {
        let slot = direction_slot(r.0) * 100 + (r.1 as usize) * 10 + (r.2 as usize);
        self.table[slot] = true;
        proof {
            assert forall|r2: Rule| self@.contains(r2) <==> (old(self)@.contains(r2) || r2
                == r) by {
                if rule_valid(r2) && rule_slot(r2) == rule_slot(r) {
                    lemma_rule_slot_injective(r2, r);
                }
            }
            assert(self@ =~= old(self)@.insert(r));
        }
    }

    /// Whether the rule is in the set.
    pub fn contains(&self, r: Rule) -> (b: bool)
        requires
            self.wf(),
        ensures
            b == self@.contains(r),
    {
        if r.1 < 10 && r.2 < 10 {
            let slot = direction_slot(r.0) * 100 + (r.1 as usize) * 10 + (r.2 as usize);
            self.table[slot]
        } else {
            false
        }
    }
}

// ---------------------------------------------------------------------------
// Rule induction
// ---------------------------------------------------------------------------

/// The rules that cell `(x, y)` of one training pair emits: one rule per
/// in-bounds orthogonal neighbor of the output grid, plus the Above rule
/// tying the cell's output symbol to its input symbol.
pub open spec fn cell_rule(inp: Seq<Seq<u8>>, out: Seq<Seq<u8>>, x: int, y: int, r: Rule) -> bool {
    ||| (x > 0 && r == Rule(Direction::West, out[x][y], out[x - 1][y]))
    ||| (x < out.len() - 1 && r == Rule(Direction::East, out[x][y], out[x + 1][y]))
    ||| (y > 0 && r == Rule(Direction::North, out[x][y], out[x][y - 1]))
    ||| (y < out[0].len() - 1 && r == Rule(Direction::South, out[x][y], out[x][y + 1]))
    ||| r == Rule(Direction::Above, out[x][y], inp[x][y])
}

/// Whether some cell of the training pair emits rule `r`.
pub open spec fn pair_rule(inp: Seq<Seq<u8>>, out: Seq<Seq<u8>>, r: Rule) -> bool {
    exists|x: int, y: int|
        0 <= x < out.len() && 0 <= y < out[0].len() && cell_rule(inp, out, x, y, r)
}

/// Whether some training pair of the sequence emits rule `r`.
pub open spec fn examples_rule(examples: Seq<Pair>, r: Rule) -> bool {
    exists|i: int|
        0 <= i < examples.len() && pair_rule(
            grid_view(examples[i].input),
            grid_view(examples[i].output),
            r,
        )
}

/// The rule set induced from a sequence of training pairs: the union over
/// all pairs of the rules each pair emits.
pub open spec fn induced_rules(examples: Seq<Pair>) -> Set<Rule> {
    Set::new(|r: Rule| examples_rule(examples, r))
}

/// `pair_rule`, restricted to the cells strictly before column `xb`, plus
/// the cells of column `xb` strictly before row `yb`.
spec fn pair_rule_upto(inp: Seq<Seq<u8>>, out: Seq<Seq<u8>>, xb: int, yb: int, r: Rule) -> bool {
    exists|x: int, y: int|
        0 <= x < out.len() && 0 <= y < out[0].len() && (x < xb || (x == xb && y < yb))
            && cell_rule(inp, out, x, y, r)
}

/// `examples_rule`, restricted to the first `n` training pairs.
spec fn examples_rule_upto(examples: Seq<Pair>, n: int, r: Rule) -> bool {
    exists|i: int|
        0 <= i < n && pair_rule(grid_view(examples[i].input), grid_view(examples[i].output), r)
}

/// Stepping the cell cursor one row ahead adds exactly the rules of the
/// cell it moved past.
proof fn lemma_pair_upto_step_y(inp: Seq<Seq<u8>>, out: Seq<Seq<u8>>, x: int, y: int)
    requires
        0 <= x < out.len(),
        0 <= y < out[0].len(),
    ensures
        forall|r: Rule|
            #[trigger] pair_rule_upto(inp, out, x, y + 1, r) <==> (pair_rule_upto(inp, out, x, y, r)
                || cell_rule(inp, out, x, y, r)),
{
    assert forall|r: Rule|
        #[trigger] pair_rule_upto(inp, out, x, y + 1, r) <==> (pair_rule_upto(inp, out, x, y, r)
            || cell_rule(inp, out, x, y, r)) by {
        if pair_rule_upto(inp, out, x, y + 1, r) {
            let (cx, cy) = choose|cx: int, cy: int|
                0 <= cx < out.len() && 0 <= cy < out[0].len() && (cx < x || (cx == x && cy < y + 1))
                    && cell_rule(inp, out, cx, cy, r);
            if cx == x && cy == y {
                assert(cell_rule(inp, out, x, y, r));
            } else {
                assert(pair_rule_upto(inp, out, x, y, r));
            }
        }
        if pair_rule_upto(inp, out, x, y, r) {
            let (cx, cy) = choose|cx: int, cy: int|
                0 <= cx < out.len() && 0 <= cy < out[0].len() && (cx < x || (cx == x && cy < y))
                    && cell_rule(inp, out, cx, cy, r);
            assert(cx < x || (cx == x && cy < y + 1));
            assert(pair_rule_upto(inp, out, x, y + 1, r));
        }
        if cell_rule(inp, out, x, y, r) {
            assert(0 <= x < out.len() && 0 <= y < out[0].len() && (x < x || (x == x && y < y + 1))
                && cell_rule(inp, out, x, y, r));
            assert(pair_rule_upto(inp, out, x, y + 1, r));
        }
    }
}

/// A cursor at the top of column `x + 1` covers the same cells as one past
/// the bottom of column `x`.
proof fn lemma_pair_upto_step_x(inp: Seq<Seq<u8>>, out: Seq<Seq<u8>>, x: int)
    ensures
        forall|r: Rule|
            #[trigger] pair_rule_upto(inp, out, x + 1, 0, r) <==> pair_rule_upto(
                inp,
                out,
                x,
                out[0].len() as int,
                r,
            ),
{
    assert forall|r: Rule|
        #[trigger] pair_rule_upto(inp, out, x + 1, 0, r) <==> pair_rule_upto(
            inp,
            out,
            x,
            out[0].len() as int,
            r,
        ) by {
        if pair_rule_upto(inp, out, x + 1, 0, r) {
            let (cx, cy) = choose|cx: int, cy: int|
                0 <= cx < out.len() && 0 <= cy < out[0].len() && (cx < x + 1 || (cx == x + 1 && cy
                    < 0)) && cell_rule(inp, out, cx, cy, r);
            assert(cx < x || (cx == x && cy < out[0].len()));
            assert(pair_rule_upto(inp, out, x, out[0].len() as int, r));
        }
        if pair_rule_upto(inp, out, x, out[0].len() as int, r) {
            let (cx, cy) = choose|cx: int, cy: int|
                0 <= cx < out.len() && 0 <= cy < out[0].len() && (cx < x || (cx == x && cy < out[0].len()))
                    && cell_rule(inp, out, cx, cy, r);
            assert(cx < x + 1 || (cx == x + 1 && cy < 0));
            assert(pair_rule_upto(inp, out, x + 1, 0, r));
        }
    }
}

/// A cursor past every cell of a pair covers exactly the rules the pair
/// emits.
proof fn lemma_pair_upto_whole(inp: Seq<Seq<u8>>, out: Seq<Seq<u8>>)
    ensures
        forall|r: Rule|
            #[trigger] pair_rule_upto(inp, out, out.len() as int, 0, r) <==> pair_rule(
                inp,
                out,
                r,
            ),
{
    assert forall|r: Rule|
        #[trigger] pair_rule_upto(inp, out, out.len() as int, 0, r) <==> pair_rule(inp, out, r) by {
        if pair_rule_upto(inp, out, out.len() as int, 0, r) {
            let (cx, cy) = choose|cx: int, cy: int|
                0 <= cx < out.len() && 0 <= cy < out[0].len() && (cx < out.len() || (cx
                    == out.len() && cy < 0)) && cell_rule(inp, out, cx, cy, r);
            assert(pair_rule(inp, out, r));
        }
        if pair_rule(inp, out, r) {
            let (cx, cy) = choose|cx: int, cy: int|
                0 <= cx < out.len() && 0 <= cy < out[0].len() && cell_rule(inp, out, cx, cy, r);
            assert(cx < out.len() || (cx == out.len() && cy < 0));
            assert(pair_rule_upto(inp, out, out.len() as int, 0, r));
        }
    }
}

/// Stepping the example cursor one pair ahead adds exactly that pair's
/// rules.
proof fn lemma_examples_upto_step(examples: Seq<Pair>, i: int)
    requires
        0 <= i < examples.len(),
    ensures
        forall|r: Rule|
            #[trigger] examples_rule_upto(examples, i + 1, r) <==> (examples_rule_upto(
                examples,
                i,
                r,
            ) || pair_rule(grid_view(examples[i].input), grid_view(examples[i].output), r)),
{
    assert forall|r: Rule|
        #[trigger] examples_rule_upto(examples, i + 1, r) <==> (examples_rule_upto(examples, i, r)
            || pair_rule(grid_view(examples[i].input), grid_view(examples[i].output), r)) by {
        if examples_rule_upto(examples, i + 1, r) {
            let k = choose|k: int|
                0 <= k < i + 1 && pair_rule(
                    grid_view(examples[k].input),
                    grid_view(examples[k].output),
                    r,
                );
            if k < i {
                assert(examples_rule_upto(examples, i, r));
            }
        }
        if examples_rule_upto(examples, i, r) {
            let k = choose|k: int|
                0 <= k < i && pair_rule(
                    grid_view(examples[k].input),
                    grid_view(examples[k].output),
                    r,
                );
            assert(examples_rule_upto(examples, i + 1, r));
        }
        if pair_rule(grid_view(examples[i].input), grid_view(examples[i].output), r) {
            assert(examples_rule_upto(examples, i + 1, r));
        }
    }
}

/// A cursor past every pair covers exactly the induced rules.
proof fn lemma_examples_upto_whole(examples: Seq<Pair>)
    ensures
        forall|r: Rule|
            #[trigger] examples_rule_upto(examples, examples.len() as int, r) <==> examples_rule(
                examples,
                r,
            ),
{
    assert forall|r: Rule|
        #[trigger] examples_rule_upto(examples, examples.len() as int, r) <==> examples_rule(
            examples,
            r,
        ) by {
        if examples_rule_upto(examples, examples.len() as int, r) {
            let k = choose|k: int|
                0 <= k < examples.len() && pair_rule(
                    grid_view(examples[k].input),
                    grid_view(examples[k].output),
                    r,
                );
            assert(examples_rule(examples, r));
        }
        if examples_rule(examples, r) {
            let k = choose|k: int|
                0 <= k < examples.len() && pair_rule(
                    grid_view(examples[k].input),
                    grid_view(examples[k].output),
                    r,
                );
            assert(examples_rule_upto(examples, examples.len() as int, r));
        }
    }
}

/// Derive the rule set of a non-empty sequence of training pairs: for
/// every cell of every example's output grid, one rule per in-bounds
/// orthogonal neighbor and one Above rule, all joined by set union.
#[verifier::loop_isolation(false)]
pub fn induce(examples: &Vec<Pair>) -> (rules: RuleSet)
    requires
        examples@.len() > 0,
        forall|k: int| 0 <= k < examples@.len() ==> (#[trigger] examples@[k]).wf(),
    ensures
        rules.wf(),
        rules@ == induced_rules(examples@),
        forall|r: Rule| #[trigger] rules@.contains(r) <==> examples_rule(examples@, r),
{
    let mut rules = RuleSet::new();
    let n = examples.len();
    for i in 0..n
        invariant
            rules.wf(),
            forall|r: Rule|
                #[trigger] rules@.contains(r) <==> examples_rule_upto(examples@, i as int, r),
    {
        let example = &examples[i];
        let ghost inp = grid_view(example.input);
        let ghost out = grid_view(example.output);
        let width = example.input.len();
        let height = example.input[0].len();
        proof {
            assert(examples@[i as int].wf());
            assert(width == out.len());
            assert(height == out[0].len());
        }
        for x in 0..width
            invariant
                rules.wf(),
                forall|r: Rule|
                    #[trigger] rules@.contains(r) <==> (examples_rule_upto(examples@, i as int, r)
                        || pair_rule_upto(inp, out, x as int, 0, r)),
        {
            for y in 0..height
                invariant
                    rules.wf(),
                    forall|r: Rule|
                        #[trigger] rules@.contains(r) <==> (examples_rule_upto(
                            examples@,
                            i as int,
                            r,
                        ) || pair_rule_upto(inp, out, x as int, y as int, r)),
            {
                let ghost before = rules@;
                proof {
                    assert(out[x as int].len() == out[0].len());
                    assert(inp[x as int].len() == inp[0].len());
                    if x > 0 {
                        assert(out[x as int - 1].len() == out[0].len());
                    }
                    if x < width - 1 {
                        assert(out[x as int + 1].len() == out[0].len());
                    }
                }
                let oc = example.output[x][y];
                proof {
                    assert(oc == out[x as int][y as int]);
                    assert(oc < 10);
                }
                if x > 0 {
                    let nb = example.output[x - 1][y];
                    proof {
                        assert(nb == out[x as int - 1][y as int]);
                        assert(nb < 10);
                    }
                    rules.insert(Rule(Direction::West, oc, nb));
                }
                if x < width - 1 {
                    let nb = example.output[x + 1][y];
                    proof {
                        assert(nb == out[x as int + 1][y as int]);
                        assert(nb < 10);
                    }
                    rules.insert(Rule(Direction::East, oc, nb));
                }
                if y > 0 {
                    let nb = example.output[x][y - 1];
                    proof {
                        assert(nb == out[x as int][y as int - 1]);
                        assert(nb < 10);
                    }
                    rules.insert(Rule(Direction::North, oc, nb));
                }
                if y < height - 1 {
                    let nb = example.output[x][y + 1];
                    proof {
                        assert(nb == out[x as int][y as int + 1]);
                        assert(nb < 10);
                    }
                    rules.insert(Rule(Direction::South, oc, nb));
                }
                let ic = example.input[x][y];
                proof {
                    assert(ic == inp[x as int][y as int]);
                }
                rules.insert(Rule(Direction::Above, oc, ic));
                proof {
                    assert forall|r: Rule| rules@.contains(r) <==> (before.contains(r)
                        || cell_rule(inp, out, x as int, y as int, r)) by {}
                    lemma_pair_upto_step_y(inp, out, x as int, y as int);
                }
            }
            proof {
                lemma_pair_upto_step_x(inp, out, x as int);
            }
        }
        proof {
            assert(inp == grid_view(examples@[i as int].input));
            assert(out == grid_view(examples@[i as int].output));
            lemma_pair_upto_whole(inp, out);
            lemma_examples_upto_step(examples@, i as int);
        }
    }
    proof {
        lemma_examples_upto_whole(examples@);
        assert(rules@ =~= induced_rules(examples@));
    }
    rules
}

/// Two training pairs with the same grid contents.
pub open spec fn same_pair(a: Pair, b: Pair) -> bool {
    grid_view(a.input) == grid_view(b.input) && grid_view(a.output) == grid_view(b.output)
}

/// Monotonicity of rule induction: adding training pairs only ever adds
/// rules. If every pair of `t1` also occurs in `t2`, then every rule
/// induced from `t1` is induced from `t2`.
pub proof fn lemma_induction_monotonic(t1: Seq<Pair>, t2: Seq<Pair>)
    requires
        forall|i: int|
            0 <= i < t1.len() ==> exists|j: int|
                0 <= j < t2.len() && same_pair(#[trigger] t1[i], t2[j]),
    ensures
        induced_rules(t1).subset_of(induced_rules(t2)),
        forall|r: Rule| #[trigger] examples_rule(t1, r) ==> examples_rule(t2, r),
{
    assert forall|r: Rule| #[trigger] examples_rule(t1, r) implies examples_rule(t2, r) by {
        let i = choose|i: int|
            0 <= i < t1.len() && pair_rule(grid_view(t1[i].input), grid_view(t1[i].output), r);
        assert(t1[i] == t1[i]);
        let j = choose|j: int| 0 <= j < t2.len() && same_pair(t1[i], t2[j]);
        assert(pair_rule(grid_view(t2[j].input), grid_view(t2[j].output), r));
        assert(examples_rule(t2, r));
    }
}

} // verus!
