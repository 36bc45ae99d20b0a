use vstd::prelude::*;

verus! {

// ---------------------------------------------------------------------------
// Counting surviving candidates of a bit-vector
// ---------------------------------------------------------------------------

/// Number of `true` entries of a candidate bit-vector.
pub open spec fn count_true(s: Seq<bool>) -> int
    decreases s.len(),
{
    if s.len() == 0 {
        0
    } else {
        count_true(s.drop_last()) + if s.last() {
            1int
        } else {
            0int
        }
    }
}

pub proof fn lemma_count_true_bounds(s: Seq<bool>)
    ensures
        0 <= count_true(s) <= s.len(),
    decreases s.len(),
{
    if s.len() > 0 {
        lemma_count_true_bounds(s.drop_last());
    }
}

/// Extending a prefix by one entry adds that entry's contribution.
pub proof fn lemma_count_true_step(s: Seq<bool>, i: int)
    requires
        0 <= i < s.len(),
    ensures
        count_true(s.take(i + 1)) == count_true(s.take(i)) + if s[i] {
            1int
        } else {
            0int
        },
{
    assert(s.take(i + 1).drop_last() =~= s.take(i));
    assert(s.take(i + 1).last() == s[i]);
}

pub proof fn lemma_count_true_whole(s: Seq<bool>)
    ensures
        count_true(s.take(s.len() as int)) == count_true(s),
{
    assert(s.take(s.len() as int) =~= s);
}

/// A surviving entry puts the count at one or more.
pub proof fn lemma_count_true_pos(s: Seq<bool>, i: int)
    requires
        0 <= i < s.len(),
        s[i],
    ensures
        count_true(s) >= 1,
    decreases s.len(),
{
    if i == s.len() - 1 {
        lemma_count_true_bounds(s.drop_last());
    } else {
        lemma_count_true_pos(s.drop_last(), i);
    }
}

/// Two distinct surviving entries put the count at two or more.
pub proof fn lemma_count_true_two(s: Seq<bool>, i: int, j: int)
    requires
        0 <= i < j < s.len(),
        s[i],
        s[j],
    ensures
        count_true(s) >= 2,
    decreases s.len(),
{
    if j == s.len() - 1 {
        lemma_count_true_pos(s.drop_last(), i);
    } else {
        lemma_count_true_two(s.drop_last(), i, j);
    }
}

/// A positive count names at least one surviving entry.
pub proof fn lemma_count_true_nonzero(s: Seq<bool>)
    requires
        count_true(s) >= 1,
    ensures
        exists|i: int| 0 <= i < s.len() && s[i],
    decreases s.len(),
{
    if s.last() {
        assert(s[s.len() - 1]);
    } else {
        lemma_count_true_nonzero(s.drop_last());
        let i = choose|i: int| 0 <= i < s.drop_last().len() && s.drop_last()[i];
        assert(s[i]);
    }
}

/// Pointwise narrowing never raises the count.
pub proof fn lemma_count_true_le(a: Seq<bool>, b: Seq<bool>)
    requires
        a.len() == b.len(),
        forall|i: int| #![trigger a[i]] #![trigger b[i]] 0 <= i < a.len() && a[i] ==> b[i],
    ensures
        count_true(a) <= count_true(b),
    decreases a.len(),
{
    if a.len() > 0 {
        assert forall|i: int| 0 <= i < a.drop_last().len() && #[trigger] a.drop_last()[i]
            implies b.drop_last()[i] by {
            assert(a[i]);
        }
        lemma_count_true_le(a.drop_last(), b.drop_last());
    }
}

/// Narrowing that removes at least one entry lowers the count.
pub proof fn lemma_count_true_lt(a: Seq<bool>, b: Seq<bool>, w: int)
    requires
        a.len() == b.len(),
        forall|i: int| #![trigger a[i]] #![trigger b[i]] 0 <= i < a.len() && a[i] ==> b[i],
        0 <= w < a.len(),
        b[w],
        !a[w],
    ensures
        count_true(a) < count_true(b),
    decreases a.len(),
{
    assert forall|i: int| 0 <= i < a.drop_last().len() && #[trigger] a.drop_last()[i]
        implies b.drop_last()[i] by {
        assert(a[i]);
    }
    if w == a.len() - 1 {
        lemma_count_true_le(a.drop_last(), b.drop_last());
    } else {
        lemma_count_true_lt(a.drop_last(), b.drop_last(), w);
    }
}

// ---------------------------------------------------------------------------
// Summing surviving candidates over a board
// ---------------------------------------------------------------------------

/// Total number of surviving candidates over one column of cells.
pub open spec fn col_total(col: Seq<Seq<bool>>) -> int
    decreases col.len(),
{
    if col.len() == 0 {
        0
    } else {
        col_total(col.drop_last()) + count_true(col.last())
    }
}

/// Total number of surviving candidates over a whole board. Propagation
/// strictly lowers it with every collapse, which bounds the worklist.
pub open spec fn grid_total(v: Seq<Seq<Seq<bool>>>) -> int
    decreases v.len(),
{
    if v.len() == 0 {
        0
    } else {
        grid_total(v.drop_last()) + col_total(v.last())
    }
}

pub proof fn lemma_col_total_nonneg(col: Seq<Seq<bool>>)
    ensures
        col_total(col) >= 0,
    decreases col.len(),
{
    if col.len() > 0 {
        lemma_col_total_nonneg(col.drop_last());
        lemma_count_true_bounds(col.last());
    }
}

pub proof fn lemma_grid_total_nonneg(v: Seq<Seq<Seq<bool>>>)
    ensures
        grid_total(v) >= 0,
    decreases v.len(),
{
    if v.len() > 0 {
        lemma_grid_total_nonneg(v.drop_last());
        lemma_col_total_nonneg(v.last());
    }
}

/// Replacing one cell shifts the column total by the difference of the
/// two cells' counts.
pub proof fn lemma_col_total_update(col: Seq<Seq<bool>>, y: int, cell: Seq<bool>)
    requires
        0 <= y < col.len(),
    ensures
        col_total(col.update(y, cell)) == col_total(col) - count_true(col[y]) + count_true(cell),
    decreases col.len(),
{
    let upd = col.update(y, cell);
    if y == col.len() - 1 {
        assert(upd.drop_last() =~= col.drop_last());
        assert(upd.last() == cell);
    } else {
        assert(upd.drop_last() =~= col.drop_last().update(y, cell));
        assert(upd.last() == col.last());
        lemma_col_total_update(col.drop_last(), y, cell);
    }
}

/// Replacing one column shifts the board total by the difference of the
/// two columns' totals.
pub proof fn lemma_grid_total_update_col(v: Seq<Seq<Seq<bool>>>, x: int, col: Seq<Seq<bool>>)
    requires
        0 <= x < v.len(),
    ensures
        grid_total(v.update(x, col)) == grid_total(v) - col_total(v[x]) + col_total(col),
    decreases v.len(),
{
    let upd = v.update(x, col);
    if x == v.len() - 1 {
        assert(upd.drop_last() =~= v.drop_last());
        assert(upd.last() == col);
    } else {
        assert(upd.drop_last() =~= v.drop_last().update(x, col));
        assert(upd.last() == v.last());
        lemma_grid_total_update_col(v.drop_last(), x, col);
    }
}

/// Replacing one cell shifts the board total by the difference of the two
/// cells' counts.
pub proof fn lemma_grid_total_update(v: Seq<Seq<Seq<bool>>>, x: int, y: int, cell: Seq<bool>)
    requires
        0 <= x < v.len(),
        0 <= y < v[x].len(),
    ensures
        grid_total(dg_update(v, x, y, cell)) == grid_total(v) - count_true(v[x][y]) + count_true(
            cell,
        ),
{
    lemma_grid_total_update_col(v, x, v[x].update(y, cell));
    lemma_col_total_update(v[x], y, cell);
}

// ---------------------------------------------------------------------------
// Domain: the set of symbols still possible for one cell
// ---------------------------------------------------------------------------

/// Candidate-symbol bit-vector of one cell: slot `s` is `true` while
/// symbol `s` is still possible there.
pub struct Domain {
    slots: Vec<bool>,
}

impl View for Domain {
    type V = Seq<bool>;

    closed spec fn view(&self) -> Seq<bool> {
        self.slots@
    }
}

impl Domain {
    /// One slot for each of the ten symbols.
    pub open spec fn wf(&self) -> bool {
        self@.len() == 10
    }

    /// A domain with every slot set to `val`.
    pub fn uniform(val: bool) -> (d: Domain)
        ensures
            d.wf(),
            forall|s: int| 0 <= s < 10 ==> #[trigger] d@[s] == val,
    {
        let mut slots: Vec<bool> = Vec::new();
        for s in 0..10usize
            invariant
                slots@.len() == s,
                forall|i: int| 0 <= i < s ==> #[trigger] slots@[i] == val,
        {
            slots.push(val);
        }
        Domain { slots }
    }

    /// A collapsed domain: only symbol `c` survives.
    pub fn single(c: usize) -> (d: Domain)
        requires
            c < 10,
        ensures
            d.wf(),
            forall|s: int| 0 <= s < 10 ==> (#[trigger] d@[s] <==> s == c),
    {
        let mut d = Domain::uniform(false);
        d.set(c, true);
        d
    }

    /// Whether symbol `s` is still possible.
    pub fn test(&self, s: usize) -> (b: bool)
        requires
            self.wf(),
            s < 10,
        ensures
            b == self@[s as int],
    {
        self.slots[s]
    }

    /// Mark symbol `s` as possible (`true`) or ruled out (`false`).
    pub fn set(&mut self, s: usize, val: bool)
        requires
            old(self).wf(),
            s < 10,
        ensures
            final(self).wf(),
            final(self)@ == old(self)@.update(s as int, val),
    {
        self.slots[s] = val;
    }

    /// How many symbols survive. Zero is a contradiction, one a collapsed
    /// cell, more an undetermined cell.
    pub fn cardinality(&self) -> (n: usize)
        requires
            self.wf(),
        ensures
            n == count_true(self@),
    {
        let mut n: usize = 0;
        for s in 0..10usize
            invariant
                self.wf(),
                n == count_true(self@.take(s as int)),
                n <= s,
        {
            proof {
                lemma_count_true_step(self@, s as int);
            }
            if self.slots[s] {
                n = n + 1;
            }
        }
        proof {
            lemma_count_true_whole(self@);
        }
        n
    }

    /// The single surviving symbol of a collapsed domain.
    pub fn unique_symbol(&self) -> (s: u8)
        requires
            self.wf(),
            count_true(self@) == 1,
        ensures
            s < 10,
            self@[s as int],
            forall|t: int| 0 <= t < 10 && t != s ==> !self@[t],
    {
        let mut s: usize = 0;
        while s < 10 && !self.slots[s]
            invariant
                self.wf(),
                s <= 10,
                forall|t: int| 0 <= t < s ==> !self@[t],
            decreases 10 - s,
        {
            s = s + 1;
        }
        if s == 10 {
            proof {
                lemma_count_true_nonzero(self@);
            }
            assert(false);
        }
        assert forall|t: int| 0 <= t < 10 && t != s implies !self@[t] by {
            if self@[t] {
                if t < s {
                    assert(!self@[t]);
                } else {
                    lemma_count_true_two(self@, s as int, t);
                }
            }
        }
        s as u8
    }

    /// An identical, independently owned copy.
    pub fn duplicate(&self) -> (d: Domain)
        ensures
            d@ == self@,
    {
        let mut slots: Vec<bool> = Vec::new();
        let n = self.slots.len();
        for s in 0..n
            invariant
                n == self@.len(),
                slots@.len() == s,
                forall|i: int| 0 <= i < s ==> #[trigger] slots@[i] == self@[i],
        {
            slots.push(self.slots[s]);
        }
        let d = Domain { slots };
        proof {
            assert(d@ =~= self@);
        }
        d
    }
}

// ---------------------------------------------------------------------------
// DomainGrid: one Domain per cell of a width x height board
// ---------------------------------------------------------------------------

/// A board has at least one column, all columns have the same positive
/// number of rows, and every cell carries ten slots.
pub open spec fn dg_wf(v: Seq<Seq<Seq<bool>>>) -> bool {
    &&& v.len() > 0
    &&& v[0].len() > 0
    &&& forall|x: int| 0 <= x < v.len() ==> (#[trigger] v[x]).len() == v[0].len()
    &&& forall|x: int, y: int|
        0 <= x < v.len() && 0 <= y < v[0].len() ==> (#[trigger] v[x][y]).len() == 10
}

/// The board with the domain of cell `(x, y)` replaced by `cell`.
pub open spec fn dg_update(
    v: Seq<Seq<Seq<bool>>>,
    x: int,
    y: int,
    cell: Seq<bool>,
) -> Seq<Seq<Seq<bool>>> {
    v.update(x, v[x].update(y, cell))
}

/// Every candidate surviving in `a` also survives in `b`: propagation and
/// search only ever narrow domains.
pub open spec fn dg_narrows(a: Seq<Seq<Seq<bool>>>, b: Seq<Seq<Seq<bool>>>) -> bool {
    &&& a.len() == b.len()
    &&& forall|x: int| 0 <= x < a.len() ==> (#[trigger] a[x]).len() == b[x].len()
    &&& forall|x: int, y: int|
        0 <= x < a.len() && 0 <= y < a[x].len() ==> (#[trigger] a[x][y]).len() == b[x][y].len()
    &&& forall|x: int, y: int, c: int|
        0 <= x < a.len() && 0 <= y < a[x].len() && 0 <= c < a[x][y].len() && #[trigger] a[x][y][c]
            ==> b[x][y][c]
}

pub proof fn lemma_dg_narrows_trans(a: Seq<Seq<Seq<bool>>>, b: Seq<Seq<Seq<bool>>>, c: Seq<Seq<Seq<bool>>>)
    requires
        dg_narrows(a, b),
        dg_narrows(b, c),
    ensures
        dg_narrows(a, c),
{
    assert forall|x: int, y: int, s: int|
        0 <= x < a.len() && 0 <= y < a[x].len() && 0 <= s < a[x][y].len() && #[trigger] a[x][y][s]
        implies c[x][y][s] by {
        assert(b[x][y][s]);
    }
}

/// Per-cell candidate domains over a width x height board; `self@[x][y][c]`
/// says whether symbol `c` is still possible at column `x`, row `y`.
pub struct DomainGrid {
    cells: Vec<Vec<Domain>>,
}

impl View for DomainGrid {
    type V = Seq<Seq<Seq<bool>>>;

    closed spec fn view(&self) -> Seq<Seq<Seq<bool>>> {
        Seq::new(
            self.cells@.len(),
            |x: int| Seq::new(self.cells@[x]@.len(), |y: int| self.cells@[x]@[y]@),
        )
    }
}

impl DomainGrid {
    pub open spec fn wf(&self) -> bool {
        dg_wf(self@)
    }

    /// Bridges the board view and the underlying vectors at one cell.
    proof fn lemma_cell_bounds(&self, x: int, y: int)
        requires
            self.wf(),
            0 <= x < self@.len(),
            0 <= y < self@[0].len(),
        ensures
            self.cells@.len() == self@.len(),
            self.cells@[x]@.len() == self@[0].len(),
            self.cells@[x]@[y]@ == self@[x][y],
            self@[x].len() == self@[0].len(),
            self@[x][y].len() == 10,
    {
        assert(self@[x].len() == self@[0].len());
        assert(self@[x][y].len() == 10);
    }

    /// A fresh board with every slot of every cell set to `val`.
    pub fn uniform(width: usize, height: usize, val: bool) -> (g: DomainGrid)
        requires
            width > 0,
            height > 0,
        ensures
            g.wf(),
            g@.len() == width,
            g@[0].len() == height,
            forall|x: int, y: int, c: int|
                0 <= x < width && 0 <= y < height && 0 <= c < 10 ==> #[trigger] g@[x][y][c] == val,
    {
        let mut cells: Vec<Vec<Domain>> = Vec::new();
        for x in 0..width
            invariant
                cells@.len() == x,
                forall|i: int| 0 <= i < x ==> (#[trigger] cells@[i])@.len() == height,
                forall|i: int, j: int|
                    0 <= i < x && 0 <= j < height ==> (#[trigger] cells@[i]@[j])@.len() == 10,
                forall|i: int, j: int, c: int|
                    0 <= i < x && 0 <= j < height && 0 <= c < 10 ==> #[trigger] cells@[i]@[j]@[c]
                        == val,
        {
            let mut col: Vec<Domain> = Vec::new();
            for y in 0..height
                invariant
                    col@.len() == y,
                    forall|j: int| 0 <= j < y ==> (#[trigger] col@[j])@.len() == 10,
                    forall|j: int, c: int|
                        0 <= j < y && 0 <= c < 10 ==> #[trigger] col@[j]@[c] == val,
            {
                col.push(Domain::uniform(val));
            }
            cells.push(col);
        }
        DomainGrid { cells }
    }

    /// The untouched starting state: all ten symbols possible everywhere.
    pub fn full(width: usize, height: usize) -> (g: DomainGrid)
        requires
            width > 0,
            height > 0,
        ensures
            g.wf(),
            g@.len() == width,
            g@[0].len() == height,
            forall|x: int, y: int, c: int|
                0 <= x < width && 0 <= y < height && 0 <= c < 10 ==> #[trigger] g@[x][y][c],
    {
        DomainGrid::uniform(width, height, true)
    }

    pub fn width(&self) -> (w: usize)
        requires
            self.wf(),
        ensures
            w == self@.len(),
    {
        self.cells.len()
    }

    pub fn height(&self) -> (h: usize)
        requires
            self.wf(),
        ensures
            h == self@[0].len(),
    {
        self.cells[0].len()
    }

    /// Whether symbol `c` is still possible at cell `(x, y)`.
    pub fn test_slot(&self, x: usize, y: usize, c: usize) -> (b: bool)
        requires
            self.wf(),
            x < self@.len(),
            y < self@[0].len(),
            c < 10,
        ensures
            b == self@[x as int][y as int][c as int],
    {
        proof {
            self.lemma_cell_bounds(x as int, y as int);
        }
        self.cells[x][y].test(c)
    }

    /// Set slot `c` of cell `(x, y)`.
    pub fn set_slot(&mut self, x: usize, y: usize, c: usize, val: bool)
        requires
            old(self).wf(),
            x < old(self)@.len(),
            y < old(self)@[0].len(),
            c < 10,
        ensures
            final(self).wf(),
            final(self)@ == dg_update(
                old(self)@,
                x as int,
                y as int,
                old(self)@[x as int][y as int].update(c as int, val),
            ),
    {
        proof {
            self.lemma_cell_bounds(x as int, y as int);
        }
        self.cells[x][y].set(c, val);
        proof {
            assert(self@ =~~= dg_update(
                old(self)@,
                x as int,
                y as int,
                old(self)@[x as int][y as int].update(c as int, val),
            ));
        }
    }

    /// Borrow the domain of cell `(x, y)`.
    pub fn domain_at(&self, x: usize, y: usize) -> (d: &Domain)
        requires
            self.wf(),
            x < self@.len(),
            y < self@[0].len(),
        ensures
            d.wf(),
            d@ == self@[x as int][y as int],
    {
        proof {
            self.lemma_cell_bounds(x as int, y as int);
        }
        &self.cells[x][y]
    }

    /// How many symbols survive at cell `(x, y)`.
    pub fn cardinality_at(&self, x: usize, y: usize) -> (n: usize)
        requires
            self.wf(),
            x < self@.len(),
            y < self@[0].len(),
        ensures
            n == count_true(self@[x as int][y as int]),
    {
        proof {
            self.lemma_cell_bounds(x as int, y as int);
        }
        self.cells[x][y].cardinality()
    }

    /// Replace the whole domain of cell `(x, y)`.
    pub fn set_cell(&mut self, x: usize, y: usize, d: Domain)
        requires
            old(self).wf(),
            x < old(self)@.len(),
            y < old(self)@[0].len(),
            d.wf(),
        ensures
            final(self).wf(),
            final(self)@ == dg_update(old(self)@, x as int, y as int, d@),
    {
        proof {
            self.lemma_cell_bounds(x as int, y as int);
        }
        let ghost dv = d@;
        self.cells[x][y] = d;
        proof {
            assert(self@ =~~= dg_update(old(self)@, x as int, y as int, dv));
        }
    }

    /// Collapse cell `(x, y)` to the single symbol `c`.
    pub fn collapse_to(&mut self, x: usize, y: usize, c: usize)
        requires
            old(self).wf(),
            x < old(self)@.len(),
            y < old(self)@[0].len(),
            c < 10,
        ensures
            final(self).wf(),
            final(self)@ == dg_update(
                old(self)@,
                x as int,
                y as int,
                Seq::new(10, |s: int| s == c),
            ),
    {
        proof {
            self.lemma_cell_bounds(x as int, y as int);
        }
        let d = Domain::single(c);
        self.cells[x][y] = d;
        proof {
            assert(self@ =~~= dg_update(
                old(self)@,
                x as int,
                y as int,
                Seq::new(10, |s: int| s == c),
            ));
        }
    }

    /// An identical, independently owned copy, for branching the search
    /// without sharing.
    pub fn duplicate(&self) -> (g: DomainGrid)
        requires
            self.wf(),
        ensures
            g.wf(),
            g@ == self@,
    {
        let mut cells: Vec<Vec<Domain>> = Vec::new();
        let width = self.cells.len();
        for x in 0..width
            invariant
                self.wf(),
                width == self@.len(),
                cells@.len() == x,
                forall|i: int, j: int|
                    0 <= i < x && 0 <= j < self@[i].len() ==> (#[trigger] cells@[i]@[j])@
                        == self@[i][j],
                forall|i: int| 0 <= i < x ==> (#[trigger] cells@[i])@.len() == self@[i].len(),
        {
            let mut col: Vec<Domain> = Vec::new();
            let height = self.cells[x].len();
            for y in 0..height
                invariant
                    self.wf(),
                    width == self@.len(),
                    x < width,
                    height == self@[x as int].len(),
                    col@.len() == y,
                    forall|j: int| 0 <= j < y ==> (#[trigger] col@[j])@ == self@[x as int][j],
            {
                col.push(self.cells[x][y].duplicate());
            }
            cells.push(col);
        }
        let g = DomainGrid { cells };
        proof {
            assert forall|i: int| 0 <= i < width implies g@[i] =~= self@[i] by {}
            assert(g@ =~= self@);
        }
        g
    }
}

} // verus!
