use vstd::prelude::*;

verus! {

/// A puzzle board: `grid[x][y]` is the symbol of the cell in column `x`,
/// row `y`. Symbols are discrete labels in `0..10`.
pub type Grid = Vec<Vec<u8>>;

/// The mathematical contents of a grid, column by column.
pub open spec fn grid_view(g: Grid) -> Seq<Seq<u8>> {
    Seq::new(g@.len(), |x: int| g@[x]@)
}

/// A grid has at least one column, and every column has the same positive
/// number of rows.
pub open spec fn grid_dims_ok(g: Seq<Seq<u8>>) -> bool {
    &&& g.len() > 0
    &&& g[0].len() > 0
    &&& forall|x: int| 0 <= x < g.len() ==> (#[trigger] g[x]).len() == g[0].len()
}

/// Every cell of the grid carries a symbol in `0..10`.
pub open spec fn grid_symbols_ok(g: Seq<Seq<u8>>) -> bool {
    forall|x: int, y: int|
        0 <= x < g.len() && 0 <= y < g[x].len() ==> #[trigger] g[x][y] < 10
}

/// Two grids of the same shape.
pub open spec fn same_dims(a: Seq<Seq<u8>>, b: Seq<Seq<u8>>) -> bool {
    &&& a.len() == b.len()
    &&& forall|x: int| 0 <= x < a.len() ==> (#[trigger] a[x]).len() == b[x].len()
}

/// One example: an input grid and the output grid it is transformed into,
/// both of the same dimensions.
#[derive(Clone)]
pub struct Pair {
    pub input: Grid,
    pub output: Grid,
}

impl Pair {
    /// Both grids are well-shaped, agree in dimensions, and carry symbols
    /// in `0..10`.
    pub open spec fn wf(self) -> bool {
        &&& grid_dims_ok(grid_view(self.input))
        &&& grid_dims_ok(grid_view(self.output))
        &&& grid_view(self.input).len() == grid_view(self.output).len()
        &&& grid_view(self.input)[0].len() == grid_view(self.output)[0].len()
        &&& grid_symbols_ok(grid_view(self.input))
        &&& grid_symbols_ok(grid_view(self.output))
    }
}

} // verus!
