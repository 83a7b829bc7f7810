use vstd::prelude::*;

use crate::tile::{all_kinds, CellKind};

verus! {

/// The mathematical value of a `Cell`: its possibility set (an ordered
/// sequence of kinds) and its coordinates.
pub ghost struct CellView {
    pub possibilities: Seq<CellKind>,
    pub x: int,
    pub y: int,
}

/// A grid position together with the set of kinds it may still resolve to.
#[derive(Debug)]
pub struct Cell {
    pub possibilities: Vec<CellKind>,
    pub x: usize,
    pub y: usize,
}

impl View for Cell {
    type V = CellView;

    open spec fn view(&self) -> CellView {
        CellView {
            possibilities: self.possibilities@,
            x: self.x as int,
            y: self.y as int,
        }
    }
}

impl Clone for Cell {
    fn clone(&self) -> (r: Self)
        ensures
            r@ == self@,
    {
        let mut p: Vec<CellKind> = Vec::new();
        let mut i: usize = 0;
        while i < self.possibilities.len()
            invariant
                0 <= i <= self.possibilities@.len(),
                p@ == self.possibilities@.subrange(0, i as int),
            decreases self.possibilities@.len() - i,
        {
            p.push(self.possibilities[i]);
            proof {
                assert(p@ =~= self.possibilities@.subrange(0, i as int + 1));
            }
            i = i + 1;
        }
        proof {
            assert(self.possibilities@.subrange(0, self.possibilities@.len() as int)
                =~= self.possibilities@);
        }
        Cell { possibilities: p, x: self.x, y: self.y }
    }
}

/// The possibility set of a freshly created cell at (x, y): all three kinds.
pub open spec fn fresh_cell(x: int, y: int) -> CellView {
    CellView { possibilities: all_kinds(), x: x, y: y }
}

impl Cell {
    /// A fresh cell: the full three-kind possibility set.
    pub fn new(x: usize, y: usize) -> (r: Self)
        ensures
            r@ == fresh_cell(x as int, y as int),
    {
        let r = Cell {
            possibilities: vec![CellKind::Wall, CellKind::Air, CellKind::Goal],
            x,
            y,
        };
        proof {
            assert(r@.possibilities =~= all_kinds());
        }
        r
    }

    /// A cell with an explicitly given possibility set.
    pub fn from_possibility_vec(possibilities: Vec<CellKind>, x: usize, y: usize) -> (r: Self)
        ensures
            r@ == (CellView { possibilities: possibilities@, x: x as int, y: y as int }),
    {
        Cell { possibilities, x, y }
    }

    /// The resolved kind of this cell, if its possibility set has exactly
    /// one element; `None` while it is still unresolved (or contradicted).
    pub fn collapsed(&self) -> (r: Option<CellKind>)
        ensures
            self@.possibilities.len() == 1 ==> r == Some(self@.possibilities[0]),
            self@.possibilities.len() != 1 ==> r is None,
    {
        if self.possibilities.len() == 1 {
            return Some(self.possibilities[0]);
        }
        None
    }
}

/// The mathematical value of a `Grid`: its dimensions and the sequence of
/// cell values in linear order (index `x * height + y`).
pub ghost struct GridView {
    pub width: int,
    pub height: int,
    pub cells: Seq<CellView>,
}

/// The views of a sequence of cells, in the same order.
pub open spec fn views_of(cells: Seq<Cell>) -> Seq<CellView> {
    Seq::new(cells.len(), |i: int| cells[i]@)
}

impl GridView {
    /// The linear index of position (x, y).
    pub open spec fn idx(self, x: int, y: int) -> int {
        x * self.height + y
    }

    /// Whether (x, y) lies inside the grid.
    pub open spec fn in_bounds(self, x: int, y: int) -> bool {
        0 <= x < self.width && 0 <= y < self.height
    }

    /// The cell value at position (x, y).
    pub open spec fn cell(self, x: int, y: int) -> CellView {
        self.cells[self.idx(x, y)]
    }

    /// Well-formedness: the cell sequence covers exactly width x height
    /// positions, the whole grid fits in a machine-sized vector, and every
    /// cell records the coordinates of its own linear position.
    pub open spec fn wf(self) -> bool {
        &&& 0 <= self.width
        &&& 0 <= self.height
        &&& self.cells.len() == self.width * self.height
        &&& self.width * self.height <= usize::MAX
        &&& forall|i: int|
            0 <= i < self.cells.len() ==> (#[trigger] self.cells[i]).x == i / self.height
                && self.cells[i].y == i % self.height
    }
}

/// A well-formed in-bounds position maps to a valid linear index, and the
/// well-formed cell stored there carries exactly those coordinates.
pub proof fn lemma_grid_index(g: GridView, x: int, y: int)
    requires
        g.wf(),
        g.in_bounds(x, y),
    ensures
        0 <= g.idx(x, y) < g.cells.len(),
        g.cells[g.idx(x, y)].x == x,
        g.cells[g.idx(x, y)].y == y,
{
    assert(0 <= x * g.height + y < g.width * g.height) by (nonlinear_arith)
        requires
            0 <= x < g.width,
            0 <= y < g.height,
    ;
    vstd::arithmetic::div_mod::lemma_fundamental_div_mod_converse(
        x * g.height + y,
        g.height,
        x,
        y,
    );
}

/// In a well-formed grid, a cell's recorded coordinates are in bounds and
/// identify its linear index uniquely.
pub proof fn lemma_cell_coords(g: GridView, i: int)
    requires
        g.wf(),
        0 <= i < g.cells.len(),
    ensures
        g.in_bounds(g.cells[i].x, g.cells[i].y),
        g.idx(g.cells[i].x, g.cells[i].y) == i,
{
    assert(g.height > 0 && g.width > 0) by (nonlinear_arith)
        requires
            0 <= g.width,
            0 <= g.height,
            0 < g.width * g.height,
    ;
    vstd::arithmetic::div_mod::lemma_fundamental_div_mod(i, g.height);
    vstd::arithmetic::div_mod::lemma_div_pos_is_pos(i, g.height);
    vstd::arithmetic::div_mod::lemma_mod_division_less_than_divisor(i, g.height);
    assert(g.width * g.height == g.height * g.width) by (nonlinear_arith);
    vstd::arithmetic::div_mod::lemma_multiply_divide_lt(i, g.height, g.width);
    assert(g.cells[i].x * g.height + g.cells[i].y == (g.height * (i / g.height)) + i % g.height)
        by (nonlinear_arith)
        requires
            g.cells[i].x == i / g.height,
            g.cells[i].y == i % g.height,
    ;
}

/// Overwriting an in-bounds cell with one that carries the coordinates of
/// that position keeps the grid well-formed.
pub proof fn lemma_set_preserves_wf(g: GridView, x: int, y: int, p: Seq<CellKind>)
    requires
        g.wf(),
        g.in_bounds(x, y),
    ensures
        (GridView {
            width: g.width,
            height: g.height,
            cells: g.cells.update(g.idx(x, y), CellView { possibilities: p, x: x, y: y }),
        }).wf(),
{
    lemma_grid_index(g, x, y);
    let g2 = GridView {
        width: g.width,
        height: g.height,
        cells: g.cells.update(g.idx(x, y), CellView { possibilities: p, x: x, y: y }),
    };
    assert forall|i: int| 0 <= i < g2.cells.len() implies (#[trigger] g2.cells[i]).x == i
        / g2.height && g2.cells[i].y == i % g2.height by {
        if i == g.idx(x, y) {
            assert(g.cells[i].x == i / g.height && g.cells[i].y == i % g.height);
        } else {
            assert(g2.cells[i] == g.cells[i]);
        }
    }
}

/// A fixed-size rectangular collection of cells with bounds-checked access,
/// addressed by (x, y) -> linear index x * height + y.
#[derive(Debug)]
pub struct Grid {
    pub cells: Vec<Cell>,
    pub width: usize,
    pub height: usize,
}

impl View for Grid {
    type V = GridView;

    open spec fn view(&self) -> GridView {
        GridView {
            width: self.width as int,
            height: self.height as int,
            cells: views_of(self.cells@),
        }
    }
}

impl Grid {
    /// A fresh grid: every cell starts with the full possibility set.
    pub fn new(width: usize, height: usize) -> (r: Self)
        requires
            width * height <= usize::MAX,
        ensures
            r@.wf(),
            r@.width == width as int,
            r@.height == height as int,
            forall|i: int|
                0 <= i < r@.cells.len() ==> (#[trigger] r@.cells[i]).possibilities == all_kinds(),
    {
        let mut cells: Vec<Cell> = Vec::new();
        let mut x: usize = 0;
        while x < width
            invariant
                0 <= x <= width,
                width * height <= usize::MAX,
                cells@.len() == x * height,
                forall|i: int|
                    0 <= i < cells@.len() ==> #[trigger] views_of(cells@)[i] == fresh_cell(
                        i / height as int,
                        i % height as int,
                    ),
            decreases width - x,
        {
            let mut y: usize = 0;
            while y < height
                invariant
                    0 <= x < width,
                    0 <= y <= height,
                    width * height <= usize::MAX,
                    cells@.len() == x * height + y,
                    forall|i: int|
                        0 <= i < cells@.len() ==> #[trigger] views_of(cells@)[i] == fresh_cell(
                            i / height as int,
                            i % height as int,
                        ),
                decreases height - y,
            {
                proof {
                    assert(x * height + y < width * height) by (nonlinear_arith)
                        requires
                            0 <= x < width,
                            0 <= y < height,
                    ;
                }
                let ghost old_cells = cells@;
                cells.push(Cell::new(x, y));
                proof {
                    let n = old_cells.len() as int;
                    vstd::arithmetic::div_mod::lemma_fundamental_div_mod_converse(
                        n,
                        height as int,
                        x as int,
                        y as int,
                    );
                    assert(views_of(cells@)[n] == cells@[n]@);
                    assert(forall|i: int|
                        0 <= i < n ==> #[trigger] views_of(cells@)[i] == views_of(old_cells)[i]);
                }
                y = y + 1;
            }
            proof {
                assert(x * height + height == (x + 1) * height) by (nonlinear_arith);
            }
            x = x + 1;
        }
        let r = Grid { cells, width, height };
        proof {
            assert(r@.wf());
        }
        r
    }

    /// True iff (x, y) lies inside the grid.
    pub fn is_in_grid(&self, x: usize, y: usize) -> (r: bool)
        ensures
            r == self@.in_bounds(x as int, y as int),
    {
        x < self.width && y < self.height
    }

    /// A copy of the cell at (x, y), or `None` when (x, y) is out of
    /// bounds; bounds violations are a normal edge case, not an error.
    pub fn get_grid(&self, x: usize, y: usize) -> (r: Option<Cell>)
        requires
            self@.wf(),
        ensures
            self@.in_bounds(x as int, y as int) ==> (r matches Some(c) && c@ == self@.cell(
                x as int,
                y as int,
            )),
            !self@.in_bounds(x as int, y as int) ==> r is None,
    {
        if self.is_in_grid(x, y) {
            proof {
                lemma_grid_index(self@, x as int, y as int);
            }
            let idx = x * self.height + y;
            return Some(self.cells[idx].clone());
        }
        None
    }

    /// Overwrite the cell at (x, y); silently a no-op when (x, y) is out
    /// of bounds, so no neighboring cell is ever disturbed.
    pub fn set_grid(&mut self, x: usize, y: usize, value: Cell)
        requires
            old(self)@.wf(),
        ensures
            final(self)@.width == old(self)@.width,
            final(self)@.height == old(self)@.height,
            old(self)@.in_bounds(x as int, y as int) ==> final(self)@.cells == old(
                self,
            )@.cells.update(old(self)@.idx(x as int, y as int), value@),
            !old(self)@.in_bounds(x as int, y as int) ==> final(self)@ == old(self)@,
    {
        if self.is_in_grid(x, y) {
            proof {
                lemma_grid_index(self@, x as int, y as int);
            }
            let idx = x * self.height + y;
            let ghost prev = self.cells@;
            self.cells.set(idx, value);
            proof {
                assert(views_of(self.cells@) =~= views_of(prev).update(idx as int, value@));
            }
        }
    }
}

} // verus!
