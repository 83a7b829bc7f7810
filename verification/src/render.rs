use vstd::prelude::*;

use crate::grid::{CellView, Grid, GridView};
use crate::tile::CellKind;

verus! {

/// The character drawn for a resolved kind.
pub open spec fn spec_kind_char(k: CellKind) -> char {
    match k {
        CellKind::Wall => '#',
        CellKind::Air => ' ',
        CellKind::Goal => 'g',
    }
}

/// The two characters drawn for one cell: its resolved kind's character
/// doubled for aspect-ratio correction, or two dots while it is unresolved.
pub open spec fn spec_cell_chars(c: CellView) -> Seq<char> {
    if c.possibilities.len() == 1 {
        seq![spec_kind_char(c.possibilities[0]), spec_kind_char(c.possibilities[0])]
    } else {
        seq!['.', '.']
    }
}

/// The characters of row `y`, up to (excluding) column `x`.
pub open spec fn spec_row_chars(g: GridView, y: int, x: int) -> Seq<char>
    decreases x,
{
    if x <= 0 {
        Seq::empty()
    } else {
        spec_row_chars(g, y, x - 1) + spec_cell_chars(g.cell(x - 1, y))
    }
}

/// The rendering of the first `y` rows: rows in order, columns left to
/// right within each row, a newline after each row.
pub open spec fn spec_grid_chars(g: GridView, y: int) -> Seq<char>
    decreases y,
{
    if y <= 0 {
        Seq::empty()
    } else {
        spec_grid_chars(g, y - 1) + spec_row_chars(g, y - 1, g.width) + seq!['\n']
    }
}

/// The character drawn for a resolved kind.
pub fn kind_char(k: CellKind) -> (r: char)
    ensures
        r == spec_kind_char(k),
{
    match k {
        CellKind::Wall => '#',
        CellKind::Air => ' ',
        CellKind::Goal => 'g',
    }
}

/// The character rendering of the whole grid, row-major with a newline
/// after each row; printing it is left to the caller.
pub fn render(grid: &Grid) -> (r: Vec<char>)
    requires
        grid@.wf(),
    ensures
        r@ == spec_grid_chars(grid@, grid@.height),
{
    let mut out: Vec<char> = Vec::new();
    let mut y: usize = 0;
    while y < grid.height
        invariant
            grid@.wf(),
            0 <= y <= grid@.height,
            out@ == spec_grid_chars(grid@, y as int),
        decreases grid@.height - y,
    {
        let mut x: usize = 0;
        while x < grid.width
            invariant
                grid@.wf(),
                0 <= y < grid@.height,
                0 <= x <= grid@.width,
                out@ == spec_grid_chars(grid@, y as int) + spec_row_chars(
                    grid@,
                    y as int,
                    x as int,
                ),
            decreases grid@.width - x,
        {
            let cell = match grid.get_grid(x, y) {
                Some(c) => c,
                None => unreached(),
            };
            match cell.collapsed() {
                Some(k) => {
                    let ch = kind_char(k);
                    out.push(ch);
                    out.push(ch);
                },
                None => {
                    out.push('.');
                    out.push('.');
                },
            }
            proof {
                assert(out@ =~= spec_grid_chars(grid@, y as int) + spec_row_chars(
                    grid@,
                    y as int,
                    x as int + 1,
                ));
            }
            x = x + 1;
        }
        out.push('\n');
        proof {
            assert(out@ =~= spec_grid_chars(grid@, y as int + 1));
        }
        y = y + 1;
    }
    out
}

} // verus!
