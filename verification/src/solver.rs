use vstd::prelude::*;

use crate::grid::{
    lemma_cell_coords, lemma_grid_index, lemma_set_preserves_wf, views_of, Cell, CellView, Grid,
    GridView,
};
use crate::tile::{
    can_have_around, intersection, kind_intersection, lemma_filter_is_subset,
    spec_can_have_around, CellKind,
};

verus! {

/// The sentinel entropy reported when every cell is already collapsed:
/// larger than any real possibility count this system produces.
pub const NO_ENTROPY: usize = 100;

/// A fatal condition of a solver round; the run stops, no backtracking.
#[derive(Clone, Copy, Debug, PartialEq, Eq, Structural)]
pub enum SolverError {
    /// No cell matches the minimum entropy: every cell is collapsed.
    SelectionExhausted,
    /// The chosen minimum-entropy cell has an empty possibility set.
    Contradiction { x: usize, y: usize },
}

/// A fatal condition together with the round that triggered it.
#[derive(Clone, Copy, Debug, PartialEq, Eq, Structural)]
pub struct RunError {
    pub round: usize,
    pub error: SolverError,
}

/// Relies on rand::random::<u64>: a uniformly random 64-bit word, converted
/// to usize. Nothing is assumed about which value comes back.
#[verifier::external_body]
fn random_usize() -> usize {
    rand::random::<u64>() as usize
}

/// The minimum possibility-set size other than 1 among the first `n` cells,
/// or the sentinel when no such cell exists; scanned in grid order.
pub open spec fn spec_lowest(cells: Seq<CellView>, n: int) -> int
    decreases n,
{
    if n <= 0 {
        NO_ENTROPY as int
    } else {
        let prev = spec_lowest(cells, n - 1);
        let c = cells[n - 1].possibilities.len() as int;
        if c != 1 && c < prev {
            c
        } else {
            prev
        }
    }
}

/// The scan result is the least possibility count different from 1, is never
/// 1 itself, and is either attained by some cell or the sentinel.
pub proof fn lemma_lowest_bounds(cells: Seq<CellView>, n: int)
    requires
        0 <= n <= cells.len(),
    ensures
        spec_lowest(cells, n) <= NO_ENTROPY as int,
        spec_lowest(cells, n) != 1,
        forall|i: int|
            0 <= i < n && (#[trigger] cells[i]).possibilities.len() != 1 ==> spec_lowest(cells, n)
                <= cells[i].possibilities.len() as int,
        spec_lowest(cells, n) == NO_ENTROPY as int || exists|i: int|
            0 <= i < n && (#[trigger] cells[i]).possibilities.len() as int == spec_lowest(
                cells,
                n,
            ),
    decreases n,
{
    if n > 0 {
        lemma_lowest_bounds(cells, n - 1);
    }
}

/// The minimum possibility-set size strictly greater than 1 over all cells
/// (collapsed cells are ignored), or the sentinel when every cell is
/// collapsed; the solver then relies on selection coming up empty.
pub fn find_lowest_possibility_count(grid: &Grid) -> (r: usize)
    ensures
        r as int == spec_lowest(grid@.cells, grid@.cells.len() as int),
        r <= NO_ENTROPY,
        r != 1,
        forall|i: int|
            0 <= i < grid@.cells.len() && (#[trigger] grid@.cells[i]).possibilities.len() != 1
                ==> r as int <= grid@.cells[i].possibilities.len() as int,
        r == NO_ENTROPY || exists|i: int|
            0 <= i < grid@.cells.len() && (#[trigger] grid@.cells[i]).possibilities.len() as int
                == r as int,
{
    proof {
        lemma_lowest_bounds(grid@.cells, grid@.cells.len() as int);
    }
    let mut lowest: usize = NO_ENTROPY;
    let mut i: usize = 0;
    while i < grid.cells.len()
        invariant
            0 <= i <= grid@.cells.len(),
            lowest as int == spec_lowest(grid@.cells, i as int),
        decreases grid@.cells.len() - i,
    {
        proof {
            assert(grid@.cells[i as int] == grid.cells@[i as int]@);
        }
        let count = grid.cells[i].possibilities.len();
        if count < lowest && count != 1 {
            lowest = count;
        }
        i = i + 1;
    }
    lowest
}

/// The predicate "has possibility count `count`", usable with `filter`.
pub open spec fn count_matches(count: int) -> spec_fn(CellView) -> bool {
    |c: CellView| c.possibilities.len() as int == count
}

/// The cells whose possibility-set size equals `count`, in grid order.
pub open spec fn candidates_spec(cells: Seq<CellView>, count: int) -> Seq<CellView> {
    cells.filter(count_matches(count))
}

/// The candidate sequence for one round: every cell whose possibility-set
/// size equals the given entropy, in grid order.
pub fn find_candidates(grid: &Grid, count: usize) -> (r: Vec<Cell>)
    ensures
        views_of(r@) == candidates_spec(grid@.cells, count as int),
{
    let mut out: Vec<Cell> = Vec::new();
    let mut i: usize = 0;
    while i < grid.cells.len()
        invariant
            0 <= i <= grid@.cells.len(),
            views_of(out@) == grid@.cells.subrange(0, i as int).filter(count_matches(
                count as int,
            )),
        decreases grid@.cells.len() - i,
    {
        let ghost pred = count_matches(count as int);
        let ghost prefix = grid@.cells.subrange(0, i as int);
        let ghost ci = grid@.cells[i as int];
        proof {
            assert(ci == grid.cells@[i as int]@);
            Seq::<CellView>::filter_distributes_over_add(prefix, seq![ci], pred);
            assert(grid@.cells.subrange(0, i as int + 1) =~= prefix + seq![ci]);
        }
        let hit = grid.cells[i].possibilities.len() == count;
        proof {
            assert(hit == pred(ci));
        }
        if hit {
            out.push(grid.cells[i].clone());
            proof {
                assert(pred(ci));
                assert(seq![ci].filter(pred) =~= seq![ci]) by {
                    reveal_with_fuel(Seq::filter, 2);
                    assert(seq![ci].drop_last() =~= Seq::<CellView>::empty());
                }
                assert(views_of(out@) =~= prefix.filter(pred) + seq![ci].filter(pred));
            }
        } else {
            proof {
                assert(!pred(ci));
                assert(seq![ci].filter(pred) =~= Seq::<CellView>::empty()) by {
                    reveal_with_fuel(Seq::filter, 2);
                    assert(seq![ci].drop_last() =~= Seq::<CellView>::empty());
                }
                assert(views_of(out@) =~= prefix.filter(pred) + seq![ci].filter(pred));
            }
        }
        i = i + 1;
    }
    proof {
        assert(grid@.cells.subrange(0, grid@.cells.len() as int) =~= grid@.cells);
    }
    out
}

/// The cell after its own collapse: a single-element possibility set.
pub open spec fn collapsed_cell(c: CellView, k: CellKind) -> CellView {
    CellView { possibilities: seq![k], x: c.x, y: c.y }
}

/// A neighbor after propagation: its possibility set intersected with the
/// allowed set, even if the intersection is empty.
pub open spec fn narrowed_cell(c: CellView, allowed: Seq<CellKind>) -> CellView {
    CellView { possibilities: kind_intersection(c.possibilities, allowed), x: c.x, y: c.y }
}

/// Whether (cx, cy) is one of the neighbors that a collapse at (x, y)
/// propagates to. Top and left are visited only when the coordinate is
/// strictly greater than 1 — a deliberately conservative guard that also
/// skips the neighbor at coordinate 1 — right and bottom whenever they are
/// in bounds.
pub open spec fn prop_target(g: GridView, x: int, y: int, cx: int, cy: int) -> bool {
    ||| (cx == x && cy == y - 1 && y > 1)
    ||| (cx == x + 1 && cy == y && x + 1 < g.width)
    ||| (cx == x && cy == y + 1 && y + 1 < g.height)
    ||| (cx == x - 1 && cy == y && x > 1)
}

/// The cell at linear index `i` after a collapse of (x, y) to `k` and the
/// one-hop propagation that follows it.
pub open spec fn update_cell_spec(g: GridView, x: int, y: int, k: CellKind, i: int) -> CellView {
    let c = g.cells[i];
    if c.x == x && c.y == y {
        collapsed_cell(c, k)
    } else if prop_target(g, x, y, c.x, c.y) {
        narrowed_cell(c, spec_can_have_around(k))
    } else {
        c
    }
}

/// The whole grid after a collapse of (x, y) to `k` and its propagation.
pub open spec fn update_spec(g: GridView, x: int, y: int, k: CellKind) -> GridView {
    GridView {
        width: g.width,
        height: g.height,
        cells: Seq::new(g.cells.len(), |i: int| update_cell_spec(g, x, y, k, i)),
    }
}

/// Narrow the cell at (nx, ny) to the intersection of its possibility set
/// with `allowed`; a no-op when (nx, ny) is out of bounds.
fn propagate_to(grid: &mut Grid, nx: usize, ny: usize, allowed: &Vec<CellKind>)
    requires
        old(grid)@.wf(),
    ensures
        final(grid)@.wf(),
        final(grid)@.width == old(grid)@.width,
        final(grid)@.height == old(grid)@.height,
        old(grid)@.in_bounds(nx as int, ny as int) ==> final(grid)@.cells == old(
            grid,
        )@.cells.update(
            old(grid)@.idx(nx as int, ny as int),
            narrowed_cell(old(grid)@.cell(nx as int, ny as int), allowed@),
        ),
        !old(grid)@.in_bounds(nx as int, ny as int) ==> final(grid)@ == old(grid)@,
{
    let ghost g0 = grid@;
    if let Some(n) = grid.get_grid(nx, ny) {
        let inter = intersection(&n.possibilities, allowed);
        grid.set_grid(nx, ny, Cell::from_possibility_vec(inter, nx, ny));
        proof {
            lemma_grid_index(g0, nx as int, ny as int);
            lemma_set_preserves_wf(g0, nx as int, ny as int, inter@);
            assert(grid@.cells == g0.cells.update(
                g0.idx(nx as int, ny as int),
                narrowed_cell(g0.cell(nx as int, ny as int), allowed@),
            ));
        }
    }
}

/// Collapse the cell at (x, y) to the kind its `choice`-th possibility
/// (modulo the set size) selects, then narrow each propagated neighbor by
/// the adjacency rule of that kind; everything else is untouched.
pub fn update_with_choice(grid: &mut Grid, x: usize, y: usize, choice: usize) -> (k: CellKind)
    requires
        old(grid)@.wf(),
        old(grid)@.in_bounds(x as int, y as int),
        old(grid)@.cell(x as int, y as int).possibilities.len() > 0,
    ensures
        final(grid)@.wf(),
        k == old(grid)@.cell(x as int, y as int).possibilities[choice as int % old(grid)@.cell(
            x as int,
            y as int,
        ).possibilities.len() as int],
        old(grid)@.cell(x as int, y as int).possibilities.contains(k),
        final(grid)@ == update_spec(old(grid)@, x as int, y as int, k),
{
    let ghost g0 = grid@;
    proof {
        lemma_grid_index(g0, x as int, y as int);
    }
    let cell = match grid.get_grid(x, y) {
        Some(c) => c,
        None => unreached(),
    };
    let len = cell.possibilities.len();
    let ki = choice % len;
    let k = cell.possibilities[ki];
    let single = vec![k];
    proof {
        assert(single@ =~= seq![k]);
    }
    grid.set_grid(x, y, Cell::from_possibility_vec(single, x, y));
    proof {
        lemma_set_preserves_wf(g0, x as int, y as int, seq![k]);
        assert(grid@.cells[g0.idx(x as int, y as int)].possibilities.contains(k)) by {
            assert(seq![k][0] == k);
        }
    }
    let ghost g1 = grid@;
    let allowed = can_have_around(k);
    proof {
        assert(grid@.width <= grid@.width * grid@.height) by (nonlinear_arith)
            requires
                0 < grid@.height,
                0 <= grid@.width,
        ;
        assert(grid@.height <= grid@.width * grid@.height) by (nonlinear_arith)
            requires
                0 < grid@.width,
                0 <= grid@.height,
        ;
    }
    // top
    if y > 1 {
        propagate_to(grid, x, y - 1, &allowed);
    }
    let ghost g2 = grid@;
    // right
    propagate_to(grid, x + 1, y, &allowed);
    let ghost g3 = grid@;
    // bottom
    propagate_to(grid, x, y + 1, &allowed);
    let ghost g4 = grid@;
    // left
    if x > 1 {
        propagate_to(grid, x - 1, y, &allowed);
    }
    proof {
        let gu = update_spec(g0, x as int, y as int, k);
        let xi = x as int;
        let yi = y as int;
        assert forall|i: int| 0 <= i < g0.cells.len() implies grid@.cells[i] == update_cell_spec(
            g0,
            xi,
            yi,
            k,
            i,
        ) by {
            lemma_cell_coords(g0, i);
            lemma_grid_index(g0, xi, yi);
            if yi > 1 {
                lemma_grid_index(g0, xi, yi - 1);
            }
            if xi + 1 < g0.width {
                lemma_grid_index(g0, xi + 1, yi);
            }
            if yi + 1 < g0.height {
                lemma_grid_index(g0, xi, yi + 1);
            }
            if xi > 1 {
                lemma_grid_index(g0, xi - 1, yi);
            }
        }
        assert(grid@.cells =~= gu.cells);
        assert(grid@ == gu);
    }
    k
}

/// Collapse the cell at (x, y) to a uniformly random member of its current
/// possibility set, then propagate as `update_with_choice` does.
pub fn update(grid: &mut Grid, x: usize, y: usize) -> (k: CellKind)
    requires
        old(grid)@.wf(),
        old(grid)@.in_bounds(x as int, y as int),
        old(grid)@.cell(x as int, y as int).possibilities.len() > 0,
    ensures
        final(grid)@.wf(),
        old(grid)@.cell(x as int, y as int).possibilities.contains(k),
        final(grid)@ == update_spec(old(grid)@, x as int, y as int, k),
{
    let choice = random_usize();
    update_with_choice(grid, x, y, choice)
}

/// One whole round, as a function of the grid and the two raw random words
/// `a` (candidate pick) and `b` (kind pick): scan the entropy, filter the
/// candidates, pick one, collapse it and propagate — or stop with the
/// round's fatal condition, leaving the grid unchanged.
pub open spec fn step_spec(g: GridView, a: usize, b: usize) -> (GridView, Result<
    (usize, usize, CellKind),
    SolverError,
>) {
    let low = spec_lowest(g.cells, g.cells.len() as int);
    let cands = candidates_spec(g.cells, low);
    if cands.len() == 0 {
        (g, Err(SolverError::SelectionExhausted))
    } else {
        let c = cands[a as int % cands.len() as int];
        if c.possibilities.len() == 0 {
            (g, Err(SolverError::Contradiction { x: c.x as usize, y: c.y as usize }))
        } else {
            let k = c.possibilities[b as int % c.possibilities.len() as int];
            (update_spec(g, c.x, c.y, k), Ok((c.x as usize, c.y as usize, k)))
        }
    }
}

/// One solver round driven by the two given raw random words: deterministic,
/// and exactly `step_spec`. On success it reports the collapsed cell and
/// its kind; on failure the grid is left unchanged.
pub fn step_with_choices(grid: &mut Grid, a: usize, b: usize) -> (r: Result<
    (usize, usize, CellKind),
    SolverError,
>)
    requires
        old(grid)@.wf(),
    ensures
        final(grid)@.wf(),
        final(grid)@ == step_spec(old(grid)@, a, b).0,
        r == step_spec(old(grid)@, a, b).1,
{
    let ghost g0 = grid@;
    let low = find_lowest_possibility_count(grid);
    let cands = find_candidates(grid, low);
    if cands.len() == 0 {
        proof {
            assert(candidates_spec(g0.cells, low as int).len() == 0);
        }
        return Err(SolverError::SelectionExhausted);
    }
    let ci = a % cands.len();
    let chosen = &cands[ci];
    let x = chosen.x;
    let y = chosen.y;
    proof {
        let cv = candidates_spec(g0.cells, low as int)[ci as int];
        assert(views_of(cands@)[ci as int] == cands@[ci as int]@);
        assert(cands@[ci as int]@ == cv);
        assert(candidates_spec(g0.cells, low as int).contains(cv));
        lemma_filter_is_subset(g0.cells, count_matches(low as int), cv);
        let i = choose|i: int| 0 <= i < g0.cells.len() && g0.cells[i] == cv;
        lemma_cell_coords(g0, i);
        assert(g0.in_bounds(x as int, y as int));
    }
    if chosen.possibilities.len() == 0 {
        return Err(SolverError::Contradiction { x, y });
    }
    let k = update_with_choice(grid, x, y, b);
    Ok((x, y, k))
}

/// Whether one solver round can turn the grid `g0` into `g1` with outcome
/// `r`: some pair of raw random words produces exactly that.
pub open spec fn step_outcome(
    g0: GridView,
    g1: GridView,
    r: Result<(usize, usize, CellKind), SolverError>,
) -> bool {
    exists|a: usize, b: usize| #[trigger] step_spec(g0, a, b) == (g1, r)
}

/// One solver round with fresh randomness: find the minimum entropy, pick a
/// candidate uniformly, collapse it to a uniformly picked kind, propagate.
pub fn step(grid: &mut Grid) -> (r: Result<(usize, usize, CellKind), SolverError>)
    requires
        old(grid)@.wf(),
    ensures
        final(grid)@.wf(),
        step_outcome(old(grid)@, final(grid)@, r),
        final(grid)@.cells.len() == old(grid)@.cells.len(),
        forall|i: int, t: CellKind|
            0 <= i < old(grid)@.cells.len()
                && #[trigger] final(grid)@.cells[i].possibilities.contains(t)
                ==> old(grid)@.cells[i].possibilities.contains(t),
{
    let a = random_usize();
    let b = random_usize();
    let r = step_with_choices(grid, a, b);
    proof {
        assert(step_spec(old(grid)@, a, b) == (grid@, r));
        crate::laws::lemma_step_preserves_wf(old(grid)@, a, b);
        assert forall|i: int, t: CellKind|
            0 <= i < old(grid)@.cells.len() && #[trigger] grid@.cells[i].possibilities.contains(
                t,
            ) implies old(grid)@.cells[i].possibilities.contains(t) by {
            crate::laws::lemma_step_monotonic(old(grid)@, a, b, i, t);
        }
    }
    r
}

/// A whole run from a recorded trace of raw random words, one pair per
/// round, starting at round number `round`: rounds are applied in order
/// until the trace is exhausted or a round fails; a failure reports the
/// round that triggered it and leaves the grid as that round found it.
pub open spec fn run_spec(g: GridView, trace: Seq<(usize, usize)>, round: int) -> (GridView, Result<
    (),
    RunError,
>)
    decreases trace.len(),
{
    if trace.len() == 0 {
        (g, Ok(()))
    } else {
        let s = step_spec(g, trace[0].0, trace[0].1);
        match s.1 {
            Ok(_) => run_spec(s.0, trace.drop_first(), round + 1),
            Err(e) => (s.0, Err(RunError { round: round as usize, error: e })),
        }
    }
}

/// A whole run driven by the given trace of raw random words: deterministic,
/// and exactly `run_spec` from round 0.
pub fn run_with_choices(grid: &mut Grid, trace: &Vec<(usize, usize)>) -> (r: Result<(), RunError>)
    requires
        old(grid)@.wf(),
    ensures
        final(grid)@.wf(),
        final(grid)@ == run_spec(old(grid)@, trace@, 0).0,
        r == run_spec(old(grid)@, trace@, 0).1,
{
    let ghost g0 = grid@;
    proof {
        assert(trace@.skip(0) =~= trace@);
    }
    let mut i: usize = 0;
    while i < trace.len()
        invariant
            grid@.wf(),
            g0 == old(grid)@,
            0 <= i <= trace@.len(),
            run_spec(g0, trace@, 0) == run_spec(grid@, trace@.skip(i as int), i as int),
        decreases trace@.len() - i,
    {
        let (a, b) = trace[i];
        let ghost pre = grid@;
        let ghost rest = trace@.skip(i as int);
        proof {
            assert(rest[0] == trace@[i as int]);
            assert(rest.drop_first() =~= trace@.skip(i as int + 1));
        }
        let s = step_with_choices(grid, a, b);
        match s {
            Ok(_) => {
                proof {
                    assert(run_spec(pre, rest, i as int) == run_spec(
                        grid@,
                        trace@.skip(i as int + 1),
                        i as int + 1,
                    ));
                }
            },
            Err(e) => {
                proof {
                    assert(run_spec(pre, rest, i as int) == (
                        grid@,
                        Err::<(), RunError>(RunError { round: i, error: e }),
                    ));
                }
                return Err(RunError { round: i, error: e });
            },
        }
        i = i + 1;
    }
    proof {
        assert(trace@.skip(trace@.len() as int) =~= Seq::<(usize, usize)>::empty());
    }
    Ok(())
}

/// Whether `rounds` solver rounds can turn `g0` into `g1` with outcome `r`:
/// some trace of that many raw random pairs produces exactly that.
pub open spec fn run_outcome(
    g0: GridView,
    g1: GridView,
    rounds: usize,
    r: Result<(), RunError>,
) -> bool {
    exists|t: Seq<(usize, usize)>|
        t.len() == rounds && #[trigger] run_spec(g0, t, 0) == (g1, r)
}

/// Run a fixed number of rounds with fresh randomness. There is no
/// convergence check: the loop runs out of rounds, or fails fast on the
/// round that exhausted selection or hit a contradiction.
pub fn run(grid: &mut Grid, rounds: usize) -> (r: Result<(), RunError>)
    requires
        old(grid)@.wf(),
    ensures
        final(grid)@.wf(),
        run_outcome(old(grid)@, final(grid)@, rounds, r),
        final(grid)@.cells.len() == old(grid)@.cells.len(),
        forall|i: int, t: CellKind|
            0 <= i < old(grid)@.cells.len()
                && #[trigger] final(grid)@.cells[i].possibilities.contains(t)
                ==> old(grid)@.cells[i].possibilities.contains(t),
{
    let mut trace: Vec<(usize, usize)> = Vec::new();
    let mut i: usize = 0;
    while i < rounds
        invariant
            0 <= i <= rounds,
            trace@.len() == i,
        decreases rounds - i,
    {
        let a = random_usize();
        let b = random_usize();
        trace.push((a, b));
        i = i + 1;
    }
    let r = run_with_choices(grid, &trace);
    proof {
        assert(run_spec(old(grid)@, trace@, 0) == (grid@, r));
        crate::laws::lemma_run_preserves_wf(old(grid)@, trace@, 0);
        assert forall|i: int, t: CellKind|
            0 <= i < old(grid)@.cells.len() && #[trigger] grid@.cells[i].possibilities.contains(
                t,
            ) implies old(grid)@.cells[i].possibilities.contains(t) by {
            crate::laws::lemma_run_monotonic(old(grid)@, trace@, 0, i, t);
        }
    }
    r
}

/// Force one uniformly random cell to Wall, anchoring the generation; this
/// is the only externally supplied initial condition.
pub fn seed_random_wall(grid: &mut Grid) -> (r: (usize, usize))
    requires
        old(grid)@.wf(),
        old(grid)@.width > 0,
        old(grid)@.height > 0,
    ensures
        final(grid)@.wf(),
        old(grid)@.in_bounds(r.0 as int, r.1 as int),
        final(grid)@.width == old(grid)@.width,
        final(grid)@.height == old(grid)@.height,
        final(grid)@.cells == old(grid)@.cells.update(
            old(grid)@.idx(r.0 as int, r.1 as int),
            CellView { possibilities: seq![CellKind::Wall], x: r.0 as int, y: r.1 as int },
        ),
{
    let ghost g0 = grid@;
    let rx = random_usize() % grid.width;
    let ry = random_usize() % grid.height;
    let single = vec![CellKind::Wall];
    proof {
        assert(single@ =~= seq![CellKind::Wall]);
    }
    grid.set_grid(rx, ry, Cell::from_possibility_vec(single, rx, ry));
    proof {
        lemma_set_preserves_wf(g0, rx as int, ry as int, seq![CellKind::Wall]);
    }
    (rx, ry)
}

} // verus!

