use vstd::prelude::*;

use crate::grid::{lemma_cell_coords, CellView, GridView};
use crate::solver::{
    candidates_spec, count_matches, lemma_lowest_bounds, prop_target, run_spec, spec_lowest,
    step_spec, update_cell_spec, update_spec, SolverError,
};
use crate::tile::{lemma_filter_is_subset, occurs_in, spec_can_have_around, CellKind};

verus! {

/// A one-element sequence filters to itself or to the empty sequence.
pub proof fn lemma_filter_singleton<A>(s: Seq<A>, pred: spec_fn(A) -> bool)
    requires
        s.len() == 1,
    ensures
        pred(s[0]) ==> s.filter(pred) == s,
        !pred(s[0]) ==> s.filter(pred) == Seq::<A>::empty(),
{
    reveal_with_fuel(Seq::filter, 2);
    assert(s.drop_last() =~= Seq::<A>::empty());
    assert(s.last() == s[0]);
    if pred(s[0]) {
        assert(s.filter(pred) =~= s);
    } else {
        assert(s.filter(pred) =~= Seq::<A>::empty());
    }
}

/// A collapse-and-propagate round keeps the grid well-formed.
pub proof fn lemma_update_preserves_wf(g: GridView, x: int, y: int, k: CellKind)
    requires
        g.wf(),
    ensures
        update_spec(g, x, y, k).wf(),
        update_spec(g, x, y, k).cells.len() == g.cells.len(),
{
    let g2 = update_spec(g, x, y, k);
    assert forall|i: int| 0 <= i < g2.cells.len() implies (#[trigger] g2.cells[i]).x == i
        / g2.height && g2.cells[i].y == i % g2.height by {
        assert(g2.cells[i] == update_cell_spec(g, x, y, k, i));
        assert(g.cells[i].x == i / g.height && g.cells[i].y == i % g.height);
    }
}

/// A whole round keeps the grid well-formed and its size unchanged.
pub proof fn lemma_step_preserves_wf(g: GridView, a: usize, b: usize)
    requires
        g.wf(),
    ensures
        step_spec(g, a, b).0.wf(),
        step_spec(g, a, b).0.cells.len() == g.cells.len(),
        step_spec(g, a, b).0.width == g.width,
        step_spec(g, a, b).0.height == g.height,
{
    let low = spec_lowest(g.cells, g.cells.len() as int);
    let cands = candidates_spec(g.cells, low);
    if cands.len() != 0 {
        let c = cands[a as int % cands.len() as int];
        if c.possibilities.len() != 0 {
            let k = c.possibilities[b as int % c.possibilities.len() as int];
            lemma_update_preserves_wf(g, c.x, c.y, k);
        }
    }
}

/// A whole run keeps the grid well-formed and its size unchanged.
pub proof fn lemma_run_preserves_wf(g: GridView, trace: Seq<(usize, usize)>, round: int)
    requires
        g.wf(),
    ensures
        run_spec(g, trace, round).0.wf(),
        run_spec(g, trace, round).0.cells.len() == g.cells.len(),
        run_spec(g, trace, round).0.width == g.width,
        run_spec(g, trace, round).0.height == g.height,
    decreases trace.len(),
{
    if trace.len() != 0 {
        let s = step_spec(g, trace[0].0, trace[0].1);
        lemma_step_preserves_wf(g, trace[0].0, trace[0].1);
        match s.1 {
            Ok(_) => {
                lemma_run_preserves_wf(s.0, trace.drop_first(), round + 1);
            },
            Err(_) => {},
        }
    }
}

/// The candidate picked in a round is one of the grid's cells, its index is
/// in range, and its possibility count is the round's minimum entropy.
proof fn lemma_chosen_candidate(g: GridView, a: usize) -> (i: int)
    requires
        g.wf(),
        candidates_spec(g.cells, spec_lowest(g.cells, g.cells.len() as int)).len() != 0,
    ensures
        ({
            let low = spec_lowest(g.cells, g.cells.len() as int);
            let cands = candidates_spec(g.cells, low);
            let c = cands[a as int % cands.len() as int];
            &&& 0 <= i < g.cells.len()
            &&& g.cells[i] == c
            &&& g.in_bounds(c.x, c.y)
            &&& g.idx(c.x, c.y) == i
            &&& c.possibilities.len() as int == low
        }),
{
    let low = spec_lowest(g.cells, g.cells.len() as int);
    let cands = candidates_spec(g.cells, low);
    let ci = a as int % cands.len() as int;
    vstd::arithmetic::div_mod::lemma_mod_division_less_than_divisor(a as int, cands.len() as int);
    let c = cands[ci];
    assert(cands.contains(c));
    lemma_filter_is_subset(g.cells, count_matches(low), c);
    let i = choose|i: int| 0 <= i < g.cells.len() && g.cells[i] == c;
    lemma_cell_coords(g, i);
    i
}

/// Monotonic narrowing, per round: every kind still possible in a cell
/// after a round was possible in that cell before it.
pub proof fn lemma_step_monotonic(g: GridView, a: usize, b: usize, i: int, t: CellKind)
    requires
        g.wf(),
        0 <= i < g.cells.len(),
        step_spec(g, a, b).0.cells[i].possibilities.contains(t),
    ensures
        g.cells[i].possibilities.contains(t),
{
    let low = spec_lowest(g.cells, g.cells.len() as int);
    let cands = candidates_spec(g.cells, low);
    if cands.len() != 0 {
        let c = cands[a as int % cands.len() as int];
        if c.possibilities.len() != 0 {
            let bi = b as int % c.possibilities.len() as int;
            vstd::arithmetic::div_mod::lemma_mod_division_less_than_divisor(
                b as int,
                c.possibilities.len() as int,
            );
            let k = c.possibilities[bi];
            let j = lemma_chosen_candidate(g, a);
            assert(step_spec(g, a, b).0.cells[i] == update_cell_spec(g, c.x, c.y, k, i));
            let cc = g.cells[i];
            if cc.x == c.x && cc.y == c.y {
                lemma_cell_coords(g, i);
                assert(i == j);
                assert(seq![k][0] == k);
                assert(t == k);
                assert(cc.possibilities[bi] == k);
            } else if prop_target(g, c.x, c.y, cc.x, cc.y) {
                lemma_filter_is_subset(cc.possibilities, occurs_in(spec_can_have_around(k)), t);
            }
        }
    }
}

/// Monotonic narrowing, over a whole run: every kind still possible in a
/// cell after any number of rounds was possible in that cell at the start.
pub proof fn lemma_run_monotonic(
    g: GridView,
    trace: Seq<(usize, usize)>,
    round: int,
    i: int,
    t: CellKind,
)
    requires
        g.wf(),
        0 <= i < g.cells.len(),
        run_spec(g, trace, round).0.cells[i].possibilities.contains(t),
    ensures
        g.cells[i].possibilities.contains(t),
    decreases trace.len(),
{
    if trace.len() != 0 {
        let s = step_spec(g, trace[0].0, trace[0].1);
        lemma_step_preserves_wf(g, trace[0].0, trace[0].1);
        match s.1 {
            Ok(_) => {
                lemma_run_monotonic(s.0, trace.drop_first(), round + 1, i, t);
                lemma_step_monotonic(g, trace[0].0, trace[0].1, i, t);
            },
            Err(_) => {},
        }
    }
}

/// Collapse stability, per round: a cell whose possibility set is already a
/// single kind is never re-collapsed; one round leaves it unchanged or, at
/// worst, empties it — it never becomes a different single value.
pub proof fn lemma_step_collapse_stable(g: GridView, a: usize, b: usize, i: int)
    requires
        g.wf(),
        0 <= i < g.cells.len(),
        g.cells[i].possibilities.len() == 1,
    ensures
        step_spec(g, a, b).0.cells[i].possibilities == g.cells[i].possibilities || step_spec(
            g,
            a,
            b,
        ).0.cells[i].possibilities.len() == 0,
{
    let low = spec_lowest(g.cells, g.cells.len() as int);
    let cands = candidates_spec(g.cells, low);
    lemma_lowest_bounds(g.cells, g.cells.len() as int);
    if cands.len() != 0 {
        let c = cands[a as int % cands.len() as int];
        if c.possibilities.len() != 0 {
            let k = c.possibilities[b as int % c.possibilities.len() as int];
            let j = lemma_chosen_candidate(g, a);
            assert(step_spec(g, a, b).0.cells[i] == update_cell_spec(g, c.x, c.y, k, i));
            let cc = g.cells[i];
            if cc.x == c.x && cc.y == c.y {
                lemma_cell_coords(g, i);
                assert(i == j);
                assert(cc.possibilities.len() as int == low);
                assert(false);
            } else if prop_target(g, c.x, c.y, cc.x, cc.y) {
                lemma_filter_singleton(cc.possibilities, occurs_in(spec_can_have_around(k)));
            }
        }
    }
}

/// An empty possibility set stays empty: propagation cannot refill it, and
/// choosing it for collapse is reported as a contradiction instead.
pub proof fn lemma_step_empty_stays(g: GridView, a: usize, b: usize, i: int)
    requires
        g.wf(),
        0 <= i < g.cells.len(),
        g.cells[i].possibilities.len() == 0,
    ensures
        step_spec(g, a, b).0.cells[i].possibilities.len() == 0,
{
    let low = spec_lowest(g.cells, g.cells.len() as int);
    let cands = candidates_spec(g.cells, low);
    if cands.len() != 0 {
        let c = cands[a as int % cands.len() as int];
        if c.possibilities.len() != 0 {
            let k = c.possibilities[b as int % c.possibilities.len() as int];
            let j = lemma_chosen_candidate(g, a);
            assert(step_spec(g, a, b).0.cells[i] == update_cell_spec(g, c.x, c.y, k, i));
            let cc = g.cells[i];
            if cc.x == c.x && cc.y == c.y {
                lemma_cell_coords(g, i);
                assert(i == j);
                assert(false);
            } else if prop_target(g, c.x, c.y, cc.x, cc.y) {
                cc.possibilities.lemma_filter_len(occurs_in(spec_can_have_around(k)));
            }
        }
    }
}

/// Collapse stability over a whole run: once a cell holds a single kind,
/// every later grid state holds that same single kind or the empty set.
pub proof fn lemma_run_collapse_stable(g: GridView, trace: Seq<(usize, usize)>, round: int, i: int)
    requires
        g.wf(),
        0 <= i < g.cells.len(),
        g.cells[i].possibilities.len() == 1,
    ensures
        run_spec(g, trace, round).0.cells[i].possibilities == g.cells[i].possibilities || run_spec(
            g,
            trace,
            round,
        ).0.cells[i].possibilities.len() == 0,
    decreases trace.len(),
{
    if trace.len() != 0 {
        let s = step_spec(g, trace[0].0, trace[0].1);
        lemma_step_preserves_wf(g, trace[0].0, trace[0].1);
        match s.1 {
            Ok(_) => {
                lemma_step_collapse_stable(g, trace[0].0, trace[0].1, i);
                if s.0.cells[i].possibilities == g.cells[i].possibilities {
                    lemma_run_collapse_stable(s.0, trace.drop_first(), round + 1, i);
                } else {
                    lemma_run_empty_stays(s.0, trace.drop_first(), round + 1, i);
                }
            },
            Err(_) => {},
        }
    }
}

/// An empty possibility set stays empty over a whole run.
pub proof fn lemma_run_empty_stays(g: GridView, trace: Seq<(usize, usize)>, round: int, i: int)
    requires
        g.wf(),
        0 <= i < g.cells.len(),
        g.cells[i].possibilities.len() == 0,
    ensures
        run_spec(g, trace, round).0.cells[i].possibilities.len() == 0,
    decreases trace.len(),
{
    if trace.len() != 0 {
        let s = step_spec(g, trace[0].0, trace[0].1);
        lemma_step_preserves_wf(g, trace[0].0, trace[0].1);
        match s.1 {
            Ok(_) => {
                lemma_step_empty_stays(g, trace[0].0, trace[0].1, i);
                lemma_run_empty_stays(s.0, trace.drop_first(), round + 1, i);
            },
            Err(_) => {},
        }
    }
}

/// Adjacency respected locally: when a round collapses (x, y) to kind k,
/// every kind still possible in a neighbor the collapse propagated to is
/// permitted next to k by the adjacency rule. In particular, a propagated
/// neighbor that is itself collapsed after the round holds a permitted kind.
/// The rule is one-hop only; nothing is claimed for pairs no collapse
/// propagated across.
pub proof fn lemma_step_adjacency(
    g: GridView,
    a: usize,
    b: usize,
    x: usize,
    y: usize,
    k: CellKind,
    i: int,
    t: CellKind,
)
    requires
        g.wf(),
        step_spec(g, a, b).1 == Ok::<(usize, usize, CellKind), SolverError>((x, y, k)),
        0 <= i < g.cells.len(),
        prop_target(g, x as int, y as int, g.cells[i].x, g.cells[i].y),
        step_spec(g, a, b).0.cells[i].possibilities.contains(t),
    ensures
        spec_can_have_around(k).contains(t),
{
    let low = spec_lowest(g.cells, g.cells.len() as int);
    let cands = candidates_spec(g.cells, low);
    let c = cands[a as int % cands.len() as int];
    let j = lemma_chosen_candidate(g, a);
    assert(c.x == x as int && c.y == y as int);
    assert(step_spec(g, a, b).0.cells[i] == update_cell_spec(g, c.x, c.y, k, i));
    let cc = g.cells[i];
    assert(!(cc.x == c.x && cc.y == c.y));
    lemma_filter_is_subset(cc.possibilities, occurs_in(spec_can_have_around(k)), t);
}

/// Single-writer-per-round determinism: a run is a function of the starting
/// grid and the recorded trace of random words alone, so two runs from
/// equal grids with equal traces end in equal grids with equal outcomes.
pub proof fn lemma_run_deterministic(g1: GridView, g2: GridView, trace: Seq<(usize, usize)>)
    requires
        g1 == g2,
    ensures
        run_spec(g1, trace, 0) == run_spec(g2, trace, 0),
{
}

} // verus!
