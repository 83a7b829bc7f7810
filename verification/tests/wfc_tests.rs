use wfc::grid::{Cell, Grid};
use wfc::render::render;
use wfc::solver::{
    find_candidates, find_lowest_possibility_count, run, run_with_choices, seed_random_wall, step,
    step_with_choices, update, update_with_choice, RunError, SolverError, NO_ENTROPY,
};
use wfc::tile::{can_have_around, contains_kind, intersection, CellKind};

fn possibilities_at(g: &Grid, x: usize, y: usize) -> Vec<CellKind> {
    g.get_grid(x, y).unwrap().possibilities
}

fn force(g: &mut Grid, x: usize, y: usize, kinds: Vec<CellKind>) {
    let c = Cell::from_possibility_vec(kinds, x, y);
    g.set_grid(x, y, c);
}

fn full() -> Vec<CellKind> {
    vec![CellKind::Wall, CellKind::Air, CellKind::Goal]
}

#[test]
fn adjacency_rule_table() {
    assert_eq!(can_have_around(CellKind::Wall), vec![CellKind::Wall, CellKind::Air]);
    assert_eq!(
        can_have_around(CellKind::Air),
        vec![CellKind::Wall, CellKind::Air, CellKind::Goal]
    );
    assert_eq!(can_have_around(CellKind::Goal), vec![CellKind::Air]);
}

#[test]
fn intersection_keeps_first_order() {
    assert_eq!(
        intersection(&full(), &vec![CellKind::Air, CellKind::Goal]),
        vec![CellKind::Air, CellKind::Goal]
    );
    assert_eq!(
        intersection(&vec![CellKind::Goal, CellKind::Wall], &vec![CellKind::Wall, CellKind::Goal]),
        vec![CellKind::Goal, CellKind::Wall]
    );
    assert_eq!(intersection(&vec![CellKind::Wall], &vec![CellKind::Goal]), vec![]);
    assert_eq!(intersection(&vec![], &full()), vec![]);
}

#[test]
fn contains_kind_basic() {
    assert!(contains_kind(&full(), CellKind::Goal));
    assert!(!contains_kind(&vec![CellKind::Wall], CellKind::Air));
}

#[test]
fn fresh_cell_has_full_set() {
    let c = Cell::new(2, 3);
    assert_eq!(c.possibilities, full());
    assert_eq!(c.x, 2);
    assert_eq!(c.y, 3);
    assert_eq!(c.collapsed(), None);
}

#[test]
fn collapsed_only_on_singleton() {
    let c = Cell::from_possibility_vec(vec![CellKind::Goal], 0, 0);
    assert_eq!(c.collapsed(), Some(CellKind::Goal));
    let c2 = Cell::from_possibility_vec(vec![], 0, 0);
    assert_eq!(c2.collapsed(), None);
    let c3 = Cell::from_possibility_vec(vec![CellKind::Wall, CellKind::Air], 0, 0);
    assert_eq!(c3.collapsed(), None);
}

#[test]
fn grid_new_is_unconstrained() {
    let g = Grid::new(4, 4);
    for x in 0..4 {
        for y in 0..4 {
            let c = g.get_grid(x, y).unwrap();
            assert_eq!(c.possibilities, full());
            assert_eq!(c.x, x);
            assert_eq!(c.y, y);
        }
    }
}

#[test]
fn bounds_get_is_none_and_set_is_noop() {
    // Out-of-bounds accesses never fail and never disturb other cells.
    let mut g = Grid::new(3, 2);
    assert!(!g.is_in_grid(3, 0));
    assert!(!g.is_in_grid(0, 2));
    assert!(g.is_in_grid(2, 1));
    assert!(g.get_grid(3, 0).is_none());
    assert!(g.get_grid(0, 2).is_none());
    assert!(g.get_grid(usize::MAX, usize::MAX).is_none());
    g.set_grid(3, 0, Cell::from_possibility_vec(vec![CellKind::Goal], 3, 0));
    g.set_grid(0, 2, Cell::from_possibility_vec(vec![CellKind::Goal], 0, 2));
    g.set_grid(usize::MAX, 0, Cell::from_possibility_vec(vec![], usize::MAX, 0));
    for x in 0..3 {
        for y in 0..2 {
            assert_eq!(possibilities_at(&g, x, y), full());
        }
    }
}

#[test]
fn entropy_scan_ignores_collapsed() {
    let mut g = Grid::new(3, 3);
    assert_eq!(find_lowest_possibility_count(&g), 3);
    force(&mut g, 1, 1, vec![CellKind::Wall]);
    assert_eq!(find_lowest_possibility_count(&g), 3);
    force(&mut g, 0, 2, vec![CellKind::Wall, CellKind::Air]);
    assert_eq!(find_lowest_possibility_count(&g), 2);
    force(&mut g, 2, 0, vec![]);
    assert_eq!(find_lowest_possibility_count(&g), 0);
}

#[test]
fn exhaustion_scenario() {
    // Every cell pre-collapsed: the scan reports the sentinel and selection
    // is exhausted rather than crashing.
    let mut g = Grid::new(2, 2);
    for x in 0..2 {
        for y in 0..2 {
            force(&mut g, x, y, vec![CellKind::Air]);
        }
    }
    assert_eq!(find_lowest_possibility_count(&g), NO_ENTROPY);
    let cands = find_candidates(&g, NO_ENTROPY);
    assert_eq!(cands.len(), 0);
    assert_eq!(step(&mut g), Err(SolverError::SelectionExhausted));
    // The grid is untouched by the failed round.
    for x in 0..2 {
        for y in 0..2 {
            assert_eq!(possibilities_at(&g, x, y), vec![CellKind::Air]);
        }
    }
}

#[test]
fn run_reports_failing_round() {
    let mut g = Grid::new(2, 2);
    for x in 0..2 {
        for y in 0..2 {
            force(&mut g, x, y, vec![CellKind::Air]);
        }
    }
    assert_eq!(
        run(&mut g, 3),
        Err(RunError { round: 0, error: SolverError::SelectionExhausted })
    );
    let mut g2 = Grid::new(2, 2);
    assert_eq!(run(&mut g2, 0), Ok(()));
}

#[test]
fn contradiction_scenario() {
    // A Goal collapse next to a Wall-only neighbor empties that neighbor;
    // selecting it afterwards reports a contradiction, not a crash.
    let mut g = Grid::new(2, 2);
    force(&mut g, 0, 0, vec![CellKind::Goal]);
    force(&mut g, 1, 0, vec![CellKind::Wall]);
    let k = update_with_choice(&mut g, 0, 0, 0);
    assert_eq!(k, CellKind::Goal);
    assert_eq!(possibilities_at(&g, 1, 0), vec![]);
    assert_eq!(find_lowest_possibility_count(&g), 0);
    assert_eq!(step(&mut g), Err(SolverError::Contradiction { x: 1, y: 0 }));
}

#[test]
fn seed_scenario() {
    // 4x4 grid, seed (0, 0) forced to Wall, one deterministic round: the
    // pick falls among the 15 remaining full-entropy cells, and each
    // propagated neighbor becomes {its prior kinds} intersected with the
    // adjacency rule of the collapsed kind.
    let mut g = Grid::new(4, 4);
    force(&mut g, 0, 0, vec![CellKind::Wall]);
    // Candidates are the 15 full cells in grid order (linear index 1..=15);
    // raw pick 5 selects linear index 6 = (1, 2); raw kind pick 0 selects
    // Wall from its three-kind set.
    let r = step_with_choices(&mut g, 5, 0);
    assert_eq!(r, Ok((1, 2, CellKind::Wall)));
    assert_eq!(possibilities_at(&g, 1, 2), vec![CellKind::Wall]);
    let expected = intersection(&full(), &can_have_around(CellKind::Wall));
    assert_eq!(expected, vec![CellKind::Wall, CellKind::Air]);
    // top (1, 1), right (2, 2), bottom (1, 3) are narrowed; left (0, 2) is
    // skipped by the conservative x > 1 guard.
    assert_eq!(possibilities_at(&g, 1, 1), expected);
    assert_eq!(possibilities_at(&g, 2, 2), expected);
    assert_eq!(possibilities_at(&g, 1, 3), expected);
    assert_eq!(possibilities_at(&g, 0, 2), full());
    // The seed is untouched.
    assert_eq!(possibilities_at(&g, 0, 0), vec![CellKind::Wall]);
}

#[test]
fn seed_scenario_random() {
    let mut g = Grid::new(4, 4);
    force(&mut g, 0, 0, vec![CellKind::Wall]);
    let r = step(&mut g).unwrap();
    let (x, y, k) = r;
    assert!((x, y) != (0, 0));
    assert!(x < 4 && y < 4);
    assert_eq!(possibilities_at(&g, x, y), vec![k]);
    let expected = intersection(&full(), &can_have_around(k));
    if y > 1 {
        assert_eq!(possibilities_at(&g, x, y - 1), expected);
    }
    if x + 1 < 4 {
        assert_eq!(possibilities_at(&g, x + 1, y), expected);
    }
    if y + 1 < 4 {
        assert_eq!(possibilities_at(&g, x, y + 1), expected);
    }
    if x > 1 {
        assert_eq!(possibilities_at(&g, x - 1, y), expected);
    }
}

#[test]
fn update_narrows_all_four_neighbors() {
    let mut g = Grid::new(4, 4);
    let k = update_with_choice(&mut g, 2, 2, 0);
    assert_eq!(k, CellKind::Wall);
    let expected = vec![CellKind::Wall, CellKind::Air];
    assert_eq!(possibilities_at(&g, 2, 2), vec![CellKind::Wall]);
    assert_eq!(possibilities_at(&g, 2, 1), expected);
    assert_eq!(possibilities_at(&g, 3, 2), expected);
    assert_eq!(possibilities_at(&g, 2, 3), expected);
    assert_eq!(possibilities_at(&g, 1, 2), expected);
    assert_eq!(possibilities_at(&g, 0, 0), full());
}

#[test]
fn update_collapses_to_member_of_own_set() {
    let mut g = Grid::new(4, 4);
    force(&mut g, 2, 2, vec![CellKind::Wall, CellKind::Goal]);
    let k = update(&mut g, 2, 2);
    assert!(k == CellKind::Wall || k == CellKind::Goal);
    assert_eq!(possibilities_at(&g, 2, 2), vec![k]);
    let expected = intersection(&full(), &can_have_around(k));
    assert_eq!(possibilities_at(&g, 2, 1), expected);
    assert_eq!(possibilities_at(&g, 3, 2), expected);
    assert_eq!(possibilities_at(&g, 2, 3), expected);
    assert_eq!(possibilities_at(&g, 1, 2), expected);
}

#[test]
fn top_left_guard_skips_coordinate_one() {
    // The conservative guard visits top/left neighbors only when the
    // coordinate is strictly greater than 1.
    let mut g = Grid::new(4, 4);
    let k = update_with_choice(&mut g, 1, 1, 0);
    assert_eq!(k, CellKind::Wall);
    assert_eq!(possibilities_at(&g, 1, 0), full());
    assert_eq!(possibilities_at(&g, 0, 1), full());
    assert_eq!(possibilities_at(&g, 2, 1), vec![CellKind::Wall, CellKind::Air]);
    assert_eq!(possibilities_at(&g, 1, 2), vec![CellKind::Wall, CellKind::Air]);
}

#[test]
fn monotonic_narrowing_over_rounds() {
    // Possibility sets only ever shrink, round after round.
    let mut g = Grid::new(3, 3);
    force(&mut g, 0, 0, vec![CellKind::Wall]);
    let trace = vec![(4, 1), (9, 0), (2, 2), (7, 0), (1, 1)];
    for (round, (a, b)) in trace.into_iter().enumerate() {
        let mut before = Vec::new();
        for x in 0..3 {
            for y in 0..3 {
                before.push(possibilities_at(&g, x, y));
            }
        }
        let r = step_with_choices(&mut g, a, b);
        if r.is_err() {
            break;
        }
        let mut i = 0;
        for x in 0..3 {
            for y in 0..3 {
                let after = possibilities_at(&g, x, y);
                for kind in &after {
                    assert!(
                        before[i].contains(kind),
                        "round {}: cell ({}, {}) grew",
                        round,
                        x,
                        y
                    );
                }
                i += 1;
            }
        }
    }
}

#[test]
fn determinism_with_fixed_trace() {
    // Two runs from equal grids with the same recorded trace end equal.
    let mut g1 = Grid::new(4, 4);
    let mut g2 = Grid::new(4, 4);
    force(&mut g1, 0, 0, vec![CellKind::Wall]);
    force(&mut g2, 0, 0, vec![CellKind::Wall]);
    let trace = vec![(3, 7), (11, 2), (5, 9), (8, 0)];
    let r1 = run_with_choices(&mut g1, &trace);
    let r2 = run_with_choices(&mut g2, &trace);
    assert_eq!(r1, r2);
    for x in 0..4 {
        for y in 0..4 {
            assert_eq!(possibilities_at(&g1, x, y), possibilities_at(&g2, x, y));
        }
    }
}

#[test]
fn collapse_stability_under_propagation() {
    // A collapsed cell is never re-collapsed to a different kind: later
    // propagation either keeps it or (on contradiction) empties it.
    let mut g = Grid::new(3, 3);
    force(&mut g, 1, 1, vec![CellKind::Wall]);
    // Collapse (1, 2) to Air: rule(Air) allows everything, (1, 1) is its
    // top neighbor (guard y = 2 > 1 holds).
    let k = update_with_choice(&mut g, 1, 2, 1);
    assert_eq!(k, CellKind::Air);
    assert_eq!(possibilities_at(&g, 1, 1), vec![CellKind::Wall]);
    // Collapse (2, 1) to Wall: rule(Wall) allows Wall, (1, 1) is its left
    // neighbor (guard x = 2 > 1 holds).
    let k2 = update_with_choice(&mut g, 2, 1, 0);
    assert_eq!(k2, CellKind::Wall);
    assert_eq!(possibilities_at(&g, 1, 1), vec![CellKind::Wall]);
}

#[test]
fn adjacency_respected_across_collapse_edges() {
    // Collapse (2, 2) to Goal: all four neighbors become exactly {Air},
    // which the rule permits next to Goal.
    let mut g = Grid::new(4, 4);
    let k = update_with_choice(&mut g, 2, 2, 2);
    assert_eq!(k, CellKind::Goal);
    let rule = can_have_around(CellKind::Goal);
    for (nx, ny) in [(2usize, 1usize), (3, 2), (2, 3), (1, 2)] {
        let n = g.get_grid(nx, ny).unwrap();
        assert_eq!(n.possibilities, vec![CellKind::Air]);
        let resolved = n.collapsed().unwrap();
        assert!(contains_kind(&rule, resolved));
    }
}

#[test]
fn render_marks_collapsed_and_open_cells() {
    let mut g = Grid::new(2, 2);
    force(&mut g, 0, 0, vec![CellKind::Wall]);
    force(&mut g, 1, 0, vec![CellKind::Air]);
    force(&mut g, 0, 1, vec![CellKind::Goal]);
    let chars = render(&g);
    let text: String = chars.into_iter().collect();
    assert_eq!(text, "##  \ngg..\n");
}

#[test]
fn seed_random_wall_forces_one_wall() {
    let mut g = Grid::new(5, 5);
    let (x, y) = seed_random_wall(&mut g);
    assert!(x < 5 && y < 5);
    assert_eq!(possibilities_at(&g, x, y), vec![CellKind::Wall]);
    let mut singles = 0;
    for cx in 0..5 {
        for cy in 0..5 {
            if possibilities_at(&g, cx, cy).len() == 1 {
                singles += 1;
            } else {
                assert_eq!(possibilities_at(&g, cx, cy), full());
            }
        }
    }
    assert_eq!(singles, 1);
}

#[test]
fn find_candidates_filters_by_count() {
    let mut g = Grid::new(2, 2);
    force(&mut g, 1, 1, vec![CellKind::Wall, CellKind::Air]);
    let threes = find_candidates(&g, 3);
    assert_eq!(threes.len(), 3);
    for c in &threes {
        assert_eq!(c.possibilities.len(), 3);
    }
    let twos = find_candidates(&g, 2);
    assert_eq!(twos.len(), 1);
    assert_eq!(twos[0].x, 1);
    assert_eq!(twos[0].y, 1);
}
