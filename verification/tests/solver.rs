use wavesolve::deduce::{deduce, extract, seed_domains};
use wavesolve::domain::{Domain, DomainGrid};
use wavesolve::grid::Pair;
use wavesolve::propagate::{propogate_changes, supported_by_other};
use wavesolve::rules::{induce, Direction, Rule, RuleSet};
use wavesolve::search::{solve, MAX_ITERATION_COUNT};

fn pair(input: Vec<Vec<u8>>, output: Vec<Vec<u8>>) -> Pair {
    Pair { input, output }
}

fn blank_output(width: usize, height: usize) -> Vec<Vec<u8>> {
    vec![vec![0u8; height]; width]
}

fn all_directions() -> Vec<Direction> {
    vec![
        Direction::North,
        Direction::West,
        Direction::South,
        Direction::East,
        Direction::Above,
    ]
}

#[test]
fn color_swap_above_rules_are_induced() {
    // A training pair that swaps colors 1 and 2.
    let train = vec![pair(vec![vec![1, 2], vec![2, 1]], vec![vec![2, 1], vec![1, 2]])];
    let rules = induce(&train);
    assert!(rules.contains(Rule(Direction::Above, 2, 1)));
    assert!(rules.contains(Rule(Direction::Above, 1, 2)));
    assert!(!rules.contains(Rule(Direction::Above, 1, 1)));
    assert!(!rules.contains(Rule(Direction::Above, 2, 2)));
}

#[test]
fn color_swap_is_deduced() {
    let train = vec![pair(vec![vec![1, 2], vec![2, 1]], vec![vec![2, 1], vec![1, 2]])];
    let rules = induce(&train);
    let test = pair(vec![vec![1, 2], vec![2, 1]], blank_output(2, 2));
    let result = deduce(test, &rules);
    assert_eq!(result.output.output, vec![vec![2, 1], vec![1, 2]]);
    assert_eq!(result.no_solution_count, 0);
    assert_eq!(result.uncollapsed_tile_count, 0);
}

#[test]
fn neighbor_rules_are_induced() {
    let train = vec![pair(vec![vec![1, 2], vec![2, 1]], vec![vec![2, 1], vec![1, 2]])];
    let rules = induce(&train);
    // Cell (0,0) of the output holds 2; its East neighbor holds 1 and its
    // South neighbor holds 1.
    assert!(rules.contains(Rule(Direction::East, 2, 1)));
    assert!(rules.contains(Rule(Direction::South, 2, 1)));
    assert!(rules.contains(Rule(Direction::West, 1, 2)));
    assert!(rules.contains(Rule(Direction::North, 1, 2)));
    // Never observed: equal symbols side by side.
    assert!(!rules.contains(Rule(Direction::East, 1, 1)));
    assert!(!rules.contains(Rule(Direction::North, 2, 2)));
}

#[test]
fn unseeded_cell_keeps_full_domain() {
    // No Above rule mentions input symbol 4, so that cell falls back to
    // the full ten-symbol domain instead of contradicting.
    let mut rules = RuleSet::new();
    rules.insert(Rule(Direction::Above, 5, 3));
    let input = vec![vec![3u8, 4u8]];
    let seeded = seed_domains(&rules, &input);
    assert_eq!(seeded.cardinality_at(0, 0), 1);
    assert!(seeded.test_slot(0, 0, 5));
    assert_eq!(seeded.cardinality_at(0, 1), 10);
    for c in 0..10 {
        assert!(seeded.test_slot(0, 1, c));
    }
}

#[test]
fn single_cell_grid_short_circuits() {
    let train = vec![pair(vec![vec![3]], vec![vec![5]])];
    let rules = induce(&train);
    let test = pair(vec![vec![3]], blank_output(1, 1));
    let result = deduce(test, &rules);
    assert_eq!(result.output.output, vec![vec![5]]);
    assert_eq!(result.no_solution_count, 0);
    assert_eq!(result.uncollapsed_tile_count, 0);
}

#[test]
fn budget_exhaustion_returns_board_unchanged() {
    let rules = RuleSet::new();
    let board = DomainGrid::full(3, 3);
    let mut iterations: usize = MAX_ITERATION_COUNT;
    let result = solve(&rules, board, &mut iterations).expect("budget return is Some");
    assert_eq!(iterations, MAX_ITERATION_COUNT + 1);
    // The board comes back exactly as it went in.
    for x in 0..3 {
        for y in 0..3 {
            assert_eq!(result.cardinality_at(x, y), 10);
        }
    }
}

#[test]
fn budget_bounds_the_iteration_counter() {
    // Without rules every interior support check fails, so every branch
    // dies in propagation before it can recurse: the search reports
    // exhaustion, and the counter never passes the budget by more than
    // the final increment.
    let rules = RuleSet::new();
    let board = DomainGrid::full(4, 4);
    let mut iterations: usize = 0;
    let result = solve(&rules, board, &mut iterations);
    assert!(result.is_none());
    assert_eq!(iterations, 1);
    assert!(iterations <= MAX_ITERATION_COUNT + 1);
}

#[test]
fn boundary_cells_skip_lateral_constraints() {
    // On a 2x2 board every cell sits on the outer ring, so lateral
    // propagation never targets any of them: each cell simply collapses
    // to its smallest seeded symbol, whatever the neighbor rules say.
    let train = vec![pair(vec![vec![0, 0], vec![0, 0]], vec![vec![1, 2], vec![2, 1]])];
    let rules = induce(&train);
    let test = pair(vec![vec![0, 0], vec![0, 0]], blank_output(2, 2));
    let result = deduce(test, &rules);
    assert_eq!(result.output.output, vec![vec![1, 1], vec![1, 1]]);
    assert_eq!(result.no_solution_count, 0);
    assert_eq!(result.uncollapsed_tile_count, 0);
}

#[test]
fn ties_break_in_ascending_cell_and_symbol_order() {
    // Every cell seeds to {1, 2}. The search walks cells in ascending
    // order trying the smaller symbol first, so the ring becomes all 1.
    // Collapsing the corner (2,0) then strips symbol 1 of the center
    // (no rule puts 1 next to 1), both center-1 branches die, and the
    // search backtracks into center 2: the first solution found is
    // the ring of 1s around a 2.
    let train = vec![pair(
        vec![vec![0, 0, 0], vec![0, 0, 0], vec![0, 0, 0]],
        vec![vec![1, 2, 1], vec![2, 1, 2], vec![1, 2, 1]],
    )];
    let rules = induce(&train);
    let test = pair(vec![vec![0u8; 3]; 3], blank_output(3, 3));
    let result = deduce(test, &rules);
    assert_eq!(result.output.output, vec![vec![1, 1, 1], vec![1, 2, 1], vec![1, 1, 1]]);
    assert_eq!(result.no_solution_count, 0);
    assert_eq!(result.uncollapsed_tile_count, 0);
}

#[test]
fn deduction_is_deterministic() {
    let train = vec![
        pair(vec![vec![1, 2], vec![2, 1]], vec![vec![2, 1], vec![1, 2]]),
        pair(vec![vec![2, 1], vec![1, 2]], vec![vec![1, 2], vec![2, 1]]),
    ];
    let rules = induce(&train);
    let run = || {
        let test = pair(vec![vec![1, 2], vec![2, 1]], blank_output(2, 2));
        deduce(test, &rules)
    };
    let first = run();
    let second = run();
    assert_eq!(first.output.output, second.output.output);
    assert_eq!(first.no_solution_count, second.no_solution_count);
    assert_eq!(first.uncollapsed_tile_count, second.uncollapsed_tile_count);
}

#[test]
fn extraction_counts_cover_the_board() {
    // One contradictory cell, one collapsed cell, two ambiguous cells.
    let mut board = DomainGrid::uniform(2, 2, true);
    board.set_cell(0, 0, Domain::uniform(false));
    board.collapse_to(0, 1, 7);
    let test = pair(vec![vec![9, 9], vec![9, 9]], blank_output(2, 2));
    let result = extract(test, &board);
    assert_eq!(result.no_solution_count, 1);
    assert_eq!(result.uncollapsed_tile_count, 2);
    // Collapsed cell is written out; the others keep the sentinel.
    assert_eq!(result.output.output, vec![vec![0, 7], vec![0, 0]]);
    // contradiction + collapsed + ambiguous == width * height
    let collapsed = 1;
    assert_eq!(
        result.no_solution_count + collapsed + result.uncollapsed_tile_count,
        4
    );
}

#[test]
fn induction_is_monotonic_on_concrete_pairs() {
    let a = pair(vec![vec![1, 2], vec![2, 1]], vec![vec![2, 1], vec![1, 2]]);
    let b = pair(vec![vec![3, 3], vec![3, 3]], vec![vec![4, 4], vec![4, 4]]);
    let small = induce(&vec![a.clone()]);
    let large = induce(&vec![a, b]);
    for d in all_directions() {
        for s in 0..10u8 {
            for t in 0..10u8 {
                let r = Rule(d, s, t);
                if small.contains(r) {
                    assert!(large.contains(r));
                }
            }
        }
    }
}

#[test]
fn propagation_is_idempotent_at_fixpoint() {
    // A uniform board of one color: every rule the pair emits keeps the
    // board stable, so propagation reaches a fixpoint right away.
    let train = vec![pair(vec![vec![1; 3]; 3], vec![vec![2; 3]; 3])];
    let rules = induce(&train);
    let input = vec![vec![1u8; 3]; 3];
    let mut board = seed_domains(&rules, &input);
    for x in 0..3 {
        for y in 0..3 {
            assert!(propogate_changes(&rules, &mut board, x, y));
        }
    }
    // Snapshot, then run propagation again from every cell.
    let snapshot: Vec<Vec<Vec<bool>>> = (0..3)
        .map(|x| {
            (0..3)
                .map(|y| (0..10).map(|c| board.test_slot(x, y, c)).collect())
                .collect()
        })
        .collect();
    for x in 0..3 {
        for y in 0..3 {
            assert!(propogate_changes(&rules, &mut board, x, y));
        }
    }
    for x in 0..3 {
        for y in 0..3 {
            for c in 0..10 {
                assert_eq!(board.test_slot(x, y, c), snapshot[x][y][c]);
            }
        }
    }
}

#[test]
fn fixpoint_is_arc_consistent() {
    let train = vec![pair(
        vec![vec![1, 1, 1], vec![1, 2, 1], vec![1, 1, 1]],
        vec![vec![3, 3, 3], vec![3, 4, 3], vec![3, 3, 3]],
    )];
    let rules = induce(&train);
    let input = vec![vec![1, 1, 1], vec![1, 2, 1], vec![1, 1, 1]];
    let mut board = seed_domains(&rules, &input);
    for x in 0..3 {
        for y in 0..3 {
            assert!(propogate_changes(&rules, &mut board, x, y));
        }
    }
    // Keep constraining every interior cell until nothing changes, then
    // check the support property of every surviving symbol by hand.
    // (The 3x3 board has a single interior cell.)
    for c in 0..10u8 {
        if board.test_slot(1, 1, c as usize) {
            assert!(supported_by_other(&rules, Direction::North, c, board.domain_at(1, 0)));
            assert!(supported_by_other(&rules, Direction::West, c, board.domain_at(0, 1)));
            assert!(supported_by_other(&rules, Direction::South, c, board.domain_at(1, 2)));
            assert!(supported_by_other(&rules, Direction::East, c, board.domain_at(2, 1)));
        }
    }
}

#[test]
fn propagation_collapses_a_cell_and_continues() {
    // Corners seed to {4}, mid-edges to {3}, the center to {1, 2}; only
    // symbol 2 has lateral support over 3, so one pass from a corner
    // collapses the center to exactly {2} without any contradiction.
    let mut rules = RuleSet::new();
    rules.insert(Rule(Direction::Above, 4, 7));
    rules.insert(Rule(Direction::Above, 3, 8));
    rules.insert(Rule(Direction::Above, 1, 9));
    rules.insert(Rule(Direction::Above, 2, 9));
    for d in [Direction::North, Direction::West, Direction::South, Direction::East] {
        rules.insert(Rule(d, 2, 3));
    }
    let input = vec![vec![7, 8, 7], vec![8, 9, 8], vec![7, 8, 7]];
    let mut board = seed_domains(&rules, &input);
    assert_eq!(board.cardinality_at(1, 1), 2);
    assert!(propogate_changes(&rules, &mut board, 0, 0));
    assert_eq!(board.cardinality_at(1, 1), 1);
    assert!(board.test_slot(1, 1, 2));
    assert!(!board.test_slot(1, 1, 1));
    // Boundary cells keep their seeded domains.
    assert_eq!(board.cardinality_at(0, 0), 1);
    assert!(board.test_slot(0, 1, 3));
}

#[test]
fn duplicated_boards_do_not_share_state() {
    let original = DomainGrid::full(2, 2);
    let mut copy = original.duplicate();
    copy.collapse_to(0, 0, 3);
    assert_eq!(copy.cardinality_at(0, 0), 1);
    assert_eq!(original.cardinality_at(0, 0), 10);
}

#[test]
fn domain_operations() {
    let mut d = Domain::uniform(true);
    assert_eq!(d.cardinality(), 10);
    for c in 0..9 {
        d.set(c, false);
    }
    assert_eq!(d.cardinality(), 1);
    assert_eq!(d.unique_symbol(), 9);
    let single = Domain::single(4);
    assert_eq!(single.cardinality(), 1);
    assert_eq!(single.unique_symbol(), 4);
    assert!(single.test(4));
    assert!(!single.test(5));
}

#[test]
fn rule_set_membership() {
    let mut rules = RuleSet::new();
    for d in all_directions() {
        for s in 0..10u8 {
            for t in 0..10u8 {
                assert!(!rules.contains(Rule(d, s, t)));
            }
        }
    }
    rules.insert(Rule(Direction::West, 3, 7));
    assert!(rules.contains(Rule(Direction::West, 3, 7)));
    assert!(!rules.contains(Rule(Direction::East, 3, 7)));
    assert!(!rules.contains(Rule(Direction::West, 7, 3)));
    // Symbols outside the alphabet are never members.
    assert!(!rules.contains(Rule(Direction::West, 13, 7)));
}

#[test]
fn contradictory_board_is_reported_not_fatal() {
    // Rules admit only Above(5,3), and no neighbor rules at all: after
    // seeding, interior propagation wipes out every interior cell, and
    // the search fails every branch. The run still returns a grid plus
    // counts.
    let mut rules = RuleSet::new();
    rules.insert(Rule(Direction::Above, 5, 3));
    let test = pair(vec![vec![3u8; 3]; 3], blank_output(3, 3));
    let result = deduce(test, &rules);
    assert_eq!(result.output.output.len(), 3);
    assert_eq!(result.output.output[0].len(), 3);
    assert!(result.no_solution_count + result.uncollapsed_tile_count <= 9);
    // The board had contradictions; they show up in the counts.
    assert!(result.no_solution_count > 0);
}
