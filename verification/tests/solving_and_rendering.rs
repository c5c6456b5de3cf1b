use rand::SeedableRng;
use rand::rngs::StdRng;
use wfc_gen::cell::Cell;
use wfc_gen::model::WfcModel;
use wfc_gen::pattern::Pattern;
use wfc_gen::pixel_grid::PixelGrid;
use wfc_gen::renderer::render_wave;
use wfc_gen::solver::{SolveStep, WfcSolver, choose_weighted_pattern, pick_weighted_pattern};
use wfc_gen::wave::Wave;

const RED: [u8; 4] = [255, 0, 0, 255];
const BLUE: [u8; 4] = [0, 0, 255, 255];

fn stripes() -> PixelGrid {
    let mut grid = PixelGrid::new(3, 3);
    for y in 0..3u32 {
        grid.put_pixel(0, y, RED);
        grid.put_pixel(1, y, BLUE);
        grid.put_pixel(2, y, RED);
    }
    grid
}

fn by_count(_cell_index: usize, cell: &Cell) -> u64 {
    cell.possible_count() as u64
}

fn run(solver: &mut WfcSolver, model: &WfcModel, rng: &mut StdRng) -> bool {
    for _ in 0..10_000 {
        match solver.solve_step(model, rng, &by_count) {
            SolveStep::Solved => return true,
            SolveStep::Failed => return false,
            SolveStep::Running => {}
        }
    }
    panic!("solver did not finish");
}

#[test]
fn weighted_pick_walks_the_running_total() {
    let cell = Cell::new(3, 6);
    let weights = [1u32, 2, 3];
    assert_eq!(pick_weighted_pattern(&cell, &weights, 0), Some(0));
    assert_eq!(pick_weighted_pattern(&cell, &weights, 1), Some(1));
    assert_eq!(pick_weighted_pattern(&cell, &weights, 2), Some(1));
    assert_eq!(pick_weighted_pattern(&cell, &weights, 3), Some(2));
    assert_eq!(pick_weighted_pattern(&cell, &weights, 5), Some(2));
    assert_eq!(pick_weighted_pattern(&cell, &weights, 6), None);
}

#[test]
fn weighted_pick_skips_impossible_patterns() {
    let mut cell = Cell::new(3, 6);
    cell.remove_pattern(1, 2);
    let weights = [1u32, 2, 3];
    assert_eq!(pick_weighted_pattern(&cell, &weights, 0), Some(0));
    assert_eq!(pick_weighted_pattern(&cell, &weights, 1), Some(2));
    assert_eq!(pick_weighted_pattern(&cell, &weights, 3), Some(2));
    assert_eq!(pick_weighted_pattern(&cell, &weights, 4), None);
}

#[test]
fn random_choice_is_always_a_possible_pattern() {
    let mut rng = StdRng::seed_from_u64(11);
    let mut cell = Cell::new(4, 10);
    cell.remove_pattern(0, 1);
    cell.remove_pattern(2, 3);
    let weights = [1u32, 2, 3, 4];
    for _ in 0..100 {
        let p = choose_weighted_pattern(&cell, &weights, &mut rng).unwrap();
        assert!(p == 1 || p == 3);
    }
    let mut empty = Cell::new(1, 1);
    empty.remove_pattern(0, 1);
    assert_eq!(choose_weighted_pattern(&empty, &[1], &mut rng), None);
}

#[test]
fn stripes_solve_into_alternating_columns() {
    let model = WfcModel::from_image(&stripes(), 2);
    for seed in 0..5u64 {
        let mut rng = StdRng::seed_from_u64(seed);
        let mut solver = WfcSolver::new(4, 4, &model, vec![2; 16]);
        assert!(run(&mut solver, &model, &mut rng));
        let wave = solver.get_wave();
        assert!(wave.is_fully_collapsed());
        assert!(!wave.has_contradiction());
        assert!(wave.validate_constraints(model.get_rules()));
        let output = render_wave(wave, model.get_patterns()).unwrap();
        assert_eq!(output.width(), 5);
        assert_eq!(output.height(), 5);
        for y in 0..5u32 {
            for x in 0..5u32 {
                assert_eq!(output.get_pixel(x, y), output.get_pixel(x, 0));
                if x > 0 {
                    assert_ne!(output.get_pixel(x, y), output.get_pixel(x - 1, y));
                }
            }
        }
    }
}

#[test]
fn single_pattern_model_is_solved_at_once() {
    let mut image = PixelGrid::new(2, 2);
    for y in 0..2u32 {
        for x in 0..2u32 {
            image.put_pixel(x, y, RED);
        }
    }
    let model = WfcModel::from_image(&image, 2);
    assert_eq!(model.pattern_count(), 1);
    let mut rng = StdRng::seed_from_u64(0);
    let mut solver = WfcSolver::new(3, 2, &model, vec![0; 6]);
    assert_eq!(solver.solve_step(&model, &mut rng, &by_count), SolveStep::Solved);
    let output = render_wave(solver.get_wave(), model.get_patterns()).unwrap();
    assert_eq!(output.width(), 4);
    assert_eq!(output.height(), 3);
    assert!(output.pixels.iter().all(|p| *p == RED));
}

#[test]
fn observe_collapses_one_cell_and_propagation_follows() {
    let model = WfcModel::from_image(&stripes(), 2);
    let mut rng = StdRng::seed_from_u64(5);
    let mut solver = WfcSolver::new(3, 1, &model, vec![9, 1, 9]);
    let (cell, pattern) = solver.observe(&model, &mut rng).unwrap();
    assert_eq!(cell, 1);
    assert_eq!(solver.get_wave().get_cell_by_index(1).unwrap().collapsed_pattern_id(), Some(pattern));
    assert!(solver.propagate(&model, &by_count));
    let wave = solver.get_wave();
    assert!(wave.is_fully_collapsed());
    let left = wave.get_cell_by_index(0).unwrap().collapsed_pattern_id().unwrap();
    let right = wave.get_cell_by_index(2).unwrap().collapsed_pattern_id().unwrap();
    assert_ne!(left, pattern);
    assert_ne!(right, pattern);
}

#[test]
fn collapse_cell_leaves_only_the_chosen_pattern() {
    let model = WfcModel::from_image(&stripes(), 2);
    let mut rng = StdRng::seed_from_u64(2);
    let mut solver = WfcSolver::new(2, 2, &model, vec![1; 4]);
    let chosen = solver.collapse_cell(3, &model, &mut rng).unwrap();
    assert_eq!(solver.get_wave().get_cell_by_index(3).unwrap().possible_pattern_ids(), vec![chosen]);
    assert_eq!(solver.collapse_cell(9, &model, &mut rng), None);
    assert_eq!(solver.get_backtracking_stats().decisions, 1);
}

#[test]
fn backtracking_rejects_the_last_decision() {
    let model = WfcModel::from_image(&stripes(), 2);
    let mut rng = StdRng::seed_from_u64(9);
    let mut solver = WfcSolver::new(2, 1, &model, vec![1, 2]);
    let (cell, pattern) = solver.observe(&model, &mut rng).unwrap();
    assert_eq!(cell, 0);
    assert!(solver.try_backtrack(&model, &by_count));
    let wave = solver.get_wave();
    let now = wave.get_cell_by_index(0).unwrap().possible_pattern_ids();
    assert_eq!(now.len(), 1);
    assert_ne!(now[0], pattern);
    assert!(wave.is_fully_collapsed());
    assert!(!solver.try_backtrack(&model, &by_count));
}

#[test]
fn render_places_each_pattern_at_its_cell() {
    let patterns = vec![
        Pattern::new(0, 2, vec![RED, BLUE, RED, BLUE]),
        Pattern::new(1, 2, vec![BLUE, RED, BLUE, RED]),
    ];
    let mut wave = Wave::new(2, 1, 2, 2);
    assert!(wave.collapse_cell_to(0, 0, 1));
    assert!(wave.collapse_cell_to(1, 1, 1));
    let output = render_wave(&wave, &patterns).unwrap();
    assert_eq!(output.width(), 3);
    assert_eq!(output.height(), 2);
    assert_eq!(output.get_pixel(0, 0), RED);
    assert_eq!(output.get_pixel(1, 0), BLUE);
    assert_eq!(output.get_pixel(2, 0), RED);
    assert_eq!(output.get_pixel(2, 1), RED);
}

#[test]
fn later_cells_draw_over_earlier_ones() {
    let patterns = vec![
        Pattern::new(0, 2, vec![RED, RED, RED, RED]),
        Pattern::new(1, 2, vec![BLUE, BLUE, BLUE, BLUE]),
    ];
    let mut wave = Wave::new(2, 1, 2, 2);
    assert!(wave.collapse_cell_to(0, 0, 1));
    assert!(wave.collapse_cell_to(1, 1, 1));
    let output = render_wave(&wave, &patterns).unwrap();
    assert_eq!(output.get_pixel(0, 0), RED);
    assert_eq!(output.get_pixel(1, 0), BLUE);
    assert_eq!(output.get_pixel(1, 1), BLUE);
}

#[test]
fn render_refuses_undecided_or_unknown_cells() {
    let patterns = vec![Pattern::new(0, 1, vec![RED])];
    let undecided = Wave::new(1, 1, 2, 2);
    assert!(render_wave(&undecided, &patterns).is_none());
    let mut unknown = Wave::new(1, 1, 2, 2);
    assert!(unknown.collapse_cell_to(0, 1, 1));
    assert!(render_wave(&unknown, &patterns).is_none());
    let mut fine = Wave::new(1, 1, 2, 2);
    assert!(fine.collapse_cell_to(0, 0, 1));
    assert!(render_wave(&fine, &[]).is_none());
    let output = render_wave(&fine, &patterns).unwrap();
    assert_eq!(output.pixels, vec![RED]);
}

#[test]
fn taking_back_an_observation_restores_the_wave() {
    let model = WfcModel::from_image(&stripes(), 2);
    let mut rng = StdRng::seed_from_u64(4);
    let mut solver = WfcSolver::new(3, 1, &model, vec![3, 1, 2]);
    let (cell, _) = solver.observe(&model, &mut rng).unwrap();
    assert_eq!(cell, 1);
    assert!(solver.propagate(&model, &by_count));
    assert!(solver.get_wave().is_fully_collapsed());
    assert!(solver.backtrack_begin(&model));
    let wave = solver.get_wave();
    for index in 0..3 {
        assert_eq!(wave.get_cell_by_index(index).unwrap().possible_pattern_ids(), vec![0, 1]);
    }
    assert_eq!(wave.get_unresolved_count(), 3);
    assert!(!solver.backtrack_begin(&model));
}

/// Columns A, B, C two rows high: the two patterns are AB and BC; BC may stand right of AB, and
/// nothing may stand right of BC or left of AB.
fn three_columns() -> PixelGrid {
    let green = [0u8, 255, 0, 255];
    let mut grid = PixelGrid::new(3, 2);
    for y in 0..2u32 {
        grid.put_pixel(0, y, RED);
        grid.put_pixel(1, y, BLUE);
        grid.put_pixel(2, y, green);
    }
    grid
}

#[test]
fn a_solved_wave_is_checked_against_the_rules_afterwards() {
    let model = WfcModel::from_image(&three_columns(), 2);
    assert_eq!(model.pattern_count(), 2);
    let mut solved_valid = 0;
    let mut solved_invalid = 0;
    for seed in 0..64u64 {
        let mut rng = StdRng::seed_from_u64(seed);
        let mut solver = WfcSolver::new(2, 1, &model, vec![1, 1]);
        if run(&mut solver, &model, &mut rng) {
            assert!(solver.get_wave().is_fully_collapsed());
            if solver.get_wave().validate_constraints(model.get_rules()) {
                solved_valid += 1;
            } else {
                solved_invalid += 1;
            }
        }
    }
    assert!(solved_valid > 0);
    assert!(solved_invalid > 0);
}

#[test]
fn backtracking_rules_out_the_choice_and_propagates() {
    let model = WfcModel::from_image(&stripes(), 2);
    let mut rng = StdRng::seed_from_u64(4);
    let mut solver = WfcSolver::new(3, 1, &model, vec![3, 1, 2]);
    let (cell, chosen) = solver.observe(&model, &mut rng).unwrap();
    assert_eq!(cell, 1);
    assert!(solver.propagate(&model, &by_count));
    assert!(solver.get_wave().is_fully_collapsed());
    assert!(solver.try_backtrack(&model, &by_count));
    let wave = solver.get_wave();
    assert!(wave.is_fully_collapsed());
    let now = wave.get_cell_by_index(1).unwrap().collapsed_pattern_id().unwrap();
    assert_ne!(now, chosen);
    assert_eq!(solver.get_backtracking_stats().successful_backtracks, 1);
    assert!(!solver.try_backtrack(&model, &by_count));
}


#[test]
fn solved_stripes_keep_every_rule() {
    let model = WfcModel::from_image(&stripes(), 2);
    for seed in 0..8u64 {
        let mut rng = StdRng::seed_from_u64(seed);
        let mut solver = WfcSolver::new(5, 3, &model, vec![2; 15]);
        assert!(run(&mut solver, &model, &mut rng));
        assert!(solver.get_wave().validate_constraints(model.get_rules()));
        assert!(solver.get_wave().find_constraint_violation(model.get_rules()).is_none());
    }
}

#[test]
fn rounds_count_their_observations() {
    let model = WfcModel::from_image(&stripes(), 2);
    let mut rng = StdRng::seed_from_u64(3);
    let mut solver = WfcSolver::new(3, 1, &model, vec![1, 1, 1]);
    assert_eq!(solver.get_solve_counts().observations, 0);
    assert_eq!(solver.solve_step(&model, &mut rng, &by_count), SolveStep::Running);
    let counts = solver.get_solve_counts();
    assert_eq!(counts.observations, 1);
    assert_eq!(counts.propagation_calls, 1);
    assert_eq!(solver.solve_step(&model, &mut rng, &by_count), SolveStep::Solved);
    assert_eq!(solver.get_solve_counts().observations, 1);
    solver.reset_stats();
    assert_eq!(solver.get_solve_counts().propagation_calls, 0);
}


#[test]
fn extra_weights_beyond_the_patterns_are_ignored() {
    let cell = Cell::new(2, 3);
    let weights = [1u32, 2, 50];
    assert_eq!(pick_weighted_pattern(&cell, &weights, 0), Some(0));
    assert_eq!(pick_weighted_pattern(&cell, &weights, 2), Some(1));
    assert_eq!(pick_weighted_pattern(&cell, &weights, 3), None);
    let mut rng = StdRng::seed_from_u64(3);
    for _ in 0..50 {
        let p = choose_weighted_pattern(&cell, &weights, &mut rng).unwrap();
        assert!(p < 2);
    }
}

#[test]
fn cells_decided_by_propagation_leave_the_heap() {
    let model = WfcModel::from_image(&stripes(), 2);
    let mut rng = StdRng::seed_from_u64(5);
    let mut solver = WfcSolver::new(3, 1, &model, vec![9, 1, 9]);
    assert!(solver.observe(&model, &mut rng).is_some());
    assert!(solver.propagate(&model, &by_count));
    let ids = |s: &WfcSolver| -> Vec<Vec<usize>> {
        (0..3).map(|c| s.get_wave().get_cell_by_index(c).unwrap().possible_pattern_ids()).collect()
    };
    let before = ids(&solver);
    assert!(before.iter().all(|p| p.len() == 1));
    assert_eq!(solver.observe(&model, &mut rng), None);
    assert_eq!(ids(&solver), before);
    assert_eq!(solver.get_backtracking_stats().decisions, 1);
}
