use wfc_gen::cell::Cell;
use wfc_gen::direction::{Direction, all_directions};
use wfc_gen::rules::AdjacencyRules;
use wfc_gen::wave::{CellConstraintResult, PatternRemovalResult, Wave};

#[test]
fn directions_round_trip_and_point_back() {
    for (i, d) in all_directions().iter().enumerate() {
        assert_eq!(d.to_index(), i);
        assert_eq!(Direction::from_index(i), *d);
        assert_eq!(d.opposite().opposite(), *d);
    }
    assert_eq!(Direction::Up.opposite(), Direction::Down);
    assert_eq!(Direction::Left.opposite(), Direction::Right);
}

#[test]
fn new_cell_allows_every_pattern() {
    let cell = Cell::new(3, 6);
    assert_eq!(cell.pattern_count(), 3);
    assert_eq!(cell.possible_count(), 3);
    assert_eq!(cell.weight_sum(), 6);
    assert_eq!(cell.possible_pattern_ids(), vec![0, 1, 2]);
    assert!(!cell.is_collapsed());
    assert!(!cell.is_contradiction());
    assert_eq!(cell.collapsed_pattern_id(), None);
    assert_eq!(cell.possible_pattern_words(), &[0b111u64][..]);
}

#[test]
fn removing_and_restoring_patterns_updates_count_and_weight() {
    let mut cell = Cell::new(3, 6);
    assert!(cell.remove_pattern(1, 2));
    assert!(!cell.remove_pattern(1, 2));
    assert_eq!(cell.possible_count(), 2);
    assert_eq!(cell.weight_sum(), 4);
    assert!(!cell.is_pattern_possible(1));
    assert!(cell.remove_pattern(0, 1));
    assert!(cell.is_collapsed());
    assert_eq!(cell.collapsed_pattern_id(), Some(2));
    assert!(cell.restore_pattern(1, 2));
    assert!(!cell.restore_pattern(1, 2));
    assert_eq!(cell.possible_pattern_ids(), vec![1, 2]);
    assert_eq!(cell.weight_sum(), 5);
}

#[test]
fn collapse_and_intersect_cell() {
    let mut cell = Cell::new(4, 10);
    assert!(cell.collapse_to(3, 4));
    assert_eq!(cell.possible_pattern_ids(), vec![3]);
    assert_eq!(cell.weight_sum(), 4);
    let mut other = Cell::new(4, 10);
    let weights = [1u32, 2, 3, 4];
    assert!(other.intersect_with_mask(&[0b0101], &weights));
    assert_eq!(other.possible_pattern_ids(), vec![0, 2]);
    assert_eq!(other.weight_sum(), 4);
    assert!(!other.intersect_with_mask(&[0b0101], &weights));
}

#[test]
fn coordinates_and_indices_round_trip() {
    let wave = Wave::new(3, 2, 4, 10);
    assert_eq!(wave.get_width(), 3);
    assert_eq!(wave.get_height(), 2);
    assert_eq!(wave.cell_count(), 6);
    assert_eq!(wave.coordinates_to_index(2, 1), Some(5));
    assert_eq!(wave.coordinates_to_index(3, 0), None);
    assert_eq!(wave.index_to_coordinates(5), Some((2, 1)));
    assert_eq!(wave.index_to_coordinates(6), None);
    for index in 0..6 {
        let (x, y) = wave.index_to_coordinates(index).unwrap();
        assert_eq!(wave.coordinates_to_index(x, y), Some(index));
    }
    assert!(wave.get_cell(2, 1).is_some());
    assert!(wave.get_cell(0, 2).is_none());
    assert!(wave.get_cell_by_index(6).is_none());
}

#[test]
fn neighbors_stay_inside_and_are_symmetric() {
    let wave = Wave::new(3, 2, 1, 1);
    assert_eq!(wave.get_neighbor_index(0, 0, Direction::Up), None);
    assert_eq!(wave.get_neighbor_index(0, 0, Direction::Left), None);
    assert_eq!(wave.get_neighbor_index(0, 0, Direction::Right), Some(1));
    assert_eq!(wave.get_neighbor_index(0, 0, Direction::Down), Some(3));
    assert_eq!(wave.get_neighbor_index(2, 1, Direction::Right), None);
    assert_eq!(wave.get_neighbor_index(2, 1, Direction::Down), None);
    for index in 0..6 {
        let (x, y) = wave.index_to_coordinates(index).unwrap();
        for d in all_directions() {
            if let Some(n) = wave.get_neighbor_index(x, y, d) {
                let (nx, ny) = wave.index_to_coordinates(n).unwrap();
                assert_eq!(wave.get_neighbor_index(nx, ny, d.opposite()), Some(index));
            }
        }
    }
}

#[test]
fn wave_counts_follow_removals() {
    let mut wave = Wave::new(2, 1, 2, 3);
    assert_eq!(wave.get_unresolved_count(), 2);
    assert_eq!(wave.get_contradiction_count(), 0);
    assert!(!wave.is_fully_collapsed());
    assert_eq!(wave.remove_pattern_from_cell(0, 1, 2), PatternRemovalResult::Removed(1));
    assert_eq!(wave.remove_pattern_from_cell(0, 1, 2), PatternRemovalResult::Unchanged);
    assert_eq!(wave.get_unresolved_count(), 1);
    assert_eq!(wave.remove_pattern_from_cell(0, 0, 1), PatternRemovalResult::Contradiction);
    assert!(wave.has_contradiction());
    assert_eq!(wave.get_contradiction_count(), 1);
    assert!(wave.restore_pattern_to_cell(0, 0, 1));
    assert!(!wave.restore_pattern_to_cell(0, 0, 1));
    assert!(!wave.has_contradiction());
    assert!(wave.collapse_cell_to(1, 0, 1));
    assert!(wave.is_fully_collapsed());
    assert_eq!(wave.remove_pattern_from_cell(9, 0, 1), PatternRemovalResult::Unchanged);
}

#[test]
fn intersect_cell_with_mask_reports_what_happened() {
    let mut wave = Wave::new(1, 1, 3, 6);
    let weights = [1u32, 2, 3];
    assert_eq!(wave.intersect_cell_with_mask(0, &[0b111], &weights), CellConstraintResult::Unchanged);
    assert_eq!(wave.intersect_cell_with_mask(0, &[0b110], &weights), CellConstraintResult::Changed(2));
    assert_eq!(wave.get_cell_by_index(0).unwrap().weight_sum(), 5);
    assert_eq!(wave.intersect_cell_with_mask(0, &[0b001], &weights), CellConstraintResult::Contradiction);
    assert!(wave.has_contradiction());
    assert_eq!(wave.intersect_cell_with_mask(4, &[0b001], &weights), CellConstraintResult::Unchanged);
}

#[test]
fn constraint_check_finds_a_forbidden_pair() {
    let mut rules = AdjacencyRules::new(2);
    rules.allow(0, Direction::Right, 1);
    rules.allow(1, Direction::Left, 0);
    let mut wave = Wave::new(2, 1, 2, 2);
    assert!(wave.validate_constraints(&rules));
    assert!(wave.collapse_cell_to(0, 0, 1));
    assert!(wave.collapse_cell_to(1, 1, 1));
    assert!(wave.validate_constraints(&rules));
    assert!(wave.find_constraint_violation(&rules).is_none());
    let mut bad = Wave::new(2, 1, 2, 2);
    assert!(bad.collapse_cell_to(0, 0, 1));
    assert!(bad.collapse_cell_to(1, 0, 1));
    assert!(!bad.validate_constraints(&rules));
    let violation = bad.find_constraint_violation(&rules).unwrap();
    assert_eq!(violation.cell_index, 0);
    assert_eq!(violation.direction, Direction::Right);
    assert_eq!(violation.neighbor_index, 1);
    assert_eq!(violation.pattern_id, 0);
    assert_eq!(violation.neighbor_pattern_id, 0);
}

#[test]
fn decided_cell_reads_only_its_own_mask_word() {
    let mut wave = Wave::new(1, 1, 70, 70);
    let weights = [1u32; 70];
    assert!(wave.collapse_cell_to(0, 3, 1));
    assert_eq!(wave.intersect_cell_with_mask(0, &[0b1000], &weights), CellConstraintResult::Unchanged);
    assert_eq!(wave.intersect_cell_with_mask(0, &[0b0100], &weights), CellConstraintResult::Contradiction);
    assert_eq!(wave.get_cell_by_index(0).unwrap().weight_sum(), 0);
    assert_eq!(wave.intersect_cell_with_mask(5, &[], &weights), CellConstraintResult::Unchanged);
}
