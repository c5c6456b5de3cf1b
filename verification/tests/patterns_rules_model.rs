use wfc_gen::direction::Direction;
use wfc_gen::model::WfcModel;
use wfc_gen::pattern::Pattern;
use wfc_gen::pattern_extractor::PatternExtractor;
use wfc_gen::pixel_grid::PixelGrid;
use wfc_gen::rules::AdjacencyRules;

const RED: [u8; 4] = [255, 0, 0, 255];
const BLUE: [u8; 4] = [0, 0, 255, 255];

/// Three columns: red, blue, red, three rows high.
fn stripes() -> PixelGrid {
    let mut grid = PixelGrid::new(3, 3);
    for y in 0..3u32 {
        grid.put_pixel(0, y, RED);
        grid.put_pixel(1, y, BLUE);
        grid.put_pixel(2, y, RED);
    }
    grid
}

#[test]
fn pixel_grid_starts_transparent_and_keeps_writes() {
    let mut grid = PixelGrid::new(2, 3);
    assert_eq!(grid.width(), 2);
    assert_eq!(grid.height(), 3);
    assert_eq!(grid.get_pixel(1, 2), [0, 0, 0, 0]);
    grid.put_pixel(1, 2, RED);
    assert_eq!(grid.get_pixel(1, 2), RED);
    assert_eq!(grid.pixels[5], RED);
}

#[test]
fn pattern_getters_and_frequency() {
    let mut pattern = Pattern::new(7, 1, vec![RED]);
    assert_eq!(pattern.get_id(), 7);
    assert_eq!(pattern.get_size(), 1);
    assert_eq!(pattern.get_frequency(), 1);
    pattern.increment_frequency();
    assert_eq!(pattern.get_frequency(), 2);
    assert_eq!(pattern.get_pixels(), &[RED][..]);
    assert_eq!(pattern.get_pixel(0, 0), Some(&RED));
    assert_eq!(pattern.get_pixel(1, 0), None);
}

#[test]
fn extract_pattern_copies_a_window_row_by_row() {
    let image = stripes();
    let pattern = Pattern::extract_pattern(&image, 1, 0, 2, 4).unwrap();
    assert_eq!(pattern.get_id(), 4);
    assert_eq!(pattern.get_pixels(), &[BLUE, RED, BLUE, RED][..]);
    assert!(Pattern::extract_pattern(&image, 2, 0, 2, 0).is_none());
}

#[test]
fn overlap_is_symmetric_in_opposite_directions() {
    let image = stripes();
    let a = Pattern::extract_pattern(&image, 0, 0, 2, 0).unwrap();
    let b = Pattern::extract_pattern(&image, 1, 0, 2, 1).unwrap();
    assert!(a.overlaps(&b, Direction::Right));
    assert!(b.overlaps(&a, Direction::Left));
    assert!(!a.overlaps(&a, Direction::Right));
    assert!(!a.overlaps(&a, Direction::Left));
    assert!(a.overlaps(&a, Direction::Down));
    assert!(a.overlaps(&a, Direction::Up));
    assert!(!a.overlaps(&b, Direction::Down));
    assert!(!b.overlaps(&a, Direction::Up));
}

#[test]
fn same_pixels_ignores_id_and_frequency() {
    let a = Pattern::new(0, 1, vec![RED]);
    let b = Pattern::new(5, 1, vec![RED]);
    let c = Pattern::new(0, 1, vec![BLUE]);
    assert!(a.has_same_pixels(&b));
    assert!(!a.has_same_pixels(&c));
}

#[test]
fn extract_all_patterns_lists_every_window() {
    let extractor = PatternExtractor::new(2);
    let all = extractor.extract_all_patterns(&stripes());
    assert_eq!(all.len(), 4);
    for (k, pattern) in all.iter().enumerate() {
        assert_eq!(pattern.get_id(), k);
        assert_eq!(pattern.get_frequency(), 1);
    }
    assert_eq!(all[0].get_pixels(), &[RED, BLUE, RED, BLUE][..]);
    assert_eq!(all[1].get_pixels(), &[BLUE, RED, BLUE, RED][..]);
    assert!(all[2].has_same_pixels(&all[0]));
    assert!(all[3].has_same_pixels(&all[1]));
}

#[test]
fn extract_unique_patterns_counts_occurrences() {
    let extractor = PatternExtractor::new(2);
    let unique = extractor.extract_unique_patterns(&stripes());
    assert_eq!(unique.len(), 2);
    assert_eq!(unique[0].get_id(), 0);
    assert_eq!(unique[1].get_id(), 1);
    assert_eq!(unique[0].get_frequency(), 2);
    assert_eq!(unique[1].get_frequency(), 2);
    assert_eq!(unique[0].get_pixels(), &[RED, BLUE, RED, BLUE][..]);
}

#[test]
fn picture_smaller_than_a_window_has_no_patterns() {
    let extractor = PatternExtractor::new(4);
    assert_eq!(extractor.extract_all_patterns(&stripes()).len(), 0);
    assert_eq!(extractor.extract_unique_patterns(&stripes()).len(), 0);
}

#[test]
fn allow_adds_to_one_list_and_its_supporters() {
    let mut rules = AdjacencyRules::new(3);
    assert_eq!(rules.len(), 3);
    assert_eq!(rules.count_rules(), 0);
    rules.allow(0, Direction::Right, 2);
    assert_eq!(rules.get_allowed_patterns(0, Direction::Right), &[2][..]);
    assert_eq!(rules.get_allowed_patterns(0, Direction::Left), &[][..]);
    assert_eq!(rules.get_supporters(2, Direction::Right), &[0][..]);
    assert_eq!(rules.get_allowed_mask(0, Direction::Right), &[0b100u64][..]);
    assert_eq!(rules.count_rules(), 1);
}

#[test]
fn compute_rules_allows_exactly_the_overlapping_pairs() {
    let extractor = PatternExtractor::new(2);
    let unique = extractor.extract_unique_patterns(&stripes());
    let mut rules = AdjacencyRules::new(unique.len());
    rules.compute_rules(&unique);
    assert_eq!(rules.get_allowed_patterns(0, Direction::Right), &[1][..]);
    assert_eq!(rules.get_allowed_patterns(0, Direction::Left), &[1][..]);
    assert_eq!(rules.get_allowed_patterns(0, Direction::Up), &[0][..]);
    assert_eq!(rules.get_allowed_patterns(0, Direction::Down), &[0][..]);
    assert_eq!(rules.get_allowed_patterns(1, Direction::Right), &[0][..]);
    assert_eq!(rules.get_allowed_patterns(1, Direction::Down), &[1][..]);
    assert_eq!(rules.count_rules(), 8);
}

#[test]
fn model_from_image_weights_patterns_by_frequency() {
    let model = WfcModel::from_image(&stripes(), 2);
    assert_eq!(model.get_pattern_size(), 2);
    assert_eq!(model.pattern_count(), 2);
    assert_eq!(model.pattern_weights(), &[2, 2][..]);
    assert_eq!(model.pattern_weight(1), 2);
    assert_eq!(model.total_weight(), 4);
    assert_eq!(model.total_frequency(), 4);
    assert_eq!(model.get_patterns().len(), 2);
    assert_eq!(model.get_rules().count_rules(), 8);
}

#[test]
fn repeated_allow_appends_again_and_sets_one_mask_bit() {
    let mut rules = AdjacencyRules::new(70);
    assert_eq!(rules.get_allowed_mask(0, Direction::Right), &[0u64, 0][..]);
    rules.allow(0, Direction::Right, 65);
    rules.allow(0, Direction::Right, 65);
    assert_eq!(rules.get_allowed_mask(0, Direction::Right), &[0u64, 2][..]);
    assert_eq!(rules.get_allowed_mask(0, Direction::Left), &[0u64, 0][..]);
    assert_eq!(rules.get_allowed_patterns(0, Direction::Right), &[65, 65][..]);
    assert_eq!(rules.get_supporters(65, Direction::Right), &[0, 0][..]);
    assert_eq!(rules.get_supporters(65, Direction::Left), &[][..]);
    assert_eq!(rules.count_rules(), 2);
}

#[test]
fn compute_rules_lists_supporters_in_pattern_order() {
    let model = WfcModel::from_image(&stripes(), 2);
    let rules = model.get_rules();
    assert_eq!(rules.get_supporters(0, Direction::Right), &[1][..]);
    assert_eq!(rules.get_supporters(1, Direction::Right), &[0][..]);
    assert_eq!(rules.get_supporters(0, Direction::Up), &[0][..]);
    assert_eq!(rules.get_supporters(1, Direction::Down), &[1][..]);
    let mut twice = AdjacencyRules::new(2);
    let patterns = model.get_patterns();
    twice.compute_rules(patterns);
    twice.compute_rules(patterns);
    assert_eq!(twice.get_supporters(0, Direction::Right), &[1, 1][..]);
    assert_eq!(twice.get_allowed_patterns(0, Direction::Up), &[0, 0][..]);
}

#[test]
fn equal_pixels_hash_alike() {
    let a = Pattern::new(0, 1, vec![RED]);
    let b = Pattern::new(5, 1, vec![RED]);
    let c = Pattern::new(0, 1, vec![BLUE]);
    assert_eq!(a.compute_hash(), b.compute_hash());
    assert_ne!(a.compute_hash(), c.compute_hash());
    let empty = Pattern::new(0, 0, vec![]);
    assert_eq!(empty.compute_hash(), 0xcbf2_9ce4_8422_2325);
}

#[test]
fn unique_patterns_are_all_patterns_without_repeats() {
    let mut grid = PixelGrid::new(3, 2);
    grid.put_pixel(0, 0, RED);
    grid.put_pixel(1, 0, BLUE);
    grid.put_pixel(2, 0, RED);
    grid.put_pixel(0, 1, BLUE);
    grid.put_pixel(1, 1, BLUE);
    grid.put_pixel(2, 1, BLUE);
    let extractor = PatternExtractor::new(1);
    let all = extractor.extract_all_patterns(&grid);
    let unique = extractor.extract_unique_patterns(&grid);
    assert_eq!(all.len(), 6);
    let mut expected: Vec<Vec<[u8; 4]>> = Vec::new();
    for p in all.iter() {
        let px = p.get_pixels().to_vec();
        if !expected.contains(&px) {
            expected.push(px);
        }
    }
    assert_eq!(unique.len(), expected.len());
    assert_eq!(unique.len(), 2);
    let mut total = 0;
    for (k, p) in unique.iter().enumerate() {
        assert_eq!(p.get_pixels(), &expected[k][..]);
        let count = all.iter().filter(|a| a.get_pixels() == p.get_pixels()).count();
        assert_eq!(p.get_frequency() as usize, count);
        assert_eq!(p.get_pixels().len(), 1);
        total += count;
    }
    assert_eq!(total, all.len());
    assert_eq!(unique[0].get_frequency(), 2);
    assert_eq!(unique[1].get_frequency(), 4);
}
