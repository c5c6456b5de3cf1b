use rand::SeedableRng;
use rand::rngs::StdRng;
use wfc_gen::entropy_buckets::EntropyBuckets;
use wfc_gen::entropy_heap::EntropyHeap;
use wfc_gen::undo_log::{UndoEntry, UndoLog};

#[test]
fn heap_pops_lowest_priority_first_and_breaks_ties_by_cell() {
    let mut heap = EntropyHeap::new(5, 3, vec![40, 10, 30, 10, 20]);
    assert_eq!(heap.pop_min(), Some(1));
    assert_eq!(heap.pop_min(), Some(3));
    assert_eq!(heap.pop_min(), Some(4));
    assert_eq!(heap.pop_min(), Some(2));
    assert_eq!(heap.pop_min(), Some(0));
    assert_eq!(heap.pop_min(), None);
}

#[test]
fn heap_update_moves_or_drops_cells() {
    let mut heap = EntropyHeap::new(4, 3, vec![5, 6, 7, 8]);
    heap.update(3, 1, 2);
    heap.update(0, 9, 1);
    assert_eq!(heap.pop_min(), Some(3));
    assert_eq!(heap.pop_min(), Some(1));
    assert_eq!(heap.pop_min(), Some(2));
    assert_eq!(heap.pop_min(), None);
    heap.update(2, 4, 3);
    assert_eq!(heap.pop_min(), Some(2));
}

#[test]
fn heap_with_one_pattern_is_empty() {
    let mut heap = EntropyHeap::new(3, 1, vec![1, 2, 3]);
    assert_eq!(heap.pop_min(), None);
}

#[test]
fn buckets_pop_a_cell_with_fewest_patterns() {
    let mut rng = StdRng::seed_from_u64(7);
    let mut buckets = EntropyBuckets::new(4, 3);
    buckets.update(1, 2);
    buckets.update(2, 1);
    assert_eq!(buckets.pop_lowest(&mut rng), Some(1));
    assert_eq!(buckets.pop_lowest(&mut rng), Some(0));
    assert_eq!(buckets.pop_lowest(&mut rng), None);
}

#[test]
fn buckets_choose_among_equal_counts() {
    let mut rng = StdRng::seed_from_u64(3);
    let mut buckets = EntropyBuckets::new(3, 4);
    let mut seen = Vec::new();
    while let Some(cell) = buckets.pop_lowest(&mut rng) {
        assert!(!seen.contains(&cell));
        seen.push(cell);
    }
    seen.sort();
    assert_eq!(seen, vec![0, 1, 2, 3]);
}

#[test]
fn buckets_with_one_pattern_hold_nothing() {
    let mut rng = StdRng::seed_from_u64(1);
    let mut buckets = EntropyBuckets::new(1, 5);
    assert_eq!(buckets.pop_lowest(&mut rng), None);
}

#[test]
fn undo_entry_packs_and_unpacks() {
    let entry = UndoEntry::new(123_456, 789);
    assert_eq!(entry.cell_index(), 123_456);
    assert_eq!(entry.pattern_id(), 789);
    assert_eq!(entry.0, (123_456u64 << 32) | 789);
    let max = UndoEntry::new(u32::MAX as usize, u32::MAX as usize);
    assert_eq!(max.cell_index(), u32::MAX as usize);
    assert_eq!(max.pattern_id(), u32::MAX as usize);
}

#[test]
fn undo_log_checkpoints_count_the_whole_history() {
    let mut log = UndoLog::new();
    assert_eq!(log.checkpoint(), 0);
    log.push(UndoEntry::new(1, 1));
    log.push(UndoEntry::new(2, 2));
    log.push(UndoEntry::new(3, 3));
    assert_eq!(log.len(), 3);
    assert_eq!(log.checkpoint(), 3);
    log.discard_before(2);
    assert_eq!(log.len(), 1);
    assert_eq!(log.checkpoint(), 3);
    let last = log.pop_back().unwrap();
    assert_eq!(last.cell_index(), 3);
    assert_eq!(log.checkpoint(), 2);
    assert!(log.pop_back().is_none());
    log.push(UndoEntry::new(4, 4));
    log.clear_committed();
    assert_eq!(log.len(), 0);
    assert_eq!(log.checkpoint(), 3);
}
