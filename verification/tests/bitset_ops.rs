use wfc_gen::bitset::BitSet;

#[test]
fn full_set_holds_every_bit_and_masks_the_last_word() {
    let set = BitSet::full(70);
    assert_eq!(set.len(), 70);
    assert_eq!(set.count_ones(), 70);
    assert!(set.contains(0));
    assert!(set.contains(69));
    assert_eq!(set.words(), &[u64::MAX, 63u64][..]);
}

#[test]
fn full_set_of_whole_words() {
    let set = BitSet::full(128);
    assert_eq!(set.words(), &[u64::MAX, u64::MAX][..]);
    assert_eq!(set.count_ones(), 128);
}

#[test]
fn empty_set_holds_nothing() {
    let set = BitSet::empty(10);
    assert_eq!(set.len(), 10);
    assert_eq!(set.count_ones(), 0);
    assert!(!set.contains(3));
    assert_eq!(set.iter_ones(), Vec::<usize>::new());
    assert_eq!(set.words(), &[0u64][..]);
}

#[test]
fn zero_bits_have_no_words() {
    let set = BitSet::full(0);
    assert_eq!(set.words().len(), 0);
    assert_eq!(set.count_ones(), 0);
}

#[test]
fn remove_reports_membership_and_insert_undoes_it() {
    let mut set = BitSet::full(70);
    assert!(set.remove(3));
    assert!(!set.contains(3));
    assert!(!set.remove(3));
    assert_eq!(set.count_ones(), 69);
    assert!(set.insert(3));
    assert!(!set.insert(3));
    assert!(set.contains(3));
    assert_eq!(set.count_ones(), 70);
    assert_eq!(set.words(), BitSet::full(70).words());
}

#[test]
fn keep_only_leaves_one_member() {
    let mut set = BitSet::full(100);
    assert!(set.keep_only(65));
    assert_eq!(set.iter_ones(), vec![65]);
    assert_eq!(set.count_ones(), 1);
}

#[test]
fn keep_only_of_a_missing_bit_empties_the_set() {
    let mut set = BitSet::full(100);
    set.remove(7);
    assert!(!set.keep_only(7));
    assert_eq!(set.count_ones(), 0);
}

#[test]
fn intersect_keeps_common_bits_and_reports_change() {
    let mut set = BitSet::full(70);
    let mask = [0b1010u64, 1u64 << 5];
    assert!(set.intersect_with(&mask));
    assert_eq!(set.iter_ones(), vec![1, 3, 69]);
    assert!(!set.intersect_with(&mask));
    assert_eq!(set.count_ones(), 3);
}

#[test]
fn iter_ones_lists_members_in_increasing_order() {
    let mut set = BitSet::empty(200);
    set.insert(150);
    set.insert(2);
    set.insert(64);
    assert_eq!(set.iter_ones(), vec![2, 64, 150]);
}

#[test]
fn words_mut_writes_through() {
    let mut set = BitSet::empty(64);
    set.words_mut()[0] = 5;
    assert!(set.contains(0));
    assert!(set.contains(2));
    assert!(!set.contains(1));
}
