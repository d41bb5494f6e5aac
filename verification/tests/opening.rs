use tightbeam_ext::vm::opening::RevealBook;

#[test]
fn batches_count_once_per_sender_for_the_open_reveal() {
    let mut book: RevealBook<u64> = RevealBook::new(4, 1);
    let mut collected = book.open(0, 2);
    assert!(collected.is_empty());
    book.absorb(0, 2, 1, 0, vec![10, 11], &mut collected);
    book.absorb(0, 2, 1, 0, vec![12, 13], &mut collected);
    book.absorb(0, 2, 2, 0, vec![20, 21], &mut collected);
    assert_eq!(collected, vec![(1, vec![10, 11]), (2, vec![20, 21])]);
}

#[test]
fn outsiders_wrong_widths_and_stale_batches_are_ignored() {
    let mut book: RevealBook<u64> = RevealBook::new(3, 1);
    let mut collected = book.open(5, 1);
    book.absorb(5, 1, 3, 5, vec![1], &mut collected);
    book.absorb(5, 1, 0, 5, vec![1, 2], &mut collected);
    book.absorb(5, 1, 0, 4, vec![1], &mut collected);
    assert!(collected.is_empty());
    assert!(book.open(4, 1).is_empty());
}

#[test]
fn a_batch_for_a_later_reveal_waits_for_it() {
    let mut book: RevealBook<u64> = RevealBook::new(3, 1);
    let mut collected = book.open(0, 1);
    book.absorb(0, 1, 2, 1, vec![7], &mut collected);
    book.absorb(0, 1, 2, 1, vec![8], &mut collected);
    assert!(collected.is_empty());
    let next = book.open(1, 1);
    assert_eq!(next, vec![(2, vec![7])]);
    assert!(book.open(1, 1).is_empty());
}

#[test]
fn a_buffered_batch_of_another_width_is_dropped_on_open() {
    let mut book: RevealBook<u64> = RevealBook::new(3, 1);
    let mut collected = book.open(0, 1);
    book.absorb(0, 1, 1, 2, vec![7], &mut collected);
    assert!(book.open(2, 3).is_empty());
}

#[test]
fn recovery_needs_two_t_plus_one_and_failure_needs_everyone() {
    let book: RevealBook<u64> = RevealBook::new(4, 1);
    assert!(!book.recovery_due(2));
    assert!(book.recovery_due(3));
    assert!(book.recovery_due(4));
    assert!(!book.failure_is_final(3));
    assert!(book.failure_is_final(4));
}
