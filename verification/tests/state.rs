use epoch::state::{epoch_of, is_pinned, next_epoch_of, raise, urgency_of, Urgency, UNPINNED};

#[test]
fn state_words_split_into_epoch_and_urgency() {
    assert_eq!(epoch_of(0), 0);
    assert_eq!(epoch_of(1), 0);
    assert_eq!(epoch_of(6), 6);
    assert_eq!(epoch_of(7), 6);
    assert_eq!(epoch_of(usize::MAX), usize::MAX - 1);
    assert_eq!(urgency_of(0), Urgency::Normal);
    assert_eq!(urgency_of(7), Urgency::Urgent);
    assert_eq!(urgency_of(usize::MAX), Urgency::Urgent);
}

#[test]
fn odd_words_are_unpinned() {
    assert!(is_pinned(0));
    assert!(is_pinned(4));
    assert!(!is_pinned(UNPINNED));
    assert!(!is_pinned(usize::MAX));
}

#[test]
fn epochs_advance_by_two_and_wrap_around() {
    assert_eq!(next_epoch_of(0), 2);
    assert_eq!(next_epoch_of(3), 5);
    assert_eq!(next_epoch_of(usize::MAX - 1), 0);
    assert_eq!(next_epoch_of(usize::MAX), 1);
}

#[test]
fn raising_urgency_keeps_the_epoch() {
    assert_eq!(raise(4), 5);
    assert_eq!(raise(5), 5);
    assert_eq!(raise(usize::MAX - 1), usize::MAX);
}
