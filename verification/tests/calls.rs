use epoch::access::Link;
use epoch::domain::Domain;
use epoch::garbage::{Kind, Object};
use epoch::harness::Harness;
use epoch::participant::Participant;
use epoch::registry::Thread;
use epoch::run::{reply, Progress};
use epoch::state::Urgency;
use epoch::{pin, unlinked, Guard};

fn object(addr: usize) -> Object {
    Object { addr, count: 3, kind: Kind::Value(1) }
}

fn word(d: &Domain, t: usize) -> usize {
    d.registry().entry(t).state
}

fn next(d: &Domain, t: usize) -> Option<usize> {
    d.registry().entry(t).next.to
}

fn is_deleted(d: &Domain, t: usize) -> bool {
    d.registry().entry(t).next.deleted
}

fn bag(d: &Domain, t: usize) -> Vec<Object> {
    d.harness(t).bag().objects().clone()
}

/// The entries in the list, from the head on.
fn list(d: &Domain) -> Vec<usize> {
    let mut entries = Vec::new();
    let mut link = d.registry().head();
    while let Some(t) = link.to {
        entries.push(t);
        link = d.registry().entry(t).next;
    }
    entries
}

fn threads(n: usize, capacity: usize) -> Domain {
    let mut d = Domain::new();
    for _ in 0..n {
        Thread::register(&mut d, capacity);
    }
    d
}

fn pin_quietly(d: &mut Domain, t: usize) -> Guard {
    let (guard, progress) = pin(d, t);
    assert_eq!(progress, Progress::Finished);
    guard
}

/// Lets a thread exit while the garbage queues report nothing urgent.
fn exit(d: &mut Domain, t: usize) {
    let epoch = match Harness::drop(d, t) {
        (_, Progress::Collect { epoch }) => epoch,
        r => panic!("{:?}", r),
    };
    assert_eq!(reply(d, t, Urgency::Normal), Progress::Push { epoch });
    assert_eq!(reply(d, t, Urgency::Normal), Progress::Finished);
}

#[test]
fn registered_threads_are_listed_last_first() {
    let mut d = Domain::new();
    assert_eq!(d.registry().state(), 0);
    assert_eq!(d.registry().head(), Link { to: None, deleted: false });
    assert_eq!(Thread::register(&mut d, 4), 0);
    assert_eq!(Thread::register(&mut d, 4), 1);
    assert_eq!(Thread::register(&mut d, 4), 2);
    assert_eq!(list(&d), vec![2, 1, 0]);
    assert_eq!(d.registry().len(), 3);
    assert_eq!(word(&d, 2), 1);
    assert_eq!(next(&d, 0), None);
}

#[test]
fn pinning_and_dropping() {
    let mut d = threads(2, 4);
    let guard = pin_quietly(&mut d, 0);
    assert_eq!(guard.thread(), 0);
    assert_eq!(word(&d, 0), 0);
    assert_eq!(word(&d, 1), 1);
    assert_eq!(guard.drop(&mut d), Progress::Finished);
    assert_eq!(word(&d, 0), 1);
}

#[test]
fn only_the_last_guard_unpins() {
    let mut d = threads(1, 4);
    let first = pin_quietly(&mut d, 0);
    let second = pin_quietly(&mut d, 0);
    assert_eq!(d.harness(0).pin_count(), 2);
    first.drop(&mut d);
    assert_eq!(word(&d, 0), 0);
    second.drop(&mut d);
    assert_eq!(word(&d, 0), 1);
    assert_eq!(d.harness(0).pin_count(), 0);
}

#[test]
fn objects_go_into_the_local_bag() {
    let mut d = threads(2, 3);
    let guard = pin_quietly(&mut d, 1);
    assert_eq!(unlinked(&mut d, object(100), &guard), Progress::Finished);
    assert_eq!(unlinked(&mut d, object(200), &guard), Progress::Finished);
    assert_eq!(bag(&d, 1), vec![object(100), object(200)]);
    assert_eq!(bag(&d, 0), vec![]);
    assert_eq!(d.registry().state(), 0);
}

#[test]
fn a_full_bag_advances_the_epoch_and_is_marked_with_it() {
    let mut d = threads(1, 2);
    let guard = pin_quietly(&mut d, 0);
    unlinked(&mut d, object(100), &guard);
    assert_eq!(unlinked(&mut d, object(200), &guard), Progress::Collect { epoch: 2 });
    assert_eq!(d.registry().state(), 2);
    assert_eq!(reply(&mut d, 0, Urgency::Urgent), Progress::Push { epoch: 2 });
    assert_eq!(d.harness(0).outgoing().objects(), &vec![object(100), object(200)]);
    assert_eq!(reply(&mut d, 0, Urgency::Urgent), Progress::Finished);
    assert_eq!(d.registry().state(), 3);
    assert_eq!(bag(&d, 0), vec![]);
    guard.drop(&mut d);
}

#[test]
fn a_thread_pinned_earlier_holds_the_epoch_back() {
    let mut d = threads(2, 1);
    let early = pin_quietly(&mut d, 0);
    let guard = pin_quietly(&mut d, 1);
    // Both are pinned in epoch zero, so the epoch advances once.
    assert_eq!(unlinked(&mut d, object(1), &guard), Progress::Collect { epoch: 2 });
    reply(&mut d, 1, Urgency::Normal);
    reply(&mut d, 1, Urgency::Normal);
    // But not twice.
    assert_eq!(unlinked(&mut d, object(2), &guard), Progress::Collect { epoch: 2 });
    reply(&mut d, 1, Urgency::Normal);
    reply(&mut d, 1, Urgency::Normal);
    guard.drop(&mut d);
    let guard = pin_quietly(&mut d, 1);
    assert_eq!(word(&d, 1), 2);
    assert_eq!(unlinked(&mut d, object(3), &guard), Progress::Collect { epoch: 2 });
    reply(&mut d, 1, Urgency::Normal);
    reply(&mut d, 1, Urgency::Normal);
    // Until the thread gets unpinned.
    early.drop(&mut d);
    assert_eq!(unlinked(&mut d, object(4), &guard), Progress::Collect { epoch: 4 });
    assert_eq!(d.registry().state(), 4);
}

#[test]
fn exiting_hands_over_the_bag_and_deletes_the_entry() {
    let mut d = threads(2, 4);
    let guard = pin_quietly(&mut d, 0);
    unlinked(&mut d, object(7), &guard);
    guard.drop(&mut d);
    let (_, progress) = Harness::drop(&mut d, 0);
    assert_eq!(progress, Progress::Collect { epoch: 2 });
    assert_eq!(word(&d, 0), 0);
    assert_eq!(reply(&mut d, 0, Urgency::Normal), Progress::Push { epoch: 2 });
    assert_eq!(d.harness(0).outgoing().objects(), &vec![object(7)]);
    assert_eq!(bag(&d, 0), vec![]);
    assert_eq!(reply(&mut d, 0, Urgency::Urgent), Progress::Finished);
    assert_eq!(d.registry().state(), 3);
    assert_eq!(word(&d, 0), 1);
    assert!(is_deleted(&d, 0));
    assert!(d.harness(0).has_exited());
    // The entry is still in the list.
    assert_eq!(list(&d), vec![1, 0]);
}

#[test]
fn deleted_entries_are_removed_by_the_next_attempt() {
    let mut d = threads(4, 8);
    exit(&mut d, 1);
    assert_eq!(list(&d), vec![3, 2, 1, 0]);
    exit(&mut d, 3);
    assert_eq!(list(&d), vec![3, 2, 0]);
    exit(&mut d, 0);
    assert_eq!(list(&d), vec![2, 0]);
    // The entries that were removed were stashed by the threads that removed them, and pushed when
    // those exited.
    assert!(is_deleted(&d, 0));
    assert_eq!(d.registry().state(), 6);
}

#[test]
fn removed_entries_are_garbage() {
    let mut d = threads(3, 2);
    exit(&mut d, 1);
    let guard = pin_quietly(&mut d, 0);
    unlinked(&mut d, object(1), &guard);
    assert_eq!(unlinked(&mut d, object(2), &guard), Progress::Collect { epoch: 4 });
    assert_eq!(bag(&d, 0), vec![Object { addr: 1, count: 1, kind: Kind::Thread }]);
    assert_eq!(list(&d), vec![2, 0]);
    reply(&mut d, 0, Urgency::Normal);
    assert_eq!(d.harness(0).outgoing().objects(), &vec![object(1), object(2)]);
    reply(&mut d, 0, Urgency::Normal);
}

#[test]
fn an_obstacle_stops_the_removal() {
    let mut d = threads(4, 8);
    let obstacle = pin_quietly(&mut d, 2);
    // Entries 3 and 1 get deleted. The first exit advances the epoch, the second one cannot, and
    // removes entry 3 only, which is above the obstacle.
    exit(&mut d, 3);
    assert_eq!(d.registry().state(), 2);
    exit(&mut d, 1);
    assert_eq!(d.registry().state(), 2);
    assert_eq!(list(&d), vec![2, 1, 0]);
    let guard = pin_quietly(&mut d, 0);
    guard.drop(&mut d);
    exit(&mut d, 0);
    assert_eq!(list(&d), vec![2, 1, 0]);
    obstacle.drop(&mut d);
    exit(&mut d, 2);
    assert_eq!(list(&d), vec![2]);
    assert_eq!(d.registry().state(), 4);
}

#[test]
fn an_attempt_that_fills_the_bag_starts_another_one() {
    let mut d = threads(5, 1);
    // Deleted entries pile up while a thread is pinned in an earlier epoch.
    let obstacle = pin_quietly(&mut d, 4);
    exit(&mut d, 3);
    exit(&mut d, 2);
    exit(&mut d, 1);
    assert_eq!(d.registry().state(), 2);
    assert_eq!(list(&d), vec![4, 3, 2, 1, 0]);
    obstacle.drop(&mut d);
    let guard = pin_quietly(&mut d, 0);
    assert_eq!(unlinked(&mut d, object(9), &guard), Progress::Collect { epoch: 4 });
    // All of them are gone, and the epoch has advanced once.
    assert_eq!(list(&d), vec![4, 0]);
    assert_eq!(d.registry().state(), 4);
    // Each full bag is pushed, the last one first.
    let mut pushed = Vec::new();
    let mut progress = Progress::Collect { epoch: 4 };
    while progress != Progress::Finished {
        if let Progress::Push { epoch } = progress {
            assert_eq!(epoch, 4);
            pushed.extend(d.harness(0).outgoing().objects().clone());
        }
        progress = reply(&mut d, 0, Urgency::Normal);
    }
    assert_eq!(
        pushed,
        vec![Object::thread(1), Object::thread(2), Object::thread(3), object(9)]
    );
    assert_eq!(d.registry().state(), 4);
    assert_eq!(list(&d), vec![4, 0]);
}

#[test]
fn pinning_in_an_urgent_state() {
    let mut d = threads(2, 1);
    let guard = pin_quietly(&mut d, 0);
    unlinked(&mut d, object(1), &guard);
    reply(&mut d, 0, Urgency::Normal);
    reply(&mut d, 0, Urgency::Urgent);
    guard.drop(&mut d);
    assert_eq!(d.registry().state(), 3);

    // The collection is not urgent any more, so the flag is cleared.
    let (guard, progress) = pin(&mut d, 1);
    assert_eq!(progress, Progress::Collect { epoch: 4 });
    assert_eq!(d.registry().state(), 5);
    assert_eq!(word(&d, 1), 2);
    assert_eq!(reply(&mut d, 1, Urgency::Normal), Progress::Finished);
    assert_eq!(d.registry().state(), 4);
    assert_eq!(word(&d, 1), 4);
    guard.drop(&mut d);
}

#[test]
fn pinning_while_the_collection_stays_urgent() {
    let mut d = threads(1, 1);
    let guard = pin_quietly(&mut d, 0);
    unlinked(&mut d, object(1), &guard);
    reply(&mut d, 0, Urgency::Normal);
    reply(&mut d, 0, Urgency::Urgent);
    guard.drop(&mut d);
    let (guard, progress) = pin(&mut d, 0);
    assert_eq!(progress, Progress::Collect { epoch: 4 });
    assert_eq!(reply(&mut d, 0, Urgency::Urgent), Progress::Finished);
    assert_eq!(d.registry().state(), 5);
    assert_eq!(word(&d, 0), 4);
    guard.drop(&mut d);
    assert_eq!(word(&d, 0), 1);
}

#[test]
fn the_flag_is_not_cleared_if_the_state_has_changed() {
    let mut d = threads(2, 1);
    let guard = pin_quietly(&mut d, 0);
    unlinked(&mut d, object(1), &guard);
    reply(&mut d, 0, Urgency::Normal);
    reply(&mut d, 0, Urgency::Urgent);
    guard.drop(&mut d);
    let (first, progress) = pin(&mut d, 0);
    assert_eq!(progress, Progress::Collect { epoch: 4 });
    // Another thread is faster in clearing the flag. It cannot advance the epoch, because thread 0
    // is pinned in epoch two.
    let (second, progress) = pin(&mut d, 1);
    assert_eq!(progress, Progress::Collect { epoch: 4 });
    assert_eq!(reply(&mut d, 1, Urgency::Normal), Progress::Finished);
    assert_eq!(d.registry().state(), 4);
    assert_eq!(reply(&mut d, 0, Urgency::Normal), Progress::Finished);
    assert_eq!(d.registry().state(), 4);
    assert_eq!(word(&d, 0), 4);
    first.drop(&mut d);
    second.drop(&mut d);
}

#[test]
fn guards_can_be_taken_while_garbage_is_collected() {
    let mut d = threads(1, 1);
    let guard = pin_quietly(&mut d, 0);
    assert_eq!(unlinked(&mut d, object(1), &guard), Progress::Collect { epoch: 2 });
    let (inner, progress) = pin(&mut d, 0);
    assert_eq!(progress, Progress::Collect { epoch: 2 });
    assert_eq!(inner.drop(&mut d), Progress::Collect { epoch: 2 });
    // So can objects be announced.
    assert_eq!(unlinked(&mut d, object(2), &guard), Progress::Collect { epoch: 2 });
    assert_eq!(reply(&mut d, 0, Urgency::Normal), Progress::Push { epoch: 2 });
    assert_eq!(d.harness(0).outgoing().objects(), &vec![object(2)]);
    assert_eq!(reply(&mut d, 0, Urgency::Urgent), Progress::Collect { epoch: 2 });
    assert_eq!(d.registry().state(), 3);
    assert_eq!(reply(&mut d, 0, Urgency::Normal), Progress::Push { epoch: 2 });
    assert_eq!(d.harness(0).outgoing().objects(), &vec![object(1)]);
    assert_eq!(reply(&mut d, 0, Urgency::Normal), Progress::Finished);
}

#[test]
fn guards_can_be_taken_while_a_full_bag_is_pushed() {
    let mut d = threads(1, 1);
    let guard = pin_quietly(&mut d, 0);
    unlinked(&mut d, object(1), &guard);
    assert_eq!(reply(&mut d, 0, Urgency::Normal), Progress::Push { epoch: 2 });
    assert!(d.harness(0).is_open());
    let (inner, progress) = pin(&mut d, 0);
    assert_eq!(progress, Progress::Push { epoch: 2 });
    assert_eq!(d.harness(0).pin_count(), 2);
    // An object that is announced meanwhile fills a bag of its own, which is pushed first.
    assert_eq!(unlinked(&mut d, object(2), &inner), Progress::Collect { epoch: 2 });
    assert_eq!(reply(&mut d, 0, Urgency::Normal), Progress::Push { epoch: 2 });
    assert_eq!(d.harness(0).outgoing().objects(), &vec![object(2)]);
    assert_eq!(reply(&mut d, 0, Urgency::Normal), Progress::Push { epoch: 2 });
    assert_eq!(d.harness(0).outgoing().objects(), &vec![object(1)]);
    assert_eq!(inner.drop(&mut d), Progress::Push { epoch: 2 });
    assert_eq!(reply(&mut d, 0, Urgency::Normal), Progress::Finished);
    guard.drop(&mut d);
    assert_eq!(word(&d, 0), 1);
}

#[test]
fn an_exiting_thread_can_announce_garbage() {
    let mut d = threads(1, 2);
    let (guard, progress) = Harness::drop(&mut d, 0);
    assert_eq!(guard.thread(), 0);
    assert_eq!(progress, Progress::Collect { epoch: 2 });
    // A full bag is pushed at once, and the rest when the local bag is.
    assert_eq!(unlinked(&mut d, object(1), &guard), Progress::Collect { epoch: 2 });
    assert_eq!(unlinked(&mut d, object(2), &guard), Progress::Collect { epoch: 2 });
    assert_eq!(reply(&mut d, 0, Urgency::Normal), Progress::Push { epoch: 2 });
    assert_eq!(d.harness(0).outgoing().objects(), &vec![object(1), object(2)]);
    assert_eq!(reply(&mut d, 0, Urgency::Normal), Progress::Collect { epoch: 2 });
    assert_eq!(unlinked(&mut d, object(3), &guard), Progress::Collect { epoch: 2 });
    assert_eq!(reply(&mut d, 0, Urgency::Normal), Progress::Push { epoch: 2 });
    assert_eq!(d.harness(0).outgoing().objects(), &vec![object(3)]);
    // The thread has no bag left.
    assert!(!d.harness(0).is_open());
    assert_eq!(reply(&mut d, 0, Urgency::Normal), Progress::Finished);
    assert!(d.harness(0).has_exited());
}

#[test]
fn any_number_of_guards_dropped_in_any_order() {
    for urgent in [false, true] {
        let mut d = threads(2, 1);
        if urgent {
            let guard = pin_quietly(&mut d, 1);
            unlinked(&mut d, object(1), &guard);
            reply(&mut d, 1, Urgency::Normal);
            reply(&mut d, 1, Urgency::Urgent);
            guard.drop(&mut d);
        }
        let mut guards = Vec::new();
        for n in 0..5 {
            assert_eq!(d.harness(0).pin_count(), n);
            let (guard, mut progress) = pin(&mut d, 0);
            assert_eq!(progress != Progress::Finished, urgent && n == 0);
            while progress != Progress::Finished {
                progress = reply(&mut d, 0, Urgency::Urgent);
            }
            guards.push(guard);
        }
        for (n, i) in [(4, 2), (3, 0), (2, 2), (1, 1), (0, 0)] {
            assert_eq!(word(&d, 0) % 2, 0);
            guards.remove(i).drop(&mut d);
            assert_eq!(d.harness(0).pin_count(), n);
        }
        assert_eq!(word(&d, 0), 1);
    }
}

#[test]
fn each_object_is_in_exactly_one_bag() {
    let mut d = threads(2, 3);
    let guard = pin_quietly(&mut d, 0);
    let mut pushed = Vec::new();
    for i in 0..10 {
        let mut progress = unlinked(&mut d, object(i), &guard);
        while progress != Progress::Finished {
            if let Progress::Push { .. } = progress {
                pushed.push(d.harness(0).outgoing().objects().clone());
            }
            progress = reply(&mut d, 0, Urgency::Normal);
        }
    }
    assert_eq!(pushed.len(), 3);
    let mut all: Vec<Object> = pushed.concat();
    assert_eq!(bag(&d, 0), vec![object(9)]);
    all.extend(bag(&d, 0));
    assert_eq!(all, (0..10).map(object).collect::<Vec<_>>());
    guard.drop(&mut d);
}

trait NotSend<A> {
    fn check() {}
}

impl<T> NotSend<()> for T {}

impl<T: Send> NotSend<u8> for T {}

trait NotSync<A> {
    fn check() {}
}

impl<T> NotSync<()> for T {}

impl<T: Sync> NotSync<u8> for T {}

#[test]
fn guards_are_neither_sent_nor_shared() {
    // Each of these lines is ambiguous, and does not compile, for a type with the trait.
    <Guard as NotSend<_>>::check();
    <Guard as NotSync<_>>::check();
}

#[test]
fn a_thread_registers_the_first_time_it_is_pinned() {
    let mut d = threads(2, 4);
    let mut p = Participant::new();
    assert_eq!(p.thread(), None);
    assert_eq!(list(&d), vec![1, 0]);
    let (first, progress) = p.pin(&mut d, 4);
    assert_eq!(progress, Progress::Finished);
    assert_eq!(first.thread(), 2);
    assert_eq!(p.thread(), Some(2));
    assert_eq!(list(&d), vec![2, 1, 0]);
    assert_eq!(word(&d, 2), 0);
    let (second, _) = p.pin(&mut d, 4);
    assert_eq!(d.harness(2).pin_count(), 2);
    first.drop(&mut d);
    second.drop(&mut d);
    assert_eq!(word(&d, 2), 1);
    // Other threads register in between.
    let mut q = Participant::new();
    let (other, _) = q.pin(&mut d, 4);
    assert_eq!(other.thread(), 3);
    let (third, _) = p.pin(&mut d, 4);
    assert_eq!(third.thread(), 2);
    assert_eq!(list(&d), vec![3, 2, 1, 0]);
    assert_eq!(d.registry().len(), 4);
    third.drop(&mut d);
    other.drop(&mut d);
}

#[test]
fn registering_in_an_urgent_state() {
    let mut d = threads(1, 1);
    let guard = pin_quietly(&mut d, 0);
    unlinked(&mut d, object(1), &guard);
    reply(&mut d, 0, Urgency::Normal);
    reply(&mut d, 0, Urgency::Urgent);
    guard.drop(&mut d);
    let mut p = Participant::new();
    let (guard, progress) = p.pin(&mut d, 1);
    assert_eq!(progress, Progress::Collect { epoch: 4 });
    assert_eq!(list(&d), vec![1, 0]);
    assert_eq!(reply(&mut d, 1, Urgency::Normal), Progress::Finished);
    assert_eq!(word(&d, 1), 4);
    guard.drop(&mut d);
    assert_eq!(d.registry().len(), 2);
}
