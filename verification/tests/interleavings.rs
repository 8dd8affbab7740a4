use epoch::access::{Action, Order};
use epoch::domain::Domain;
use epoch::garbage::{Kind, Object};
use epoch::harness::Harness;
use epoch::registry::Thread;
use epoch::run::{advance, reply, Progress};
use epoch::state::Urgency;
use epoch::{pin, unlinked, Guard};

fn object(addr: usize) -> Object {
    Object { addr, count: 1, kind: Kind::Value(0) }
}

fn threads(n: usize, capacity: usize) -> Domain {
    let mut d = Domain::new();
    for _ in 0..n {
        Thread::register(&mut d, capacity);
    }
    d
}

fn word(d: &Domain, t: usize) -> usize {
    d.registry().entry(t).state
}

fn steps(d: &mut Domain, t: usize, n: usize) {
    for _ in 0..n {
        d.step(t);
    }
}

/// Lets a thread go on until it waits for the garbage queues or is idle.
fn settle(d: &mut Domain, t: usize) {
    while !d.harness(t).is_stopped() {
        d.step(t);
    }
}

/// Answers all requests of a thread until it is idle.
fn finish(d: &mut Domain, t: usize) {
    settle(d, t);
    while !d.harness(t).is_idle() {
        d.answer(t, Urgency::Normal);
        settle(d, t);
    }
}

/// Pins a thread, attempts to advance the epoch by filling a bag of one, and unpins it again.
fn attempt(d: &mut Domain, t: usize) {
    let (guard, progress) = pin(d, t);
    assert_eq!(progress, Progress::Finished);
    unlinked(d, object(t), &guard);
    finish(d, t);
    guard.drop(d);
}

fn exit(d: &mut Domain, t: usize) {
    let _ = Harness::drop(d, t);
    finish(d, t);
    assert!(d.harness(t).has_exited());
}

#[test]
fn a_thread_pinned_with_a_stale_epoch_stops_the_epoch() {
    let mut d = threads(2, 1);
    // Thread 0 loads the global state, and is slow to announce the epoch.
    d.begin_pin(0);
    d.step(0);
    attempt(&mut d, 1);
    attempt(&mut d, 1);
    assert_eq!(d.registry().state(), 4);
    settle(&mut d, 0);
    assert_eq!(word(&d, 0), 0);
    attempt(&mut d, 1);
    attempt(&mut d, 1);
    assert_eq!(d.registry().state(), 4);
    d.begin_unpin(0);
    settle(&mut d, 0);
    attempt(&mut d, 1);
    assert_eq!(d.registry().state(), 6);
}

#[test]
fn an_attempt_that_has_passed_a_thread_advances_the_epoch_once() {
    let mut d = threads(2, 1);
    let (guard, _) = pin(&mut d, 1);
    d.begin_pin(0);
    d.step(0);
    // Thread 1 loads the state and the head, and passes both entries.
    d.begin_unlinked(1, object(1));
    steps(&mut d, 1, 6);
    assert!(match d.harness(1).action() {
        Action::SwapState { expected: 0, new: 2, .. } => true,
        _ => false,
    });
    settle(&mut d, 0);
    assert_eq!(word(&d, 0), 0);
    finish(&mut d, 1);
    assert_eq!(d.registry().state(), 2);
    guard.drop(&mut d);
    attempt(&mut d, 1);
    attempt(&mut d, 1);
    assert_eq!(d.registry().state(), 2);
}

#[test]
fn two_attempts_advance_the_epoch_once() {
    let mut d = threads(2, 1);
    let (first, _) = pin(&mut d, 0);
    let (second, _) = pin(&mut d, 1);
    d.begin_unlinked(0, object(1));
    d.begin_unlinked(1, object(2));
    steps(&mut d, 0, 6);
    steps(&mut d, 1, 6);
    finish(&mut d, 0);
    finish(&mut d, 1);
    assert_eq!(d.registry().state(), 2);
    first.drop(&mut d);
    second.drop(&mut d);
}

#[test]
fn an_entry_is_removed_once() {
    let mut d = threads(3, 4);
    exit(&mut d, 2);
    let (first, _) = pin(&mut d, 0);
    let (second, _) = pin(&mut d, 1);
    for t in 0..2 {
        for i in 0..4 {
            d.begin_unlinked(t, object(i));
        }
        // Load the state, the head, and the link of the deleted entry.
        steps(&mut d, t, 3);
    }
    d.step(0);
    assert_eq!(d.harness(0).bag().objects(), &vec![Object::thread(2)]);
    d.step(1);
    assert!(d.harness(1).bag().objects().is_empty());
    assert_eq!(d.registry().head().to, Some(1));
    // The one that lost the race has given up.
    assert!(match d.harness(1).action() {
        Action::LoadState(_) => true,
        _ => false,
    });
    finish(&mut d, 0);
    finish(&mut d, 1);
    assert_eq!(d.registry().state(), 4);
    first.drop(&mut d);
    second.drop(&mut d);
}

#[test]
fn an_attempt_goes_on_from_a_removed_entry() {
    let mut d = threads(4, 4);
    exit(&mut d, 2);
    exit(&mut d, 1);
    // Entry 2 was removed by the second exit.
    assert_eq!(d.registry().entry(3).next.to, Some(1));
    let (first, _) = pin(&mut d, 0);
    let (second, _) = pin(&mut d, 3);
    for i in 0..4 {
        d.begin_unlinked(0, object(i));
        d.begin_unlinked(3, object(i));
    }
    // Thread 0 has seen that entry 1 follows entry 3.
    steps(&mut d, 0, 4);
    // Thread 3 removes entry 1.
    settle(&mut d, 3);
    assert_eq!(d.registry().entry(3).next.to, Some(0));
    assert_eq!(d.harness(3).bag().objects(), &vec![Object::thread(1)]);
    // Thread 0 finds that entry 1 is deleted, and loses the race.
    settle(&mut d, 0);
    assert!(d.harness(0).bag().objects().is_empty());
    finish(&mut d, 0);
    finish(&mut d, 3);
    first.drop(&mut d);
    second.drop(&mut d);
}

#[test]
fn a_thread_can_register_during_an_attempt() {
    let mut d = threads(1, 1);
    let (guard, _) = pin(&mut d, 0);
    d.begin_unlinked(0, object(1));
    steps(&mut d, 0, 2);
    let t = Thread::register(&mut d, 1);
    let (late, _) = pin(&mut d, t);
    assert_eq!(advance_all(&mut d, 0), Progress::Collect { epoch: 2 });
    finish(&mut d, 0);
    // The new thread was pinned in the epoch that has ended.
    assert_eq!(word(&d, t), 0);
    guard.drop(&mut d);
    attempt(&mut d, 0);
    assert_eq!(d.registry().state(), 2);
    late.drop(&mut d);
    attempt(&mut d, 0);
    assert_eq!(d.registry().state(), 4);
}

fn advance_all(d: &mut Domain, t: usize) -> Progress {
    settle(d, t);
    match d.harness(t).action() {
        Action::Collect { epoch } => Progress::Collect { epoch },
        Action::Push { epoch } => Progress::Push { epoch },
        _ => Progress::Finished,
    }
}

#[test]
fn an_attempt_as_a_part_of_a_call() {
    let mut d = threads(2, 1);
    let (guard, _) = pin(&mut d, 0);
    d.begin_unlinked(0, object(1));
    assert_eq!(advance(&mut d, 0), Progress::Collect { epoch: 2 });
    assert_eq!(d.registry().state(), 2);
    assert_eq!(reply(&mut d, 0, Urgency::Normal), Progress::Push { epoch: 2 });
    assert_eq!(reply(&mut d, 0, Urgency::Normal), Progress::Finished);
    guard.drop(&mut d);
}

#[test]
fn routines_run_one_at_a_time() {
    let mut d = threads(1, 2);
    d.begin_pin(0);
    assert_eq!(Thread::set_pinned(&mut d, 0), Urgency::Normal);
    assert_eq!(word(&d, 0), 0);
    settle(&mut d, 0);
    d.begin_unpin(0);
    Thread::set_unpinned(&mut d, 0);
    assert_eq!(word(&d, 0), 1);
    assert!(d.harness(0).is_idle());
    d.begin_exit(0);
    settle(&mut d, 0);
    d.answer(0, Urgency::Normal);
    settle(&mut d, 0);
    d.answer(0, Urgency::Normal);
    steps(&mut d, 0, 3);
    assert!(!d.registry().entry(0).next.deleted);
    Thread::unregister(&mut d, 0);
    assert!(d.registry().entry(0).next.deleted);
    settle(&mut d, 0);
    assert!(d.harness(0).has_exited());
}

#[test]
fn calls_are_made_of_steps() {
    let mut d = threads(3, 1);
    let mut e = threads(3, 1);
    for (called, stepped) in [(&mut d, &mut e)] {
        exit(called, 1);
        stepped.begin_exit(1);
        finish(stepped, 1);
        let (guard, _) = pin(called, 0);
        stepped.begin_pin(0);
        finish(stepped, 0);
        unlinked(called, object(5), &guard);
        stepped.begin_unlinked(0, object(5));
        settle(stepped, 0);
        assert_eq!(called.registry().state(), stepped.registry().state());
        assert_eq!(called.registry().head(), stepped.registry().head());
        for t in 0..3 {
            assert_eq!(called.registry().entry(t), stepped.registry().entry(t));
        }
        assert_eq!(called.harness(0).action(), stepped.harness(0).action());
        assert_eq!(called.harness(0).depth(), stepped.harness(0).depth());
    }
}

#[test]
fn an_object_is_safe_two_advances_after_its_mark() {
    let mut d = threads(3, 1);
    let (reader, _): (Guard, Progress) = pin(&mut d, 2);
    let (guard, _) = pin(&mut d, 1);
    assert_eq!(unlinked(&mut d, object(7), &guard), Progress::Collect { epoch: 2 });
    // The bag is marked with epoch two, and the reader keeps the epoch below six.
    assert_eq!(reply(&mut d, 1, Urgency::Normal), Progress::Push { epoch: 2 });
    finish(&mut d, 1);
    guard.drop(&mut d);
    for _ in 0..4 {
        attempt(&mut d, 0);
        assert_eq!(d.registry().state(), 2);
    }
    reader.drop(&mut d);
    attempt(&mut d, 0);
    attempt(&mut d, 0);
    assert_eq!(d.registry().state(), 6);
}

#[test]
fn garbage_of_an_exiting_thread_is_no_newer_than_its_mark() {
    let mut d = threads(3, 4);
    exit(&mut d, 2);
    let (guard, _) = pin(&mut d, 1);
    for i in 0..4 {
        d.begin_unlinked(1, object(i));
    }
    // Thread 1 sees that entry 2 is deleted, and so does thread 0, which exits.
    steps(&mut d, 1, 3);
    d.begin_exit(0);
    steps(&mut d, 0, 7);
    // Thread 1 removes the entry and is about to advance the epoch.
    steps(&mut d, 1, 5);
    assert!(match d.harness(1).action() {
        Action::SwapState { expected: 2, new: 4, .. } => true,
        _ => false,
    });
    // Thread 0 loses the race and loads the epoch, which advances right after.
    settle(&mut d, 0);
    assert_eq!(d.harness(0).action(), Action::Collect { epoch: 2 });
    d.step(1);
    assert_eq!(d.registry().state(), 4);
    // Garbage that is produced while collecting goes into the bag that is about to be pushed.
    d.begin_unlinked(0, object(9));
    d.answer(0, Urgency::Normal);
    assert_eq!(d.harness(0).action(), Action::LoadState(Order::SeqCst));
    d.step(0);
    assert_eq!(d.harness(0).action(), Action::Push { epoch: 4 });
    assert_eq!(d.harness(0).outgoing().objects(), &vec![object(9)]);
    finish(&mut d, 0);
    assert!(d.harness(0).has_exited());
    finish(&mut d, 1);
    guard.drop(&mut d);
}

#[test]
fn a_guard_protects_what_was_loaded_under_it() {
    let mut d = threads(3, 1);
    let (reader, _) = pin(&mut d, 2);
    // Object 7 is loaded by thread 2 now, and unlinked by thread 1 later.
    attempt(&mut d, 0);
    let (guard, _) = pin(&mut d, 1);
    unlinked(&mut d, object(7), &guard);
    let mark = match reply(&mut d, 1, Urgency::Normal) {
        Progress::Push { epoch } => epoch,
        p => panic!("{:?}", p),
    };
    finish(&mut d, 1);
    guard.drop(&mut d);
    for _ in 0..5 {
        attempt(&mut d, 0);
        let epoch = d.registry().state();
        assert!(epoch == mark || epoch == mark + 2);
    }
    reader.drop(&mut d);
    attempt(&mut d, 0);
    attempt(&mut d, 0);
    assert_eq!(d.registry().state(), mark + 4);
}

#[test]
fn an_attempt_that_is_too_late_changes_nothing() {
    let mut d = threads(2, 1);
    let (first, _) = pin(&mut d, 0);
    let (second, _) = pin(&mut d, 1);
    d.begin_unlinked(0, object(1));
    d.begin_unlinked(1, object(2));
    steps(&mut d, 0, 6);
    steps(&mut d, 1, 6);
    for t in 0..2 {
        assert!(match d.harness(t).action() {
            Action::SwapState { expected: 0, new: 2, .. } => true,
            _ => false,
        });
    }
    d.step(1);
    assert_eq!(d.registry().state(), 2);
    d.step(0);
    assert_eq!(d.registry().state(), 2);
    finish(&mut d, 0);
    finish(&mut d, 1);
    first.drop(&mut d);
    second.drop(&mut d);
}
