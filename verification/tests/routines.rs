use epoch::access::{Action, Event, Link, Order, Slot};
use epoch::garbage::{Bag, Kind, Object};
use epoch::harness::Harness;
use epoch::routine::{participants, Register};
use epoch::state::{Urgency, UNPINNED};

fn link(to: usize) -> Link {
    Link { to: Some(to), deleted: false }
}

fn deleted(to: Option<usize>) -> Link {
    Link { to, deleted: true }
}

const NULL: Link = Link { to: None, deleted: false };

/// Checks the next action of a thread and tells it the outcome.
fn expect(h: &mut Harness, action: Action, event: Event) {
    assert_eq!(h.action(), action);
    h.resume(event);
}

fn expect_set_pinned(h: &mut Harness, state: usize, epoch: usize) {
    expect(h, Action::LoadState(Order::Relaxed), Event::Word(state));
    expect(h, Action::StoreThread { word: epoch, order: Order::Relaxed }, Event::Done);
    expect(h, Action::Fence(Order::SeqCst), Event::Done);
}

fn expect_set_unpinned(h: &mut Harness) {
    expect(h, Action::Fence(Order::Release), Event::Done);
    expect(h, Action::StoreThread { word: UNPINNED, order: Order::Relaxed }, Event::Done);
}

/// An attempt to advance on an empty list.
fn expect_advance(h: &mut Harness, state: usize, new: usize) {
    expect(h, Action::LoadState(Order::SeqCst), Event::Word(state));
    expect(h, Action::LoadLink { slot: Slot::Head, order: Order::Acquire }, Event::Link(NULL));
    expect(
        h,
        Action::SwapState { expected: state, new, order: Order::SeqCst },
        Event::Done,
    );
}

#[test]
fn pinning_announces_the_epoch() {
    let mut h = Harness::new(3, 4);
    h.begin_pin();
    assert_eq!(h.pin_count(), 1);
    expect_set_pinned(&mut h, 6, 6);
    expect(&mut h, Action::Proceed, Event::Done);
    assert!(h.is_idle());
    assert!(h.is_open());
}

#[test]
fn pinning_is_reentrant() {
    let mut h = Harness::new(0, 4);
    h.begin_pin();
    expect_set_pinned(&mut h, 0, 0);
    expect(&mut h, Action::Proceed, Event::Done);
    h.begin_pin();
    assert!(h.is_idle());
    assert_eq!(h.pin_count(), 2);
    h.begin_unpin();
    assert!(h.is_idle());
    assert_eq!(h.pin_count(), 1);
    h.begin_unpin();
    assert_eq!(h.pin_count(), 0);
    expect_set_unpinned(&mut h);
    assert!(h.is_idle());
}

#[test]
fn pinning_in_an_urgent_state_collects_and_clears_the_flag() {
    let mut h = Harness::new(0, 4);
    h.begin_pin();
    expect_set_pinned(&mut h, 5, 4);
    expect(&mut h, Action::Proceed, Event::Done);
    expect_advance(&mut h, 5, 7);
    expect(&mut h, Action::LoadState(Order::SeqCst), Event::Word(7));
    assert!(h.is_open());
    expect(&mut h, Action::Collect { epoch: 6 }, Event::Reply(Urgency::Normal));
    expect(
        &mut h,
        Action::SwapState { expected: 7, new: 6, order: Order::SeqCst },
        Event::Done,
    );
    expect_set_unpinned(&mut h);
    expect(&mut h, Action::Proceed, Event::Done);
    expect_set_pinned(&mut h, 6, 6);
    expect(&mut h, Action::Proceed, Event::Done);
    assert!(h.is_idle());
    assert_eq!(h.pin_count(), 1);
}

#[test]
fn the_flag_stays_while_the_collection_is_urgent() {
    let mut h = Harness::new(0, 4);
    h.begin_pin();
    expect_set_pinned(&mut h, 1, 0);
    expect(&mut h, Action::Proceed, Event::Done);
    expect_advance(&mut h, 1, 3);
    expect(&mut h, Action::LoadState(Order::SeqCst), Event::Word(3));
    expect(&mut h, Action::Collect { epoch: 2 }, Event::Reply(Urgency::Urgent));
    expect_set_unpinned(&mut h);
    expect(&mut h, Action::Proceed, Event::Done);
    // The urgency is not looked at when pinning again.
    expect_set_pinned(&mut h, 3, 2);
    expect(&mut h, Action::Proceed, Event::Done);
    assert!(h.is_idle());
}

#[test]
fn registration_retries_until_it_is_the_head() {
    assert_eq!(participants(), Slot::Head);
    let r = Register::Load;
    assert_eq!(r.action(), Action::LoadLink { slot: Slot::Head, order: Order::Acquire });
    let r = r.next(Event::Link(NULL)).unwrap_err();
    assert_eq!(r, Register::Publish { head: NULL });
    assert_eq!(
        r.action(),
        Action::Publish { word: UNPINNED, next: NULL, order: Order::AcqRel }
    );
    // Another thread was faster.
    let r = r.next(Event::Kept(link(8))).unwrap_err();
    assert_eq!(r, Register::Publish { head: link(8) });
    // A failure without a reason.
    let r = r.next(Event::Kept(link(8))).unwrap_err();
    assert_eq!(r, Register::Publish { head: link(8) });
    assert_eq!(r.next(Event::Published(9)), Ok(9));
}

fn unlinked_object(addr: usize) -> Object {
    Object { addr, count: 1, kind: Kind::Value(0) }
}

/// Pins a thread in a state that is not urgent.
fn pinned(thread: usize, capacity: usize) -> Harness {
    let mut h = Harness::new(thread, capacity);
    h.begin_pin();
    expect_set_pinned(&mut h, 0, 0);
    expect(&mut h, Action::Proceed, Event::Done);
    h
}

#[test]
fn a_bag_with_room_takes_an_object() {
    let mut h = pinned(0, 2);
    h.begin_unlinked(unlinked_object(10));
    assert!(h.is_idle());
    assert_eq!(h.bag().objects(), &vec![unlinked_object(10)]);
}

#[test]
fn a_full_bag_is_pushed() {
    let mut h = pinned(0, 2);
    h.begin_unlinked(unlinked_object(10));
    h.begin_unlinked(unlinked_object(20));
    assert!(h.bag().objects().is_empty());
    assert!(!h.is_idle());
    expect_advance(&mut h, 0, 2);
    expect(&mut h, Action::LoadState(Order::SeqCst), Event::Word(2));
    expect(&mut h, Action::Collect { epoch: 2 }, Event::Reply(Urgency::Urgent));
    assert_eq!(h.action(), Action::Push { epoch: 2 });
    assert_eq!(h.outgoing().objects(), &vec![unlinked_object(10), unlinked_object(20)]);
    h.resume(Event::Reply(Urgency::Urgent));
    expect(&mut h, Action::RaiseState(Order::SeqCst), Event::Done);
    assert!(h.is_idle());
}

#[test]
fn the_epoch_wraps_around() {
    let mut h = pinned(0, 1);
    h.begin_unlinked(unlinked_object(10));
    expect_advance(&mut h, usize::MAX, 1);
    expect(&mut h, Action::LoadState(Order::SeqCst), Event::Word(1));
    assert_eq!(h.action(), Action::Collect { epoch: 0 });
}

#[test]
fn the_flag_is_not_raised_without_need() {
    let mut h = pinned(0, 1);
    h.begin_unlinked(unlinked_object(10));
    expect_advance(&mut h, 0, 2);
    expect(&mut h, Action::LoadState(Order::SeqCst), Event::Word(5));
    expect(&mut h, Action::Collect { epoch: 4 }, Event::Reply(Urgency::Urgent));
    expect(&mut h, Action::Push { epoch: 4 }, Event::Reply(Urgency::Normal));
    assert!(h.is_idle());
}

#[test]
fn exiting_unpins_and_marks_the_entry() {
    let mut h = Harness::new(3, 4);
    h.begin_exit();
    expect_set_pinned(&mut h, 8, 8);
    expect(&mut h, Action::Proceed, Event::Done);
    expect_advance(&mut h, 8, 10);
    expect(&mut h, Action::LoadState(Order::SeqCst), Event::Word(10));
    expect(&mut h, Action::Collect { epoch: 10 }, Event::Reply(Urgency::Normal));
    // The epoch has advanced while garbage was collected.
    expect(&mut h, Action::LoadState(Order::SeqCst), Event::Word(13));
    assert_eq!(h.action(), Action::Push { epoch: 12 });
    assert!(h.outgoing().objects().is_empty());
    h.resume(Event::Reply(Urgency::Urgent));
    expect(&mut h, Action::RaiseState(Order::SeqCst), Event::Done);
    expect_set_unpinned(&mut h);
    expect(&mut h, Action::Proceed, Event::Done);
    let slot = Slot::Next(3);
    let mark = |next: Link| Action::SwapLink {
        slot: Slot::Next(3),
        from: next,
        into: deleted(next.to),
        order: Order::AcqRel,
        weak: true,
    };
    expect(
        &mut h,
        Action::LoadLink { slot, order: Order::Acquire },
        Event::Link(link(2)),
    );
    // A failure without a reason, and then one because the link has changed.
    expect(&mut h, mark(link(2)), Event::Kept(link(2)));
    expect(&mut h, mark(link(2)), Event::Kept(link(1)));
    expect(&mut h, mark(link(1)), Event::Swapped);
    assert!(!h.has_exited());
    expect(&mut h, Action::Proceed, Event::Done);
    assert!(h.has_exited());
    assert!(h.is_idle());
    assert!(!h.is_open());
}

#[test]
fn a_marked_entry_is_not_marked_again() {
    let mut h = Harness::new(3, 4);
    h.begin_exit();
    expect_set_pinned(&mut h, 0, 0);
    expect(&mut h, Action::Proceed, Event::Done);
    expect_advance(&mut h, 0, 2);
    expect(&mut h, Action::LoadState(Order::SeqCst), Event::Word(2));
    expect(&mut h, Action::Collect { epoch: 2 }, Event::Reply(Urgency::Normal));
    expect(&mut h, Action::LoadState(Order::SeqCst), Event::Word(2));
    expect(&mut h, Action::Push { epoch: 2 }, Event::Reply(Urgency::Normal));
    expect_set_unpinned(&mut h);
    expect(&mut h, Action::Proceed, Event::Done);
    expect(
        &mut h,
        Action::LoadLink { slot: Slot::Next(3), order: Order::Acquire },
        Event::Link(deleted(None)),
    );
    expect(&mut h, Action::Proceed, Event::Done);
    assert!(h.has_exited());
}

/// Brings a thread to the point where it has loaded the head of the list.
fn visiting(h: &mut Harness, state: usize, head: Link) {
    expect(h, Action::LoadState(Order::SeqCst), Event::Word(state));
    expect(h, Action::LoadLink { slot: Slot::Head, order: Order::Acquire }, Event::Link(head));
}

#[test]
fn a_thread_in_a_different_epoch_keeps_the_epoch_from_advancing() {
    let mut h = pinned(0, 1);
    h.begin_unlinked(unlinked_object(10));
    visiting(&mut h, 4, link(7));
    expect(
        &mut h,
        Action::LoadLink { slot: Slot::Next(7), order: Order::Acquire },
        Event::Link(link(6)),
    );
    expect(&mut h, Action::LoadThread { thread: 7, order: Order::SeqCst }, Event::Word(2));
    // No attempt is made.
    assert_eq!(h.action(), Action::LoadState(Order::SeqCst));
    h.resume(Event::Word(4));
    assert_eq!(h.action(), Action::Collect { epoch: 4 });
}

#[test]
fn threads_in_the_same_epoch_or_unpinned_let_the_epoch_advance() {
    let mut h = pinned(0, 1);
    h.begin_unlinked(unlinked_object(10));
    visiting(&mut h, 5, link(7));
    expect(
        &mut h,
        Action::LoadLink { slot: Slot::Next(7), order: Order::Acquire },
        Event::Link(link(6)),
    );
    expect(&mut h, Action::LoadThread { thread: 7, order: Order::SeqCst }, Event::Word(4));
    expect(
        &mut h,
        Action::LoadLink { slot: Slot::Next(6), order: Order::Acquire },
        Event::Link(NULL),
    );
    expect(&mut h, Action::LoadThread { thread: 6, order: Order::SeqCst }, Event::Word(9));
    expect(
        &mut h,
        Action::SwapState { expected: 5, new: 7, order: Order::SeqCst },
        Event::Done,
    );
    assert_eq!(h.action(), Action::LoadState(Order::SeqCst));
}

#[test]
fn a_deleted_entry_is_removed_and_stashed() {
    let mut h = pinned(0, 2);
    h.begin_unlinked(unlinked_object(10));
    h.begin_unlinked(unlinked_object(20));
    visiting(&mut h, 0, link(7));
    expect(
        &mut h,
        Action::LoadLink { slot: Slot::Next(7), order: Order::Acquire },
        Event::Link(link(6)),
    );
    expect(&mut h, Action::LoadThread { thread: 7, order: Order::SeqCst }, Event::Word(1));
    expect(
        &mut h,
        Action::LoadLink { slot: Slot::Next(6), order: Order::Acquire },
        Event::Link(deleted(Some(5))),
    );
    expect(
        &mut h,
        Action::SwapLink {
            slot: Slot::Next(7),
            from: link(6),
            into: link(5),
            order: Order::Release,
            weak: false,
        },
        Event::Swapped,
    );
    assert_eq!(h.bag().objects(), &vec![Object { addr: 6, count: 1, kind: Kind::Thread }]);
    // The predecessor does not change.
    expect(
        &mut h,
        Action::LoadLink { slot: Slot::Next(5), order: Order::Acquire },
        Event::Link(deleted(None)),
    );
    assert_eq!(
        h.action(),
        Action::SwapLink {
            slot: Slot::Next(7),
            from: link(5),
            into: NULL,
            order: Order::Release,
            weak: false,
        }
    );
}

#[test]
fn a_lost_race_ends_the_attempt() {
    let mut h = pinned(0, 1);
    h.begin_unlinked(unlinked_object(10));
    visiting(&mut h, 0, link(7));
    expect(
        &mut h,
        Action::LoadLink { slot: Slot::Next(7), order: Order::Acquire },
        Event::Link(deleted(None)),
    );
    expect(
        &mut h,
        Action::SwapLink {
            slot: Slot::Head,
            from: link(7),
            into: NULL,
            order: Order::Release,
            weak: false,
        },
        Event::Kept(link(8)),
    );
    assert!(h.bag().objects().is_empty());
    assert_eq!(h.action(), Action::LoadState(Order::SeqCst));
    h.resume(Event::Word(0));
    assert_eq!(h.action(), Action::Collect { epoch: 0 });
}

#[test]
fn garbage_that_is_produced_while_collecting_gets_rid_of_its_own_bag() {
    let mut h = pinned(0, 1);
    h.begin_unlinked(unlinked_object(10));
    expect_advance(&mut h, 0, 2);
    expect(&mut h, Action::LoadState(Order::SeqCst), Event::Word(2));
    assert_eq!(h.action(), Action::Collect { epoch: 2 });
    assert_eq!(h.depth(), 1);
    h.begin_unlinked(unlinked_object(20));
    assert_eq!(h.depth(), 3);
    expect_advance(&mut h, 2, 4);
    expect(&mut h, Action::LoadState(Order::SeqCst), Event::Word(4));
    expect(&mut h, Action::Collect { epoch: 4 }, Event::Reply(Urgency::Normal));
    assert_eq!(h.outgoing().objects(), &vec![unlinked_object(20)]);
    expect(&mut h, Action::Push { epoch: 4 }, Event::Reply(Urgency::Normal));
    assert_eq!(h.depth(), 1);
    expect(&mut h, Action::Collect { epoch: 2 }, Event::Reply(Urgency::Normal));
    assert_eq!(h.outgoing().objects(), &vec![unlinked_object(10)]);
    expect(&mut h, Action::Push { epoch: 2 }, Event::Reply(Urgency::Normal));
    assert!(h.is_idle());
}

#[test]
fn bags_refuse_objects_when_full() {
    let mut bag = Bag::new(2);
    assert_eq!(bag.capacity(), 2);
    assert!(!bag.is_full());
    assert!(bag.try_insert(unlinked_object(1)));
    assert!(bag.try_insert(Object::thread(2)));
    assert!(bag.is_full());
    assert!(!bag.try_insert(unlinked_object(3)));
    assert_eq!(bag.objects(), &vec![unlinked_object(1), Object::thread(2)]);
}

#[test]
fn actions_of_the_garbage_queues_are_outside() {
    assert!(Action::Collect { epoch: 0 }.outside());
    assert!(Action::Push { epoch: 0 }.outside());
    assert!(!Action::Proceed.outside());
    assert!(!Action::LoadState(Order::SeqCst).outside());
}
