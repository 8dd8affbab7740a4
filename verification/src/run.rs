//! The library as its users see it, in a domain where one thread at a time goes on until it waits
//! for the garbage queues, or is done.
//!
//! A call that needs the garbage queues returns what it waits for. Once that is done, [`reply`]
//! takes the call further.
use crate::access::{Action, Event, Link, Slot};
use crate::domain::Domain;
use crate::garbage::Object;
use crate::harness::{lemma_chained_at, Harness, Local};
use crate::laws::law_guard;
use crate::outcomes::law_advances;
use crate::registry::{Memory, Thread};
use crate::routine::{Advance, Exit, Frame, Pin, SetPinned, SetUnpinned, Unlinked, Unregister};
use crate::scan::{
    collecting, lemma_scan_settles, lemma_superseded_raised, lemma_superseded_settles, scanned,
    superseded,
};
use crate::settle::{fuel, lemma_fuel_decreases, lemma_settled_locals, settled};
use crate::state::{epoch, raised, urgency, Urgency, UNPINNED};
use crate::world::{lemma_step_wf, Step, World};
use std::marker::PhantomData;
use std::rc::Rc;
use vstd::prelude::*;

verus! {

/// How far a call has come.
#[derive(Clone, Copy, Debug, PartialEq, Eq, Structural)]
pub enum Progress {
    /// The thread runs no routine.
    Finished,
    /// The garbage queues have to free some garbage that is safe to free in `epoch`.
    Collect { epoch: usize },
    /// The garbage queues have to take the outgoing bag, marked with `epoch`.
    Push { epoch: usize },
}

/// What a thread that has stopped waits for.
pub open spec fn progress(l: Local) -> Progress {
    if l.idle() {
        Progress::Finished
    } else {
        match l.action() {
            Action::Push { epoch } => Progress::Push { epoch },
            Action::Collect { epoch } => Progress::Collect { epoch },
            _ => Progress::Finished,
        }
    }
}

/// A thread that attempts to advance the global epoch, as a part of `caller`.
pub open spec fn attempting(l: Local, caller: Frame) -> Local {
    l.called(caller).called(Frame::Advance(Advance::Start))
}

/// A witness that a thread is pinned.
///
/// A reference to a guard is proof that the thread is pinned. A guard is bound to the thread that
/// has taken it, so it is not sent to another thread nor shared with one.
#[derive(Debug)]
pub struct Guard {
    harness: usize,
    /// A guard does not implement `Send` nor `Sync`.
    bound: PhantomData<Rc<u8>>,
}

impl Guard {
    /// The thread that has taken the guard.
    pub closed spec fn spec_thread(&self) -> usize {
        self.harness
    }

    /// Returns the thread that has taken the guard.
    pub fn thread(&self) -> (t: usize)
        ensures
            t == self.spec_thread(),
    {
        self.harness
    }
}

/// The step that a thread takes by itself, and where it settles.
proof fn lemma_settle_step(w: World, t: int)
    requires
        w.wf(),
        w.has(t),
        !w.locals[t].stopped(),
    ensures
        w.taken(w.next_step(t)).wf(),
        settled(w, t) == settled(w.taken(w.next_step(t)), t),
{
    lemma_fuel_decreases(w, t);
}

/// The world after a thread has marked itself as pinned.
pub open spec fn after_set_pinned(w: World, t: int) -> World {
    World {
        mem: w.mem.with_word(t as usize, epoch(w.mem.state)),
        locals: w.locals.update(t, w.locals[t].returned(urgency(w.mem.state))),
    }
}

/// The world after a thread has marked itself as unpinned.
pub open spec fn after_set_unpinned(w: World, t: int) -> World {
    World {
        mem: w.mem.with_word(t as usize, UNPINNED),
        locals: w.locals.update(t, w.locals[t].returned(Urgency::Normal)),
    }
}

/// The world after a thread has marked its entry as deleted.
pub open spec fn after_unregister(w: World, t: int) -> World {
    World {
        mem: w.mem.with_link(
            Slot::Next(t as usize),
            Link { to: w.mem.threads[t].next.to, deleted: true },
        ),
        locals: w.locals.update(t, w.locals[t].returned(Urgency::Normal)),
    }
}

/// How a thread marks itself as pinned when no other thread interferes.
proof fn lemma_set_pinned(w: World, t: int)
    requires
        w.wf(),
        w.has(t),
        !w.locals[t].idle(),
        w.locals[t].stack.last() == Frame::SetPinned(SetPinned::Load),
    ensures
        ({
            let w1 = w.taken(w.next_step(t));
            let w2 = w1.taken(w1.next_step(t));
            &&& !w1.locals[t].stopped()
            &&& !w2.locals[t].stopped()
            &&& w2.taken(w2.next_step(t)) == after_set_pinned(w, t)
        }),
        after_set_pinned(w, t).wf(),
        settled(w, t) == settled(after_set_pinned(w, t), t),
{
    assert(w.thread_wf(t));
    let l = w.locals[t];
    lemma_settle_step(w, t);
    let w1 = w.taken(w.next_step(t));
    lemma_settle_step(w1, t);
    let w2 = w1.taken(w1.next_step(t));
    lemma_settle_step(w2, t);
    let w3 = w2.taken(w2.next_step(t));
    assert(w3.locals[t] =~= l.returned(urgency(w.mem.state))) by {
        assert(w2.locals[t].stack.drop_last() =~= l.stack.drop_last());
    }
    assert(w3.locals =~= after_set_pinned(w, t).locals);
    assert(w3.mem =~= after_set_pinned(w, t).mem);
}

/// How a thread marks itself as unpinned when no other thread interferes.
proof fn lemma_set_unpinned(w: World, t: int)
    requires
        w.wf(),
        w.has(t),
        !w.locals[t].idle(),
        w.locals[t].stack.last() == Frame::SetUnpinned(SetUnpinned::Fence),
    ensures
        ({
            let w1 = w.taken(w.next_step(t));
            &&& !w1.locals[t].stopped()
            &&& w1.taken(w1.next_step(t)) == after_set_unpinned(w, t)
        }),
        after_set_unpinned(w, t).wf(),
        settled(w, t) == settled(after_set_unpinned(w, t), t),
{
    assert(w.thread_wf(t));
    let l = w.locals[t];
    lemma_settle_step(w, t);
    let w1 = w.taken(w.next_step(t));
    lemma_settle_step(w1, t);
    let w2 = w1.taken(w1.next_step(t));
    assert(w2.locals[t] =~= l.returned(Urgency::Normal)) by {
        assert(w1.locals[t].stack.drop_last() =~= l.stack.drop_last());
    }
    assert(w2.locals =~= after_set_unpinned(w, t).locals);
    assert(w2.mem =~= after_set_unpinned(w, t).mem);
}

/// How a thread marks its entry as deleted when no other thread interferes.
proof fn lemma_unregister(w: World, t: int)
    requires
        w.wf(),
        w.has(t),
        !w.locals[t].idle(),
        w.locals[t].stack.last() == Frame::Unregister(Unregister::Load),
    ensures
        ({
            let w1 = w.taken(w.next_step(t));
            if w.mem.deleted(t) {
                w1 == after_unregister(w, t)
            } else {
                &&& !w1.locals[t].stopped()
                &&& w1.taken(w1.next_step(t)) == after_unregister(w, t)
            }
        }),
        after_unregister(w, t).wf(),
        settled(w, t) == settled(after_unregister(w, t), t),
{
    assert(w.thread_wf(t));
    let l = w.locals[t];
    lemma_settle_step(w, t);
    let w1 = w.taken(w.next_step(t));
    if w.mem.deleted(t) {
        assert(w1.locals =~= after_unregister(w, t).locals);
        assert(w1.mem.threads =~= after_unregister(w, t).mem.threads);
    } else {
        lemma_settle_step(w1, t);
        let w2 = w1.taken(w1.next_step(t));
        assert(w2.locals[t] =~= l.returned(Urgency::Normal)) by {
            assert(w1.locals[t].stack.drop_last() =~= l.stack.drop_last());
        }
        assert(w2.locals =~= after_unregister(w, t).locals);
        assert(w2.mem =~= after_unregister(w, t).mem);
    }
}

/// What becomes of the world when a thread takes a guard.
///
/// - Pinning a pinned thread only counts the guard.
/// - Otherwise the thread announces the global epoch. If garbage must be urgently collected, it then
///   attempts to advance the epoch, and waits for the garbage queues to free some garbage.
pub open spec fn guard_taken(w: World, t: int, w2: World) -> bool {
    let l = w.locals[t];
    let l2 = w2.locals[t];
    let pinned = w.mem.with_word(t as usize, epoch(w.mem.state));
    let counted = Local { pin_count: (l.pin_count + 1) as usize, ..l };
    &&& w2.locals == w.locals.update(t, l2)
    &&& if l.pin_count > 0 {
        w2.mem == w.mem && l2 == counted
    } else if urgency(w.mem.state) == Urgency::Normal {
        w2.mem == pinned && l2 == counted && progress(l2) == Progress::Finished
    } else {
        &&& w2.mem == pinned.advanced()
        &&& scanned(
            attempting(counted, Frame::Pin(Pin::Advancing)),
            l2,
            pinned.dead(pinned.head),
            w2.mem,
        )
        &&& progress(l2) == Progress::Collect { epoch: epoch(w2.mem.state) }
    }
}

/// How a thread takes a guard when no other thread interferes.
proof fn lemma_pin(w: World, t: int)
    requires
        w.wf(),
        w.enables(Step::Pin { thread: t }),
    ensures
        settled(w.taken(Step::Pin { thread: t }), t).wf(),
        guard_taken(w, t, settled(w.taken(Step::Pin { thread: t }), t)),
{
    let l = w.locals[t];
    let w0 = w.taken(Step::Pin { thread: t });
    let counted = Local { pin_count: (l.pin_count + 1) as usize, ..l };
    assert(w.thread_wf(t));
    lemma_step_wf(w, Step::Pin { thread: t });
    lemma_settled_locals(w0, t);
    let w2 = settled(w0, t);
    assert(w2.locals =~= w.locals.update(t, w2.locals[t]));
    if l.pin_count == 0 {
        lemma_set_pinned(w0, t);
        let u = urgency(w.mem.state);
        let w1 = after_set_pinned(w0, t);
        assert(w1.locals[t] =~= counted.called(Frame::Pin(Pin::Entered { urgency: u })));
        lemma_settle_step(w1, t);
        let next = w1.taken(w1.next_step(t));
        if u == Urgency::Normal {
            assert(next.locals[t] =~= counted);
            assert(settled(next, t) == next);
        } else {
            assert(next.locals[t] =~= attempting(counted, Frame::Pin(Pin::Advancing)));
            lemma_scan_settles(next, t);
        }
    }
}

/// How a thread drops a guard when no other thread interferes.
proof fn lemma_unpin(w: World, t: int)
    requires
        w.wf(),
        w.enables(Step::Unpin { thread: t }),
    ensures
        ({
            let l = w.locals[t];
            let w2 = settled(w.taken(Step::Unpin { thread: t }), t);
            &&& w2.wf()
            &&& w2.locals == w.locals.update(
                t,
                Local { pin_count: (l.pin_count - 1) as usize, ..l },
            )
            &&& w2.mem == if l.pin_count == 1 {
                w.mem.with_word(t as usize, UNPINNED)
            } else {
                w.mem
            }
        }),
{
    let l = w.locals[t];
    let w0 = w.taken(Step::Unpin { thread: t });
    let counted = Local { pin_count: (l.pin_count - 1) as usize, ..l };
    assert(w.thread_wf(t));
    lemma_step_wf(w, Step::Unpin { thread: t });
    lemma_settled_locals(w0, t);
    let w2 = settled(w0, t);
    if l.pin_count == 1 {
        lemma_set_unpinned(w0, t);
        let w1 = after_set_unpinned(w0, t);
        assert(w1.locals[t] =~= counted);
        assert(settled(w1, t) == w1);
    }
    assert(w2.locals =~= w.locals.update(t, counted));
}

/// Dropping a guard undoes pinning: the thread is as it was before, and unpinned again if it was.
/// While a thread is pinned, pinning it changes nothing but the number of its guards.
pub proof fn law_pin_and_drop(w: World, t: int)
    requires
        w.wf(),
        w.enables(Step::Pin { thread: t }),
        w.locals[t].pin_count == 0 ==> urgency(w.mem.state) == Urgency::Normal,
    ensures
        ({
            let pinned = settled(w.taken(Step::Pin { thread: t }), t);
            let dropped = settled(pinned.taken(Step::Unpin { thread: t }), t);
            &&& w.locals[t].pin_count > 0 ==> pinned.mem == w.mem
            &&& pinned.is_pinned(t)
            &&& pinned.enables(Step::Unpin { thread: t })
            &&& dropped.locals == w.locals
            &&& dropped.mem == if w.locals[t].pin_count == 0 {
                w.mem.with_word(t as usize, UNPINNED)
            } else {
                w.mem
            }
        }),
{
    lemma_pin(w, t);
    assert(w.thread_wf(t));
    let pinned = settled(w.taken(Step::Pin { thread: t }), t);
    assert(pinned.thread_wf(t));
    law_guard(pinned, t);
    lemma_unpin(pinned, t);
    let dropped = settled(pinned.taken(Step::Unpin { thread: t }), t);
    assert(dropped.locals =~= w.locals);
    assert(dropped.mem.threads =~= if w.locals[t].pin_count == 0 {
        w.mem.with_word(t as usize, UNPINNED).threads
    } else {
        w.mem.threads
    });
}

impl Thread {
    /// Marks a thread as pinned and returns the urgency just before pinning.
    ///
    /// Must not be called if the thread is already pinned.
    pub fn set_pinned(d: &mut Domain, t: usize) -> (u: Urgency)
        requires
            old(d)@.wf(),
            old(d)@.has(t as int),
            !old(d)@.locals[t as int].idle(),
            old(d)@.locals[t as int].stack.last() == Frame::SetPinned(SetPinned::Load),
        ensures
            u == urgency(old(d)@.mem.state),
            u == Urgency::Urgent <==> old(d)@.mem.state % 2 == 1,
            final(d)@.mem.threads[t as int].state == old(d)@.mem.state - old(d)@.mem.state % 2,
            final(d)@ == after_set_pinned(old(d)@, t as int),
            final(d)@.wf(),
            settled(old(d)@, t as int) == settled(final(d)@, t as int),
    {
        proof {
            lemma_set_pinned(d@, t as int);
        }
        let state: usize = d.registry().state();
        d.step(t);
        d.step(t);
        d.step(t);
        crate::state::urgency_of(state)
    }

    /// Marks a thread as unpinned.
    pub fn set_unpinned(d: &mut Domain, t: usize)
        requires
            old(d)@.wf(),
            old(d)@.has(t as int),
            !old(d)@.locals[t as int].idle(),
            old(d)@.locals[t as int].stack.last() == Frame::SetUnpinned(SetUnpinned::Fence),
        ensures
            final(d)@ == after_set_unpinned(old(d)@, t as int),
            final(d)@.mem.threads[t as int].state % 2 == 1,
            final(d)@.wf(),
            settled(old(d)@, t as int) == settled(final(d)@, t as int),
    {
        proof {
            lemma_set_unpinned(d@, t as int);
        }
        d.step(t);
        d.step(t);
    }

    /// Unregisters a thread by marking its entry as deleted.
    ///
    /// This does not remove the entry from the list. Any later attempt to advance the global epoch
    /// will do that.
    pub fn unregister(d: &mut Domain, t: usize)
        requires
            old(d)@.wf(),
            old(d)@.has(t as int),
            !old(d)@.locals[t as int].idle(),
            old(d)@.locals[t as int].stack.last() == Frame::Unregister(Unregister::Load),
        ensures
            final(d)@ == after_unregister(old(d)@, t as int),
            final(d)@.mem.threads[t as int].next.deleted,
            final(d)@.wf(),
            settled(old(d)@, t as int) == settled(final(d)@, t as int),
    {
        proof {
            lemma_unregister(d@, t as int);
        }
        let deleted = d.registry().entry(t).next.deleted;
        d.step(t);
        if !deleted {
            d.step(t);
        }
    }
}

/// Lets a thread go on by itself until it waits for the garbage queues, or has nothing more to do.
fn run(d: &mut Domain, t: usize) -> (p: Progress)
    requires
        old(d)@.wf(),
        old(d)@.has(t as int),
    ensures
        final(d)@ == settled(old(d)@, t as int),
        final(d)@.wf(),
        final(d)@.has(t as int),
        final(d)@.locals[t as int].stopped(),
        p == progress(final(d)@.locals[t as int]),
        ({
            let waiting = final(d)@.locals[t as int];
            match p {
                Progress::Finished => waiting.stack.len() == 0,
                Progress::Collect { epoch } => waiting.stack.len() > 0 && waiting.action() == (Action::Collect {
                    epoch,
                }),
                Progress::Push { epoch } => waiting.stack.len() > 0 && waiting.action() == (Action::Push {
                    epoch,
                }),
            }
        }),
{
    while !d.harness(t).is_stopped()
        invariant
            d@.wf(),
            d@.has(t as int),
            settled(d@, t as int) == settled(old(d)@, t as int),
        decreases fuel(d@, t as int),
    {
        proof {
            lemma_fuel_decreases(d@, t as int);
            lemma_settle_step(d@, t as int);
        }
        d.step(t);
    }
    if d.harness(t).is_idle() {
        Progress::Finished
    } else {
        match d.harness(t).action() {
            Action::Push { epoch } => Progress::Push { epoch },
            Action::Collect { epoch } => Progress::Collect { epoch },
            _ => Progress::Finished,
        }
    }
}

/// Attempts to advance the global epoch, and goes on until the garbage queues have to free some
/// garbage.
///
/// The global epoch can advance only if all currently pinned threads have been pinned in the
/// current epoch.
pub fn advance(d: &mut Domain, t: usize) -> (p: Progress)
    requires
        old(d)@.wf(),
        old(d)@.has(t as int),
        !old(d)@.locals[t as int].idle(),
        old(d)@.locals[t as int].stack.last() == Frame::Advance(Advance::Start),
    ensures
        ({
            let w = old(d)@;
            let w2 = final(d)@;
            &&& w2.mem == w.mem.advanced()
            &&& w2.locals == w.locals.update(t as int, w2.locals[t as int])
            &&& scanned(
                w.locals[t as int],
                w2.locals[t as int],
                w.mem.dead(w.mem.head),
                w2.mem,
            )
            &&& p == Progress::Collect { epoch: epoch(w2.mem.state) }
        }),
        (forall|i: int|
            0 <= i < old(d)@.mem.threads.len() && !(
            #[trigger] old(d)@.mem.threads[i]).next.deleted && old(d)@.mem.threads[i].state % 2 == 0
                ==> old(d)@.mem.threads[i].state == old(d)@.mem.state - old(d)@.mem.state % 2)
            ==> final(d)@.mem.state == (old(d)@.mem.state + 2) % (usize::MAX + 1),
        (exists|i: int|
            0 <= i < old(d)@.mem.threads.len() && !(
            #[trigger] old(d)@.mem.threads[i]).next.deleted && old(d)@.mem.threads[i].state % 2 == 0
                && old(d)@.mem.threads[i].state != old(d)@.mem.state - old(d)@.mem.state % 2)
            ==> final(d)@.mem.state == old(d)@.mem.state,
        ({
            let waiting = final(d)@.locals[t as int];
            match p {
                Progress::Finished => waiting.stack.len() == 0,
                Progress::Collect { epoch } => waiting.stack.len() > 0 && waiting.action() == (Action::Collect {
                    epoch,
                }),
                Progress::Push { epoch } => waiting.stack.len() > 0 && waiting.action() == (Action::Push {
                    epoch,
                }),
            }
        }),
        final(d)@ == settled(old(d)@, t as int),
        final(d)@.wf(),
{
    proof {
        lemma_scan_settles(d@, t as int);
        law_advances(d@.mem);
    }
    run(d, t)
}

/// Pins a thread.
///
/// A guard is returned, which unpins the thread as soon as it gets dropped. Pinning is reentrant:
/// there is no harm in pinning a thread while it is already pinned. If garbage must be urgently
/// collected, the thread attempts to advance the global epoch, and the garbage queues have to free
/// some garbage before the guard can be used.
pub fn pin(d: &mut Domain, t: usize) -> (r: (Guard, Progress))
    requires
        old(d)@.wf(),
        old(d)@.has(t as int),
        old(d)@.locals[t as int].can_pin(),
    ensures
        r.0.spec_thread() == t,
        r.1 == progress(final(d)@.locals[t as int]),
        guard_taken(old(d)@, t as int, final(d)@),
        ({
            let waiting = final(d)@.locals[t as int];
            match r.1 {
                Progress::Finished => waiting.stack.len() == 0,
                Progress::Collect { epoch } => waiting.stack.len() > 0 && waiting.action() == (Action::Collect {
                    epoch,
                }),
                Progress::Push { epoch } => waiting.stack.len() > 0 && waiting.action() == (Action::Push {
                    epoch,
                }),
            }
        }),
        final(d)@ == settled(old(d)@.taken(Step::Pin { thread: t as int }), t as int),
        final(d)@.wf(),
{
    let guard = Guard { harness: t, bound: PhantomData };
    proof {
        lemma_pin(d@, t as int);
    }
    d.begin_pin(t);
    if d.harness(t).pin_count() == 1 {
        let _ = Thread::set_pinned(d, t);
    }
    let p = run(d, t);
    (guard, p)
}

impl Guard {
    /// Drops the guard. This unpins the thread if it is the last guard of the thread.
    pub fn drop(self, d: &mut Domain) -> (p: Progress)
        requires
            old(d)@.wf(),
            old(d)@.has(self.spec_thread() as int),
            old(d)@.locals[self.spec_thread() as int].can_unpin(),
        ensures
            ({
                let t = self.spec_thread();
                let w = old(d)@;
                let l = w.locals[t as int];
                let w2 = final(d)@;
                let l2 = Local { pin_count: (l.pin_count - 1) as usize, ..l };
                &&& w2.locals == w.locals.update(t as int, l2)
                &&& w2.mem == if l.pin_count == 1 {
                    w.mem.with_word(t, UNPINNED)
                } else {
                    w.mem
                }
                &&& p == progress(l2)
            }),
            old(d)@.locals[self.spec_thread() as int].pin_count == 1
                ==> final(d)@.mem.threads[self.spec_thread() as int].state % 2 == 1,
            ({
                let waiting = final(d)@.locals[self.spec_thread() as int];
                match p {
                    Progress::Finished => waiting.stack.len() == 0,
                    Progress::Collect { epoch } => waiting.stack.len() > 0 && waiting.action() == (Action::Collect {
                        epoch,
                    }),
                    Progress::Push { epoch } => waiting.stack.len() > 0 && waiting.action() == (Action::Push {
                        epoch,
                    }),
                }
            }),
            final(d)@ == settled(
                old(d)@.taken(Step::Unpin { thread: self.spec_thread() as int }),
                self.spec_thread() as int,
            ),
            final(d)@.wf(),
    {
        let t: usize = self.harness;
        proof {
            lemma_unpin(d@, t as int);
        }
        d.begin_unpin(t);
        if d.harness(t).pin_count() == 0 {
            Thread::set_unpinned(d, t);
        }
        run(d, t)
    }
}

/// Announces that an object just became unreachable and can be freed as soon as the global epoch
/// sufficiently advances.
///
/// The object goes into the local bag. If that makes the bag full, a fresh one replaces it, the
/// thread attempts to advance the global epoch, and the garbage queues have to free some garbage
/// before they take the full bag.
pub fn unlinked(d: &mut Domain, object: Object, guard: &Guard) -> (p: Progress)
    requires
        old(d)@.wf(),
        old(d)@.has(guard.spec_thread() as int),
        old(d)@.locals[guard.spec_thread() as int].can_unlink(),
    ensures
        ({
            let t = guard.spec_thread();
            let w = old(d)@;
            let l = w.locals[t as int];
            let w2 = final(d)@;
            let l2 = w2.locals[t as int];
            &&& w2.locals == w.locals.update(t as int, l2)
            &&& p == progress(l2)
            &&& if l.bag.len() + 1 < l.capacity {
                w2.mem == w.mem && l2 == (Local { bag: l.bag.push(object), ..l })
            } else {
                let closed = Local {
                    bag: Seq::empty(),
                    closed: l.closed.push(l.bag.push(object)),
                    ..l
                };
                &&& w2.mem == w.mem.advanced()
                &&& scanned(
                    attempting(closed, Frame::Unlinked(Unlinked::Advancing)),
                    l2,
                    w.mem.dead(w.mem.head),
                    w2.mem,
                )
                &&& p == Progress::Collect { epoch: epoch(w2.mem.state) }
            }
        }),
        ({
            let waiting = final(d)@.locals[guard.spec_thread() as int];
            match p {
                Progress::Finished => waiting.stack.len() == 0,
                Progress::Collect { epoch } => waiting.stack.len() > 0 && waiting.action() == (Action::Collect {
                    epoch,
                }),
                Progress::Push { epoch } => waiting.stack.len() > 0 && waiting.action() == (Action::Push {
                    epoch,
                }),
            }
        }),
        final(d)@ == settled(
            old(d)@.taken(Step::Unlink { thread: guard.spec_thread() as int, object }),
            guard.spec_thread() as int,
        ),
        final(d)@.wf(),
{
    let t: usize = guard.harness;
    let ghost w = d@;
    d.begin_unlinked(t, object);
    proof {
        let l = w.locals[t as int];
        if l.bag.len() + 1 >= l.capacity {
            lemma_scan_settles(d@, t as int);
        }
    }
    let p = run(d, t);
    assert(d@.locals =~= w.locals.update(t as int, d@.locals[t as int]));
    p
}

impl Harness {
    /// Makes a thread leave the list of participating threads, as it does when it exits.
    ///
    /// The thread gets pinned and attempts to advance the global epoch, and the garbage queues have
    /// to free some garbage before they take the local bag. Then the thread gets unpinned and marks
    /// its entry as deleted.
    ///
    /// A guard is returned for the time in which garbage is freed, so that more of it can be
    /// announced. This guard is not counted, and is not dropped but forgotten.
    pub fn drop(d: &mut Domain, t: usize) -> (r: (Guard, Progress))
        requires
            old(d)@.wf(),
            old(d)@.has(t as int),
            old(d)@.locals[t as int].can_exit(),
        ensures
            r.0.spec_thread() == t,
            ({
                let w = old(d)@;
                let w2 = final(d)@;
                let l2 = w2.locals[t as int];
                let pinned = w.mem.with_word(t, epoch(w.mem.state));
                &&& w2.locals == w.locals.update(t as int, l2)
                &&& w2.mem == pinned.advanced()
                &&& scanned(
                    attempting(w.locals[t as int], Frame::Exit(Exit::Advancing)),
                    l2,
                    pinned.dead(pinned.head),
                    w2.mem,
                )
                &&& r.1 == Progress::Collect { epoch: epoch(w2.mem.state) }
            }),
            final(d)@.locals[t as int].can_unlink(),
            ({
                let waiting = final(d)@.locals[t as int];
                match r.1 {
                    Progress::Finished => waiting.stack.len() == 0,
                    Progress::Collect { epoch } => waiting.stack.len() > 0 && waiting.action() == (Action::Collect {
                        epoch,
                    }),
                    Progress::Push { epoch } => waiting.stack.len() > 0 && waiting.action() == (Action::Push {
                        epoch,
                    }),
                }
            }),
            final(d)@ == settled(old(d)@.taken(Step::Exit { thread: t as int }), t as int),
            final(d)@.wf(),
    {
        let guard = Guard { harness: t, bound: PhantomData };
        let ghost w = d@;
        d.begin_exit(t);
        let _ = Thread::set_pinned(d, t);
        proof {
            let l = w.locals[t as int];
            let w1 = d@;
            assert(w1.locals[t as int] =~= l.called(Frame::Exit(Exit::Entered)));
            lemma_settle_step(w1, t as int);
            let w2 = w1.taken(w1.next_step(t as int));
            assert(w2.locals[t as int] =~= attempting(l, Frame::Exit(Exit::Advancing)));
            lemma_scan_settles(w2, t as int);
        }
        let p = run(d, t);
        assert(d@.locals =~= w.locals.update(t as int, d@.locals[t as int]));
        (guard, p)
    }
}

/// The memory whose urgency flag is set if garbage must be urgently collected.
pub open spec fn raised_if(m: Memory, u: Urgency) -> Memory {
    match u {
        Urgency::Normal => m,
        Urgency::Urgent => Memory { state: raised(m.state), ..m },
    }
}

/// What a thread does once the garbage queues have done what it asked for, and `u` is how urgent
/// the collection of garbage is.
///
/// - A thread that gets pinned clears the urgency flag, unless the collection of garbage is still
///   urgent or the global state has changed. Then it gets unpinned and pinned again.
/// - A full bag is to be pushed next, and so is the local bag of a thread that exits, which is marked
///   with the epoch that is the global one by then.
/// - A thread that has pushed a bag sets the urgency flag if garbage must be urgently collected. If
///   it exits, it gets unpinned and marks its entry as deleted. If an attempt to advance the global
///   epoch had filled the bag, that attempt goes on by itself. It has nothing more to do if no
///   other thread has interfered.
pub open spec fn replied(w: World, t: int, u: Urgency, w2: World) -> bool {
    let l = w.locals[t];
    let n = l.stack.len() as int;
    match l.stack.last() {
        Frame::Pin(Pin::Collecting { state }) => {
            let cleared = Memory {
                state: if u == Urgency::Normal && w.mem.state == state {
                    epoch(state)
                } else {
                    w.mem.state
                },
                ..w.mem
            };
            &&& w2.mem == cleared.with_word(t as usize, epoch(cleared.state))
            &&& w2.locals[t] == (Local { stack: Seq::empty(), ..l })
        },
        Frame::Unlinked(Unlinked::Collecting { epoch }) => {
            &&& w2.mem == w.mem
            &&& w2.locals[t] == l.at(Frame::Unlinked(Unlinked::Pushing { epoch }))
        },
        Frame::Exit(Exit::Collecting { .. }) => {
            &&& w2.mem == w.mem
            &&& w2.locals[t] == (Local {
                bag: Seq::empty(),
                closed: l.closed.push(l.bag),
                ..l
            }).at(Frame::Exit(Exit::Pushing { epoch: epoch(w.mem.state) }))
        },
        Frame::Unlinked(_) => {
            let pushed = Local { closed: l.closed.drop_last(), ..l };
            let mem = raised_if(w.mem, u);
            let done = World {
                mem,
                locals: w.locals.update(t, Local { stack: l.stack.drop_last(), ..pushed }),
            };
            if n == 1 || l.stack[n - 2].is_open() {
                &&& w2.mem == mem
                &&& w2.locals[t] == (Local { stack: l.stack.drop_last(), ..pushed })
            } else {
                &&& w2 == settled(done, t)
                &&& superseded(w.mem, l.stack[n - 2]) ==> {
                    &&& w2.mem == mem
                    &&& w2.locals[t] == (Local {
                        stack: l.stack.take(n - 3).push(collecting(l.stack[n - 3], mem.state)),
                        ..pushed
                    })
                }
            }
        },
        _ => {
            &&& w2.mem == raised_if(w.mem, u).with_word(t as usize, UNPINNED).with_link(
                Slot::Next(t as usize),
                Link { to: w.mem.threads[t].next.to, deleted: true },
            )
            &&& w2.locals[t] == (Local {
                closed: l.closed.drop_last(),
                stack: Seq::empty(),
                exited: true,
                ..l
            })
        },
    }
}

proof fn lemma_reply_to_pin(w: World, t: int, u: Urgency, state: usize)
    requires
        w.wf(),
        w.has(t),
        w.locals[t].stack == seq![Frame::Pin(Pin::Collecting { state })],
    ensures
        replied(w, t, u, settled(w.taken(Step::Act { thread: t, event: Event::Reply(u) }), t)),
{
    let l = w.locals[t];
    let step = Step::Act { thread: t, event: Event::Reply(u) };
    assert(w.thread_wf(t));
    lemma_step_wf(w, step);
    let w1 = w.taken(step);
    let unpinning = Local {
        stack: seq![Frame::Pin(Pin::Unpinning), Frame::SetUnpinned(SetUnpinned::Fence)],
        ..l
    };
    let w2 = if u == Urgency::Normal {
        assert(w1.locals[t] =~= l.at(Frame::Pin(Pin::Clearing { state })));
        lemma_settle_step(w1, t);
        w1.taken(w1.next_step(t))
    } else {
        w1
    };
    assert(w2.locals[t] =~= unpinning);
    lemma_set_unpinned(w2, t);
    let w3 = after_set_unpinned(w2, t);
    assert(w3.locals[t] =~= Local { stack: seq![Frame::Pin(Pin::Unpinned)], ..l });
    lemma_settle_step(w3, t);
    let w4 = w3.taken(w3.next_step(t));
    assert(w4.locals[t] =~= Local {
        stack: seq![Frame::Pin(Pin::Repinning), Frame::SetPinned(SetPinned::Load)],
        ..l
    });
    lemma_set_pinned(w4, t);
    let w5 = after_set_pinned(w4, t);
    assert(w5.locals[t] =~= Local { stack: seq![Frame::Pin(Pin::Repinned)], ..l });
    lemma_settle_step(w5, t);
    let w6 = w5.taken(w5.next_step(t));
    assert(w6.locals[t] =~= Local { stack: Seq::empty(), ..l });
    assert(settled(w6, t) == w6);
    let cleared = w2.mem;
    assert(w6.mem =~= cleared.with_word(t as usize, epoch(cleared.state)));
}

proof fn lemma_reply_to_exit_collecting(w: World, t: int, u: Urgency)
    requires
        w.wf(),
        w.has(t),
        !w.locals[t].idle(),
        w.locals[t].stack.last() is Exit,
        w.locals[t].stack.last()->Exit_0 is Collecting,
    ensures
        replied(w, t, u, settled(w.taken(Step::Act { thread: t, event: Event::Reply(u) }), t)),
{
    let l = w.locals[t];
    let step = Step::Act { thread: t, event: Event::Reply(u) };
    assert(w.thread_wf(t));
    lemma_step_wf(w, step);
    let w1 = w.taken(step);
    assert(w1.locals[t] =~= l.at(Frame::Exit(Exit::Collected)));
    lemma_settle_step(w1, t);
    let w2 = w1.taken(w1.next_step(t));
    assert(w2.locals[t] =~= (Local { bag: Seq::empty(), closed: l.closed.push(l.bag), ..l }).at(
        Frame::Exit(Exit::Pushing { epoch: epoch(w.mem.state) }),
    ));
    assert(settled(w2, t) == w2);
}

proof fn lemma_reply_to_exit(w: World, t: int, u: Urgency, epoch: usize)
    requires
        w.wf(),
        w.has(t),
        w.locals[t].stack == seq![Frame::Exit(Exit::Pushing { epoch })],
    ensures
        replied(w, t, u, settled(w.taken(Step::Act { thread: t, event: Event::Reply(u) }), t)),
{
    let l = Local { closed: w.locals[t].closed.drop_last(), ..w.locals[t] };
    let step = Step::Act { thread: t, event: Event::Reply(u) };
    assert(w.thread_wf(t));
    lemma_step_wf(w, step);
    let w1 = w.taken(step);
    let w2 = if u == Urgency::Urgent {
        assert(w1.locals[t] =~= l.at(Frame::Exit(Exit::Raising)));
        lemma_settle_step(w1, t);
        w1.taken(w1.next_step(t))
    } else {
        w1
    };
    assert(w2.locals[t] =~= Local {
        stack: seq![Frame::Exit(Exit::Leaving), Frame::SetUnpinned(SetUnpinned::Fence)],
        ..l
    });
    lemma_set_unpinned(w2, t);
    let w3 = after_set_unpinned(w2, t);
    assert(w3.locals[t] =~= Local { stack: seq![Frame::Exit(Exit::Left)], ..l });
    lemma_settle_step(w3, t);
    let w4 = w3.taken(w3.next_step(t));
    assert(w4.locals[t] =~= Local {
        stack: seq![Frame::Exit(Exit::Unregistering), Frame::Unregister(Unregister::Load)],
        ..l
    });
    lemma_unregister(w4, t);
    let w5 = after_unregister(w4, t);
    assert(w5.locals[t] =~= Local { stack: seq![Frame::Exit(Exit::Unregistered)], ..l });
    lemma_settle_step(w5, t);
    let w6 = w5.taken(w5.next_step(t));
    assert(w6.locals[t] =~= Local { stack: Seq::empty(), exited: true, ..l });
    assert(settled(w6, t) == w6);
}

proof fn lemma_reply_to_push(w: World, t: int, u: Urgency, epoch: usize)
    requires
        w.wf(),
        w.has(t),
        !w.locals[t].idle(),
        w.locals[t].stack.last() == Frame::Unlinked(Unlinked::Pushing { epoch }),
    ensures
        replied(w, t, u, settled(w.taken(Step::Act { thread: t, event: Event::Reply(u) }), t)),
{
    let l = w.locals[t];
    let n = l.stack.len() as int;
    let step = Step::Act { thread: t, event: Event::Reply(u) };
    assert(w.thread_wf(t));
    lemma_step_wf(w, step);
    let w1 = w.taken(step);
    let done = Local { closed: l.closed.drop_last(), stack: l.stack.drop_last(), ..l };
    let w2 = if u == Urgency::Urgent {
        assert(w1.locals[t] =~= Local { closed: l.closed.drop_last(), ..l }.at(
            Frame::Unlinked(Unlinked::Raising),
        ));
        lemma_settle_step(w1, t);
        w1.taken(w1.next_step(t))
    } else {
        w1
    };
    assert(w2.locals[t] =~= done);
    if n == 1 || l.stack[n - 2].is_open() {
        assert(settled(w2, t) == w2);
    } else {
        lemma_chained_at(l.stack, n - 1);
        assert(w2.locals =~= w.locals.update(t, done));
        assert(w2.mem =~= raised_if(w.mem, u));
        if superseded(w.mem, l.stack[n - 2]) {
            lemma_superseded_raised(w.mem, l.stack[n - 2]);
            lemma_superseded_settles(w2, t);
            let l2 = settled(w2, t).locals[t];
            assert(l2.bag =~= l.bag);
            assert(l2.stack =~= l.stack.take(n - 3).push(
                collecting(l.stack[n - 3], w2.mem.state),
            ));
            assert(l2 =~= Local {
                stack: l.stack.take(n - 3).push(collecting(l.stack[n - 3], w2.mem.state)),
                closed: l.closed.drop_last(),
                ..l
            });
        }
    }
}

/// Tells a thread that the garbage queues have done what it asked for, and lets it go on until it
/// waits for them again, or has nothing more to do.
pub fn reply(d: &mut Domain, t: usize, u: Urgency) -> (p: Progress)
    requires
        old(d)@.wf(),
        old(d)@.has(t as int),
        !old(d)@.locals[t as int].idle(),
        old(d)@.locals[t as int].action().is_outside(),
    ensures
        replied(old(d)@, t as int, u, final(d)@),
        final(d)@.locals == old(d)@.locals.update(t as int, final(d)@.locals[t as int]),
        final(d)@ == settled(
            old(d)@.taken(Step::Act { thread: t as int, event: Event::Reply(u) }),
            t as int,
        ),
        final(d)@.wf(),
        final(d)@.has(t as int),
        final(d)@.locals[t as int].stopped(),
        p == progress(final(d)@.locals[t as int]),
        ({
            let waiting = final(d)@.locals[t as int];
            match p {
                Progress::Finished => waiting.stack.len() == 0,
                Progress::Collect { epoch } => waiting.stack.len() > 0 && waiting.action() == (Action::Collect {
                    epoch,
                }),
                Progress::Push { epoch } => waiting.stack.len() > 0 && waiting.action() == (Action::Push {
                    epoch,
                }),
            }
        }),
{
    proof {
        let w = d@;
        let l = w.locals[t as int];
        let n = l.stack.len() as int;
        assert(w.thread_wf(t as int));
        if n > 1 {
            lemma_chained_at(l.stack, n - 1);
        }
        assert(l.stack[n - 1] == l.stack.last());
        match l.stack.last() {
            Frame::Pin(Pin::Collecting { state }) => {
                assert(l.stack =~= seq![l.stack.last()]);
                lemma_reply_to_pin(w, t as int, u, state);
            },
            Frame::Exit(Exit::Collecting { .. }) => {
                lemma_reply_to_exit_collecting(w, t as int, u);
            },
            Frame::Exit(Exit::Pushing { epoch }) => {
                assert(l.stack =~= seq![l.stack.last()]);
                lemma_reply_to_exit(w, t as int, u, epoch);
            },
            Frame::Unlinked(Unlinked::Pushing { epoch }) => {
                lemma_reply_to_push(w, t as int, u, epoch);
            },
            _ => {},
        }
    }
    d.answer(t, u);
    proof {
        lemma_settled_locals(d@, t as int);
    }
    let p = run(d, t);
    assert(d@.locals =~= old(d)@.locals.update(t as int, d@.locals[t as int]));
    p
}

} // verus!
