//! All threads together with the memory that they share, and what can happen next.
//!
//! Each step of the world is one access of one thread, or something that a thread does with its own
//! data alone. The steps of different threads follow each other in any order.
use crate::access::{Action, Event, Link, Order, Slot};
use crate::garbage::Object;
use crate::harness::{lemma_begun_wf, lemma_chained_at, lemma_resumed_wf, Local};
use crate::registry::{target, Memory};
use crate::routine::{Advance, Exit, Frame, Pin};
use crate::state::{pinned, UNPINNED};
use vstd::prelude::*;

verus! {

/// The threads and the memory that they share.
#[verifier::ext_equal]
pub struct World {
    pub mem: Memory,
    /// The data of the threads, each at the number of its entry.
    pub locals: Seq<Local>,
}

/// Something that can happen in the world.
pub enum Step {
    /// The action of a thread has this outcome.
    Act { thread: int, event: Event },
    /// A thread sets out to take a guard.
    Pin { thread: int },
    /// A thread sets out to drop a guard.
    Unpin { thread: int },
    /// A thread announces that an object became unreachable.
    Unlink { thread: int, object: Object },
    /// A thread sets out to exit.
    Exit { thread: int },
    /// A new thread publishes its entry.
    Join { capacity: nat },
}

/// The action by which a new entry becomes the head of the list.
pub open spec fn join_action(m: Memory) -> Action {
    Action::Publish { word: UNPINNED, next: m.head, order: Order::AcqRel }
}

impl World {
    /// The world before any thread was registered.
    pub open spec fn initial() -> World {
        World { mem: Memory::initial(), locals: Seq::empty() }
    }

    /// Whether there is a thread with this entry.
    pub open spec fn has(self, t: int) -> bool {
        0 <= t < self.locals.len()
    }

    /// Whether a thread is pinned, as its entry says.
    pub open spec fn is_pinned(self, t: int) -> bool {
        pinned(self.mem.threads[t].state)
    }

    /// The world in which a thread has other data.
    pub open spec fn with_local(self, t: int, l: Local) -> World {
        World { locals: self.locals.update(t, l), ..self }
    }

    /// Whether a step can be taken.
    pub open spec fn enables(self, step: Step) -> bool {
        match step {
            Step::Act { thread, event } => self.has(thread) && !self.locals[thread].idle()
                && self.mem.tells(self.locals[thread].action(), event),
            Step::Pin { thread } => self.has(thread) && self.locals[thread].can_pin(),
            Step::Unpin { thread } => self.has(thread) && self.locals[thread].can_unpin(),
            Step::Unlink { thread, .. } => self.has(thread) && self.locals[thread].can_unlink(),
            Step::Exit { thread } => self.has(thread) && self.locals[thread].can_exit(),
            Step::Join { capacity } => capacity > 0 && self.mem.threads.len() <= usize::MAX,
        }
    }

    /// The world after a step.
    pub open spec fn taken(self, step: Step) -> World {
        match step {
            Step::Act { thread, event } => {
                let l = self.locals[thread];
                World {
                    mem: self.mem.after(l.thread, l.action(), event),
                    locals: self.locals.update(thread, l.resumed(event)),
                }
            },
            Step::Pin { thread } => self.with_local(thread, self.locals[thread].begun_pin()),
            Step::Unpin { thread } => self.with_local(thread, self.locals[thread].begun_unpin()),
            Step::Unlink { thread, object } => self.with_local(
                thread,
                self.locals[thread].stashed(object),
            ),
            Step::Exit { thread } => self.with_local(thread, self.locals[thread].begun_exit()),
            Step::Join { capacity } => {
                let t = self.mem.threads.len() as usize;
                World {
                    mem: self.mem.after(t, join_action(self.mem), Event::Published(t)),
                    locals: self.locals.push(Local::fresh(t, capacity)),
                }
            },
        }
    }

    /// What holds of each thread: its data are in order, its entry says whether it is pinned, a
    /// thread that has left has marked its entry as deleted and no other has, and what its routines
    /// remember of the list is true.
    pub open spec fn thread_wf(self, t: int) -> bool {
        let l = self.locals[t];
        &&& l.thread == t
        &&& l.wf()
        &&& self.is_pinned(t) == l.announced()
        &&& self.mem.deleted(t) ==> l.leaving()
        &&& l.gone() ==> self.mem.deleted(t)
        &&& forall|k: int| 0 <= k < l.stack.len() ==> self.mem.fits(#[trigger] l.stack[k])
    }

    /// What holds of the world at any time.
    pub open spec fn wf(self) -> bool {
        &&& self.mem.list_wf()
        &&& self.locals.len() == self.mem.threads.len()
        &&& forall|t: int| self.has(t) ==> #[trigger] self.thread_wf(t)
    }
}

/// What a frame remembers of the list stays true.
pub proof fn lemma_fits_later(m: Memory, later: Memory, frame: Frame)
    requires
        m.fits(frame),
        m.grows_to(later),
    ensures
        later.fits(frame),
{
    match frame {
        Frame::Advance(Advance::Check { thread, succ, .. }) => {
            assert forall|k: int| target(succ) < k < thread implies #[trigger] later.deleted(k) by {
                assert(m.deleted(k));
                assert(m.threads[k].next.deleted);
            }
        },
        _ => {},
    }
}

/// The action of a thread accesses only what is there.
pub proof fn lemma_reaches(w: World, t: int)
    requires
        w.wf(),
        w.has(t),
        !w.locals[t].idle(),
    ensures
        w.mem.reaches(t as usize, w.locals[t].action()),
{
    assert(w.thread_wf(t));
    let l = w.locals[t];
    assert(w.mem.fits(l.stack[l.stack.len() - 1]));
}

/// Replacing the link to a deleted entry by the link of that entry keeps the list in order.
proof fn lemma_remove_list_wf(m: Memory, pred: Slot, thread: usize, succ: Link)
    requires
        m.list_wf(),
        m.has(pred),
        m.link(pred) == (Link { to: Some(thread), deleted: false }),
        thread < m.position(pred),
        m.threads[thread as int].next == (Link { to: succ.to, deleted: true }),
        !succ.deleted,
    ensures
        m.with_link(pred, succ).list_wf(),
        m.grows_to(m.with_link(pred, succ)),
{
    let later = m.with_link(pred, succ);
    let p = m.position(pred);
    assert(m.hops(m.threads[thread as int].next, thread as int));
    if pred is Next {
        assert(m.hops(m.threads[p].next, p));
    }
    assert(forall|k: int| 0 <= k < m.threads.len() ==> later.deleted(k) == m.deleted(k));
    assert forall|k: int| target(succ) < k < p implies #[trigger] later.deleted(k) by {
        assert(m.deleted(k));
    }
    assert forall|i: int| 0 <= i < later.threads.len() implies later.hops(
        (#[trigger] later.threads[i]).next,
        i,
    ) by {
        assert(m.hops(m.threads[i].next, i));
    }
}

/// Marking entries as deleted keeps the list in order, and so does what leaves all links alone.
proof fn lemma_same_links(m: Memory, later: Memory)
    requires
        m.list_wf(),
        later.head == m.head,
        later.threads.len() == m.threads.len(),
        forall|i: int|
            0 <= i < m.threads.len() ==> {
                &&& (#[trigger] later.threads[i]).next.to == m.threads[i].next.to
                &&& m.threads[i].next.deleted ==> later.threads[i].next.deleted
            },
    ensures
        later.list_wf(),
        m.grows_to(later),
{
    assert forall|link: Link, i: int|
        i <= m.threads.len() && #[trigger] m.hops(link, i) implies later.hops(link, i) by {
        assert forall|k: int| target(link) < k < i implies #[trigger] later.deleted(k) by {
            assert(m.deleted(k));
            assert(later.threads[k].next.deleted);
        }
    }
    assert forall|i: int| 0 <= i < later.threads.len() implies later.hops(
        (#[trigger] later.threads[i]).next,
        i,
    ) by {
        assert(m.hops(m.threads[i].next, i));
    }
}

/// An access keeps the list in order.
pub proof fn lemma_act_list_wf(w: World, t: int, event: Event)
    requires
        w.wf(),
        w.enables(Step::Act { thread: t, event }),
    ensures
        w.taken(Step::Act { thread: t, event }).mem.list_wf(),
        w.mem.grows_to(w.taken(Step::Act { thread: t, event }).mem),
{
    assert(w.thread_wf(t));
    let l = w.locals[t];
    let m = w.mem;
    let frame = l.stack[l.stack.len() - 1];
    assert(m.fits(frame));
    match frame {
        Frame::Advance(Advance::Remove { state, pred, curr, thread, succ }) if event
            is Swapped => {
            lemma_remove_list_wf(m, pred, thread, succ);
        },
        _ => {
            lemma_same_links(m, w.taken(Step::Act { thread: t, event }).mem);
        },
    }
}

/// What the routines of a thread remember of the list after an access is true.
proof fn lemma_act_fits(w: World, t: int, event: Event)
    requires
        w.wf(),
        w.enables(Step::Act { thread: t, event }),
    ensures
        ({
            let next = w.taken(Step::Act { thread: t, event });
            forall|k: int|
                0 <= k < next.locals[t].stack.len() ==> next.mem.fits(
                    #[trigger] next.locals[t].stack[k],
                )
        }),
{
    assert(w.thread_wf(t));
    lemma_act_list_wf(w, t, event);
    let next = w.taken(Step::Act { thread: t, event });
    let l = w.locals[t];
    let n = l.stack.len() as int;
    let frame = l.stack[n - 1];
    assert(w.mem.fits(frame));
    assert(w.mem.hops(w.mem.head, w.mem.threads.len() as int));
    match frame {
        Frame::Advance(Advance::Visit { curr, .. }) => if curr.to is Some {
            let c = curr.to->0 as int;
            assert(w.mem.hops(w.mem.threads[c].next, c));
        },
        _ => {},
    }
    assert forall|k: int| 0 <= k < next.locals[t].stack.len() implies next.mem.fits(
        #[trigger] next.locals[t].stack[k],
    ) by {
        if k < n {
            assert(w.mem.fits(l.stack[k]));
            lemma_fits_later(w.mem, next.mem, l.stack[k]);
        }
    }
}

/// After an access, the entry of a thread says whether it is pinned, and whether it has left.
proof fn lemma_act_announced(w: World, t: int, event: Event)
    requires
        w.wf(),
        w.enables(Step::Act { thread: t, event }),
    ensures
        ({
            let next = w.taken(Step::Act { thread: t, event });
            &&& next.is_pinned(t) == next.locals[t].announced()
            &&& next.mem.deleted(t) ==> next.locals[t].leaving()
            &&& next.locals[t].gone() ==> next.mem.deleted(t)
        }),
{
    assert(w.thread_wf(t));
    let l = w.locals[t];
    let n = l.stack.len() as int;
    assert(w.mem.fits(l.stack[n - 1]));
    if n > 1 {
        lemma_chained_at(l.stack, 1);
        lemma_chained_at(l.stack, n - 1);
    }
    if n > 2 {
        lemma_chained_at(l.stack, n - 2);
    }
    assert(l.stack[n - 1] == l.stack.last());
}

/// An access keeps the world in order.
pub proof fn lemma_act_wf(w: World, t: int, event: Event)
    requires
        w.wf(),
        w.enables(Step::Act { thread: t, event }),
    ensures
        w.taken(Step::Act { thread: t, event }).wf(),
{
    let next = w.taken(Step::Act { thread: t, event });
    assert(w.thread_wf(t));
    let l = w.locals[t];
    lemma_act_list_wf(w, t, event);
    lemma_act_fits(w, t, event);
    lemma_act_announced(w, t, event);
    lemma_resumed_wf(l, event);
    assert forall|u: int| next.has(u) implies #[trigger] next.thread_wf(u) by {
        assert(w.thread_wf(u));
        if u != t {
            lemma_other_thread(w, t, event, u);
            assert forall|k: int| 0 <= k < next.locals[u].stack.len() implies next.mem.fits(
                #[trigger] next.locals[u].stack[k],
            ) by {
                lemma_fits_later(w.mem, next.mem, w.locals[u].stack[k]);
            }
        }
    }
}

/// An access of one thread leaves the word of another one alone, and marks its entry neither as
/// deleted nor as not deleted.
pub proof fn lemma_other_thread(w: World, t: int, event: Event, u: int)
    requires
        w.wf(),
        w.enables(Step::Act { thread: t, event }),
        w.has(u),
        u != t,
    ensures
        ({
            let next = w.taken(Step::Act { thread: t, event });
            &&& next.mem.threads[u].state == w.mem.threads[u].state
            &&& next.mem.deleted(u) == w.mem.deleted(u)
            &&& next.locals[u] == w.locals[u]
        }),
{
    assert(w.thread_wf(t));
    let l = w.locals[t];
    assert(w.mem.fits(l.stack[l.stack.len() - 1]));
}

/// Every step keeps the world in order.
pub proof fn lemma_step_wf(w: World, step: Step)
    requires
        w.wf(),
        w.enables(step),
    ensures
        w.taken(step).wf(),
{
    let next = w.taken(step);
    match step {
        Step::Act { thread, event } => {
            lemma_act_wf(w, thread, event);
        },
        Step::Join { capacity } => {
            let n = w.mem.threads.len() as int;
            assert(next.mem.threads.len() == n + 1);
            assert forall|link: Link, i: int| i <= n && #[trigger] w.mem.hops(link, i) implies
                next.mem.hops(link, i) by {
                assert forall|k: int| target(link) < k < i implies #[trigger] next.mem.deleted(
                    k,
                ) by {
                    assert(w.mem.deleted(k));
                }
            }
            assert forall|i: int| 0 <= i < n + 1 implies next.mem.hops(
                (#[trigger] next.mem.threads[i]).next,
                i,
            ) by {
                if i < n {
                    assert(w.mem.hops(w.mem.threads[i].next, i));
                }
            }
            assert(w.mem.grows_to(next.mem));
            assert forall|u: int| next.has(u) implies #[trigger] next.thread_wf(u) by {
                if u < n {
                    assert(w.thread_wf(u));
                    assert forall|k: int| 0 <= k < next.locals[u].stack.len() implies next.mem.fits(
                        #[trigger] next.locals[u].stack[k],
                    ) by {
                        lemma_fits_later(w.mem, next.mem, w.locals[u].stack[k]);
                    }
                }
            }
        },
        Step::Pin { thread }
        | Step::Unpin { thread }
        | Step::Unlink { thread, .. }
        | Step::Exit { thread } => {
            assert(w.thread_wf(thread));
            lemma_begun_wf(w.locals[thread]);
            let l = w.locals[thread];
            if l.stack.len() > 1 {
                lemma_chained_at(l.stack, 1);
            }
            assert forall|u: int| next.has(u) implies #[trigger] next.thread_wf(u) by {
                assert(w.thread_wf(u));
                if u == thread {
                    assert forall|k: int| 0 <= k < next.locals[u].stack.len() implies next.mem.fits(
                        #[trigger] next.locals[u].stack[k],
                    ) by {
                        if k < l.stack.len() {
                            assert(w.mem.fits(l.stack[k]));
                        }
                    }
                }
            }
        },
    }
}

} // verus!
