//! What becomes of garbage in the course of a history: in which order objects become unreachable
//! and bags are marked, and that every entry is removed from the list once.
use crate::access::{Event, Link, Slot};
use crate::harness::lemma_chained_at;
use crate::history::{lemma_step_epochs_wf, History, Notes};
use crate::registry::target;
use crate::routine::{Advance, Exit, Frame, Move, Unlinked};
use crate::world::{lemma_act_list_wf, Step};
use vstd::prelude::*;

verus! {

/// Whether the objects of a closed bag became unreachable before its owner was called, or, in a
/// thread that exits, before it loaded the epoch that marks the bag.
pub open spec fn born_before(owner: Frame, entered: nat, loaded: nat, births: Seq<nat>) -> bool {
    forall|i: int|
        0 <= i < births.len() ==> #[trigger] births[i] <= if owner is Exit {
            loaded
        } else {
            entered
        }
}

/// Whether the closed bags hold what they should, each for its owner.
pub open spec fn closed_wf(
    stack: Seq<Frame>,
    entered: Seq<nat>,
    loaded: Seq<nat>,
    closed: Seq<Seq<nat>>,
) -> bool
    decreases stack.len(),
{
    stack.len() > 0 ==> if stack.last().owns_bag() {
        &&& closed.len() > 0
        &&& born_before(
            stack.last(),
            entered[stack.len() - 1],
            loaded[stack.len() - 1],
            closed.last(),
        )
        &&& closed_wf(stack.drop_last(), entered, loaded, closed.drop_last())
    } else {
        closed_wf(stack.drop_last(), entered, loaded, closed)
    }
}

/// Which notes matter for the closed bags.
proof fn lemma_closed_wf_notes(
    stack: Seq<Frame>,
    entered: Seq<nat>,
    loaded: Seq<nat>,
    entered2: Seq<nat>,
    loaded2: Seq<nat>,
    closed: Seq<Seq<nat>>,
)
    requires
        closed_wf(stack, entered, loaded, closed),
        forall|k: int|
            0 <= k < stack.len() ==> #[trigger] entered2[k] == entered[k] && loaded2[k]
                == loaded[k],
    ensures
        closed_wf(stack, entered2, loaded2, closed),
    decreases stack.len(),
{
    if stack.len() > 0 {
        let top = stack.len() - 1;
        assert(entered2[top] == entered[top]);
        let rest = if stack.last().owns_bag() {
            closed.drop_last()
        } else {
            closed
        };
        lemma_closed_wf_notes(stack.drop_last(), entered, loaded, entered2, loaded2, rest);
    }
}

/// The closed bags when a frame is pushed onto a stack.
proof fn lemma_closed_wf_push(
    stack: Seq<Frame>,
    frame: Frame,
    entered: Seq<nat>,
    loaded: Seq<nat>,
    closed: Seq<Seq<nat>>,
)
    ensures
        closed_wf(stack.push(frame), entered, loaded, closed) <==> if frame.owns_bag() {
            &&& closed.len() > 0
            &&& born_before(
                frame,
                entered[stack.len() as int],
                loaded[stack.len() as int],
                closed.last(),
            )
            &&& closed_wf(stack, entered, loaded, closed.drop_last())
        } else {
            closed_wf(stack, entered, loaded, closed)
        },
{
    assert(stack.push(frame).drop_last() =~= stack);
}

/// Whether a frame holds on to an entry, so that it will access it or go on from it.
pub open spec fn holds(frame: Frame, c: int) -> bool {
    match frame {
        Frame::Advance(Advance::Visit { pred, curr, .. }) => target(curr) == c || pred is Next
            && pred->Next_0 == c,
        Frame::Advance(Advance::Remove { pred, thread, succ, .. }) => thread == c || target(succ)
            == c || pred is Next && pred->Next_0 == c,
        Frame::Advance(Advance::Check { thread, succ, .. }) => thread == c || target(succ) == c,
        _ => false,
    }
}

impl History {
    /// Whether objects became unreachable in the past, and bags hold what they should.
    pub open spec fn bags_wf(self, t: int) -> bool {
        let l = self.world.locals[t];
        let notes = self.notes[t];
        &&& forall|i: int| 0 <= i < notes.bag.len() ==> #[trigger] notes.bag[i] <= self.count
        &&& closed_wf(l.stack, notes.entered, notes.loaded, notes.closed)
    }

    /// Whether a link in a slot of entry `i` skips removed entries only.
    pub open spec fn skips(self, link: Link, i: int) -> bool {
        forall|k: int| target(link) < k < i ==> #[trigger] self.removed.contains_key(k)
    }

    /// What holds of removed entries: they are deleted, nothing that is still in the list links to
    /// one, and a removed entry links to one only if that was removed later.
    pub open spec fn removals_wf(self) -> bool {
        let m = self.world.mem;
        &&& forall|x: int| #[trigger]
            self.removed.contains_key(x) ==> 0 <= x < m.threads.len() && m.deleted(x)
                && self.removed[x] <= self.count
        &&& self.skips(m.head, m.threads.len() as int)
        &&& !self.removed.contains_key(target(m.head))
        &&& forall|i: int|
            0 <= i < m.threads.len() ==> self.skips((#[trigger] m.threads[i]).next, i)
        &&& forall|i: int|
            0 <= i < m.threads.len() && self.removed.contains_key(
                target((#[trigger] m.threads[i]).next),
            ) ==> self.removed.contains_key(i) && self.removed[target(m.threads[i].next)]
                >= self.removed[i]
    }

    /// Whether every entry that a frame holds on to was not yet removed when the thread got pinned.
    pub open spec fn holds_wf(self, t: int, k: int) -> bool {
        forall|c: int|
            holds(self.world.locals[t].stack[k], c) && #[trigger] self.removed.contains_key(c)
                ==> self.removed[c] >= self.notes[t].since
    }

    /// What holds of a history at any time.
    pub open spec fn wf(self) -> bool {
        &&& self.epochs_wf()
        &&& self.removals_wf()
        &&& forall|t: int| self.world.has(t) ==> #[trigger] self.bags_wf(t)
        &&& forall|t: int, k: int|
            self.world.has(t) && 0 <= k < self.world.locals[t].stack.len()
                ==> #[trigger] self.holds_wf(t, k)
    }
}

proof fn lemma_act_bags_wf(h: History, t: int, event: Event)
    requires
        h.wf(),
        h.world.enables(Step::Act { thread: t, event }),
    ensures
        h.taken(Step::Act { thread: t, event }).bags_wf(t),
{
    let next = h.taken(Step::Act { thread: t, event });
    assert(h.bags_wf(t));
    assert(h.notes_wf(t));
    assert(h.world.thread_wf(t));
    let l = h.world.locals[t];
    let notes = h.notes[t];
    let after = next.notes[t];
    let n = l.stack.len() as int;
    let top = l.stack.last();
    let below = l.stack.drop_last();
    assert(below.push(top) =~= l.stack);
    assert(top == l.stack[n - 1]);
    assert(h.frame_wf(t, n - 1));
    assert(h.pin_wf(t));
    lemma_closed_wf_push(below, top, notes.entered, notes.loaded, notes.closed);
    if n > 1 {
        lemma_chained_at(l.stack, n - 1);
        lemma_chained_at(l.stack, 1);
    }
    if n > 2 {
        lemma_chained_at(l.stack, n - 2);
    }
    let rest = if top.owns_bag() {
        notes.closed.drop_last()
    } else {
        notes.closed
    };
    match top.spec_next(event) {
        Move::Goto(frame) => {
            lemma_closed_wf_notes(
                below,
                notes.entered,
                notes.loaded,
                after.entered,
                after.loaded,
                rest,
            );
            assert(next.world.locals[t].stack =~= below.push(frame));
            lemma_closed_wf_push(below, frame, after.entered, after.loaded, after.closed);
            if top == Frame::Exit(Exit::Collected) {
                assert(after.closed.drop_last() =~= notes.closed);
            }
            assert(next.bags_wf(t));
        },
        Move::Call(frame, callee) => {
            lemma_closed_wf_notes(
                below,
                notes.entered,
                notes.loaded,
                after.entered,
                after.loaded,
                rest,
            );
            lemma_closed_wf_push(below, frame, after.entered, after.loaded, after.closed);
            lemma_closed_wf_push(
                below.push(frame),
                callee,
                after.entered,
                after.loaded,
                after.closed,
            );
            assert(next.bags_wf(t));
        },
        Move::Stash(frame, thread) => {
            lemma_closed_wf_notes(
                below,
                notes.entered,
                notes.loaded,
                after.entered,
                after.loaded,
                rest,
            );
            lemma_closed_wf_push(below, frame, after.entered, after.loaded, notes.closed);
            lemma_stash_closed_wf(below.push(frame), after, notes.closed);
            if l.bag.len() + 1 >= l.capacity {
                assert(after.closed.drop_last() =~= notes.closed);
                assert(after.entered[n] == h.count);
            }
            assert(next.bags_wf(t));
        },
        Move::Return(urgency) => {
            if n > 1 {
                let rest_stack = below.drop_last();
                let caller = below.last();
                assert(rest_stack.push(caller) =~= below);
                lemma_closed_wf_notes(
                    below,
                    notes.entered,
                    notes.loaded,
                    after.entered,
                    after.loaded,
                    rest,
                );
                lemma_closed_wf_push(
                    rest_stack,
                    caller,
                    after.entered,
                    after.loaded,
                    after.closed,
                );
                lemma_closed_wf_push(
                    rest_stack,
                    caller.spec_returned(urgency),
                    after.entered,
                    after.loaded,
                    after.closed,
                );
            }
        },
    }
}

/// The closed bags after a thread has put an object into its bag: either none was closed, or the
/// new one belongs to the routine that gets rid of it.
proof fn lemma_stash_closed_wf(stack: Seq<Frame>, after: Notes, closed: Seq<Seq<nat>>)
    requires
        closed_wf(stack, after.entered, after.loaded, closed),
    ensures
        after.closed == closed ==> closed_wf(stack, after.entered, after.loaded, after.closed),
        after.closed.len() > 0 && after.closed.drop_last() == closed && (forall|i: int|
            0 <= i < after.closed.last().len() ==> #[trigger] after.closed.last()[i]
                <= after.entered[stack.len() as int]) ==> closed_wf(
            stack.push(Frame::Unlinked(Unlinked::Advancing)).push(Frame::Advance(Advance::Start)),
            after.entered,
            after.loaded,
            after.closed,
        ),
{
    let unlinked = Frame::Unlinked(Unlinked::Advancing);
    lemma_closed_wf_push(stack, unlinked, after.entered, after.loaded, after.closed);
    lemma_closed_wf_push(
        stack.push(unlinked),
        Frame::Advance(Advance::Start),
        after.entered,
        after.loaded,
        after.closed,
    );
}

proof fn lemma_begin_bags_wf(h: History, t: int, step: Step)
    requires
        h.wf(),
        h.world.enables(step),
        match step {
            Step::Pin { thread }
            | Step::Unpin { thread }
            | Step::Unlink { thread, .. }
            | Step::Exit { thread } => thread == t,
            _ => false,
        },
    ensures
        h.taken(step).bags_wf(t),
{
    let next = h.taken(step);
    assert(h.bags_wf(t));
    assert(h.notes_wf(t));
    assert(h.pin_wf(t));
    assert(h.world.thread_wf(t));
    let l = h.world.locals[t];
    let notes = h.notes[t];
    let after = next.notes[t];
    let stack = next.world.locals[t].stack;
    let n = l.stack.len() as int;
    lemma_closed_wf_notes(
        l.stack,
        notes.entered,
        notes.loaded,
        after.entered,
        after.loaded,
        notes.closed,
    );
    if step is Unlink {
        lemma_stash_closed_wf(l.stack, after, notes.closed);
        if l.bag.len() + 1 >= l.capacity {
            assert(after.closed.drop_last() =~= notes.closed);
            assert(after.entered[n] == h.count);
        }
    } else if stack.len() == n + 1 {
        lemma_closed_wf_push(l.stack, stack[n], after.entered, after.loaded, after.closed);
        assert(stack =~= l.stack.push(stack[n]));
    } else if stack.len() == n + 2 {
        lemma_closed_wf_push(l.stack, stack[n], after.entered, after.loaded, after.closed);
        lemma_closed_wf_push(
            l.stack.push(stack[n]),
            stack[n + 1],
            after.entered,
            after.loaded,
            after.closed,
        );
        assert(stack =~= l.stack.push(stack[n]).push(stack[n + 1]));
    }
}

/// No entry is removed from the list twice.
pub proof fn lemma_removed_once(h: History, t: int, event: Event)
    requires
        h.wf(),
        h.world.enables(Step::Act { thread: t, event }),
    ensures
        h.world.locals[t].stack.last().spec_next(event) matches Move::Stash(_, entry)
            ==> !h.removed.contains_key(entry as int) && h.world.mem.deleted(entry as int),
{
    let w = h.world;
    assert(w.thread_wf(t));
    let l = w.locals[t];
    let n = l.stack.len() as int;
    assert(l.stack[n - 1] == l.stack.last());
    assert(w.mem.fits(l.stack[n - 1]));
    match l.stack.last() {
        Frame::Advance(Advance::Remove { pred, thread, .. }) if event is Swapped => {
            match pred {
                Slot::Head => {},
                Slot::Next(p) => {
                    assert(target(w.mem.threads[p as int].next) == thread);
                    if h.removed.contains_key(p as int) {
                        assert(w.mem.deleted(p as int));
                    }
                },
            }
        },
        _ => {},
    }
}

/// Removing an entry keeps what holds of removed entries.
proof fn lemma_remove_removals_wf(h: History, t: int, event: Event)
    requires
        h.wf(),
        h.world.enables(Step::Act { thread: t, event }),
        h.world.locals[t].stack.last().spec_next(event) is Stash,
    ensures
        h.taken(Step::Act { thread: t, event }).removals_wf(),
{
    let next = h.taken(Step::Act { thread: t, event });
    let w = h.world;
    let m = w.mem;
    let later = next.world.mem;
    lemma_removed_once(h, t, event);
    assert(w.thread_wf(t));
    let l = w.locals[t];
    let n = l.stack.len() as int;
    assert(l.stack[n - 1] == l.stack.last());
    assert(m.fits(l.stack[n - 1]));
    match l.stack.last() {
        Frame::Advance(Advance::Remove { pred, thread, succ, .. }) => {
            let c = thread as int;
            let p = m.position(pred);
            assert(h.skips(m.threads[c].next, c));
            assert(target(succ) == target(m.threads[c].next));
            assert(!h.removed.contains_key(target(succ)));
            assert(target(succ) < c) by {
                assert(m.hops(m.threads[c].next, c));
            }
            if pred is Next {
                assert(h.skips(m.threads[p].next, p));
                if h.removed.contains_key(p) {
                    assert(m.deleted(p));
                }
            }
            assert(next.skips(succ, p)) by {
                assert forall|k: int| target(succ) < k < p implies #[trigger] next.removed.contains_key(
                    k,
                ) by {
                    if k != c {
                        assert(h.removed.contains_key(k));
                    }
                }
            }
            assert forall|x: int| #[trigger] next.removed.contains_key(x) implies 0 <= x
                < later.threads.len() && later.deleted(x) && next.removed[x] <= next.count by {
                if x != c {
                    assert(h.removed.contains_key(x));
                }
            }
            assert forall|i: int| 0 <= i < later.threads.len() implies next.skips(
                (#[trigger] later.threads[i]).next,
                i,
            ) by {
                if i != p {
                    assert(h.skips(m.threads[i].next, i));
                }
            }
            assert(next.skips(later.head, later.threads.len() as int)) by {
                assert(h.skips(m.head, m.threads.len() as int));
            }
            // Only the slot that the entry was removed from linked to it, of those in the list.
            assert forall|i: int| 0 <= i < m.threads.len() && i != p && target(
                (#[trigger] m.threads[i]).next,
            ) == c implies h.removed.contains_key(i) by {
                assert(m.hops(m.threads[i].next, i));
                if i < p {
                    assert(h.removed.contains_key(i));
                } else {
                    assert(h.skips(m.threads[i].next, i));
                    assert(h.removed.contains_key(p));
                }
            }
            assert(pred is Next ==> target(m.head) != c) by {
                if pred is Next && target(m.head) == c {
                    assert(h.skips(m.head, m.threads.len() as int));
                    assert(h.removed.contains_key(p));
                }
            }
            assert forall|i: int|
                0 <= i < later.threads.len() && next.removed.contains_key(
                    target((#[trigger] later.threads[i]).next),
                ) implies next.removed.contains_key(i) && next.removed[target(
                later.threads[i].next,
            )] >= next.removed[i] by {
                if i != p {
                    assert(later.threads[i].next == m.threads[i].next);
                    if target(m.threads[i].next) == c {
                        assert(h.removed.contains_key(i));
                    } else {
                        assert(h.removed.contains_key(target(m.threads[i].next)));
                        assert(h.removed.contains_key(i));
                    }
                }
            }
        },
        _ => {},
    }
}

/// Every step keeps what holds of removed entries.
proof fn lemma_taken_removals_wf(h: History, step: Step)
    requires
        h.wf(),
        h.world.enables(step),
    ensures
        h.taken(step).removals_wf(),
{
    let next = h.taken(step);
    let m = h.world.mem;
    let later = next.world.mem;
    match step {
        Step::Act { thread, event } => {
            let l = h.world.locals[thread];
            assert(h.world.thread_wf(thread));
            assert(m.fits(l.stack[l.stack.len() - 1]));
            assert(l.stack[l.stack.len() - 1] == l.stack.last());
            if l.stack.last().spec_next(event) is Stash {
                lemma_remove_removals_wf(h, thread, event);
            } else {
                lemma_act_list_wf(h.world, thread, event);
                assert(next.removed == h.removed);
                assert(later.head == m.head);
                assert(later.threads.len() == m.threads.len());
                assert forall|i: int| 0 <= i < m.threads.len() implies (
                #[trigger] later.threads[i]).next.to == m.threads[i].next.to by {}
                assert forall|x: int| #[trigger] next.removed.contains_key(x) implies 0 <= x
                    < later.threads.len() && later.deleted(x) && next.removed[x] <= next.count by {
                    assert(m.deleted(x));
                    assert(m.threads[x].next.deleted);
                }
                assert forall|i: int| 0 <= i < later.threads.len() implies next.skips(
                    (#[trigger] later.threads[i]).next,
                    i,
                ) by {
                    assert(h.skips(m.threads[i].next, i));
                }
                assert(h.skips(m.head, m.threads.len() as int));
                assert forall|i: int|
                    0 <= i < later.threads.len() && next.removed.contains_key(
                        target((#[trigger] later.threads[i]).next),
                    ) implies next.removed.contains_key(i) && next.removed[target(
                    later.threads[i].next,
                )] >= next.removed[i] by {
                    assert(h.removed.contains_key(target(m.threads[i].next)));
                }
            }
        },
        Step::Join { .. } => {
            let n = m.threads.len() as int;
            assert forall|x: int| #[trigger] next.removed.contains_key(x) implies 0 <= x
                < later.threads.len() && later.deleted(x) && next.removed[x] <= next.count by {
                assert(m.deleted(x));
            }
            assert forall|i: int| 0 <= i < later.threads.len() implies next.skips(
                (#[trigger] later.threads[i]).next,
                i,
            ) by {
                if i < n {
                    assert(h.skips(m.threads[i].next, i));
                } else {
                    assert(h.skips(m.head, n));
                }
            }
            assert forall|i: int|
                0 <= i < later.threads.len() && next.removed.contains_key(
                    target((#[trigger] later.threads[i]).next),
                ) implies next.removed.contains_key(i) && next.removed[target(
                later.threads[i].next,
            )] >= next.removed[i] by {
                if i < n {
                    assert(h.removed.contains_key(target(m.threads[i].next)));
                }
            }
            if next.removed.contains_key(n) {
                assert(h.removed.contains_key(n));
            }
        },
        _ => {},
    }
}

/// Every step keeps what holds of the entries that routines hold on to.
proof fn lemma_taken_holds_wf(h: History, step: Step, u: int, k: int)
    requires
        h.wf(),
        h.world.enables(step),
        h.taken(step).world.has(u),
        0 <= k < h.taken(step).world.locals[u].stack.len(),
    ensures
        h.taken(step).holds_wf(u, k),
{
    let next = h.taken(step);
    assert(h.world.has(u));
    assert(h.notes_wf(u));
    assert(h.world.thread_wf(u));
    let m = h.world.mem;
    let l = h.world.locals[u];
    let n = l.stack.len() as int;
    let frame = next.world.locals[u].stack[k];
    if k < n {
        assert(h.holds_wf(u, k));
    }
    if n > 0 {
        assert(l.stack[n - 1] == l.stack.last());
        assert(m.fits(l.stack[n - 1]));
        assert(h.frame_wf(u, n - 1));
    }
    if n > 1 {
        lemma_chained_at(l.stack, n - 1);
    }
    if n > 2 {
        lemma_chained_at(l.stack, n - 2);
    }
    assert forall|c: int|
        holds(frame, c) && #[trigger] next.removed.contains_key(c) implies next.removed[c]
        >= next.notes[u].since by {
        match step {
            Step::Act { thread, event } => {
                let s = h.world.locals[thread].stack.last();
                if s.spec_next(event) is Stash && s.spec_next(event)->Stash_1 == c {
                    assert(next.removed[c] == h.count);
                } else {
                    assert(h.removed.contains_key(c));
                    if u == thread && k == n - 1 {
                        match l.stack.last() {
                            Frame::Advance(Advance::Visit { curr, .. }) => {
                                if curr.to is Some && !holds(l.stack.last(), c) {
                                    let i = curr.to->0 as int;
                                    assert(c == target(m.threads[i].next));
                                    assert(h.removed.contains_key(i));
                                    assert(holds(l.stack[k], i));
                                }
                            },
                            _ => {},
                        }
                    }
                }
            },
            _ => {
                assert(h.removed.contains_key(c));
            },
        }
    }
}

/// Every step keeps a history in order, as long as it does not take an epoch for another one.
pub proof fn lemma_step_history_wf(h: History, step: Step)
    requires
        h.wf(),
        h.world.enables(step),
        !h.mistakes(step),
    ensures
        h.taken(step).wf(),
{
    let next = h.taken(step);
    lemma_step_epochs_wf(h, step);
    lemma_taken_removals_wf(h, step);
    assert forall|u: int| next.world.has(u) implies #[trigger] next.bags_wf(u) by {
        if h.world.has(u) {
            assert(h.bags_wf(u));
            match step {
                Step::Act { thread, event } => {
                    if u == thread {
                        lemma_act_bags_wf(h, thread, event);
                    }
                },
                Step::Pin { thread }
                | Step::Unpin { thread }
                | Step::Unlink { thread, .. }
                | Step::Exit { thread } => {
                    if u == thread {
                        lemma_begin_bags_wf(h, thread, step);
                    }
                },
                _ => {},
            }
        }
    }
    assert forall|u: int, k: int|
        next.world.has(u) && 0 <= k < next.world.locals[u].stack.len() implies #[trigger] next.holds_wf(
        u,
        k,
    ) by {
        lemma_taken_holds_wf(h, step, u, k);
    }
}

} // verus!
