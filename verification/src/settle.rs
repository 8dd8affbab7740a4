//! What a thread does when no other thread interferes: it goes on until it waits for the garbage
//! queues, or has nothing more to do.
use crate::access::{Link, Slot};
use crate::harness::lemma_chained_at;
use crate::registry::{target, Memory, Thread};
use crate::routine::{Advance, Exit, Frame, Move, Pin, SetPinned, SetUnpinned, Unlinked, Unregister};
use crate::world::{lemma_step_wf, Step, World};
use vstd::prelude::*;

verus! {

impl World {
    /// The next step of a thread when nothing fails without a reason.
    pub open spec fn next_step(self, t: int) -> Step {
        Step::Act { thread: t, event: self.mem.outcome(self.locals[t].action()) }
    }
}

/// How far down the list all links together reach.
pub open spec fn reach(threads: Seq<Thread>) -> nat
    decreases threads.len(),
{
    if threads.len() == 0 {
        0
    } else {
        reach(threads.drop_last()) + (target(threads.last().next) + 1) as nat
    }
}

/// A bound on the steps that a frame takes by itself before it stops or returns, in a list of `n`
/// entries.
pub open spec fn cost(frame: Frame, n: nat) -> nat {
    match frame {
        Frame::SetPinned(SetPinned::Load) => 3,
        Frame::SetPinned(SetPinned::Store { .. }) => 2,
        Frame::SetPinned(SetPinned::Fence { .. }) => 1,
        Frame::SetUnpinned(SetUnpinned::Fence) => 2,
        Frame::SetUnpinned(SetUnpinned::Store) => 1,
        Frame::Unregister(Unregister::Load) => 3,
        Frame::Unregister(Unregister::Mark { .. }) => 1,
        Frame::Advance(Advance::Start) => 3 * n + 3,
        Frame::Advance(Advance::Head { .. }) => 3 * n + 2,
        Frame::Advance(Advance::Visit { curr, .. }) => (3 * target(curr) + 4) as nat,
        Frame::Advance(Advance::Remove { thread, .. }) => (3 * thread + 3) as nat,
        Frame::Advance(Advance::Check { thread, .. }) => (3 * thread + 3) as nat,
        Frame::Unlinked(Unlinked::Advancing) => 2,
        Frame::Unlinked(Unlinked::Advanced) => 2,
        Frame::Unlinked(_) => 1,
        Frame::Pin(Pin::Entering) => 3 * n + 6,
        Frame::Pin(Pin::Entered { .. }) => 3 * n + 6,
        Frame::Pin(Pin::Advancing) => 2,
        Frame::Pin(Pin::Advanced) => 2,
        Frame::Pin(Pin::Collecting { .. }) => 1,
        Frame::Pin(Pin::Clearing { .. }) => 8,
        Frame::Pin(Pin::Unpinning) => 5,
        Frame::Pin(Pin::Unpinned) => 5,
        Frame::Pin(Pin::Repinning) => 1,
        Frame::Pin(Pin::Repinned) => 1,
        Frame::Exit(Exit::Entering) => 3 * n + 6,
        Frame::Exit(Exit::Entered) => 3 * n + 6,
        Frame::Exit(Exit::Advancing) => 2,
        Frame::Exit(Exit::Advanced) => 2,
        Frame::Exit(Exit::Collecting { .. }) => 1,
        Frame::Exit(Exit::Collected) => 2,
        Frame::Exit(Exit::Pushing { .. }) => 1,
        Frame::Exit(Exit::Raising) => 8,
        Frame::Exit(Exit::Leaving) => 5,
        Frame::Exit(Exit::Left) => 5,
        Frame::Exit(Exit::Unregistering) => 1,
        Frame::Exit(Exit::Unregistered) => 1,
    }
}

/// The bounds of all frames of a stack together.
pub open spec fn costs(stack: Seq<Frame>, n: nat) -> nat
    decreases stack.len(),
{
    if stack.len() == 0 {
        0
    } else {
        costs(stack.drop_last(), n) + cost(stack.last(), n)
    }
}

/// How far down the list all links together reach, the head among them.
pub open spec fn room(m: Memory) -> nat {
    reach(m.threads) + (target(m.head) + 1) as nat
}

/// The bounds of all frames of a thread together, and one more if it would try in vain to mark its
/// entry.
pub open spec fn effort(w: World, t: int) -> nat {
    let stale = match w.locals[t].stack.last() {
        Frame::Unregister(Unregister::Mark { next }) => w.locals[t].stack.len() > 0 && next
            != w.mem.threads[t].next,
        _ => false,
    };
    costs(w.locals[t].stack, w.mem.threads.len()) + (if stale {
        1nat
    } else {
        0nat
    })
}

/// A bound on the steps that a thread takes by itself before it stops.
///
/// An entry is removed from the list only so often as links can reach less far, and each time that
/// may start another attempt to advance.
pub open spec fn fuel(w: World, t: int) -> nat {
    room(w.mem) * (3 * w.mem.threads.len() + 6) + effort(w, t)
}

proof fn lemma_costs_push(stack: Seq<Frame>, frame: Frame, n: nat)
    ensures
        costs(stack.push(frame), n) == costs(stack, n) + cost(frame, n),
{
    assert(stack.push(frame).drop_last() =~= stack);
}

proof fn lemma_reach_update(threads: Seq<Thread>, i: int, thread: Thread)
    requires
        0 <= i < threads.len(),
        forall|k: int| 0 <= k < threads.len() ==> target((#[trigger] threads[k]).next) >= -1,
    ensures
        reach(threads.update(i, thread)) == reach(threads) - target(threads[i].next) + target(
            thread.next,
        ),
    decreases threads.len(),
{
    let updated = threads.update(i, thread);
    if i == threads.len() - 1 {
        assert(updated.drop_last() =~= threads.drop_last());
    } else {
        assert(updated.drop_last() =~= threads.drop_last().update(i, thread));
        lemma_reach_update(threads.drop_last(), i, thread);
    }
}

/// The links reach less far when an entry is removed, and as far as before otherwise.
proof fn lemma_room(w: World, t: int)
    requires
        w.wf(),
        w.has(t),
        !w.locals[t].stopped(),
    ensures
        ({
            let later = w.taken(w.next_step(t)).mem;
            let event = w.mem.outcome(w.locals[t].action());
            &&& later.threads.len() == w.mem.threads.len()
            &&& if w.locals[t].stack.last().spec_next(event) is Stash {
                room(later) < room(w.mem)
            } else {
                room(later) == room(w.mem)
            }
        }),
{
    let m = w.mem;
    let event = m.outcome(w.locals[t].action());
    assert(w.thread_wf(t));
    let l = w.locals[t];
    let top = l.stack.last();
    assert(top == l.stack[l.stack.len() - 1]);
    assert(m.fits(top));
    match top {
        Frame::Advance(Advance::Remove { pred, thread, succ, .. }) if event is Swapped => {
            assert(m.hops(m.threads[thread as int].next, thread as int));
            match pred {
                Slot::Head => {},
                Slot::Next(p) => {
                    lemma_reach_update(
                        m.threads,
                        p as int,
                        Thread { next: succ, ..m.threads[p as int] },
                    );
                },
            }
        },
        Frame::Unregister(Unregister::Mark { next: link }) if event is Swapped => {
            lemma_reach_update(
                m.threads,
                t,
                Thread { next: Link { to: link.to, deleted: true }, ..m.threads[t] },
            );
        },
        Frame::SetPinned(SetPinned::Store { state }) => {
            lemma_reach_update(
                m.threads,
                t,
                Thread { state: crate::state::epoch(state), ..m.threads[t] },
            );
        },
        Frame::SetUnpinned(SetUnpinned::Store) => {
            lemma_reach_update(
                m.threads,
                t,
                Thread { state: crate::state::UNPINNED, ..m.threads[t] },
            );
        },
        _ => {},
    }
}

/// Every step takes a thread closer to where it stops, except that the removal of an entry may
/// start another attempt to advance.
proof fn lemma_effort(w: World, t: int)
    requires
        w.wf(),
        w.has(t),
        !w.locals[t].stopped(),
    ensures
        ({
            let next = w.taken(w.next_step(t));
            let event = w.mem.outcome(w.locals[t].action());
            if w.locals[t].stack.last().spec_next(event) is Stash {
                effort(next, t) < effort(w, t) + 3 * w.mem.threads.len() + 6
            } else {
                effort(next, t) < effort(w, t)
            }
        }),
{
    let m = w.mem;
    let next = w.taken(w.next_step(t));
    let event = m.outcome(w.locals[t].action());
    assert(w.thread_wf(t));
    lemma_room(w, t);
    let l = w.locals[t];
    let top = l.stack.last();
    let below = l.stack.drop_last();
    let n = m.threads.len();
    assert(top == l.stack[l.stack.len() - 1]);
    assert(m.fits(top));
    assert(below.push(top) =~= l.stack);
    lemma_costs_push(below, top, n);
    assert(m.hops(m.head, n as int));
    match top {
        Frame::Advance(Advance::Visit { curr, .. }) => {
            if curr.to is Some {
                let c = curr.to->0 as int;
                assert(m.hops(m.threads[c].next, c));
            }
        },
        Frame::Advance(Advance::Remove { thread, .. }) => {
            assert(m.hops(m.threads[thread as int].next, thread as int));
        },
        _ => {},
    }
    match top.spec_next(event) {
        Move::Goto(frame) => {
            lemma_costs_push(below, frame, n);
        },
        Move::Call(frame, callee) => {
            lemma_costs_push(below, frame, n);
            lemma_costs_push(below.push(frame), callee, n);
        },
        Move::Stash(frame, thread) => {
            let unlinked = Frame::Unlinked(Unlinked::Advancing);
            lemma_costs_push(below, frame, n);
            lemma_costs_push(below.push(frame), unlinked, n);
            lemma_costs_push(
                below.push(frame).push(unlinked),
                Frame::Advance(Advance::Start),
                n,
            );
        },
        Move::Return(urgency) => {
            if below.len() > 0 {
                lemma_chained_at(l.stack, l.stack.len() - 1);
                let rest = below.drop_last();
                assert(rest.push(below.last()) =~= below);
                lemma_costs_push(rest, below.last(), n);
                lemma_costs_push(rest, below.last().spec_returned(urgency), n);
            }
        },
    }
}

/// By itself, a thread takes only so many steps before it stops.
pub proof fn lemma_fuel_decreases(w: World, t: int)
    requires
        w.wf(),
        w.has(t),
        !w.locals[t].stopped(),
    ensures
        w.enables(w.next_step(t)),
        w.taken(w.next_step(t)).wf(),
        fuel(w.taken(w.next_step(t)), t) < fuel(w, t),
{
    lemma_step_wf(w, w.next_step(t));
    lemma_room(w, t);
    lemma_effort(w, t);
    let before = room(w.mem);
    let after = room(w.taken(w.next_step(t)).mem);
    let k = 3 * w.mem.threads.len() + 6;
    if after < before {
        assert(after * k + k <= before * k) by (nonlinear_arith)
            requires
                after < before,
        ;
    }
}

/// The world once a thread has gone on by itself until it stops.
pub open spec fn settled(w: World, t: int) -> World
    decreases fuel(w, t),
    when w.wf() && w.has(t)
{
    if w.locals[t].stopped() {
        w
    } else {
        proof {
            lemma_fuel_decreases(w, t);
        }
        settled(w.taken(w.next_step(t)), t)
    }
}

/// A thread that goes on by itself leaves the data of the other threads alone.
pub proof fn lemma_settled_locals(w: World, t: int)
    requires
        w.wf(),
        w.has(t),
    ensures
        settled(w, t).wf(),
        settled(w, t).locals == w.locals.update(t, settled(w, t).locals[t]),
        settled(w, t).locals[t].stopped(),
    decreases fuel(w, t),
{
    if w.locals[t].stopped() {
        assert(w.locals =~= w.locals.update(t, w.locals[t]));
    } else {
        lemma_fuel_decreases(w, t);
        let next = w.taken(w.next_step(t));
        lemma_settled_locals(next, t);
        assert(settled(w, t).locals =~= w.locals.update(t, settled(w, t).locals[t]));
    }
}

/// Whether one world comes from another by a step.
pub open spec fn leads_to(w: World, next: World) -> bool {
    exists|step: Step| w.enables(step) && next == #[trigger] w.taken(step)
}

/// Whether the world at `i` leads to the one after it.
pub open spec fn walks(ws: Seq<World>, i: int) -> bool {
    leads_to(ws[i], ws[i + 1])
}

/// A thread that goes on by itself does so by steps, which other threads could interleave with
/// theirs.
pub proof fn law_settled_by_steps(w: World, t: int) -> (ws: Seq<World>)
    requires
        w.wf(),
        w.has(t),
    ensures
        ws.len() > 0,
        ws[0] == w,
        ws.last() == settled(w, t),
        forall|i: int| 0 <= i < ws.len() - 1 ==> #[trigger] walks(ws, i),
    decreases fuel(w, t),
{
    if w.locals[t].stopped() {
        seq![w]
    } else {
        lemma_fuel_decreases(w, t);
        let next = w.taken(w.next_step(t));
        let rest = law_settled_by_steps(next, t);
        let ws = seq![w] + rest;
        assert(leads_to(w, next));
        assert forall|i: int| 0 <= i < ws.len() - 1 implies #[trigger] walks(ws, i) by {
            if i > 0 {
                assert(walks(rest, i - 1));
                assert(ws[i] == rest[i - 1]);
                assert(ws[i + 1] == rest[i]);
            }
        }
        ws
    }
}

} // verus!
