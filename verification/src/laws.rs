//! What the library promises, whatever the threads do and in whatever order they do it.
use crate::access::{Action, Event, Link, Order, Slot};
use crate::garbage::{Kind, Object};
use crate::harness::{lemma_chained_at, Local};
use crate::history::{lemma_advance_sees_all, History};
use crate::reclaim::{holds, lemma_removed_once, lemma_step_history_wf};
use crate::registry::{target, Memory};
use crate::routine::{Advance, Exit, Frame, Move, Pin, Register, Unlinked};
use crate::scan::{garbage, lemma_obstacle_below};
use crate::state::{
    epoch, epochs, law_next_word, lemma_next_epoch_parts, lemma_nth_epoch, lemma_nth_epoch_injective, next_epoch,
    nth_epoch, urgency, Urgency,
};
use crate::world::{lemma_step_wf, Step, World};
use vstd::prelude::*;

verus! {

/// Whether one history can be followed by another: by any step of any thread that does not take an
/// epoch for another one with the same word.
pub open spec fn follows(h: History, next: History) -> bool {
    exists|step: Step|
        h.world.enables(step) && !h.mistakes(step) && next == #[trigger] h.taken(step)
}

/// The step by which one history is followed by another.
spec fn step_between(h: History, next: History) -> Step {
    choose|step: Step|
        h.world.enables(step) && !h.mistakes(step) && next == #[trigger] h.taken(step)
}

/// Whether the history at `i` is followed by the one after it.
pub open spec fn proceeds(hs: Seq<History>, i: int) -> bool {
    follows(hs[i], hs[i + 1])
}

/// Whether a sequence of histories is an execution: it begins before any thread was registered, and
/// goes on by steps of any threads in any order.
pub open spec fn execution(hs: Seq<History>) -> bool {
    &&& hs.len() > 0
    &&& hs[0] == History::initial()
    &&& forall|i: int| 0 <= i < hs.len() - 1 ==> #[trigger] proceeds(hs, i)
}

/// Everything that holds of histories holds throughout an execution.
pub proof fn law_in_order(hs: Seq<History>, i: int)
    requires
        execution(hs),
        0 <= i < hs.len(),
    ensures
        hs[i].wf(),
    decreases i,
{
    if i == 0 {
        lemma_nth_epoch(0);
    } else {
        law_in_order(hs, i - 1);
        assert(proceeds(hs, i - 1));
        let step = step_between(hs[i - 1], hs[i]);
        lemma_step_history_wf(hs[i - 1], step);
    }
}

/// The global epoch is the one that results from all advances so far. It is always even.
pub proof fn law_epoch(hs: Seq<History>, i: int)
    requires
        execution(hs),
        0 <= i < hs.len(),
    ensures
        epoch(hs[i].world.mem.state) == nth_epoch(hs[i].count),
        epoch(hs[i].world.mem.state) % 2 == 0,
{
    law_in_order(hs, i);
}

/// The global epoch advances only if all currently pinned threads have been pinned in the current
/// epoch.
pub proof fn law_advance(hs: Seq<History>, i: int, t: int)
    requires
        execution(hs),
        0 <= i < hs.len() - 1,
        hs[i].world.has(t),
        hs[i].world.is_pinned(t),
        epoch(hs[i + 1].world.mem.state) != epoch(hs[i].world.mem.state),
    ensures
        hs[i + 1].count == hs[i].count + 1,
        hs[i].notes[t].since == hs[i].count,
{
    law_in_order(hs, i);
    assert(proceeds(hs, i));
    let step = step_between(hs[i], hs[i + 1]);
    assert(hs[i].taken(step).world == hs[i].world.taken(step));
    crate::history::lemma_epoch_changes(hs[i].world, step);
    lemma_advance_sees_all(hs[i], step);
}

/// While a thread stays pinned, its notes say since when.
proof fn lemma_since_stays(h: History, step: Step, t: int)
    requires
        h.wf(),
        h.world.enables(step),
        h.world.has(t),
        h.world.is_pinned(t),
    ensures
        h.taken(step).notes[t].since == h.notes[t].since,
{
    match step {
        Step::Act { thread, event } => {
            assert(h.world.thread_wf(thread));
            let l = h.world.locals[thread];
            let n = l.stack.len() as int;
            assert(l.stack[n - 1] == l.stack.last());
            if n > 1 {
                lemma_chained_at(l.stack, n - 1);
            }
            if n > 2 {
                lemma_chained_at(l.stack, n - 2);
            }
        },
        _ => {},
    }
}

/// As long as a thread stays pinned, the global epoch advances at most once.
pub proof fn law_pinned_through(hs: Seq<History>, i: int, j: int, t: int)
    requires
        execution(hs),
        0 <= i <= j < hs.len(),
        hs[i].world.has(t),
        forall|k: int| i <= k <= j ==> (#[trigger] hs[k]).world.is_pinned(t),
    ensures
        hs[j].count <= hs[i].count + 1,
{
    law_in_order(hs, j);
    law_in_order(hs, i);
    lemma_since_through(hs, i, j, t);
    assert(hs[i].notes_wf(t));
    assert(hs[j].pin_wf(t));
}

proof fn lemma_since_through(hs: Seq<History>, i: int, j: int, t: int)
    requires
        execution(hs),
        0 <= i <= j < hs.len(),
        hs[i].world.has(t),
        forall|k: int| i <= k <= j ==> (#[trigger] hs[k]).world.is_pinned(t),
    ensures
        hs[j].world.has(t),
        hs[j].notes[t].since == hs[i].notes[t].since,
    decreases j,
{
    if i < j {
        lemma_since_through(hs, i, j - 1, t);
        law_in_order(hs, j - 1);
        assert(proceeds(hs, j - 1));
        let step = step_between(hs[j - 1], hs[j]);
        lemma_since_stays(hs[j - 1], step, t);
    }
}

/// If an object became unreachable in some epoch, no thread holds a reference to it after two epoch
/// advancements.
///
/// A thread holds references only while it is pinned, and cannot get one to an object that is
/// unreachable already. After two advancements every thread has been unpinned at some moment.
pub proof fn law_two_advances(hs: Seq<History>, i: int, j: int, t: int)
    requires
        execution(hs),
        0 <= i <= j < hs.len(),
        hs[i].world.has(t),
        hs[j].count >= hs[i].count + 2,
    ensures
        exists|k: int| i <= k <= j && !(#[trigger] hs[k]).world.is_pinned(t),
{
    if forall|k: int| i <= k <= j ==> (#[trigger] hs[k]).world.is_pinned(t) {
        law_pinned_through(hs, i, j, t);
    }
}

/// A bag that is pushed into the garbage queues is marked with an epoch that is at least as recent
/// as the moment when each of its objects became unreachable.
pub proof fn law_mark(hs: Seq<History>, i: int, t: int, o: int)
    requires
        execution(hs),
        0 <= i < hs.len(),
        hs[i].world.has(t),
        !hs[i].world.locals[t].idle(),
        hs[i].world.locals[t].action() is Push,
        0 <= o < hs[i].world.locals[t].closed.last().len(),
    ensures
        ({
            let loaded = hs[i].notes[t].loaded.last();
            &&& hs[i].world.locals[t].action() == Action::Push { epoch: nth_epoch(loaded) }
            &&& hs[i].notes[t].closed.last()[o] <= loaded <= hs[i].count
        }),
{
    law_in_order(hs, i);
    let h = hs[i];
    let l = h.world.locals[t];
    let k = l.stack.len() - 1;
    assert(h.world.thread_wf(t));
    assert(h.frame_wf(t, k));
    assert(h.notes_wf(t));
    assert(h.bags_wf(t));
    assert(l.stack[k] == l.stack.last());
    assert(h.notes[t].closed[h.notes[t].closed.len() - 1].len() == l.closed.last().len());
}

/// Two epoch advancements after the epoch that a bag is marked with, it is safe to free its
/// objects: at least two advancements have happened since each of them became unreachable, and every
/// thread that is pinned then got pinned after that.
pub proof fn law_safe_to_free(hs: Seq<History>, i: int, j: int, t: int, o: int, u: int)
    requires
        execution(hs),
        0 <= i <= j < hs.len(),
        hs[i].world.has(t),
        !hs[i].world.locals[t].idle(),
        hs[i].world.locals[t].action() is Push,
        0 <= o < hs[i].world.locals[t].closed.last().len(),
        hs[j].count >= hs[i].notes[t].loaded.last() + 2,
        hs[j].world.has(u),
        hs[j].world.is_pinned(u),
    ensures
        hs[j].count >= hs[i].notes[t].closed.last()[o] + 2,
        hs[j].notes[u].since > hs[i].notes[t].closed.last()[o],
{
    law_mark(hs, i, t, o);
    law_in_order(hs, j);
    assert(hs[j].pin_wf(u));
}

/// Whether a thread holds a guard that pinning it has returned: it holds one, and is not just about
/// to take it.
pub open spec fn guarded(w: World, t: int) -> bool {
    let l = w.locals[t];
    l.pin_count > 0 && (l.idle() || l.stack[0] !is Pin)
}

/// A thread is pinned as long as it holds a guard, whatever routine it runs.
pub proof fn law_guarded(w: World, t: int)
    requires
        w.wf(),
        w.has(t),
        guarded(w, t),
    ensures
        w.is_pinned(t),
{
    assert(w.thread_wf(t));
}

/// Whether a thread has an object in one of its bags.
pub open spec fn stashes(l: Local, object: Object) -> bool {
    l.bag.contains(object) || exists|b: int|
        0 <= b < l.closed.len() && (#[trigger] l.closed[b]).contains(object)
}

/// Whether an object in the bags of a thread became unreachable at a count of `c` or later.
spec fn stashed_since(h: History, t: int, object: Object, c: nat) -> bool {
    let l = h.world.locals[t];
    let notes = h.notes[t];
    h.world.has(t) ==> {
        &&& forall|k: int| 0 <= k < l.bag.len() && #[trigger] l.bag[k] == object ==> notes.bag[k] >= c
        &&& forall|b: int, k: int|
            0 <= b < l.closed.len() && 0 <= k < l.closed[b].len() && #[trigger] l.closed[b][k]
                == object ==> notes.closed[b][k] >= c
    }
}

proof fn lemma_stashed_since_stays(h: History, step: Step, t: int, object: Object, c: nat)
    requires
        h.wf(),
        h.world.enables(step),
        stashed_since(h, t, object, c),
        c <= h.count,
    ensures
        stashed_since(h.taken(step), t, object, c),
{
    if h.world.has(t) {
        assert(h.notes_wf(t));
        assert(h.world.thread_wf(t));
        let l = h.world.locals[t];
        let notes = h.notes[t];
        assert(forall|b: int|
            0 <= b < notes.closed.len() ==> (#[trigger] notes.closed[b]).len()
                == l.closed[b].len());
    }
}

proof fn lemma_stashed_since(hs: Seq<History>, i: int, j: int, t: int, object: Object)
    requires
        execution(hs),
        0 <= i <= j < hs.len(),
        hs[i].world.has(t) ==> !stashes(hs[i].world.locals[t], object),
    ensures
        stashed_since(hs[j], t, object, hs[i].count),
    decreases j,
{
    if i < j {
        lemma_stashed_since(hs, i, j - 1, t, object);
        law_in_order(hs, j - 1);
        lemma_count_grows(hs, i, j - 1);
        assert(proceeds(hs, j - 1));
        let step = step_between(hs[j - 1], hs[j]);
        lemma_stashed_since_stays(hs[j - 1], step, t, object, hs[i].count);
    } else {
        let l = hs[i].world.locals[t];
        if hs[i].world.has(t) {
            assert(!l.bag.contains(object));
            assert(forall|b: int|
                0 <= b < l.closed.len() ==> !(#[trigger] l.closed[b]).contains(object));
        }
    }
}

proof fn lemma_count_grows(hs: Seq<History>, i: int, j: int)
    requires
        execution(hs),
        0 <= i <= j < hs.len(),
    ensures
        hs[i].count <= hs[j].count,
    decreases j,
{
    if i < j {
        lemma_count_grows(hs, i, j - 1);
        assert(proceeds(hs, j - 1));
        let step = step_between(hs[j - 1], hs[j]);
        assert(hs[j] == hs[j - 1].taken(step));
    }
}

/// Whatever a thread has loaded is not freed while it stays pinned.
///
/// An object that thread `u` has loaded at `i` is reachable then, so no thread has announced it yet.
/// Say that thread `t` does so later, and pushes it at `p`. As long as `u` stays pinned, fewer than
/// two advancements follow the epoch that the bag is marked with: the global epoch is that one or
/// the next.
pub proof fn law_pinned_protects(
    hs: Seq<History>,
    i: int,
    p: int,
    j: int,
    t: int,
    u: int,
    object: Object,
)
    requires
        execution(hs),
        0 <= i <= p <= j < hs.len(),
        hs[i].world.has(u),
        forall|k: int| i <= k <= j ==> (#[trigger] hs[k]).world.is_pinned(u),
        hs[i].world.has(t) ==> !stashes(hs[i].world.locals[t], object),
        hs[p].world.has(t),
        !hs[p].world.locals[t].idle(),
        hs[p].world.locals[t].action() is Push,
        hs[p].world.locals[t].closed.last().contains(object),
    ensures
        hs[j].count < hs[p].notes[t].loaded.last() + 2,
        ({
            let mark = hs[p].world.locals[t].action()->Push_epoch;
            let now = epoch(hs[j].world.mem.state);
            now == mark || now == next_epoch(mark)
        }),
{
    let l = hs[p].world.locals[t];
    let k = choose|k: int| 0 <= k < l.closed.last().len() && l.closed.last()[k] == object;
    let b = l.closed.len() - 1;
    law_in_order(hs, p);
    assert(hs[p].world.thread_wf(t));
    assert(l.closed.len() > 0) by {
        let top = l.stack.last();
        assert(l.stack.drop_last().push(top) =~= l.stack);
        crate::harness::lemma_push(l.stack.drop_last(), top);
    }
    assert(hs[p].notes_wf(t));
    lemma_stashed_since(hs, i, p, t, object);
    assert(l.closed[b][k] == object);
    assert(hs[p].notes[t].closed.last()[k] >= hs[i].count);
    law_mark(hs, p, t, k);
    law_pinned_through(hs, i, j, u);
    lemma_count_grows(hs, p, j);
    law_epoch(hs, j);
    lemma_nth_epoch(hs[p].notes[t].loaded.last());
}

/// A guard protects whatever was loaded under it: as long as thread `u` holds a guard, an object
/// that it has loaded is not freed, as [`law_pinned_protects`] says.
pub proof fn law_guard_protects(
    hs: Seq<History>,
    i: int,
    p: int,
    j: int,
    t: int,
    u: int,
    object: Object,
)
    requires
        execution(hs),
        0 <= i <= p <= j < hs.len(),
        hs[i].world.has(u),
        forall|k: int| i <= k <= j ==> guarded((#[trigger] hs[k]).world, u),
        hs[i].world.has(t) ==> !stashes(hs[i].world.locals[t], object),
        hs[p].world.has(t),
        !hs[p].world.locals[t].idle(),
        hs[p].world.locals[t].action() is Push,
        hs[p].world.locals[t].closed.last().contains(object),
    ensures
        hs[j].count < hs[p].notes[t].loaded.last() + 2,
        ({
            let mark = hs[p].world.locals[t].action()->Push_epoch;
            let now = epoch(hs[j].world.mem.state);
            now == mark || now == next_epoch(mark)
        }),
{
    assert forall|k: int| i <= k <= j implies (#[trigger] hs[k]).world.is_pinned(u) by {
        law_in_order(hs, k);
        lemma_registered_stays(hs, i, k, u);
        law_guarded(hs[k].world, u);
    }
    law_pinned_protects(hs, i, p, j, t, u, object);
}

proof fn lemma_registered_stays(hs: Seq<History>, i: int, j: int, u: int)
    requires
        execution(hs),
        0 <= i <= j < hs.len(),
        hs[i].world.has(u),
    ensures
        hs[j].world.has(u),
    decreases j,
{
    if i < j {
        lemma_registered_stays(hs, i, j - 1, u);
        assert(proceeds(hs, j - 1));
        let step = step_between(hs[j - 1], hs[j]);
        assert(hs[j] == hs[j - 1].taken(step));
    }
}

/// Whether a thread has come to the end of the list in an attempt to advance the global epoch that
/// has started from the state word `state`.
pub open spec fn attempts(w: World, t: int, state: usize) -> bool {
    &&& w.has(t)
    &&& !w.locals[t].idle()
    &&& w.locals[t].stack.last() matches Frame::Advance(Advance::Visit { state: s, curr, .. })
        && curr.to is None && s == state
}

/// The step by which an attempt to advance the global epoch ends.
pub open spec fn last_try(t: int) -> Step {
    Step::Act { thread: t, event: Event::Done }
}

/// An attempt to advance the global epoch succeeds if and only if the global state is still the word
/// that the attempt has started from. Otherwise it changes nothing.
pub proof fn law_attempt(w: World, t: int, state: usize)
    requires
        w.wf(),
        attempts(w, t, state),
    ensures
        w.enables(last_try(t)),
        forall|event: Event| #[trigger]
            w.enables(Step::Act { thread: t, event }) ==> event == Event::Done,
        w.taken(last_try(t)).mem == (Memory {
            state: if w.mem.state == state {
                next_epoch(state)
            } else {
                w.mem.state
            },
            ..w.mem
        }),
        epoch(w.taken(last_try(t)).mem.state) != epoch(w.mem.state) <==> w.mem.state == state,
        w.mem.state == state ==> w.taken(last_try(t)).mem.state == (state + 2) % (usize::MAX + 1),
{
    lemma_next_epoch_parts(w.mem.state);
    law_next_word(state);
}

/// Attempts that have started from one state word, whenever they did and in whichever threads,
/// advance the global epoch once in total, until the epoch counter has made a whole turn.
pub proof fn law_advance_once(hs: Seq<History>, i: int, j: int, t: int, u: int, state: usize)
    requires
        execution(hs),
        0 <= i <= j < hs.len() - 1,
        attempts(hs[i].world, t, state),
        attempts(hs[j].world, u, state),
        hs[i + 1] == hs[i].taken(last_try(t)),
        hs[j + 1] == hs[j].taken(last_try(u)),
        epoch(hs[i + 1].world.mem.state) != epoch(hs[i].world.mem.state),
        epoch(hs[j + 1].world.mem.state) != epoch(hs[j].world.mem.state),
        hs[j].count < hs[i].count + epochs(),
    ensures
        i == j,
        t == u,
{
    law_in_order(hs, i);
    law_in_order(hs, j);
    law_attempt(hs[i].world, t, state);
    law_attempt(hs[j].world, u, state);
    if i < j {
        lemma_count_grows(hs, i + 1, j);
        lemma_nth_epoch_injective(hs[i].count, hs[j].count);
    }
    assert(hs[i].world.thread_wf(t));
    assert(hs[i].world.thread_wf(u));
    assert(hs[i + 1].world.locals[t].stack.len() < hs[i].world.locals[t].stack.len());
}

/// The entry of a thread that has exited is removed from the list once, and so it becomes garbage
/// once.
pub proof fn law_removed_once(hs: Seq<History>, i: int, t: int, event: Event)
    requires
        execution(hs),
        0 <= i < hs.len(),
        hs[i].world.enables(Step::Act { thread: t, event }),
    ensures
        hs[i].world.locals[t].stack.last().spec_next(event) matches Move::Stash(_, entry)
            ==> !hs[i].removed.contains_key(entry as int) && hs[i].world.mem.deleted(entry as int)
            && hs[i].taken(Step::Act { thread: t, event }).removed.contains_key(entry as int),
{
    law_in_order(hs, i);
    lemma_removed_once(hs[i], t, event);
}

/// The list holds exactly the entries that were not removed.
pub proof fn law_listed_unless_removed(hs: Seq<History>, i: int, x: int)
    requires
        execution(hs),
        0 <= i < hs.len(),
        hs[i].world.has(x),
    ensures
        listed(hs[i].world.mem, hs[i].world.mem.head, x) <==> !hs[i].removed.contains_key(x),
{
    law_in_order(hs, i);
    let m = hs[i].world.mem;
    lemma_listed_unless_removed(hs[i], m.head, m.threads.len() as int, x);
}

proof fn lemma_listed_unless_removed(h: History, link: Link, n: int, x: int)
    requires
        h.wf(),
        0 <= n <= h.world.mem.threads.len(),
        0 <= x < n,
        target(link) < n,
        h.skips(link, n),
        !h.removed.contains_key(target(link)),
    ensures
        listed(h.world.mem, link, x) <==> !h.removed.contains_key(x),
    decreases target(link) + 1,
{
    let m = h.world.mem;
    let c = target(link);
    if x > c {
        assert(h.removed.contains_key(x));
        if listed(m, link, x) {
            lemma_listed_at_most(m, link, x);
        }
    } else if x < c {
        let next = m.threads[c].next;
        assert(m.hops(next, c));
        assert(h.skips(next, c));
        if h.removed.contains_key(target(next)) {
            assert(h.removed.contains_key(c));
        }
        lemma_listed_unless_removed(h, next, c, x);
    }
}

proof fn lemma_listed_at_most(m: Memory, link: Link, x: int)
    requires
        listed(m, link, x),
    ensures
        x <= target(link),
    decreases target(link) + 1,
{
    let c = target(link);
    if x != c {
        lemma_listed_at_most(m, m.threads[c].next, x);
    }
}

/// What an attempt to advance stashes is the entry that it has just removed from the list, and no
/// other: when it replaces a link that led to an entry, that entry is marked as deleted, it was in
/// the list and is not in the list any more, and one object that is one entry, at the address of this
/// one, is put at the end of the bag.
pub proof fn law_removed_entry(
    hs: Seq<History>,
    i: int,
    t: int,
    slot: Slot,
    from: Link,
    into: Link,
    order: Order,
)
    requires
        execution(hs),
        0 <= i < hs.len(),
        hs[i].world.has(t),
        !hs[i].world.locals[t].idle(),
        hs[i].world.locals[t].action() == (Action::SwapLink { slot, from, into, order, weak: false }),
        hs[i].world.mem.tells(hs[i].world.locals[t].action(), Event::Swapped),
    ensures
        ({
            let w = hs[i].world;
            let l = w.locals[t];
            let now = w.taken(Step::Act { thread: t, event: Event::Swapped });
            let l2 = now.locals[t];
            let c = from.to->0;
            let bag = if l.bag.len() + 1 < l.capacity {
                l2.bag
            } else {
                l2.closed.last()
            };
            &&& from.to is Some
            &&& w.has(c as int)
            &&& w.mem.threads[c as int].next.deleted
            &&& into.to == w.mem.threads[c as int].next.to
            &&& !into.deleted
            &&& listed(w.mem, w.mem.head, c as int)
            &&& !listed(now.mem, now.mem.head, c as int)
            &&& forall|x: int|
                w.has(x) && x != c ==> (#[trigger] listed(now.mem, now.mem.head, x) <==> listed(
                    w.mem,
                    w.mem.head,
                    x,
                ))
            &&& bag.len() == l.bag.len() + 1
            &&& bag.drop_last() == l.bag
            &&& bag.last().addr == c
            &&& bag.last().count == 1
            &&& bag.last().kind == Kind::Thread
            &&& l.bag.len() + 1 < l.capacity ==> l2.closed == l.closed
            &&& l.bag.len() + 1 >= l.capacity ==> l2.bag.len() == 0 && l2.closed.drop_last()
                == l.closed
        }),
{
    law_in_order(hs, i);
    let h = hs[i];
    let w = h.world;
    let l = w.locals[t];
    let n = l.stack.len() as int;
    let step = Step::Act { thread: t, event: Event::Swapped };
    assert(w.thread_wf(t));
    assert(l.stack.last() == l.stack[n - 1]);
    assert(w.mem.fits(l.stack[n - 1]));
    assert(!h.mistakes(step));
    lemma_removed_once(h, t, Event::Swapped);
    lemma_step_history_wf(h, step);
    let next = h.taken(step);
    let now = w.taken(step);
    let c = from.to->0 as int;
    assert(w.mem.hops(w.mem.head, w.mem.threads.len() as int));
    assert(now.mem.hops(now.mem.head, now.mem.threads.len() as int));
    let len = w.mem.threads.len() as int;
    lemma_listed_unless_removed(h, w.mem.head, len, c);
    lemma_listed_unless_removed(next, now.mem.head, len, c);
    assert forall|x: int| w.has(x) && x != c implies (#[trigger] listed(now.mem, now.mem.head, x)
        <==> listed(w.mem, w.mem.head, x)) by {
        lemma_listed_unless_removed(h, w.mem.head, len, x);
        lemma_listed_unless_removed(next, now.mem.head, len, x);
    }
    let entry = Object { addr: from.to->0, count: 1, kind: Kind::Thread };
    assert(l.bag.push(entry).drop_last() =~= l.bag);
    assert(l.closed.push(l.bag.push(entry)).drop_last() =~= l.closed);
}

/// Entries that were removed stay removed.
pub proof fn law_removed_stays(hs: Seq<History>, i: int, j: int, x: int)
    requires
        execution(hs),
        0 <= i <= j < hs.len(),
        hs[i].removed.contains_key(x),
    ensures
        hs[j].removed.contains_key(x),
        hs[j].removed[x] == hs[i].removed[x],
    decreases j,
{
    if i < j {
        law_removed_stays(hs, i, j - 1, x);
        law_in_order(hs, j - 1);
        assert(proceeds(hs, j - 1));
        let step = step_between(hs[j - 1], hs[j]);
        match step {
            Step::Act { thread, event } => {
                lemma_removed_once(hs[j - 1], thread, event);
            },
            _ => {},
        }
    }
}

/// An entry that an attempt to advance still goes by is not yet safe to free: fewer than two epoch
/// advancements have happened since it was removed from the list, if it was removed at all.
pub proof fn law_entries_in_use(hs: Seq<History>, i: int, t: int, k: int, c: int)
    requires
        execution(hs),
        0 <= i < hs.len(),
        hs[i].world.has(t),
        0 <= k < hs[i].world.locals[t].stack.len(),
        holds(hs[i].world.locals[t].stack[k], c),
        hs[i].removed.contains_key(c),
    ensures
        hs[i].count < hs[i].removed[c] + 2,
{
    law_in_order(hs, i);
    let h = hs[i];
    assert(h.holds_wf(t, k));
    assert(h.pin_wf(t));
    assert(h.world.thread_wf(t));
    let l = h.world.locals[t];
    assert(l.announced()) by {
        if l.stack.len() > 1 {
            lemma_chained_at(l.stack, 1);
        }
        if k > 0 {
            lemma_chained_at(l.stack, k);
        }
        if k > 1 {
            lemma_chained_at(l.stack, 2);
        }
    }
}

/// Whenever code outside of this library can use a guard, the thread is pinned, and a thread
/// without a guard that does nothing is not pinned.
pub proof fn law_guard(w: World, t: int)
    requires
        w.wf(),
        w.has(t),
        w.locals[t].open(),
    ensures
        w.locals[t].pin_count > 0 ==> w.is_pinned(t),
        w.locals[t].pin_count == 0 && w.locals[t].idle() ==> !w.is_pinned(t),
{
    assert(w.thread_wf(t));
    let l = w.locals[t];
    if l.stack.len() > 1 {
        lemma_chained_at(l.stack, 1);
    }
    if l.stack.len() > 2 {
        lemma_chained_at(l.stack, 2);
    }
}

/// The local bag of a thread always has room for another object.
pub proof fn law_room(w: World, t: int)
    requires
        w.wf(),
        w.has(t),
    ensures
        w.locals[t].bag.len() < w.locals[t].capacity,
{
    assert(w.thread_wf(t));
}

/// A thread that has exited is not pinned, its entry is marked as deleted, all its garbage is in the
/// garbage queues, and it does nothing any more.
pub proof fn law_exited(w: World, t: int)
    requires
        w.wf(),
        w.has(t),
        w.locals[t].exited,
    ensures
        !w.is_pinned(t),
        w.mem.deleted(t),
        garbage(w.locals[t]) == Seq::<Object>::empty(),
        forall|event: Event| !#[trigger] w.enables(Step::Act { thread: t, event }),
        !w.enables(Step::Pin { thread: t }),
        !w.enables(Step::Unpin { thread: t }),
        forall|object: Object| !#[trigger] w.enables(Step::Unlink { thread: t, object }),
        !w.enables(Step::Exit { thread: t }),
{
    assert(w.thread_wf(t));
    let l = w.locals[t];
    assert(l.closed =~= Seq::empty());
    assert(garbage(l) =~= Seq::<Object>::empty());
}

/// A thread that registers changes the memory only when its new entry becomes the head of the list,
/// whatever the others do in between. Then its entry is unpinned and not deleted, and no other entry
/// has changed.
pub proof fn law_register(w: World, register: Register, event: Event, capacity: nat)
    requires
        w.wf(),
        w.mem.tells(register.spec_action(), event),
        capacity > 0,
    ensures
        ({
            let after = w.mem.after(0, register.spec_action(), event);
            match event {
                Event::Published(t) => {
                    let next = w.taken(Step::Join { capacity });
                    &&& w.enables(Step::Join { capacity })
                    &&& after == next.mem
                    &&& next.wf()
                    &&& t == w.mem.threads.len()
                    &&& !next.is_pinned(t as int)
                    &&& listed(next.mem, next.mem.head, t as int)
                    &&& forall|u: int| w.has(u) ==> #[trigger] next.mem.threads[u]
                        == w.mem.threads[u]
                },
                _ => after == w.mem,
            }
        }),
{
    if event is Published {
        let next = w.taken(Step::Join { capacity });
        lemma_step_wf(w, Step::Join { capacity });
        assert(next.thread_wf(w.mem.threads.len() as int));
        law_listed(next, w.mem.threads.len() as int);
    }
}

/// Whether an entry can be reached from a link.
pub open spec fn listed(m: Memory, link: Link, i: int) -> bool
    decreases target(link) + 1,
{
    match link.to {
        None => false,
        Some(c) => c == i || (target(m.threads[c as int].next) < c && listed(
            m,
            m.threads[c as int].next,
            i,
        )),
    }
}

/// Every thread that is registered and has not marked its entry as deleted is in the list.
pub proof fn law_listed(w: World, t: int)
    requires
        w.wf(),
        w.has(t),
        !w.mem.deleted(t),
    ensures
        listed(w.mem, w.mem.head, t),
{
    lemma_listed(w.mem, w.mem.head, w.mem.threads.len() as int, t);
}

proof fn lemma_listed(m: Memory, link: Link, n: int, t: int)
    requires
        m.list_wf(),
        0 <= t < n <= m.threads.len(),
        m.hops(link, n),
        !m.deleted(t),
    ensures
        listed(m, link, t),
    decreases target(link) + 1,
{
    if target(link) < t {
        assert(m.deleted(t));
    } else if target(link) > t {
        let c = target(link);
        assert(m.hops(m.threads[c].next, c));
        lemma_listed(m, m.threads[c].next, c, t);
    }
}

/// The urgency flag is set only by a thread that has pushed a bag and was told that garbage must be
/// urgently collected, and cleared only by a thread that gets pinned and was told that it need not.
pub proof fn law_urgency(w: World, step: Step)
    requires
        w.wf(),
        w.enables(step),
        urgency(w.taken(step).mem.state) != urgency(w.mem.state),
    ensures
        step is Act,
        ({
            let frame = w.locals[step->Act_thread].stack.last();
            if urgency(w.mem.state) == Urgency::Normal {
                frame == Frame::Unlinked(Unlinked::Raising) || frame == Frame::Exit(Exit::Raising)
            } else {
                frame == Frame::Pin(Pin::Clearing { state: w.mem.state })
            }
        }),
{
    lemma_next_epoch_parts(w.mem.state);
    match step {
        Step::Act { thread, event } => {
            assert(w.thread_wf(thread));
        },
        _ => {},
    }
}

/// An attempt to advance with which no other thread interferes advances the global epoch if and
/// only if no thread is pinned in a different epoch. It marks no entry as deleted, and pins or
/// unpins no thread.
pub proof fn law_advanced(m: Memory)
    ensures
        epoch(m.advanced().state) != epoch(m.state) <==> forall|i: int|
            0 <= i < m.threads.len() ==> !#[trigger] m.holds_back(i),
        urgency(m.advanced().state) == urgency(m.state),
        m.advanced().threads.len() == m.threads.len(),
        forall|i: int|
            0 <= i < m.threads.len() ==> {
                &&& (#[trigger] m.advanced().threads[i]).state == m.threads[i].state
                &&& m.advanced().deleted(i) == m.deleted(i)
            },
{
    lemma_next_epoch_parts(m.state);
    lemma_obstacle_below(m, m.threads.len() as int);
}

/// A thread loses no garbage: an outcome of its action adds at most the entry that it has removed
/// from the list, and takes away at most the bag that it has pushed into the garbage queues.
pub proof fn law_garbage_kept(l: Local, event: Event)
    requires
        l.wf(),
        !l.idle(),
        l.action().allows(event),
    ensures
        l.action() is Push ==> garbage(l) == l.closed.drop_last().flatten() + l.closed.last() + l.bag
            && garbage(l.resumed(event)) == l.closed.drop_last().flatten() + l.bag,
        l.action() !is Push ==> garbage(l.resumed(event)) == match l.stack.last().spec_next(event) {
            Move::Stash(_, entry) => garbage(l) + seq![Object::spec_thread(entry)],
            _ => garbage(l),
        },
{
    let top = l.stack.last();
    let below = l.stack.drop_last();
    assert(below.push(top) =~= l.stack);
    crate::harness::lemma_push(below, top);
    if l.action() is Push {
        assert(top.owns_bag());
        l.closed.drop_last().lemma_flatten_push(l.closed.last());
        assert(l.closed.drop_last().push(l.closed.last()) =~= l.closed);
    } else {
        match top.spec_next(event) {
            Move::Stash(frame, entry) => {
                let object = Object::spec_thread(entry);
                l.closed.lemma_flatten_push(l.bag.push(object));
                assert(garbage(l.resumed(event)) =~= garbage(l) + seq![object]);
            },
            _ => {
                l.closed.lemma_flatten_push(l.bag);
                assert(garbage(l.resumed(event)) =~= garbage(l));
            },
        }
    }
}

} // verus!
