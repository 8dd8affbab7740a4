//! What the calls of the library come to, said of the words, links and objects that are there before
//! and after.
use crate::access::{Action, Event, Link};
use crate::course::Call;
use crate::garbage::{Kind, Object};
use crate::harness::{lemma_chained_at, Local};
use crate::laws::listed;
use crate::registry::{target, Memory};
use crate::routine::{Frame, Pin};
use crate::run::{
    after_set_pinned, after_set_unpinned, after_unregister, guard_taken, progress, replied, Progress,
};
use crate::scan::{lemma_obstacle_below, lemma_scan_settles};
use crate::settle::{lemma_settled_locals, settled};
use crate::state::{law_next_word, law_raised_word, Urgency};
use crate::world::{lemma_step_wf, Step, World};
use vstd::prelude::*;

verus! {

/// A call returns exactly what the thread waits for: nothing if it has nothing to do, and otherwise
/// its request to the garbage queues, with the epoch of that request.
pub proof fn law_progress(l: Local)
    requires
        l.stopped(),
    ensures
        match progress(l) {
            Progress::Finished => l.stack.len() == 0,
            Progress::Collect { epoch } => l.stack.len() > 0 && l.action() == (Action::Collect {
                epoch,
            }),
            Progress::Push { epoch } => l.stack.len() > 0 && l.action() == (Action::Push { epoch }),
        },
{
}

/// A thread that goes on by itself comes to where it has nothing to do, or asks the garbage queues
/// for something, and leaves the data of all other threads alone.
pub proof fn law_settled(w: World, t: int)
    requires
        w.wf(),
        w.has(t),
    ensures
        ({
            let now = settled(w, t);
            let l = now.locals[t];
            &&& l.stack.len() == 0 || l.action() is Collect || l.action() is Push
            &&& now.locals.len() == w.locals.len()
            &&& forall|u: int| w.has(u) && u != t ==> #[trigger] now.locals[u] == w.locals[u]
            &&& w.locals[t].stack.len() == 0 || w.locals[t].action() is Collect
                || w.locals[t].action() is Push ==> now == w
        }),
{
    lemma_settled_locals(w, t);
}

/// What a step changes: an access of a thread changes its data and the memory, and the other steps of
/// a thread change its data alone. No step changes the data of another thread. A thread that joins
/// gets the next entry, with an odd word, at the head of the list.
pub proof fn law_step(w: World, step: Step)
    requires
        w.wf(),
        w.enables(step),
    ensures
        ({
            let next = w.taken(step);
            match step {
                Step::Act { thread, event } => {
                    &&& next.locals == w.locals.update(thread, w.locals[thread].resumed(event))
                    &&& next.mem == w.mem.after(thread as usize, w.locals[thread].action(), event)
                    &&& w.mem.tells(w.locals[thread].action(), event)
                },
                Step::Pin { thread } => next.mem == w.mem && next.locals == w.locals.update(
                    thread,
                    w.locals[thread].begun_pin(),
                ),
                Step::Unpin { thread } => next.mem == w.mem && next.locals == w.locals.update(
                    thread,
                    w.locals[thread].begun_unpin(),
                ),
                Step::Unlink { thread, object } => next.mem == w.mem && next.locals
                    == w.locals.update(thread, w.locals[thread].stashed(object)),
                Step::Exit { thread } => next.mem == w.mem && next.locals == w.locals.update(
                    thread,
                    w.locals[thread].begun_exit(),
                ),
                Step::Join { capacity } => {
                    let n = w.mem.threads.len() as int;
                    &&& next.locals.len() == n + 1
                    &&& forall|u: int| 0 <= u < n ==> #[trigger] next.locals[u] == w.locals[u]
                    &&& next.locals[n].thread == n
                    &&& next.locals[n].capacity == capacity
                    &&& next.locals[n].pin_count == 0
                    &&& next.locals[n].bag.len() == 0
                    &&& next.locals[n].closed.len() == 0
                    &&& next.locals[n].stack.len() == 0
                    &&& !next.locals[n].exited
                    &&& next.mem.state == w.mem.state
                    &&& next.mem.threads.len() == n + 1
                    &&& next.mem.threads[n].state % 2 == 1
                    &&& next.mem.threads[n].next == w.mem.head
                    &&& next.mem.head.to == Some(n as usize)
                    &&& !next.mem.head.deleted
                    &&& forall|u: int|
                        0 <= u < n ==> #[trigger] next.mem.threads[u] == w.mem.threads[u]
                },
            }
        }),
{
    match step {
        Step::Act { thread, event } => {
            assert(w.thread_wf(thread));
        },
        _ => {},
    }
}

/// Which step a call begins with, and that the thread then goes on by itself.
pub proof fn law_call(w: World, t: int, object: Object, u: Urgency, capacity: nat)
    ensures
        (Call::Pin { thread: t }).made(w) == settled(w.taken(Step::Pin { thread: t }), t),
        (Call::Drop { thread: t }).made(w) == settled(w.taken(Step::Unpin { thread: t }), t),
        (Call::Unlinked { thread: t, object }).made(w) == settled(
            w.taken(Step::Unlink { thread: t, object }),
            t,
        ),
        (Call::Exit { thread: t }).made(w) == settled(w.taken(Step::Exit { thread: t }), t),
        (Call::Reply { thread: t, urgency: u }).made(w) == settled(
            w.taken(Step::Act { thread: t, event: Event::Reply(u) }),
            t,
        ),
        (Call::Register { capacity }).made(w) == w.taken(Step::Join { capacity }),
{
}

/// An attempt to advance with which no other thread interferes adds two to the global state, up to
/// the overflow of a word, if every entry that is not deleted has an odd word or the word of the
/// current epoch. If one of them has another even word, the global state stays as it is.
pub proof fn law_advances(m: Memory)
    ensures
        (forall|i: int|
            0 <= i < m.threads.len() && !(#[trigger] m.threads[i]).next.deleted
                && m.threads[i].state % 2 == 0 ==> m.threads[i].state == m.state - m.state % 2)
            ==> m.advanced().state == (m.state + 2) % (usize::MAX + 1),
        (exists|i: int|
            0 <= i < m.threads.len() && !(#[trigger] m.threads[i]).next.deleted
                && m.threads[i].state % 2 == 0 && m.threads[i].state != m.state - m.state % 2)
            ==> m.advanced().state == m.state,
{
    let n = m.threads.len() as int;
    law_next_word(m.state);
    lemma_obstacle_below(m, n);
    if exists|i: int|
        0 <= i < m.threads.len() && !(#[trigger] m.threads[i]).next.deleted && m.threads[i].state
            % 2 == 0 && m.threads[i].state != m.state - m.state % 2 {
        let i = choose|i: int|
            0 <= i < m.threads.len() && !(#[trigger] m.threads[i]).next.deleted
                && m.threads[i].state % 2 == 0 && m.threads[i].state != m.state - m.state % 2;
        assert(m.holds_back(i));
    }
    let b = m.obstacle_below(n);
    if b >= 0 {
        assert(!m.threads[b].next.deleted);
    }
}

/// An attempt to advance changes the word of no entry, and marks none as deleted or as not deleted.
/// Every entry that is not deleted, and the head, leads to the last entry before it that is not
/// deleted, down to the last one with an even word that is not the word of the current epoch. From
/// there on nothing changes.
pub proof fn law_cleaned(m: Memory)
    requires
        m.list_wf(),
        m.threads.len() <= usize::MAX + 1,
    ensures
        ({
            let n = m.threads.len() as int;
            let later = m.advanced();
            &&& later.threads.len() == n
            &&& !later.head.deleted
            &&& leads_to_live(m, later.head, n)
            &&& forall|i: int|
                0 <= i < n ==> {
                    &&& (#[trigger] later.threads[i]).state == m.threads[i].state
                    &&& later.threads[i].next.deleted == m.threads[i].next.deleted
                    &&& m.threads[i].next.deleted ==> later.threads[i] == m.threads[i]
                    &&& !m.threads[i].next.deleted && clear_from(m, i) ==> leads_to_live(
                        m,
                        later.threads[i].next,
                        i,
                    )
                    &&& !clear_from(m, i) ==> later.threads[i] == m.threads[i]
                }
        }),
{
    let n = m.threads.len() as int;
    let later = m.advanced();
    lemma_obstacle_below(m, n);
    let b = m.obstacle_below(n);
    lemma_leads_to_live(m, n);
    assert forall|i: int| 0 <= i < n implies {
        &&& (#[trigger] later.threads[i]).state == m.threads[i].state
        &&& later.threads[i].next.deleted == m.threads[i].next.deleted
        &&& m.threads[i].next.deleted ==> later.threads[i] == m.threads[i]
        &&& !m.threads[i].next.deleted && clear_from(m, i) ==> leads_to_live(
            m,
            later.threads[i].next,
            i,
        )
        &&& !clear_from(m, i) ==> later.threads[i] == m.threads[i]
    } by {
        lemma_leads_to_live(m, i);
        lemma_clear_from(m, i);
    }
}

/// Whether a link leads to the last entry before `n` that is not deleted.
pub open spec fn leads_to_live(m: Memory, link: Link, n: int) -> bool {
    match link.to {
        Some(c) => {
            &&& c < n
            &&& !m.threads[c as int].next.deleted
            &&& forall|k: int| c < k < n ==> (#[trigger] m.threads[k]).next.deleted
        },
        None => forall|k: int| 0 <= k < n ==> (#[trigger] m.threads[k]).next.deleted,
    }
}

/// Whether no entry from `i` on keeps the global epoch from advancing: each is deleted, or has an odd
/// word or the word of the current epoch.
pub open spec fn clear_from(m: Memory, i: int) -> bool {
    forall|j: int|
        i <= j < m.threads.len() && !(#[trigger] m.threads[j]).next.deleted && m.threads[j].state
            % 2 == 0 ==> m.threads[j].state == m.state - m.state % 2
}

proof fn lemma_leads_to_live(m: Memory, n: int)
    requires
        0 <= n <= m.threads.len() <= usize::MAX + 1,
    ensures
        leads_to_live(m, Link { to: m.live_below(n), deleted: false }, n),
    decreases n,
{
    if n > 0 && m.deleted(n - 1) {
        lemma_leads_to_live(m, n - 1);
    }
}

proof fn lemma_clear_from(m: Memory, i: int)
    requires
        0 <= i < m.threads.len(),
    ensures
        clear_from(m, i) <==> m.obstacle_below(m.threads.len() as int) < i,
{
    let n = m.threads.len() as int;
    lemma_obstacle_below(m, n);
    let b = m.obstacle_below(n);
    if b >= i {
        assert(!m.threads[b].next.deleted);
    } else {
        assert forall|j: int|
            i <= j < m.threads.len() && !(#[trigger] m.threads[j]).next.deleted
                && m.threads[j].state % 2 == 0 implies m.threads[j].state == m.state - m.state
            % 2 by {
            assert(!m.holds_back(j));
        }
    }
}

proof fn lemma_listed_below(m: Memory, link: Link, i: int)
    requires
        listed(m, link, i),
    ensures
        0 <= i <= target(link),
    decreases target(link) + 1,
{
    let c = target(link);
    if i != c {
        lemma_listed_below(m, m.threads[c].next, i);
    }
}

/// The object that stands for the entry at `c`.
pub open spec fn entry_at(c: usize) -> Object {
    Object { addr: c, count: 1, kind: Kind::Thread }
}

/// Whether no entry between `c` and `p` keeps the global epoch from advancing.
spec fn clear_between(m: Memory, c: int, p: int) -> bool {
    forall|j: int|
        c < j < p && !(#[trigger] m.threads[j]).next.deleted && m.threads[j].state % 2 == 0
            ==> m.threads[j].state == m.state - m.state % 2
}

proof fn lemma_dead(m: Memory, link: Link, p: int)
    requires
        m.list_wf(),
        0 <= p <= m.threads.len(),
        m.hops(link, p),
    ensures
        forall|k: int|
            0 <= k < m.dead(link).len() ==> {
                &&& (#[trigger] m.dead(link)[k]).count == 1
                &&& m.dead(link)[k].kind == Kind::Thread
                &&& m.dead(link)[k].addr <= target(link)
            },
        forall|k: int, k2: int|
            0 <= k < k2 < m.dead(link).len() ==> (#[trigger] m.dead(link)[k]).addr > (
            #[trigger] m.dead(link)[k2]).addr,
        forall|c: usize| #[trigger]
            m.dead(link).contains(entry_at(c)) <==> listed(m, link, c as int)
                && m.threads[c as int].next.deleted && clear_between(m, c as int, p),
    decreases target(link) + 1,
{
    match link.to {
        None => {},
        Some(x) => {
            let next = m.threads[x as int].next;
            assert(m.hops(next, x as int));
            lemma_dead(m, next, x as int);
            let rest = m.dead(next);
            let all = m.dead(link);
            let obstacle = !m.threads[x as int].next.deleted && m.threads[x as int].state % 2 == 0
                && m.threads[x as int].state != m.state - m.state % 2;
            assert forall|c: usize| #[trigger]
                all.contains(entry_at(c)) <==> listed(m, link, c as int)
                    && m.threads[c as int].next.deleted && clear_between(m, c as int, p) by {
                assert(forall|j: int| x < j < p ==> (#[trigger] m.threads[j]).next.deleted) by {
                    assert forall|j: int| x < j < p implies (#[trigger] m.threads[j]).next.deleted by {
                        assert(m.deleted(j));
                    }
                }
                assert(rest.contains(entry_at(c)) <==> listed(m, next, c as int)
                    && m.threads[c as int].next.deleted && clear_between(m, c as int, x as int));
                if listed(m, next, c as int) {
                    lemma_listed_below(m, next, c as int);
                    if clear_between(m, c as int, x as int) && !obstacle {
                        assert forall|j: int|
                            c < j < p && !(#[trigger] m.threads[j]).next.deleted
                                && m.threads[j].state % 2 == 0 implies m.threads[j].state
                            == m.state - m.state % 2 by {}
                        assert(clear_between(m, c as int, p));
                    }
                    if clear_between(m, c as int, p) {
                        assert(clear_between(m, c as int, x as int));
                        assert(!obstacle);
                    }
                }
                if m.deleted(x as int) {
                    assert(all =~= seq![entry_at(x)] + rest);
                    if c == x {
                        assert(all[0] == entry_at(c));
                    }
                    if rest.contains(entry_at(c)) {
                        let k = choose|k: int| 0 <= k < rest.len() && rest[k] == entry_at(c);
                        assert(all[k + 1] == entry_at(c));
                    }
                    if all.contains(entry_at(c)) {
                        let k = choose|k: int| 0 <= k < all.len() && all[k] == entry_at(c);
                        if k > 0 {
                            assert(rest[k - 1] == entry_at(c));
                        }
                    }
                }
            }
        },
    }
}

/// The entries of the list that an attempt to advance stashes, when no other thread interferes, are
/// exactly those that are marked as deleted, down to the last one with an even word that is not the
/// word of the current epoch. Each is stashed once, as one entry at its address, and is not in the
/// list any more.
pub proof fn law_dead(m: Memory)
    requires
        m.list_wf(),
        m.threads.len() <= usize::MAX + 1,
    ensures
        ({
            let dead = m.dead(m.head);
            let later = m.advanced();
            &&& forall|k: int|
                0 <= k < dead.len() ==> {
                    &&& (#[trigger] dead[k]).count == 1
                    &&& dead[k].kind == Kind::Thread
                    &&& dead[k].addr < m.threads.len()
                    &&& m.threads[dead[k].addr as int].next.deleted
                    &&& listed(m, m.head, dead[k].addr as int)
                    &&& !listed(later, later.head, dead[k].addr as int)
                }
            &&& forall|k: int, k2: int|
                0 <= k < k2 < dead.len() ==> (#[trigger] dead[k]).addr > (#[trigger] dead[k2]).addr
            &&& forall|c: usize|
                #![trigger dead.contains(entry_at(c))]
                listed(m, m.head, c as int) && m.threads[c as int].next.deleted && clear_from(
                    m,
                    c as int,
                ) ==> dead.contains(entry_at(c))
        }),
{
    let n = m.threads.len() as int;
    let dead = m.dead(m.head);
    let later = m.advanced();
    lemma_dead(m, m.head, n);
    lemma_obstacle_below(m, n);
    assert forall|k: int| 0 <= k < dead.len() implies {
        &&& (#[trigger] dead[k]).addr < m.threads.len()
        &&& m.threads[dead[k].addr as int].next.deleted
        &&& listed(m, m.head, dead[k].addr as int)
        &&& !listed(later, later.head, dead[k].addr as int)
    } by {
        let c = dead[k].addr;
        assert(dead[k] == entry_at(c));
        assert(dead.contains(entry_at(c)));
        lemma_listed_below(m, m.head, c as int);
        assert(clear_from(m, c as int)) by {
            assert(clear_between(m, c as int, n));
        }
        lemma_clear_from(m, c as int);
        if listed(later, later.head, c as int) {
            lemma_listed_live(m, n, c as int);
        }
    }
    assert forall|c: usize|
        #![trigger dead.contains(entry_at(c))]
        listed(m, m.head, c as int) && m.threads[c as int].next.deleted && clear_from(
            m,
            c as int,
        ) implies dead.contains(entry_at(c)) by {
        assert(clear_between(m, c as int, n));
    }
}

/// After an attempt to advance, the list holds no deleted entry above the last obstacle.
proof fn lemma_listed_live(m: Memory, n: int, c: int)
    requires
        0 <= n <= m.threads.len() <= usize::MAX + 1,
        listed(m.advanced(), Link { to: m.live_below(n), deleted: false }, c),
        m.obstacle_below(m.threads.len() as int) < c,
    ensures
        !m.threads[c].next.deleted,
    decreases n,
{
    let later = m.advanced();
    lemma_leads_to_live(m, n);
    let x = m.live_below(n)->0 as int;
    if c != x {
        if m.obstacle_below(m.threads.len() as int) < x {
            assert(later.threads[x].next == Link { to: m.live_below(x), deleted: false });
            lemma_listed_live(m, x, c);
        } else {
            lemma_listed_below(later, later.threads[x].next, c);
        }
    }
}

/// Marking a thread as pinned stores the epoch of the global state into its entry, and nothing else
/// changes in the memory.
pub proof fn law_after_set_pinned(w: World, t: int)
    requires
        w.has(t),
        w.locals.len() == w.mem.threads.len(),
        t <= usize::MAX,
    ensures
        ({
            let m = after_set_pinned(w, t).mem;
            let word = m.threads[t].state;
            &&& word % 2 == 0
            &&& word <= w.mem.state <= word + 1
            &&& m.threads[t].next == w.mem.threads[t].next
            &&& m.state == w.mem.state
            &&& m.head == w.mem.head
            &&& m.threads.len() == w.mem.threads.len()
            &&& forall|u: int|
                0 <= u < m.threads.len() && u != t ==> #[trigger] m.threads[u] == w.mem.threads[u]
            &&& after_set_pinned(w, t).locals.len() == w.locals.len()
            &&& forall|u: int|
                w.has(u) && u != t ==> #[trigger] after_set_pinned(w, t).locals[u] == w.locals[u]
        }),
{
}

/// Marking a thread as unpinned stores an odd word into its entry, and nothing else changes in the
/// memory.
pub proof fn law_after_set_unpinned(w: World, t: int)
    requires
        w.has(t),
        w.locals.len() == w.mem.threads.len(),
        t <= usize::MAX,
    ensures
        ({
            let m = after_set_unpinned(w, t).mem;
            &&& m.threads[t].state % 2 == 1
            &&& m.threads[t].next == w.mem.threads[t].next
            &&& m.state == w.mem.state
            &&& m.head == w.mem.head
            &&& m.threads.len() == w.mem.threads.len()
            &&& forall|u: int|
                0 <= u < m.threads.len() && u != t ==> #[trigger] m.threads[u] == w.mem.threads[u]
            &&& after_set_unpinned(w, t).locals.len() == w.locals.len()
            &&& forall|u: int|
                w.has(u) && u != t ==> #[trigger] after_set_unpinned(w, t).locals[u] == w.locals[u]
        }),
{
}

/// Unregistering a thread marks its entry as deleted, and nothing else changes in the memory. The
/// entry still leads to where it led.
pub proof fn law_after_unregister(w: World, t: int)
    requires
        w.has(t),
        w.locals.len() == w.mem.threads.len(),
        t <= usize::MAX,
    ensures
        ({
            let m = after_unregister(w, t).mem;
            &&& m.threads[t].next.deleted
            &&& m.threads[t].next.to == w.mem.threads[t].next.to
            &&& m.threads[t].state == w.mem.threads[t].state
            &&& m.state == w.mem.state
            &&& m.head == w.mem.head
            &&& m.threads.len() == w.mem.threads.len()
            &&& forall|u: int|
                0 <= u < m.threads.len() && u != t ==> #[trigger] m.threads[u] == w.mem.threads[u]
            &&& after_unregister(w, t).locals.len() == w.locals.len()
            &&& forall|u: int|
                w.has(u) && u != t ==> #[trigger] after_unregister(w, t).locals[u] == w.locals[u]
        }),
{
}

/// Pinning a thread counts one guard more. If it held none, the epoch of the global state is in its
/// entry from then on. The words of all other entries stay as they are, and if garbage need not be
/// urgently collected, so does the rest of the memory. If it must, the thread asks the garbage queues
/// to free what is safe to free in the epoch that is the global one by then.
pub proof fn law_guard_taken(w: World, t: int, w2: World)
    requires
        w.wf(),
        w.has(t),
        w.locals[t].can_pin(),
        guard_taken(w, t, w2),
    ensures
        ({
            let l = w.locals[t];
            let l2 = w2.locals[t];
            &&& l2.pin_count == l.pin_count + 1
            &&& l2.thread == l.thread
            &&& l2.capacity == l.capacity
            &&& l2.exited == l.exited
            &&& forall|u: int| w.has(u) && u != t ==> #[trigger] w2.locals[u] == w.locals[u]
            &&& w2.mem.threads.len() == w.mem.threads.len()
            &&& forall|u: int|
                w.has(u) && u != t ==> (#[trigger] w2.mem.threads[u]).state
                    == w.mem.threads[u].state
            &&& l.pin_count > 0 ==> w2.mem == w.mem && l2.bag == l.bag && l2.closed == l.closed
                && l2.stack == l.stack
            &&& l.pin_count == 0 ==> {
                &&& w2.mem.threads[t].state % 2 == 0
                &&& w2.mem.threads[t].state <= w.mem.state <= w2.mem.threads[t].state + 1
            }
            &&& l.pin_count == 0 && w.mem.state % 2 == 0 ==> {
                &&& l2.stack.len() == 0
                &&& l2.bag == l.bag
                &&& l2.closed == l.closed
                &&& w2.mem.state == w.mem.state
                &&& w2.mem.head == w.mem.head
                &&& forall|u: int|
                    w.has(u) ==> (#[trigger] w2.mem.threads[u]).next == w.mem.threads[u].next
            }
            &&& l.pin_count == 0 && w.mem.state % 2 == 1 ==> {
                &&& l2.stack.len() > 0
                &&& l2.action() == (Action::Collect {
                    epoch: (w2.mem.state - w2.mem.state % 2) as usize,
                })
            }
        }),
{
    assert(w.thread_wf(t));
}

/// What follows once the garbage queues have done what a thread asked for.
///
/// - After the collection for a full bag, the thread asks them to take that bag, marked with the epoch
///   for which they have freed garbage.
/// - After the collection in a thread that exits, it asks them to take the local bag, marked with the
///   epoch that is the global one by then.
/// - After the collection in a thread that is pinned, the thread is done, and the epoch of the global
///   state is in its entry. The urgency flag is cleared if the collection is not urgent and the global
///   state is still what the thread has loaded; nothing else happens to the global state.
/// - When a thread that exits has handed over its bag, its word is odd, its entry is marked as
///   deleted, and it has exited.
/// - The urgency flag is set if the garbage queues say so when they take a bag.
pub proof fn law_replied(w: World, t: int, u: Urgency, w2: World)
    requires
        w.wf(),
        w.has(t),
        !w.locals[t].idle(),
        w.locals[t].action() is Collect || w.locals[t].action() is Push,
        replied(w, t, u, w2),
    ensures
        ({
            let l = w.locals[t];
            let l2 = w2.locals[t];
            let top = l.stack.last();
            &&& l.action() matches Action::Collect { epoch } ==> {
                &&& top is Unlinked ==> {
                    &&& w2.mem == w.mem
                    &&& l2.action() == (Action::Push { epoch })
                    &&& l2 == (Local { stack: l2.stack, ..l })
                    &&& l2.stack.len() == l.stack.len()
                }
                &&& top is Exit ==> {
                    &&& w2.mem == w.mem
                    &&& l2.action() == (Action::Push {
                        epoch: (w.mem.state - w.mem.state % 2) as usize,
                    })
                    &&& l2.closed == l.closed.push(l.bag)
                    &&& l2.bag.len() == 0
                    &&& l2.stack.len() == l.stack.len()
                }
                &&& top matches Frame::Pin(Pin::Collecting { state }) ==> {
                    &&& l2 == (Local { stack: Seq::empty(), ..l })
                    &&& w2.mem.threads[t].state == w2.mem.state - w2.mem.state % 2
                    &&& w2.mem.threads[t].next == w.mem.threads[t].next
                    &&& w2.mem.head == w.mem.head
                    &&& w2.mem.threads.len() == w.mem.threads.len()
                    &&& forall|v: int|
                        w.has(v) && v != t ==> #[trigger] w2.mem.threads[v] == w.mem.threads[v]
                    &&& w2.mem.state == if u == Urgency::Normal && w.mem.state == state {
                        w.mem.state - w.mem.state % 2
                    } else {
                        w.mem.state as int
                    }
                }
            }
            &&& l.action() is Push && (top is Exit || l.stack.len() == 1) ==> {
                &&& u == Urgency::Normal ==> w2.mem.state == w.mem.state
                &&& u == Urgency::Urgent ==> w2.mem.state == w.mem.state - w.mem.state % 2 + 1
                &&& w2.mem.head == w.mem.head
                &&& w2.mem.threads.len() == w.mem.threads.len()
                &&& forall|v: int|
                    w.has(v) && v != t ==> #[trigger] w2.mem.threads[v] == w.mem.threads[v]
                &&& l2.closed == l.closed.drop_last()
                &&& l2.bag == l.bag
                &&& l2.pin_count == l.pin_count
                &&& l2.stack.len() == 0
                &&& top is Unlinked ==> w2.mem.threads == w.mem.threads && l2.exited == l.exited
                &&& top is Exit ==> {
                    &&& l2.exited
                    &&& w2.mem.threads[t].state % 2 == 1
                    &&& w2.mem.threads[t].next.deleted
                    &&& w2.mem.threads[t].next.to == w.mem.threads[t].next.to
                }
            }
        }),
{
    let l = w.locals[t];
    let n = l.stack.len() as int;
    assert(w.thread_wf(t));
    assert(l.stack.last() == l.stack[n - 1]);
    if n > 1 {
        lemma_chained_at(l.stack, n - 1);
    }
    law_raised_word(w.mem.state);
}

/// A full bag is marked with the epoch in which garbage was freed before it is pushed: when an object
/// fills the bag of a thread that has nothing else to do, the thread asks the garbage queues to free
/// what is safe to free in the epoch that is the global one by then, and what comes next, whatever
/// they answer, is a push with that same epoch. If the attempt to advance has filled no other bag,
/// exactly the bag with this object at its end is pushed.
pub proof fn law_marked(w: World, t: int, object: Object, u: Urgency)
    requires
        w.wf(),
        w.enables(Step::Unlink { thread: t, object }),
        w.locals[t].idle(),
        w.locals[t].bag.len() + 1 >= w.locals[t].capacity,
    ensures
        ({
            let w1 = (Call::Unlinked { thread: t, object }).made(w);
            let w2 = (Call::Reply { thread: t, urgency: u }).made(w1);
            let e = (w1.mem.state - w1.mem.state % 2) as usize;
            &&& progress(w1.locals[t]) == (Progress::Collect { epoch: e })
            &&& w1.enables((Call::Reply { thread: t, urgency: u }).step())
            &&& progress(w2.locals[t]) == (Progress::Push { epoch: e })
            &&& w2.locals[t].action() == (Action::Push { epoch: e })
            &&& w2.mem == w1.mem
            &&& w2.locals[t].closed == w1.locals[t].closed
            &&& w1.locals[t].closed.len() == w.locals[t].closed.len() + 1
                ==> w2.locals[t].closed.last() == w.locals[t].bag.push(object)
        }),
{
    let w0 = w.taken(Step::Unlink { thread: t, object });
    lemma_step_wf(w, Step::Unlink { thread: t, object });
    lemma_scan_settles(w0, t);
    let w1 = settled(w0, t);
    let l = w0.locals[t];
    let l1 = w1.locals[t];
    let n = l1.stack.len() as int;
    assert(w1.thread_wf(t));
    assert(l1.stack.last() == l1.stack[n - 1]);
    assert(l.stack[0] is Unlinked);
    if n > 1 {
        lemma_chained_at(l1.stack, n - 1);
    }
    assert(l1.stack.last() is Unlinked);
    let step = Step::Act { thread: t, event: Event::Reply(u) };
    lemma_step_wf(w1, step);
    let w2 = w1.taken(step);
    assert(w2.locals[t].stopped());
    assert(settled(w2, t) == w2);
    assert(w0.locals[t].closed.last() == w.locals[t].bag.push(object));
    if l1.closed.len() == l.closed.len() {
        assert(l1.closed[l.closed.len() - 1] == l.closed[l.closed.len() - 1]);
    }
}

} // verus!
