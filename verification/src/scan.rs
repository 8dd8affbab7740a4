//! What an attempt to advance the global epoch does when no other thread interferes.
use crate::access::{Action, Link, Slot};
use crate::garbage::Object;
use crate::harness::{lemma_chained_at, Local};
use crate::registry::{target, Memory, Thread};
use crate::routine::{blocks, Advance, Exit, Frame, Move, Pin, Unlinked};
use crate::settle::{fuel, lemma_fuel_decreases, settled};
use crate::state::{
    epoch, lemma_next_epoch_parts, lemma_raise_keeps_epoch, next_epoch, raised,
};
use crate::world::{lemma_step_wf, World};
use vstd::prelude::*;

verus! {

impl Memory {
    /// The last published entry below `n` that is not deleted.
    pub open spec fn live_below(self, n: int) -> Option<usize>
        decreases n,
    {
        if n <= 0 {
            None
        } else if !self.deleted(n - 1) {
            Some((n - 1) as usize)
        } else {
            self.live_below(n - 1)
        }
    }

    /// Whether an entry keeps the global epoch from advancing: it is not deleted, and its thread is
    /// pinned in a different epoch.
    pub open spec fn holds_back(self, i: int) -> bool {
        !self.deleted(i) && blocks(self.threads[i].state, self.state)
    }

    /// The last published entry below `n` that keeps the global epoch from advancing, or -1.
    pub open spec fn obstacle_below(self, n: int) -> int
        decreases n,
    {
        if n <= 0 {
            -1
        } else if self.holds_back(n - 1) {
            n - 1
        } else {
            self.obstacle_below(n - 1)
        }
    }

    /// The memory after an attempt to advance the global epoch.
    ///
    /// The epoch advances if no thread is pinned in a different one. Deleted entries are gone from
    /// the list, down to the first thread that is pinned in a different epoch.
    pub open spec fn advanced(self) -> Memory {
        let n = self.threads.len() as int;
        let obstacle = self.obstacle_below(n);
        Memory {
            state: if obstacle < 0 {
                next_epoch(self.state)
            } else {
                self.state
            },
            head: Link { to: self.live_below(n), deleted: false },
            threads: Seq::new(
                self.threads.len(),
                |i: int|
                    if obstacle < i && !self.deleted(i) {
                        Thread {
                            next: Link { to: self.live_below(i), deleted: false },
                            ..self.threads[i]
                        }
                    } else {
                        self.threads[i]
                    },
            ),
        }
    }

    /// The deleted entries in the list from a link on, down to the first thread that is pinned in a
    /// different epoch.
    pub open spec fn dead(self, link: Link) -> Seq<Object>
        decreases target(link) + 1,
    {
        match link.to {
            None => Seq::empty(),
            Some(c) => {
                let next = self.threads[c as int].next;
                if target(next) >= c {
                    Seq::empty()
                } else if self.deleted(c as int) {
                    seq![Object::spec_thread(c)] + self.dead(next)
                } else if self.holds_back(c as int) {
                    Seq::empty()
                } else {
                    self.dead(next)
                }
            },
        }
    }

    /// Whether the list is free of deleted entries and of obstacles from the head down to `p`, where
    /// `p` itself is not an obstacle and not deleted.
    pub open spec fn clean_above(self, p: int) -> bool {
        &&& p < self.threads.len() ==> self.head == (Link {
            to: self.live_below(self.threads.len() as int),
            deleted: false,
        })
        &&& forall|i: int|
            p < i < self.threads.len() && !self.deleted(i) ==> (#[trigger] self.threads[i]).next.to
                == self.live_below(i)
        &&& forall|i: int| p < i < self.threads.len() ==> !#[trigger] self.holds_back(i)
    }
}

/// All objects that a thread has stashed and not yet pushed into the garbage queues.
pub open spec fn garbage(l: Local) -> Seq<Object> {
    l.closed.flatten() + l.bag
}

/// What an attempt to advance has done, and knows, when no other thread interferes.
pub open spec fn scans(m: Memory, frame: Frame) -> bool {
    match frame {
        Frame::Advance(Advance::Start) => true,
        Frame::Advance(Advance::Head { state }) => state == m.state,
        Frame::Advance(Advance::Visit { state, pred, curr }) => {
            &&& state == m.state
            &&& m.link(pred) == curr
            &&& m.clean_above(m.position(pred))
            &&& pred matches Slot::Next(p) ==> !m.deleted(p as int) && !m.holds_back(p as int)
        },
        Frame::Advance(Advance::Remove { state, pred, curr, thread, succ }) => {
            &&& state == m.state
            &&& m.link(pred) == curr
            &&& m.clean_above(m.position(pred))
            &&& pred matches Slot::Next(p) ==> !m.deleted(p as int) && !m.holds_back(p as int)
        },
        Frame::Advance(Advance::Check { state, thread, succ }) => {
            &&& state == m.state
            &&& m.threads[thread as int].next == succ
            &&& m.clean_above(thread as int)
        },
        _ => false,
    }
}

/// The link from which an attempt to advance goes on.
pub open spec fn ahead(m: Memory, frame: Frame) -> Link {
    match frame {
        Frame::Advance(Advance::Visit { curr, .. }) => curr,
        Frame::Advance(Advance::Remove { curr, .. }) => curr,
        Frame::Advance(Advance::Check { thread, .. }) => Link {
            to: Some(thread),
            deleted: false,
        },
        _ => m.head,
    }
}

/// The last entry that is not deleted is the one that a link leads to past deleted entries.
pub proof fn lemma_live_below(m: Memory, link: Link, n: int)
    requires
        m.hops(link, n),
        n <= m.threads.len() <= usize::MAX + 1,
        link.to matches Some(c) ==> !m.deleted(c as int),
    ensures
        m.live_below(n) == link.to,
    decreases n,
{
    if n > 0 && target(link) < n - 1 {
        assert(m.deleted(n - 1));
        lemma_live_below(m, link, n - 1);
    }
}

/// The last obstacle is indeed one, and there is none after it.
pub proof fn lemma_obstacle_below(m: Memory, n: int)
    ensures
        ({
            let b = m.obstacle_below(n);
            &&& b >= -1
            &&& b >= 0 ==> b < n && m.holds_back(b)
            &&& forall|i: int| b < i < n && 0 <= i ==> !#[trigger] m.holds_back(i)
        }),
    decreases n,
{
    if n > 0 && !m.holds_back(n - 1) {
        lemma_obstacle_below(m, n - 1);
    }
}

/// Removing a deleted entry changes neither which entries are deleted nor which are obstacles.
proof fn lemma_same_below(m: Memory, later: Memory, n: int)
    requires
        n <= m.threads.len(),
        later.threads.len() == m.threads.len(),
        later.state == m.state,
        forall|i: int|
            0 <= i < m.threads.len() ==> {
                &&& (#[trigger] later.threads[i]).state == m.threads[i].state
                &&& later.threads[i].next.deleted == m.threads[i].next.deleted
            },
    ensures
        later.live_below(n) == m.live_below(n),
        later.obstacle_below(n) == m.obstacle_below(n),
    decreases n,
{
    if n > 0 {
        assert(later.threads[n - 1].state == m.threads[n - 1].state);
        lemma_same_below(m, later, n - 1);
    }
}

/// What is stashed from a link on depends only on the entries that the link can lead to.
proof fn lemma_same_dead(m: Memory, later: Memory, link: Link)
    requires
        later.state == m.state,
        forall|i: int| 0 <= i <= target(link) ==> #[trigger] later.threads[i] == m.threads[i],
    ensures
        later.dead(link) == m.dead(link),
    decreases target(link) + 1,
{
    if link.to is Some {
        let c = link.to->0 as int;
        assert(later.threads[c] == m.threads[c]);
        if target(m.threads[c].next) < c {
            lemma_same_dead(m, later, m.threads[c].next);
        }
    }
}

/// Nothing is stashed where the list is clean.
proof fn lemma_clean_dead(m: Memory, p: int, n: int)
    requires
        m.list_wf(),
        m.threads.len() <= usize::MAX + 1,
        0 <= p < n <= m.threads.len(),
        m.clean_above(p),
        !m.deleted(p),
        !m.holds_back(p),
    ensures
        m.dead(Link { to: m.live_below(n), deleted: false }) == m.dead(m.threads[p].next),
    decreases n,
{
    if m.deleted(n - 1) {
        lemma_clean_dead(m, p, n - 1);
    } else if n - 1 == p {
        assert(m.hops(m.threads[p].next, p));
    } else {
        let i = n - 1;
        lemma_clean_dead(m, p, i);
        assert(m.hops(m.threads[i].next, i));
        assert(!m.holds_back(i));
        assert(m.threads[i].next.to == m.live_below(i));
        assert(m.threads[i].next == Link { to: m.live_below(i), deleted: false });
    }
}

/// The frame that asks the garbage queues to free some garbage, after an attempt to advance that
/// `caller` waits for has left the global state at `state`.
pub open spec fn collecting(caller: Frame, state: usize) -> Frame {
    match caller {
        Frame::Pin(_) => Frame::Pin(Pin::Collecting { state }),
        Frame::Exit(_) => Frame::Exit(Exit::Collecting { epoch: epoch(state) }),
        _ => Frame::Unlinked(Unlinked::Collecting { epoch: epoch(state) }),
    }
}

/// Whether an attempt to advance, which has stopped at `frame` in order to get rid of a full bag,
/// finds the list as another attempt has left it that was started from there.
pub open spec fn superseded(m: Memory, frame: Frame) -> bool {
    exists|before: Memory| #[trigger] trails(m, before, frame) && scans(before, frame)
}

/// A memory whose urgency flag gets set is still as the other attempt has left it.
pub proof fn lemma_superseded_raised(m: Memory, frame: Frame)
    requires
        superseded(m, frame),
    ensures
        superseded(Memory { state: raised(m.state), ..m }, frame),
{
    let before = choose|before: Memory| #[trigger]
        trails(m, before, frame) && scans(before, frame);
    lemma_raise_keeps_epoch(m.state);
    assert(trails(Memory { state: raised(m.state), ..m }, before, frame));
}

/// Whether the list is as an attempt to advance has left it, when it was `before` and an earlier
/// attempt had come to `frame`.
pub open spec fn trails(m: Memory, before: Memory, frame: Frame) -> bool {
    &&& before.list_wf()
    &&& before.threads.len() <= usize::MAX + 1
    &&& m.head == before.advanced().head
    &&& m.threads == before.advanced().threads
    &&& epoch(m.state) == epoch(before.advanced().state)
    &&& match frame {
        Frame::Advance(Advance::Visit { state, pred, curr }) => {
            &&& state == before.state
            &&& m.has(pred)
            &&& before.obstacle_below(m.threads.len() as int) < m.position(pred)
            &&& pred matches Slot::Next(p) ==> !m.deleted(p as int)
            &&& curr == m.link(pred) || curr != m.link(pred) && curr.to is Some && m.deleted(
                curr.to->0 as int,
            )
        },
        Frame::Advance(Advance::Remove { pred, curr, .. }) => m.has(pred) && curr != m.link(pred),
        Frame::Advance(Advance::Check { state, thread, succ }) => {
            &&& state == before.state
            &&& thread < m.threads.len()
            &&& before.obstacle_below(m.threads.len() as int) <= thread
            &&& !m.deleted(thread as int)
            &&& m.threads[thread as int].next == succ
        },
        _ => false,
    }
}

/// What becomes of the data of a thread that attempts to advance the global epoch and stashes the
/// objects `dead` on the way, when `m` is the memory in the end.
///
/// It asks the garbage queues to free some garbage. If the objects had room in the bag, the attempt
/// is over. Otherwise every bag that got full waits to be pushed, and so does the attempt that has
/// filled it.
pub open spec fn scanned(l: Local, l2: Local, dead: Seq<Object>, m: Memory) -> bool {
    let n = l.stack.len() as int;
    &&& l2.wf()
    &&& !l2.idle()
    &&& l2.action() == Action::Collect { epoch: epoch(m.state) }
    &&& l2.thread == l.thread
    &&& l2.pin_count == l.pin_count
    &&& l2.capacity == l.capacity
    &&& l2.exited == l.exited
    &&& garbage(l2) == garbage(l) + dead
    &&& l.closed.len() <= l2.closed.len()
    &&& forall|i: int| 0 <= i < l.closed.len() ==> #[trigger] l2.closed[i] == l.closed[i]
    &&& forall|i: int|
        l.closed.len() <= i < l2.closed.len() ==> (#[trigger] l2.closed[i]).len() == l.capacity
    &&& l2.stack.len() == n - 1 + 2 * (l2.closed.len() - l.closed.len())
    &&& if l.bag.len() + dead.len() < l.capacity {
        &&& l2.bag == l.bag + dead
        &&& l2.closed == l.closed
        &&& l2.stack == l.stack.drop_last().drop_last().push(
            collecting(l.stack[n - 2], m.state),
        )
    } else {
        &&& l2.closed.len() > l.closed.len()
        &&& forall|k: int| 0 <= k < n - 1 ==> #[trigger] l2.stack[k] == l.stack[k]
        &&& forall|k: int|
            n - 1 <= k < l2.stack.len() && (#[trigger] l2.stack[k]) is Advance ==> superseded(
                m,
                l2.stack[k],
            )
    }
}

/// A thread that has attempted to advance the global epoch loads it, and then asks the garbage
/// queues to free some garbage.
proof fn lemma_loads_and_collects(w: World, t: int)
    requires
        w.wf(),
        w.has(t),
        !w.locals[t].idle(),
        w.locals[t].stack.last() == Frame::Pin(Pin::Advanced) || w.locals[t].stack.last()
            == Frame::Unlinked(Unlinked::Advanced) || w.locals[t].stack.last() == Frame::Exit(
            Exit::Advanced,
        ),
    ensures
        settled(w, t) == w.with_local(
            t,
            w.locals[t].at(collecting(w.locals[t].stack.last(), w.mem.state)),
        ),
        settled(w, t).wf(),
{
    lemma_fuel_decreases(w, t);
    let next = w.taken(w.next_step(t));
    assert(next.locals[t] == w.locals[t].at(
        collecting(w.locals[t].stack.last(), w.mem.state),
    ));
    assert(next =~= w.with_local(t, next.locals[t]));
    assert(settled(w, t) == settled(next, t));
    assert(settled(next, t) == next);
}

/// An attempt to advance that has nothing more to do.
proof fn lemma_scan_returns(w: World, t: int)
    requires
        w.wf(),
        w.has(t),
        !w.locals[t].stopped(),
        w.locals[t].stack.last() is Advance,
        w.locals[t].stack.last().spec_next(w.mem.outcome(w.locals[t].action())) is Return,
    ensures
        settled(w, t).wf(),
        ({
            let mem = w.taken(w.next_step(t)).mem;
            let s = settled(w, t);
            let l = w.locals[t];
            &&& s.mem == mem
            &&& s.locals == w.locals.update(t, s.locals[t])
            &&& scanned(l, s.locals[t], Seq::empty(), mem)
        }),
{
    let l = w.locals[t];
    let n = l.stack.len() as int;
    assert(w.thread_wf(t));
    lemma_fuel_decreases(w, t);
    assert(n >= 2);
    lemma_chained_at(l.stack, n - 1);
    let next = w.taken(w.next_step(t));
    assert(next.locals[t].stack.last() == l.stack[n - 2].spec_returned(
        w.locals[t].stack.last().spec_next(w.mem.outcome(l.action()))->Return_0,
    ));
    lemma_loads_and_collects(next, t);
    let s = settled(w, t);
    assert(s == settled(next, t));
    assert(s.thread_wf(t));
    assert(s.locals =~= w.locals.update(t, s.locals[t]));
    assert(l.bag + Seq::<Object>::empty() =~= l.bag);
    assert(garbage(l) + Seq::<Object>::empty() =~= garbage(l));
    assert(s.locals[t].stack =~= l.stack.drop_last().drop_last().push(
        collecting(l.stack[n - 2], next.mem.state),
    ));
}

/// Removing a deleted entry does not change the result of an attempt to advance.
proof fn lemma_remove_advanced(m: Memory, pred: Slot, succ: Link)
    requires
        m.list_wf(),
        m.has(pred),
        !m.link(pred).deleted,
        !succ.deleted,
        m.clean_above(m.position(pred)),
        pred matches Slot::Next(p) ==> !m.holds_back(p as int),
    ensures
        m.with_link(pred, succ).advanced() == m.advanced(),
{
    let later = m.with_link(pred, succ);
    let n = m.threads.len() as int;
    let p = m.position(pred);
    lemma_same_below(m, later, n);
    lemma_obstacle_below(m, n);
    let b = m.obstacle_below(n);
    assert(b < p) by {
        if b >= p {
            assert(!m.holds_back(b));
        }
    }
    assert forall|i: int| 0 <= i < n implies later.advanced().threads[i]
        == m.advanced().threads[i] by {
        lemma_same_below(m, later, i);
    }
    assert(later.advanced() =~= m.advanced());
}

/// At the end of a clean list, there is nothing left but to advance the epoch.
proof fn lemma_advanced_at_end(m: Memory, pred: Slot)
    requires
        m.list_wf(),
        m.threads.len() <= usize::MAX + 1,
        m.has(pred),
        m.link(pred) == (Link { to: None, deleted: false }),
        m.clean_above(m.position(pred)),
        pred matches Slot::Next(p) ==> !m.deleted(p as int) && !m.holds_back(p as int),
    ensures
        m.advanced() == (Memory { state: next_epoch(m.state), ..m }),
{
    let n = m.threads.len() as int;
    let p = m.position(pred);
    assert(m.hops(m.link(pred), p)) by {
        if pred is Next {
            assert(m.hops(m.threads[p].next, p));
        }
    }
    lemma_obstacle_below(m, n);
    let b = m.obstacle_below(n);
    assert(b < 0) by {
        if b >= 0 {
            assert(m.holds_back(b));
            if b < p {
                assert(m.deleted(b));
            }
        }
    }
    lemma_live_below(m, m.link(pred), p);
    assert forall|i: int| 0 <= i < n implies m.advanced().threads[i] == m.threads[i] by {
        if i < p {
            assert(m.deleted(i));
        }
    }
    assert(m.advanced() =~= Memory { state: next_epoch(m.state), ..m });
}

/// At an obstacle in a clean list, there is nothing left to do.
proof fn lemma_advanced_at_obstacle(m: Memory, c: int)
    requires
        m.list_wf(),
        0 <= c < m.threads.len(),
        m.holds_back(c),
        m.clean_above(c),
    ensures
        m.advanced() == m,
{
    let n = m.threads.len() as int;
    lemma_obstacle_below(m, n);
    assert(m.obstacle_below(n) == c);
    assert forall|i: int| 0 <= i < n implies m.advanced().threads[i] == m.threads[i] by {}
    assert(m.advanced() =~= m);
}

/// An entry that is not deleted is what the list is clean down to, once it is reached.
proof fn lemma_reaches_live(m: Memory, pred: Slot, c: usize)
    requires
        m.list_wf(),
        m.threads.len() <= usize::MAX + 1,
        m.has(pred),
        m.link(pred) == (Link { to: Some(c), deleted: false }),
        !m.deleted(c as int),
        m.clean_above(m.position(pred)),
        pred matches Slot::Next(p) ==> !m.deleted(p as int) && !m.holds_back(p as int),
    ensures
        m.clean_above(c as int),
{
    let p = m.position(pred);
    assert(m.hops(m.link(pred), p)) by {
        if pred is Next {
            assert(m.hops(m.threads[p].next, p));
        }
    }
    lemma_live_below(m, m.link(pred), p);
    assert forall|i: int| c < i < m.threads.len() implies !#[trigger] m.holds_back(i) by {
        if i < p {
            assert(m.deleted(i));
        }
    }
    assert forall|i: int| c < i < m.threads.len() && !m.deleted(i) implies (
    #[trigger] m.threads[i]).next.to == m.live_below(i) by {
        if i < p {
            assert(m.deleted(i));
        }
    }
}

/// An attempt to advance with which no other thread interferes leaves the memory as it should, and
/// then the thread asks the garbage queues to free some garbage.
pub proof fn lemma_scan_settles(w: World, t: int)
    requires
        w.wf(),
        w.has(t),
        !w.locals[t].idle(),
        w.locals[t].stack.last() is Advance,
        scans(w.mem, w.locals[t].stack.last()),
    ensures
        settled(w, t).wf(),
        settled(w, t).mem == w.mem.advanced(),
        settled(w, t).locals == w.locals.update(t, settled(w, t).locals[t]),
        scanned(
            w.locals[t],
            settled(w, t).locals[t],
            w.mem.dead(ahead(w.mem, w.locals[t].stack.last())),
            w.mem.advanced(),
        ),
    decreases fuel(w, t),
{
    let m = w.mem;
    let l = w.locals[t];
    let top = l.stack.last();
    let n = l.stack.len() as int;
    lemma_fuel_decreases(w, t);
    let next = w.taken(w.next_step(t));
    assert(w.thread_wf(t));
    assert(next.thread_wf(t));
    assert(l.stack[n - 1] == top);
    assert(m.fits(top));
    assert(m.threads.len() <= usize::MAX + 1) by {
        assert(w.thread_wf(m.threads.len() - 1));
    }
    assert(n >= 2);
    assert(settled(w, t) == settled(next, t));
    match top {
        Frame::Advance(Advance::Start) | Frame::Advance(Advance::Head { .. }) => {
            lemma_scan_settles(next, t);
            assert(next.locals[t].stack.drop_last() =~= l.stack.drop_last());
            assert(settled(w, t).locals =~= w.locals.update(t, settled(w, t).locals[t]));
        },
        Frame::Advance(Advance::Visit { state, pred, curr }) => {
            match curr.to {
                None => {
                    lemma_scan_returns(w, t);
                    lemma_advanced_at_end(m, pred);
                },
                Some(c) => {
                    if !m.deleted(c as int) {
                        lemma_reaches_live(m, pred, c);
                    }
                    lemma_scan_settles(next, t);
                    assert(next.locals[t].stack.drop_last() =~= l.stack.drop_last());
                    assert(settled(w, t).locals =~= w.locals.update(t, settled(w, t).locals[t]));
                },
            }
        },
        Frame::Advance(Advance::Check { state, thread, succ }) => {
            assert(target(m.threads[thread as int].next) < thread);
            if blocks(m.threads[thread as int].state, state) {
                lemma_scan_returns(w, t);
                lemma_advanced_at_obstacle(m, thread as int);
            } else {
                lemma_scan_settles(next, t);
                assert(next.locals[t].stack.drop_last() =~= l.stack.drop_last());
                assert(settled(w, t).locals =~= w.locals.update(t, settled(w, t).locals[t]));
            }
        },
        Frame::Advance(Advance::Remove { state, pred, curr, thread, succ }) => {
            lemma_scan_removes(w, t, state, pred, curr, thread, succ);
            lemma_scan_settles(next, t);
            lemma_scanned_more(
                l,
                next.locals[t],
                settled(w, t).locals[t],
                Frame::Advance(Advance::Visit { state, pred, curr: succ }),
                Object::spec_thread(thread),
                next.mem.dead(ahead(next.mem, next.locals[t].stack.last())),
                m.advanced(),
            );
            assert(settled(w, t).locals =~= w.locals.update(t, settled(w, t).locals[t]));
        },
        _ => {},
    }
}

/// The removal of an entry, as a part of an attempt to advance: the attempt goes on behind the
/// entry, or, if the bag got full, another attempt starts from the head.
proof fn lemma_scan_removes(
    w: World,
    t: int,
    state: usize,
    pred: Slot,
    curr: Link,
    thread: usize,
    succ: Link,
)
    requires
        w.wf(),
        w.has(t),
        !w.locals[t].idle(),
        w.locals[t].stack.last() == Frame::Advance(
            Advance::Remove { state, pred, curr, thread, succ },
        ),
        scans(w.mem, w.locals[t].stack.last()),
    ensures
        ({
            let next = w.taken(w.next_step(t));
            let frame = next.locals[t].stack.last();
            &&& frame is Advance
            &&& scans(next.mem, frame)
            &&& next.mem.advanced() == w.mem.advanced()
            &&& w.mem.dead(curr) == seq![Object::spec_thread(thread)] + next.mem.dead(
                ahead(next.mem, frame),
            )
            &&& next.locals[t] == w.locals[t].at(
                Frame::Advance(Advance::Visit { state, pred, curr: succ }),
            ).stashed(Object::spec_thread(thread))
            &&& superseded(
                next.mem.advanced(),
                Frame::Advance(Advance::Visit { state, pred, curr: succ }),
            )
        }),
{
    let m = w.mem;
    let l = w.locals[t];
    let c = thread as int;
    let p = m.position(pred);
    assert(w.thread_wf(t));
    assert(l.stack[l.stack.len() - 1] == l.stack.last());
    assert(m.fits(l.stack.last()));
    let next = w.taken(w.next_step(t));
    let later = next.mem;
    let len = m.threads.len() as int;
    assert(len <= usize::MAX + 1) by {
        assert(w.thread_wf(len - 1));
    }
    assert(later == m.with_link(pred, succ));
    lemma_step_wf(w, w.next_step(t));
    lemma_remove_advanced(m, pred, succ);
    assert(m.hops(m.threads[c].next, c));
    lemma_same_dead(m, later, succ);
    assert(m.dead(m.threads[c].next) == m.dead(succ));
    assert(later.clean_above(p)) by {
        lemma_same_below(m, later, len);
        assert forall|i: int| p < i < len && !later.deleted(i) implies (
        #[trigger] later.threads[i]).next.to == later.live_below(i) by {
            lemma_same_below(m, later, i);
            assert(m.threads[i].next.to == m.live_below(i));
        }
        assert forall|i: int| p < i < len implies !#[trigger] later.holds_back(i) by {
            assert(!m.holds_back(i));
        }
    }
    if pred is Next {
        lemma_clean_dead(later, p, len);
    }
    lemma_suspended(later, state, pred, succ);
}

/// An attempt to advance that stops for another one trails it.
proof fn lemma_suspended(m: Memory, state: usize, pred: Slot, curr: Link)
    requires
        m.list_wf(),
        m.threads.len() <= usize::MAX + 1,
        m.has(pred),
        !curr.deleted,
        scans(m, Frame::Advance(Advance::Visit { state, pred, curr })),
    ensures
        superseded(m.advanced(), Frame::Advance(Advance::Visit { state, pred, curr })),
{
    let frame = Frame::Advance(Advance::Visit { state, pred, curr });
    let after = m.advanced();
    let len = m.threads.len() as int;
    let p = m.position(pred);
    lemma_obstacle_below(m, len);
    let b = m.obstacle_below(len);
    assert(b < p) by {
        if b >= p {
            assert(!m.holds_back(b));
        }
    }
    assert(m.hops(m.link(pred), p)) by {
        if pred is Next {
            assert(m.hops(m.threads[p].next, p));
        }
    }
    assert(after.link(pred) == Link { to: m.live_below(p), deleted: false });
    lemma_live_below_is_live(m, p);
    if curr.to is None || !m.deleted(curr.to->0 as int) {
        lemma_live_below(m, curr, p);
    }
    assert(trails(after, m, frame));
}

/// The last entry below `n` that is not deleted is indeed one.
proof fn lemma_live_below_is_live(m: Memory, n: int)
    requires
        n <= m.threads.len() <= usize::MAX + 1,
    ensures
        m.live_below(n) matches Some(c) ==> c < n && !m.deleted(c as int),
    decreases n,
{
    if n > 0 && m.deleted(n - 1) {
        lemma_live_below_is_live(m, n - 1);
    }
}

/// How an attempt to advance goes on after it has stashed an object.
proof fn lemma_scanned_more(
    l: Local,
    stashed: Local,
    l2: Local,
    frame: Frame,
    object: Object,
    dead: Seq<Object>,
    m: Memory,
)
    requires
        l.stack.len() >= 2,
        l.wf(),
        stashed == l.at(frame).stashed(object),
        scanned(stashed, l2, dead, m),
        superseded(m, frame),
    ensures
        scanned(l, l2, seq![object] + dead, m),
{
    let all = seq![object] + dead;
    let bag = l.bag.push(object);
    if bag.len() < l.capacity {
        assert(stashed.stack.drop_last() =~= l.stack.drop_last());
        assert(bag + dead =~= l.bag + all);
        assert(garbage(stashed) + dead =~= garbage(l) + all);
    } else {
        l.closed.lemma_flatten_push(bag);
        assert(garbage(stashed) + dead =~= garbage(l) + all);
        assert forall|i: int| 0 <= i < l.closed.len() implies #[trigger] l2.closed[i]
            == l.closed[i] by {
            assert(l2.closed[i] == stashed.closed[i]);
        }
        assert forall|i: int| l.closed.len() <= i < l2.closed.len() implies (
        #[trigger] l2.closed[i]).len() == l.capacity by {
            if i == l.closed.len() {
                assert(l2.closed[i] == stashed.closed[i]);
            }
        }
    }
}

/// An attempt to advance that was superseded by another one does nothing more, and then the thread
/// asks the garbage queues to free some garbage.
pub proof fn lemma_superseded_settles(w: World, t: int)
    requires
        w.wf(),
        w.has(t),
        !w.locals[t].idle(),
        w.locals[t].stack.last() is Advance,
        superseded(w.mem, w.locals[t].stack.last()),
    ensures
        settled(w, t).wf(),
        settled(w, t).mem == w.mem,
        settled(w, t).locals == w.locals.update(t, settled(w, t).locals[t]),
        scanned(w.locals[t], settled(w, t).locals[t], Seq::empty(), w.mem),
{
    let before = choose|before: Memory| #[trigger]
        trails(w.mem, before, w.locals[t].stack.last()) && scans(
            before,
            w.locals[t].stack.last(),
        );
    lemma_trails_settles(w, t, before);
}

/// An attempt to advance that trails another one leaves the memory alone, and either goes on like
/// that or returns.
proof fn lemma_trails_step(w: World, t: int, before: Memory)
    requires
        w.wf(),
        w.has(t),
        !w.locals[t].idle(),
        w.locals[t].stack.last() is Advance,
        trails(w.mem, before, w.locals[t].stack.last()),
    ensures
        w.taken(w.next_step(t)).mem == w.mem,
        match w.locals[t].stack.last().spec_next(w.mem.outcome(w.locals[t].action())) {
            Move::Goto(frame) => frame is Advance && trails(w.mem, before, frame),
            Move::Return(_) => true,
            _ => false,
        },
{
    let m = w.mem;
    let l = w.locals[t];
    let top = l.stack.last();
    assert(w.thread_wf(t));
    assert(l.stack[l.stack.len() - 1] == top);
    assert(m.fits(top));
    match top {
        Frame::Advance(Advance::Visit { state, pred, curr }) => {
            lemma_trails_visit(m, before, state, pred, curr);
        },
        Frame::Advance(Advance::Check { state, thread, succ }) => {
            if !blocks(m.threads[thread as int].state, state) {
                lemma_trails_check(m, before, state, thread, succ);
            }
        },
        _ => {},
    }
}

proof fn lemma_trails_visit(m: Memory, before: Memory, state: usize, pred: Slot, curr: Link)
    requires
        trails(m, before, Frame::Advance(Advance::Visit { state, pred, curr })),
        target(curr) < m.threads.len(),
    ensures
        curr.to is None ==> m.state != state,
        curr.to matches Some(c) ==> if m.deleted(c as int) {
            curr != m.link(pred)
        } else {
            let succ = m.threads[c as int].next;
            trails(m, before, Frame::Advance(Advance::Check { state, thread: c, succ }))
        },
{
    let len = m.threads.len() as int;
    let p = m.position(pred);
    lemma_obstacle_below(before, len);
    let b = before.obstacle_below(len);
    if pred is Next {
        assert(m.threads[p] == before.advanced().threads[p]);
        assert(!before.deleted(p));
    }
    assert(m.link(pred) == Link { to: before.live_below(p), deleted: false });
    lemma_live_below_is_live(before, p);
    if b >= 0 {
        lemma_live_below_finds(before, b, p);
    }
    match curr.to {
        None => {
            // There is no obstacle, so the other attempt has advanced the epoch.
            lemma_next_epoch_parts(before.state);
        },
        Some(c) => {
            assert(m.threads[c as int] == before.advanced().threads[c as int]);
            assert(m.deleted(c as int) == before.deleted(c as int));
        },
    }
}

proof fn lemma_trails_check(m: Memory, before: Memory, state: usize, thread: usize, succ: Link)
    requires
        trails(m, before, Frame::Advance(Advance::Check { state, thread, succ })),
        !blocks(m.threads[thread as int].state, state),
    ensures
        trails(
            m,
            before,
            Frame::Advance(Advance::Visit { state, pred: Slot::Next(thread), curr: succ }),
        ),
{
    let len = m.threads.len() as int;
    lemma_obstacle_below(before, len);
    let c = thread as int;
    assert(m.threads[c] == before.advanced().threads[c]);
    if before.obstacle_below(len) == c {
        assert(before.holds_back(c));
    }
}

proof fn lemma_trails_settles(w: World, t: int, before: Memory)
    requires
        w.wf(),
        w.has(t),
        !w.locals[t].idle(),
        w.locals[t].stack.last() is Advance,
        trails(w.mem, before, w.locals[t].stack.last()),
    ensures
        settled(w, t).wf(),
        settled(w, t).mem == w.mem,
        settled(w, t).locals == w.locals.update(t, settled(w, t).locals[t]),
        scanned(w.locals[t], settled(w, t).locals[t], Seq::empty(), w.mem),
    decreases fuel(w, t),
{
    let l = w.locals[t];
    assert(w.thread_wf(t));
    lemma_fuel_decreases(w, t);
    lemma_trails_step(w, t, before);
    let next = w.taken(w.next_step(t));
    match l.stack.last().spec_next(w.mem.outcome(l.action())) {
        Move::Goto(frame) => {
            assert(next.locals[t] == l.at(frame));
            lemma_trails_settles(next, t, before);
            assert(settled(w, t) == settled(next, t));
            assert(l.stack.len() >= 2);
            assert(next.locals[t].stack.drop_last() =~= l.stack.drop_last());
            assert(settled(w, t).locals =~= w.locals.update(t, settled(w, t).locals[t]));
        },
        _ => {
            lemma_scan_returns(w, t);
        },
    }
}

/// An entry that is not deleted is found, or one above it.
proof fn lemma_live_below_finds(m: Memory, i: int, n: int)
    requires
        0 <= i < n <= m.threads.len() <= usize::MAX + 1,
        !m.deleted(i),
    ensures
        m.live_below(n) matches Some(c) && i <= c < n,
    decreases n,
{
    if m.deleted(n - 1) {
        lemma_live_below_finds(m, i, n - 1);
    }
}

} // verus!
