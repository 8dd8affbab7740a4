//! What a thread asks for, access by access, from the moment it sets out to do something until it is
//! done, for every outcome that it may be told.
//!
//! Nothing is said here of the points that a routine goes through, except where a routine can start,
//! and where an attempt to advance goes round: at an entry of the list.
use crate::access::{Action, Event, Link, Order, Slot};
use crate::garbage::{Kind, Object};
use crate::harness::{lemma_chained_at, Local};
use crate::routine::{Advance, Exit, Frame, Pin, Register, SetPinned, SetUnpinned, Unregister};
use crate::state::{law_next_word, Urgency};
use vstd::prelude::*;

verus! {

/// A thread that is told the outcome of its action keeps its entry, the size of its bags and its
/// guards, and exits only where its last routine ends.
pub proof fn law_act_keeps(l: Local, event: Event)
    requires
        l.wf(),
        !l.idle(),
        l.action().allows(event),
    ensures
        l.resumed(event).thread == l.thread,
        l.resumed(event).capacity == l.capacity,
        l.resumed(event).pin_count == l.pin_count,
        l.resumed(event).exited <==> l.stack.len() == 1 && l.stack[0] is Exit && l.resumed(
            event,
        ).idle(),
{
}

/// The routine that marks a thread as pinned loads the global state, stores its epoch into the entry
/// of the thread, and asks for a sequentially consistent fence before it returns, whatever the state
/// is.
pub proof fn law_set_pinned_asks(l: Local, s: usize)
    requires
        l.wf(),
        !l.idle(),
        l.stack.last() is SetPinned,
        l.action() is LoadState,
    ensures
        ({
            let l1 = l.resumed(Event::Word(s));
            let l2 = l1.resumed(Event::Done);
            let l3 = l2.resumed(Event::Done);
            &&& l.action() == Action::LoadState(Order::Relaxed)
            &&& l1.action() matches Action::StoreThread { word, order } && order == Order::Relaxed
                && word % 2 == 0 && word <= s <= word + 1
            &&& l2.action() == Action::Fence(Order::SeqCst)
            &&& l1.stack.len() == l.stack.len()
            &&& l2.stack.len() == l.stack.len()
            &&& l3.stack.len() == l.stack.len() - 1
            &&& l3 == (Local { stack: l3.stack, ..l })
            &&& l3.stack.len() == 1
            &&& l3.action() == Action::Proceed
        }),
{
    let n = l.stack.len() as int;
    if n > 1 {
        lemma_chained_at(l.stack, n - 1);
    }
    if n > 2 {
        lemma_chained_at(l.stack, n - 2);
    }
    let l1 = l.resumed(Event::Word(s));
    let l2 = l1.resumed(Event::Done);
    assert(l2.stack.drop_last() =~= l.stack.drop_last());
    assert(l.stack.drop_last().last() == l.stack[n - 2]);
}

/// The routine that marks a thread as unpinned asks for a release fence, stores an odd word into the
/// entry of the thread, and returns.
pub proof fn law_set_unpinned_asks(l: Local)
    requires
        l.wf(),
        !l.idle(),
        l.stack.last() is SetUnpinned,
        l.action() is Fence,
    ensures
        ({
            let l1 = l.resumed(Event::Done);
            let l2 = l1.resumed(Event::Done);
            &&& l.action() == Action::Fence(Order::Release)
            &&& l1.action() matches Action::StoreThread { word, order } && order == Order::Relaxed
                && word % 2 == 1
            &&& l1.stack.len() == l.stack.len()
            &&& l2.stack.len() == l.stack.len() - 1
            &&& l2 == (Local { stack: l2.stack, ..l })
            &&& l2.stack.len() > 0 ==> l2.stack.len() == 1 && l2.action() == Action::Proceed
        }),
{
    let n = l.stack.len() as int;
    if n > 1 {
        lemma_chained_at(l.stack, n - 1);
        assert(l.stack.drop_last().last() == l.stack[n - 2]);
    }
    if n > 2 {
        lemma_chained_at(l.stack, n - 2);
    }
    let l1 = l.resumed(Event::Done);
    assert(l1.stack.drop_last() =~= l.stack.drop_last());
}

/// The routine that unregisters a thread loads the link of its entry, and tries to mark that link as
/// long as it is not marked, each time with the link that it was told last.
pub proof fn law_unregister_asks(l: Local, link: Link)
    requires
        l.wf(),
        !l.idle(),
        l.stack.last() is Unregister,
    ensures
        ({
            let event = if l.action() is LoadLink {
                Event::Link(link)
            } else {
                Event::Kept(link)
            };
            let l1 = l.resumed(event);
            let l2 = l.resumed(Event::Swapped);
            &&& l.action() is LoadLink ==> l.action() == (Action::LoadLink {
                slot: Slot::Next(l.thread),
                order: Order::Acquire,
            })
            &&& l.action() is LoadLink || l.action() is SwapLink
            &&& l1 == (Local { stack: l1.stack, ..l })
            &&& !link.deleted ==> l1.stack.len() == l.stack.len() && l1.action()
                == (Action::SwapLink {
                slot: Slot::Next(l.thread),
                from: link,
                into: Link { to: link.to, deleted: true },
                order: Order::AcqRel,
                weak: true,
            })
            &&& link.deleted ==> l1.stack.len() == 1 && l1.action() == Action::Proceed
            &&& l.action() is SwapLink ==> l2 == (Local { stack: l2.stack, ..l })
                && l2.stack.len() == 1 && l2.action() == Action::Proceed
        }),
{
    let n = l.stack.len() as int;
    if n > 1 {
        lemma_chained_at(l.stack, n - 1);
        assert(l.stack.drop_last().last() == l.stack[n - 2]);
    }
    if n > 2 {
        lemma_chained_at(l.stack, n - 2);
    }
    assert(l.stack.last() == l.stack[n - 1]);
}

/// An attempt to advance the global epoch loads the global state and the head of the list, and goes
/// on with the entry that the head leads to.
pub proof fn law_attempt_starts(l: Local, s: usize, head: Link)
    requires
        !l.idle(),
        l.stack.last() == Frame::Advance(Advance::Start),
    ensures
        ({
            let l1 = l.resumed(Event::Word(s));
            let l2 = l1.resumed(Event::Link(head));
            &&& l.action() == Action::LoadState(Order::SeqCst)
            &&& l1.action() == (Action::LoadLink { slot: Slot::Head, order: Order::Acquire })
            &&& l2 == l.at(
                Frame::Advance(Advance::Visit { state: s, pred: Slot::Head, curr: head }),
            )
        }),
{
    let l1 = l.resumed(Event::Word(s));
    let l2 = l1.resumed(Event::Link(head));
    assert(l2 =~= l.at(Frame::Advance(Advance::Visit { state: s, pred: Slot::Head, curr: head })));
}

/// How an attempt to advance that has nothing more to do returns.
proof fn lemma_attempt_returns(l: Local, event: Event)
    requires
        l.wf(),
        !l.idle(),
        l.stack.last() is Advance,
        l.stack.last().spec_next(event) is Return,
    ensures
        ({
            let l1 = l.resumed(event);
            &&& l1 == (Local { stack: l1.stack, ..l })
            &&& l1.stack.len() == l.stack.len() - 1
            &&& l1.stack.len() > 0
            &&& l1.stack.drop_last() == l.stack.drop_last().drop_last()
            &&& l1.action() == Action::LoadState(Order::SeqCst)
        }),
{
    let n = l.stack.len() as int;
    if n > 1 {
        lemma_chained_at(l.stack, n - 1);
        assert(l.stack.drop_last().last() == l.stack[n - 2]);
    }
    let l1 = l.resumed(event);
    assert(l1.stack.drop_last() =~= l.stack.drop_last().drop_last());
}

/// At the end of the list, an attempt asks to replace the state word that it has started from by the
/// one that is greater by two, and returns. The routine that has attempted to advance loads the
/// global state next.
pub proof fn law_attempt_ends(l: Local, state: usize, pred: Slot, curr: Link)
    requires
        l.wf(),
        !l.idle(),
        l.stack.last() == Frame::Advance(Advance::Visit { state, pred, curr }),
        curr.to is None,
    ensures
        ({
            let l1 = l.resumed(Event::Done);
            &&& l.action() matches Action::SwapState { expected, new, order } && expected == state
                && new == (state + 2) % (usize::MAX + 1) && order == Order::SeqCst
            &&& l1 == (Local { stack: l1.stack, ..l })
            &&& l1.stack.len() == l.stack.len() - 1
            &&& l1.stack.drop_last() == l.stack.drop_last().drop_last()
            &&& l1.action() == Action::LoadState(Order::SeqCst)
        }),
{
    law_next_word(state);
    lemma_attempt_returns(l, Event::Done);
}

/// At an entry that is not deleted, an attempt loads the word of the entry. If the word is even, and
/// is not the epoch from which the attempt has started, the attempt is over. Otherwise it goes on
/// with the next entry.
pub proof fn law_attempt_passes(
    l: Local,
    state: usize,
    pred: Slot,
    curr: Link,
    c: usize,
    succ: Link,
    word: usize,
)
    requires
        l.wf(),
        !l.idle(),
        l.stack.last() == Frame::Advance(Advance::Visit { state, pred, curr }),
        curr.to == Some(c),
        !succ.deleted,
    ensures
        ({
            let l1 = l.resumed(Event::Link(succ));
            let l2 = l1.resumed(Event::Word(word));
            &&& l.action() == (Action::LoadLink { slot: Slot::Next(c), order: Order::Acquire })
            &&& l1.action() == (Action::LoadThread { thread: c, order: Order::SeqCst })
            &&& if word % 2 == 0 && word != state - state % 2 {
                &&& l2 == (Local { stack: l2.stack, ..l })
                &&& l2.stack.len() == l.stack.len() - 1
                &&& l2.stack.drop_last() == l.stack.drop_last().drop_last()
                &&& l2.action() == Action::LoadState(Order::SeqCst)
            } else {
                l2 == l.at(
                    Frame::Advance(Advance::Visit { state, pred: Slot::Next(c), curr: succ }),
                )
            }
        }),
{
    let l1 = l.resumed(Event::Link(succ));
    let l2 = l1.resumed(Event::Word(word));
    crate::harness::lemma_resumed_wf(l, Event::Link(succ));
    assert(l1.stack.drop_last() =~= l.stack.drop_last());
    if word % 2 == 0 && word != state - state % 2 {
        lemma_attempt_returns(l1, Event::Word(word));
    } else {
        assert(l2 =~= l.at(
            Frame::Advance(Advance::Visit { state, pred: Slot::Next(c), curr: succ }),
        ));
    }
}

/// At an entry that is deleted, an attempt asks to replace the link that leads to it by the link that
/// leads on. If that fails, the attempt is over. If it succeeds, exactly this entry goes into the
/// local bag, as one object at its address, and the attempt goes on behind it. If the bag gets full,
/// it is closed, and another attempt comes first.
pub proof fn law_attempt_removes(
    l: Local,
    state: usize,
    pred: Slot,
    curr: Link,
    c: usize,
    succ: Link,
    kept: Link,
)
    requires
        l.wf(),
        !l.idle(),
        l.stack.last() == Frame::Advance(Advance::Visit { state, pred, curr }),
        curr.to == Some(c),
        succ.deleted,
    ensures
        ({
            let l1 = l.resumed(Event::Link(succ));
            let lost = l1.resumed(Event::Kept(kept));
            let won = l1.resumed(Event::Swapped);
            let on = Link { to: succ.to, deleted: false };
            let visit = l.at(Frame::Advance(Advance::Visit { state, pred, curr: on }));
            let entry = Object { addr: c, count: 1, kind: Kind::Thread };
            &&& l.action() == (Action::LoadLink { slot: Slot::Next(c), order: Order::Acquire })
            &&& l1.action() == (Action::SwapLink {
                slot: pred,
                from: curr,
                into: on,
                order: Order::Release,
                weak: false,
            })
            &&& lost == (Local { stack: lost.stack, ..l })
            &&& lost.stack.len() == l.stack.len() - 1
            &&& lost.stack.drop_last() == l.stack.drop_last().drop_last()
            &&& lost.action() == Action::LoadState(Order::SeqCst)
            &&& if l.bag.len() + 1 < l.capacity {
                won == (Local { bag: l.bag.push(entry), ..visit })
            } else {
                &&& won == (Local {
                    bag: Seq::empty(),
                    closed: l.closed.push(l.bag.push(entry)),
                    stack: won.stack,
                    ..l
                })
                &&& won.stack.len() == l.stack.len() + 2
                &&& won.stack.take(l.stack.len() as int) == visit.stack
                &&& won.stack.last() == Frame::Advance(Advance::Start)
                &&& won.action() == Action::LoadState(Order::SeqCst)
            }
        }),
{
    let n = l.stack.len() as int;
    let l1 = l.resumed(Event::Link(succ));
    let on = Link { to: succ.to, deleted: false };
    let visit = l.at(Frame::Advance(Advance::Visit { state, pred, curr: on }));
    crate::harness::lemma_resumed_wf(l, Event::Link(succ));
    assert(l1.stack.drop_last() =~= l.stack.drop_last());
    lemma_attempt_returns(l1, Event::Kept(kept));
    let won = l1.resumed(Event::Swapped);
    let entry = Object { addr: c, count: 1, kind: Kind::Thread };
    if l.bag.len() + 1 < l.capacity {
        assert(won =~= Local { bag: l.bag.push(entry), ..visit });
    } else {
        assert(won.stack.take(n) =~= visit.stack);
    }
}

/// After its attempt to advance, a thread that has filled a bag loads the global state, asks the
/// garbage queues to free what is safe to free in its epoch, and then to take the bag that was
/// closed last, marked with that same epoch. If they tell it to, it sets the urgency flag. Then it is
/// back where it was before.
pub proof fn law_unlinked_asks(l: Local, s: usize, u: Urgency)
    requires
        l.wf(),
        !l.idle(),
        l.stack.last() is Unlinked,
        l.action() is LoadState,
    ensures
        ({
            let l1 = l.resumed(Event::Word(s));
            let l2 = l1.resumed(Event::Reply(u));
            let normal = l2.resumed(Event::Reply(Urgency::Normal));
            let urgent = l2.resumed(Event::Reply(Urgency::Urgent));
            let done = Local { closed: l.closed.drop_last(), stack: l.stack.drop_last(), ..l };
            &&& l.action() == Action::LoadState(Order::SeqCst)
            &&& l1.action() matches Action::Collect { epoch } && epoch % 2 == 0 && epoch <= s
                <= epoch + 1
            &&& l1 == l.at(l1.stack.last())
            &&& l2.action() == (Action::Push { epoch: l1.action()->Collect_epoch })
            &&& l2 == l.at(l2.stack.last())
            &&& normal == done
            &&& urgent.action() == Action::RaiseState(Order::SeqCst)
            &&& urgent.closed == l.closed.drop_last()
            &&& urgent.resumed(Event::Done) == done
        }),
{
    let n = l.stack.len() as int;
    if n > 1 {
        lemma_chained_at(l.stack, n - 1);
        assert(l.stack.drop_last().last() == l.stack[n - 2]);
    }
    assert(l.stack.last() == l.stack[n - 1]);
    let l1 = l.resumed(Event::Word(s));
    let l2 = l1.resumed(Event::Reply(u));
    let normal = l2.resumed(Event::Reply(Urgency::Normal));
    let urgent = l2.resumed(Event::Reply(Urgency::Urgent));
    let done = Local { closed: l.closed.drop_last(), stack: l.stack.drop_last(), ..l };
    assert(l1 =~= l.at(l1.stack.last()));
    assert(l2 =~= l.at(l2.stack.last()));
    assert(normal =~= done);
    assert(urgent.resumed(Event::Done) =~= done);
}

/// A thread that holds no guard and is pinned counts the guard and marks itself as pinned. If the
/// state word that it has loaded is even, it is done. If it is odd, the thread attempts to advance
/// the global epoch.
pub proof fn law_pin_asks(l: Local, s: usize)
    requires
        l.wf(),
        !l.exited,
        l.idle(),
        l.pin_count == 0,
    ensures
        ({
            let l0 = l.begun_pin();
            let l1 = l0.resumed(Event::Word(s));
            let l2 = l1.resumed(Event::Done);
            let l3 = l2.resumed(Event::Done);
            let l4 = l3.resumed(Event::Done);
            &&& l0.wf()
            &&& l0.stack.last() is SetPinned
            &&& l0 == (Local { pin_count: 1, stack: l0.stack, ..l })
            &&& l0.action() == Action::LoadState(Order::Relaxed)
            &&& l1.action() matches Action::StoreThread { word, order } && order == Order::Relaxed
                && word % 2 == 0 && word <= s <= word + 1
            &&& l2.action() == Action::Fence(Order::SeqCst)
            &&& l3.action() == Action::Proceed
            &&& s % 2 == 0 ==> l4 == (Local { pin_count: 1, ..l })
            &&& s % 2 == 1 ==> {
                &&& l4 == (Local { pin_count: 1, stack: l4.stack, ..l })
                &&& l4.stack.len() == 2
                &&& l4.stack[0] is Pin
                &&& l4.stack[1] == Frame::Advance(Advance::Start)
            }
        }),
{
    crate::harness::lemma_begun_wf(l);
    let l0 = l.begun_pin();
    law_set_pinned_asks(l0, s);
    let l1 = l0.resumed(Event::Word(s));
    let l2 = l1.resumed(Event::Done);
    let l3 = l2.resumed(Event::Done);
    let l4 = l3.resumed(Event::Done);
    assert(l.stack =~= Seq::empty());
    assert(l2.stack.drop_last() =~= seq![l0.stack[0]]);
    if s % 2 == 0 {
        assert(l4 =~= Local { pin_count: 1, ..l });
    }
}

/// A thread that is pinned while garbage must be urgently collected loads the global state after its
/// attempt to advance, and asks the garbage queues to free what is safe to free in its epoch. If the
/// collection is not urgent any more, it asks to replace the state word by its epoch. In either case
/// it then marks itself as unpinned, and as pinned again with the epoch of the state word that it is
/// told by then, and is done.
#[verifier::rlimit(40)]
pub proof fn law_pin_collects(l: Local, s: usize, s2: usize)
    requires
        l.wf(),
        l.stack.len() == 1,
        l.stack[0] is Pin,
        l.action() is LoadState,
    ensures
        ({
            let l1 = l.resumed(Event::Word(s));
            let clear = l1.resumed(Event::Reply(Urgency::Normal));
            let l2 = l1.resumed(Event::Reply(Urgency::Urgent));
            let l3 = l2.resumed(Event::Done);
            let l4 = l3.resumed(Event::Done);
            let l5 = l4.resumed(Event::Done);
            let l6 = l5.resumed(Event::Word(s2));
            let l7 = l6.resumed(Event::Done);
            let l8 = l7.resumed(Event::Done);
            let l9 = l8.resumed(Event::Done);
            &&& l.action() == Action::LoadState(Order::SeqCst)
            &&& l1.action() matches Action::Collect { epoch } && epoch % 2 == 0 && epoch <= s
                <= epoch + 1
            &&& clear.action() == (Action::SwapState {
                expected: s,
                new: l1.action()->Collect_epoch,
                order: Order::SeqCst,
            })
            &&& clear.resumed(Event::Done) == l2
            &&& l2.action() == Action::Fence(Order::Release)
            &&& l3.action() matches Action::StoreThread { word, order } && order == Order::Relaxed
                && word % 2 == 1
            &&& l4.action() == Action::Proceed
            &&& l5.action() == Action::LoadState(Order::Relaxed)
            &&& l6.action() matches Action::StoreThread { word, order } && order == Order::Relaxed
                && word % 2 == 0 && word <= s2 <= word + 1
            &&& l7.action() == Action::Fence(Order::SeqCst)
            &&& l8.action() == Action::Proceed
            &&& l9 == (Local { stack: Seq::empty(), ..l })
        }),
{
    let l1 = l.resumed(Event::Word(s));
    let clear = l1.resumed(Event::Reply(Urgency::Normal));
    let l2 = l1.resumed(Event::Reply(Urgency::Urgent));
    assert(l.stack.last() == l.stack[0]);
    assert(l.stack =~= seq![Frame::Pin(Pin::Advanced)]);
    assert(l1.stack =~= seq![Frame::Pin(Pin::Collecting { state: s })]);
    assert(clear.stack =~= seq![Frame::Pin(Pin::Clearing { state: s })]);
    assert(l2.stack =~= seq![
        Frame::Pin(Pin::Unpinning),
        Frame::SetUnpinned(SetUnpinned::Fence),
    ]);
    assert(clear.resumed(Event::Done) =~= l2);
    lemma_pins_again(l2, s2);
    let l9 = l2.resumed(Event::Done).resumed(Event::Done).resumed(Event::Done).resumed(
        Event::Word(s2),
    ).resumed(Event::Done).resumed(Event::Done).resumed(Event::Done);
    assert(l9 == Local { stack: Seq::empty(), ..l2 });
}

/// How a thread unpins and pins again.
#[verifier::rlimit(40)]
proof fn lemma_pins_again(l2: Local, s2: usize)
    requires
        l2.stack == seq![
            Frame::Pin(Pin::Unpinning),
            Frame::SetUnpinned(SetUnpinned::Fence),
        ],
    ensures
        ({
            let l3 = l2.resumed(Event::Done);
            let l4 = l3.resumed(Event::Done);
            let l5 = l4.resumed(Event::Done);
            let l6 = l5.resumed(Event::Word(s2));
            let l7 = l6.resumed(Event::Done);
            let l8 = l7.resumed(Event::Done);
            let l9 = l8.resumed(Event::Done);
            &&& l2.action() == Action::Fence(Order::Release)
            &&& l3.action() matches Action::StoreThread { word, order } && order == Order::Relaxed
                && word % 2 == 1
            &&& l4.action() == Action::Proceed
            &&& l5.action() == Action::LoadState(Order::Relaxed)
            &&& l6.action() matches Action::StoreThread { word, order } && order == Order::Relaxed
                && word % 2 == 0 && word <= s2 <= word + 1
            &&& l7.action() == Action::Fence(Order::SeqCst)
            &&& l8.action() == Action::Proceed
            &&& l9 == (Local { stack: Seq::empty(), ..l2 })
        }),
{
    let unpinning = Frame::Pin(Pin::Unpinning);
    let repinning = Frame::Pin(Pin::Repinning);
    let l3 = l2.resumed(Event::Done);
    assert(l3 =~= Local {
        stack: seq![unpinning, Frame::SetUnpinned(SetUnpinned::Store)],
        ..l2
    });
    let l4 = l3.resumed(Event::Done);
    assert(l3.stack.drop_last() =~= seq![unpinning]);
    assert(l4 =~= Local { stack: seq![Frame::Pin(Pin::Unpinned)], ..l2 });
    let l5 = l4.resumed(Event::Done);
    assert(l5 =~= Local { stack: seq![repinning, Frame::SetPinned(SetPinned::Load)], ..l2 });
    let l6 = l5.resumed(Event::Word(s2));
    assert(l6 =~= Local {
        stack: seq![repinning, Frame::SetPinned(SetPinned::Store { state: s2 })],
        ..l2
    });
    let l7 = l6.resumed(Event::Done);
    assert(l7 =~= Local {
        stack: seq![repinning, Frame::SetPinned(SetPinned::Fence { state: s2 })],
        ..l2
    });
    let l8 = l7.resumed(Event::Done);
    assert(l7.stack.drop_last() =~= seq![repinning]);
    assert(l8 =~= Local { stack: seq![Frame::Pin(Pin::Repinned)], ..l2 });
    let l9 = l8.resumed(Event::Done);
    assert(l9 =~= Local { stack: Seq::empty(), ..l2 });
}

/// Taking another guard, and dropping one that is not the last, only changes the number of guards.
/// Dropping the last one marks the thread as unpinned.
pub proof fn law_guards_ask(l: Local)
    requires
        l.wf(),
        l.pin_count > 0,
    ensures
        l.pin_count < usize::MAX ==> l.begun_pin() == (Local {
            pin_count: (l.pin_count + 1) as usize,
            ..l
        }),
        l.pin_count > 1 ==> l.begun_unpin() == (Local {
            pin_count: (l.pin_count - 1) as usize,
            ..l
        }),
        l.pin_count == 1 && l.idle() && !l.exited ==> ({
            let l0 = l.begun_unpin();
            let l1 = l0.resumed(Event::Done);
            &&& l0.wf()
            &&& l0 == (Local { pin_count: 0, stack: l0.stack, ..l })
            &&& l0.action() == Action::Fence(Order::Release)
            &&& l1.action() matches Action::StoreThread { word, order } && order == Order::Relaxed
                && word % 2 == 1
            &&& l1.resumed(Event::Done) == (Local { pin_count: 0, ..l })
        }),
{
    crate::harness::lemma_begun_wf(l);
    if l.pin_count == 1 && l.idle() && !l.exited {
        let l0 = l.begun_unpin();
        law_set_unpinned_asks(l0);
        let l1 = l0.resumed(Event::Done);
        assert(l1.resumed(Event::Done) =~= Local { pin_count: 0, ..l });
    }
}

/// An object that is announced goes to the end of the local bag. If that makes the bag full, the bag
/// is closed, with exactly as many objects as it has room for, and the thread attempts to advance the
/// global epoch.
pub proof fn law_unlinked_stashes(l: Local, object: Object)
    requires
        l.wf(),
    ensures
        ({
            let l2 = l.stashed(object);
            &&& l.bag.len() + 1 < l.capacity ==> l2 == (Local { bag: l.bag.push(object), ..l })
            &&& l.bag.len() + 1 >= l.capacity ==> {
                &&& l2 == (Local {
                    bag: Seq::empty(),
                    closed: l.closed.push(l.bag.push(object)),
                    stack: l2.stack,
                    ..l
                })
                &&& l2.closed.last().len() == l.capacity
                &&& l2.stack.len() == l.stack.len() + 2
                &&& l2.stack.take(l.stack.len() as int) == l.stack
                &&& l2.stack[l.stack.len() as int] is Unlinked
                &&& l2.stack.last() == Frame::Advance(Advance::Start)
            }
        }),
{
    let l2 = l.stashed(object);
    if l.bag.len() + 1 >= l.capacity {
        assert(l2.stack.take(l.stack.len() as int) =~= l.stack);
    }
}

/// A thread that exits marks itself as pinned, and attempts to advance the global epoch.
pub proof fn law_exit_asks(l: Local, s: usize)
    requires
        l.wf(),
        l.can_exit(),
    ensures
        ({
            let l0 = l.begun_exit();
            let l1 = l0.resumed(Event::Word(s));
            let l2 = l1.resumed(Event::Done);
            let l3 = l2.resumed(Event::Done);
            let l4 = l3.resumed(Event::Done);
            &&& l0.wf()
            &&& l0 == (Local { stack: l0.stack, ..l })
            &&& l0.action() == Action::LoadState(Order::Relaxed)
            &&& l1.action() matches Action::StoreThread { word, order } && order == Order::Relaxed
                && word % 2 == 0 && word <= s <= word + 1
            &&& l2.action() == Action::Fence(Order::SeqCst)
            &&& l3.action() == Action::Proceed
            &&& l4 == (Local { stack: l4.stack, ..l })
            &&& l4.stack.len() == 2
            &&& l4.stack[0] is Exit
            &&& l4.stack[1] == Frame::Advance(Advance::Start)
        }),
{
    crate::harness::lemma_begun_wf(l);
    let l0 = l.begun_exit();
    law_set_pinned_asks(l0, s);
    let l1 = l0.resumed(Event::Word(s));
    let l2 = l1.resumed(Event::Done);
    assert(l.stack =~= Seq::empty());
    assert(l2.stack.drop_last() =~= seq![l0.stack[0]]);
}

/// When its attempt to advance returns, a thread that exits loads the global state and asks the
/// garbage queues to free what is safe to free in its epoch.
pub proof fn law_exit_collects(l: Local, event: Event, s: usize)
    requires
        l.wf(),
        l.stack.len() == 2,
        l.stack[0] is Exit,
        l.stack[1] is Advance,
        l.action().allows(event),
        l.resumed(event).stack.len() == 1,
    ensures
        ({
            let l1 = l.resumed(event);
            let l2 = l1.resumed(Event::Word(s));
            &&& l1.action() == Action::LoadState(Order::SeqCst)
            &&& l2.action() matches Action::Collect { epoch } && epoch % 2 == 0 && epoch <= s
                <= epoch + 1
            &&& l2 == (Local { stack: l2.stack, ..l })
            &&& l2.stack.len() == 1
            &&& l2.stack[0] is Exit
        }),
{
    lemma_chained_at(l.stack, 1);
    assert(l.stack.last() == l.stack[1]);
    lemma_attempt_returns(l, event);
    assert(l.stack.drop_last().last() == l.stack[0]);
}

/// Once the garbage queues have freed some garbage, a thread that exits loads the global state again,
/// and asks them to take its local bag, marked with the epoch of that word. If they tell it to, it
/// sets the urgency flag. Then it marks itself as unpinned, and marks its entry as deleted.
#[verifier::rlimit(40)]
pub proof fn law_exit_pushes(l: Local, u: Urgency, s: usize)
    requires
        l.wf(),
        l.stack.len() == 1,
        l.stack[0] is Exit,
        l.action() is Collect,
    ensures
        ({
            let l1 = l.resumed(Event::Reply(u));
            let l2 = l1.resumed(Event::Word(s));
            let urgent = l2.resumed(Event::Reply(Urgency::Urgent));
            let l3 = l2.resumed(Event::Reply(Urgency::Normal));
            let l4 = l3.resumed(Event::Done);
            let l5 = l4.resumed(Event::Done);
            let l6 = l5.resumed(Event::Done);
            let pushed = Local { bag: Seq::empty(), ..l };
            &&& l1.action() == Action::LoadState(Order::SeqCst)
            &&& l1 == (Local { stack: l1.stack, ..l })
            &&& l2.action() matches Action::Push { epoch } && epoch % 2 == 0 && epoch <= s <= epoch
                + 1
            &&& l2 == (Local {
                bag: Seq::empty(),
                closed: l.closed.push(l.bag),
                stack: l2.stack,
                ..l
            })
            &&& urgent.action() == Action::RaiseState(Order::SeqCst)
            &&& urgent.resumed(Event::Done) == l3
            &&& l3.action() == Action::Fence(Order::Release)
            &&& l3 == (Local { stack: l3.stack, ..pushed })
            &&& l4.action() matches Action::StoreThread { word, order } && order == Order::Relaxed
                && word % 2 == 1
            &&& l5.action() == Action::Proceed
            &&& l6.stack.last() is Unregister
            &&& l6.action() == (Action::LoadLink {
                slot: Slot::Next(l.thread),
                order: Order::Acquire,
            })
            &&& l6 == (Local { stack: l6.stack, ..pushed })
            &&& l6.stack.len() == 2
        }),
{
    let l1 = l.resumed(Event::Reply(u));
    let pushed = Local { bag: Seq::empty(), ..l };
    let leaving = Frame::Exit(Exit::Leaving);
    assert(l.stack.last() == l.stack[0]);
    assert(l1 =~= Local { stack: seq![Frame::Exit(Exit::Collected)], ..l });
    let l2 = l1.resumed(Event::Word(s));
    assert(l2.stack =~= seq![l2.stack.last()]);
    assert(l2.closed.drop_last() =~= l.closed);
    let urgent = l2.resumed(Event::Reply(Urgency::Urgent));
    assert(urgent =~= Local { stack: seq![Frame::Exit(Exit::Raising)], ..pushed });
    let l3 = l2.resumed(Event::Reply(Urgency::Normal));
    assert(l3 =~= Local {
        stack: seq![leaving, Frame::SetUnpinned(SetUnpinned::Fence)],
        ..pushed
    });
    assert(urgent.resumed(Event::Done) =~= l3);
    let l4 = l3.resumed(Event::Done);
    assert(l4 =~= Local {
        stack: seq![leaving, Frame::SetUnpinned(SetUnpinned::Store)],
        ..pushed
    });
    let l5 = l4.resumed(Event::Done);
    assert(l4.stack.drop_last() =~= seq![leaving]);
    assert(l5 =~= Local { stack: seq![Frame::Exit(Exit::Left)], ..pushed });
    let l6 = l5.resumed(Event::Done);
    assert(l6 =~= Local {
        stack: seq![Frame::Exit(Exit::Unregistering), Frame::Unregister(Unregister::Load)],
        ..pushed
    });
}

/// Once its entry is marked as deleted, a thread that exits is done.
pub proof fn law_exit_ends(l: Local, event: Event)
    requires
        l.wf(),
        l.stack.len() == 2,
        l.stack[1] is Unregister,
        l.action().allows(event),
        l.resumed(event).stack.len() == 1,
    ensures
        l.resumed(event).action() == Action::Proceed,
        l.resumed(event).resumed(Event::Done) == (Local {
            stack: Seq::empty(),
            exited: true,
            ..l
        }),
{
    lemma_chained_at(l.stack, 1);
    assert(l.stack.last() == l.stack[1]);
    let l1 = l.resumed(event);
    assert(l.stack.drop_last().last() == l.stack[0]);
    assert(l1.resumed(Event::Done) =~= Local { stack: Seq::empty(), exited: true, ..l });
}

/// A thread that has just been registered with bags of `capacity` objects has no guard, no garbage
/// and nothing to do.
pub proof fn law_fresh(thread: usize, capacity: nat)
    ensures
        ({
            let l = Local::fresh(thread, capacity);
            &&& l.thread == thread
            &&& l.capacity == capacity
            &&& l.pin_count == 0
            &&& l.bag.len() == 0
            &&& l.closed.len() == 0
            &&& l.stack.len() == 0
            &&& !l.exited
        }),
{
}

/// A thread after it has announced objects one after another, without accesses in between.
pub open spec fn stashed_all(l: Local, objects: Seq<Object>) -> Local
    decreases objects.len(),
{
    if objects.len() == 0 {
        l
    } else {
        stashed_all(l, objects.drop_last()).stashed(objects.last())
    }
}

/// A thread that was registered with bags of `capacity` objects, and is pinned, announces one object
/// less than that, and all stay in its bag while it has nothing to do. The next one closes a bag of
/// exactly these `capacity` objects.
pub proof fn law_capacity(l: Local, thread: usize, capacity: nat, objects: Seq<Object>, last: Object)
    requires
        l == (Local { pin_count: l.pin_count, ..Local::fresh(thread, capacity) }),
        objects.len() < capacity,
    ensures
        stashed_all(l, objects) == (Local { bag: objects, ..l }),
        stashed_all(l, objects).idle(),
        objects.len() + 1 < capacity ==> stashed_all(l, objects.push(last)).bag == objects.push(last)
            && stashed_all(l, objects.push(last)).idle(),
        objects.len() + 1 == capacity ==> stashed_all(l, objects.push(last)).closed == seq![
            objects.push(last),
        ] && stashed_all(l, objects.push(last)).bag.len() == 0 && stashed_all(
            l,
            objects.push(last),
        ).action() == Action::LoadState(Order::SeqCst),
    decreases objects.len(),
{
    if objects.len() > 0 {
        law_capacity(l, thread, capacity, objects.drop_last(), last);
        assert(objects.drop_last().push(objects.last()) =~= objects);
    }
    assert(stashed_all(l, objects) =~= Local { bag: objects, ..l });
    assert(objects.push(last).drop_last() =~= objects);
    if objects.len() + 1 == capacity {
        assert(stashed_all(l, objects.push(last)).closed =~= seq![objects.push(last)]);
    }
}

/// A thread stops where it has nothing to do, or asks the garbage queues for something.
pub proof fn law_stopped(l: Local)
    ensures
        l.idle() <==> l.stack.len() == 0,
        l.stopped() <==> l.stack.len() == 0 || l.action() is Collect || l.action() is Push,
        !l.idle() ==> (l.action().is_outside() <==> l.action() is Collect || l.action() is Push),
{
}

/// Code outside of this library can run in a thread that has not exited if it has nothing to do, or
/// asks the garbage queues to free garbage or to take a full bag.
pub proof fn law_open(l: Local)
    requires
        l.wf(),
    ensures
        l.open() <==> !l.exited && (l.stack.len() == 0 || l.action() is Collect || l.action() is Push
            && l.stack.last() is Unlinked),
{
}

/// A thread that has not exited and has nothing to do can be pinned, can drop a guard or announce an
/// object if and only if it holds a guard, and can exit if and only if it holds none.
///
/// While it asks the garbage queues to free garbage or to take a full bag, it can announce objects,
/// can be pinned if it holds a guard, and can drop any guard but the last.
pub proof fn law_can(l: Local)
    requires
        !l.exited,
    ensures
        l.stack.len() == 0 ==> {
            &&& l.can_pin() <==> l.pin_count < usize::MAX
            &&& l.can_unpin() <==> l.pin_count > 0
            &&& l.can_unlink() <==> l.pin_count > 0
            &&& l.can_exit() <==> l.pin_count == 0
        },
        l.stack.len() > 0 && (l.action() is Collect || l.action() is Push && l.stack.last()
            is Unlinked) ==> {
            &&& l.can_pin() <==> 0 < l.pin_count < usize::MAX
            &&& l.can_unpin() <==> l.pin_count > 1
            &&& l.can_unlink()
        },
{
}

/// What it means that the running routine is at another point, and that it calls another routine:
/// only the top of the stack changes.
pub proof fn law_frames(l: Local, frame: Frame)
    ensures
        l.stack.len() > 0 ==> l.at(frame) == (Local {
            stack: l.stack.update(l.stack.len() - 1, frame),
            ..l
        }),
        l.called(frame) == (Local { stack: l.called(frame).stack, ..l }),
        l.called(frame).stack.len() == l.stack.len() + 1,
        l.called(frame).stack.take(l.stack.len() as int) == l.stack,
        l.called(frame).stack.last() == frame,
{
    if l.stack.len() > 0 {
        assert(l.at(frame) =~= Local { stack: l.stack.update(l.stack.len() - 1, frame), ..l });
    }
    assert(l.called(frame).stack.take(l.stack.len() as int) =~= l.stack);
}

/// To register, a thread loads the head of the list, and tries to publish an entry with an odd word
/// and a link to the head that it was told last, until that succeeds.
pub proof fn law_register_asks(head: Link)
    ensures
        Register::Load.spec_action() == (Action::LoadLink {
            slot: Slot::Head,
            order: Order::Acquire,
        }),
        (Register::Publish { head }).spec_action() matches Action::Publish { word, next, order }
            && word % 2 == 1 && next == head && order == Order::AcqRel,
{
}

} // verus!
