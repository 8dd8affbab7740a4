//! What each access does to the memory, said of the words and links that are there before and after.
use crate::access::{Action, Event, Link, Order, Slot};
use crate::registry::{Memory, Thread};
use vstd::prelude::*;

verus! {

/// Loads and fences tell what is in the memory and leave it as it is, and so does what the garbage
/// queues do.
pub proof fn law_load(m: Memory, t: usize, action: Action, event: Event)
    requires
        m.tells(action, event),
        action is Proceed || action is Fence || action is LoadState || action is LoadThread
            || action is LoadLink || action is Collect || action is Push,
    ensures
        m.after(t, action, event) == m,
        action is LoadState ==> event == Event::Word(m.state),
        action matches Action::LoadThread { thread, .. } ==> event == Event::Word(
            m.threads[thread as int].state,
        ),
        action matches Action::LoadLink { slot: Slot::Head, .. } ==> event == Event::Link(m.head),
        action matches Action::LoadLink { slot: Slot::Next(i), .. } ==> event == Event::Link(
            m.threads[i as int].next,
        ),
        action is Proceed || action is Fence ==> event == Event::Done,
        action is Collect || action is Push ==> event is Reply,
{
}

/// The global state is replaced if and only if it is what it is expected to be, and nothing else
/// changes.
pub proof fn law_swap_state(m: Memory, t: usize, expected: usize, new: usize, order: Order)
    ensures
        ({
            let action = Action::SwapState { expected, new, order };
            let later = m.after(t, action, Event::Done);
            &&& m.outcome(action) == Event::Done
            &&& forall|event: Event| #[trigger] m.tells(action, event) <==> event == Event::Done
            &&& m.state == expected ==> later.state == new
            &&& m.state != expected ==> later.state == m.state
            &&& later.head == m.head
            &&& later.threads == m.threads
        }),
{
}

/// Raising the global state makes it odd, by adding one or nothing, and nothing else changes.
pub proof fn law_raise_state(m: Memory, t: usize, order: Order)
    ensures
        ({
            let action = Action::RaiseState(order);
            let later = m.after(t, action, Event::Done);
            &&& m.outcome(action) == Event::Done
            &&& forall|event: Event| #[trigger] m.tells(action, event) <==> event == Event::Done
            &&& later.state % 2 == 1
            &&& later.state == m.state || later.state == m.state + 1
            &&& later.head == m.head
            &&& later.threads == m.threads
        }),
{
    crate::state::law_raised_word(m.state);
}

/// A thread stores a word into its own entry, and every later load of that word tells it. Nothing
/// else changes.
pub proof fn law_store_word(m: Memory, t: usize, word: usize, order: Order)
    requires
        t < m.threads.len(),
    ensures
        ({
            let action = Action::StoreThread { word, order };
            let later = m.after(t, action, Event::Done);
            &&& m.outcome(action) == Event::Done
            &&& forall|event: Event| #[trigger] m.tells(action, event) <==> event == Event::Done
            &&& later.state == m.state
            &&& later.head == m.head
            &&& later.threads.len() == m.threads.len()
            &&& later.threads[t as int].state == word
            &&& later.threads[t as int].next == m.threads[t as int].next
            &&& forall|u: int|
                0 <= u < m.threads.len() && u != t ==> #[trigger] later.threads[u] == m.threads[u]
            &&& later == m.with_word(t, word)
        }),
{
}

/// A link is replaced only if it is what it is expected to be, and then it is what it is to become.
/// If it is not replaced, the thread is told what it is. A replacement that is not weak fails only
/// if the link is something else. Nothing else changes.
pub proof fn law_swap_link(
    m: Memory,
    t: usize,
    slot: Slot,
    from: Link,
    into: Link,
    order: Order,
    weak: bool,
)
    requires
        m.has(slot),
    ensures
        ({
            let action = Action::SwapLink { slot, from, into, order, weak };
            let link = match slot {
                Slot::Head => m.head,
                Slot::Next(i) => m.threads[i as int].next,
            };
            let later = m.after(t, action, Event::Swapped);
            &&& m.tells(action, Event::Swapped) <==> link == from
            &&& m.outcome(action) == (if link == from {
                Event::Swapped
            } else {
                Event::Kept(link)
            })
            &&& forall|kept: Link|
                {
                    &&& #[trigger] m.tells(action, Event::Kept(kept)) <==> kept == link && (weak
                        || link != from)
                    &&& m.after(t, action, Event::Kept(kept)) == m
                }
            &&& forall|event: Event| #[trigger]
                m.tells(action, event) ==> event is Swapped || event is Kept
            &&& later.state == m.state
            &&& later.threads.len() == m.threads.len()
            &&& later.head == (if slot is Head {
                into
            } else {
                m.head
            })
            &&& forall|u: int|
                0 <= u < m.threads.len() ==> {
                    &&& (#[trigger] later.threads[u]).state == m.threads[u].state
                    &&& later.threads[u].next == (if slot == Slot::Next(u as usize) && u <= usize::MAX {
                        into
                    } else {
                        m.threads[u].next
                    })
                }
            &&& later == m.with_link(slot, into)
        }),
{
}

/// A new entry is published only if the head is the link that it holds, and then the head leads to
/// it. If it is not published, the thread is told what the head is. No other entry changes.
pub proof fn law_publish(m: Memory, t: usize, word: usize, next: Link, order: Order)
    requires
        m.threads.len() <= usize::MAX,
    ensures
        ({
            let action = Action::Publish { word, next, order };
            let n = m.threads.len() as usize;
            let later = m.after(t, action, Event::Published(n));
            &&& forall|i: usize| #[trigger]
                m.tells(action, Event::Published(i)) <==> i == m.threads.len() && m.head == next
            &&& m.outcome(action) == (if m.head == next {
                Event::Published(n)
            } else {
                Event::Kept(m.head)
            })
            &&& forall|kept: Link|
                {
                    &&& #[trigger] m.tells(action, Event::Kept(kept)) <==> kept == m.head
                    &&& m.after(t, action, Event::Kept(kept)) == m
                }
            &&& forall|event: Event| #[trigger]
                m.tells(action, event) ==> event is Published || event is Kept
            &&& later.state == m.state
            &&& later.head.to == Some(n)
            &&& !later.head.deleted
            &&& later.threads.len() == m.threads.len() + 1
            &&& later.threads[n as int].state == word
            &&& later.threads[n as int].next == next
            &&& forall|u: int|
                0 <= u < m.threads.len() ==> #[trigger] later.threads[u] == m.threads[u]
        }),
{
}

/// Before any thread was registered, the epoch is zero, garbage need not be urgently collected, and
/// the list is empty.
pub proof fn law_initial()
    ensures
        Memory::initial().state == 0,
        Memory::initial().head.to is None,
        !Memory::initial().head.deleted,
        Memory::initial().threads == Seq::<Thread>::empty(),
        crate::world::World::initial().mem == Memory::initial(),
        crate::world::World::initial().locals.len() == 0,
{
}

} // verus!
