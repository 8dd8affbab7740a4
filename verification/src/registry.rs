//! The memory that the threads share: the global state and the list of participating threads.
use crate::access::{Action, Event, Link, Slot};
use crate::routine::{Advance, Frame, Unregister};
use vstd::prelude::*;

verus! {

/// An entry in the list of participating threads.
#[derive(Clone, Copy, Debug, PartialEq, Eq, Structural)]
pub struct Thread {
    /// The global epoch just before the thread got pinned, or an odd number if the thread is not
    /// pinned.
    pub state: usize,
    /// The next thread in the list. The flag signifies that this entry is deleted.
    pub next: Link,
}

/// The memory that the threads share, as contracts speak of it.
///
/// An entry is named by the number of entries that were published before it. Names are never used
/// twice.
#[verifier::ext_equal]
pub struct Memory {
    /// The global state: the epoch and the urgency flag.
    pub state: usize,
    /// The head of the list of participating threads.
    pub head: Link,
    /// All entries that were ever published.
    pub threads: Seq<Thread>,
}

/// The entry that a link points to, or -1 at the end of the list.
pub open spec fn target(link: Link) -> int {
    match link.to {
        Some(i) => i as int,
        None => -1,
    }
}

impl Memory {
    /// The memory before any thread was registered.
    pub open spec fn initial() -> Memory {
        Memory { state: 0, head: Link { to: None, deleted: false }, threads: Seq::empty() }
    }

    /// Whether there is a slot.
    pub open spec fn has(self, slot: Slot) -> bool {
        match slot {
            Slot::Head => true,
            Slot::Next(i) => i < self.threads.len(),
        }
    }

    /// The link in a slot.
    pub open spec fn link(self, slot: Slot) -> Link {
        match slot {
            Slot::Head => self.head,
            Slot::Next(i) => self.threads[i as int].next,
        }
    }

    /// The entry that a slot belongs to; the head comes after all entries.
    pub open spec fn position(self, slot: Slot) -> int {
        match slot {
            Slot::Head => self.threads.len() as int,
            Slot::Next(i) => i as int,
        }
    }

    /// The memory with another link in a slot.
    pub open spec fn with_link(self, slot: Slot, link: Link) -> Memory {
        match slot {
            Slot::Head => Memory { head: link, ..self },
            Slot::Next(i) => Memory {
                threads: self.threads.update(
                    i as int,
                    Thread { next: link, ..self.threads[i as int] },
                ),
                ..self
            },
        }
    }

    /// The memory with another word in an entry.
    pub open spec fn with_word(self, thread: usize, word: usize) -> Memory {
        Memory {
            threads: self.threads.update(
                thread as int,
                Thread { state: word, ..self.threads[thread as int] },
            ),
            ..self
        }
    }

    /// Whether the action of a thread accesses only what is there.
    pub open spec fn reaches(self, thread: usize, action: Action) -> bool {
        match action {
            Action::LoadThread { thread, .. } => thread < self.threads.len(),
            Action::StoreThread { .. } => thread < self.threads.len(),
            Action::LoadLink { slot, .. } => self.has(slot),
            Action::SwapLink { slot, .. } => self.has(slot),
            _ => true,
        }
    }

    /// Whether an event can be the outcome of an action in this memory.
    pub open spec fn tells(self, action: Action, event: Event) -> bool {
        &&& action.allows(event)
        &&& match action {
            Action::LoadState(_) => event == Event::Word(self.state),
            Action::LoadThread { thread, .. } => event == Event::Word(
                self.threads[thread as int].state,
            ),
            Action::LoadLink { slot, .. } => event == Event::Link(self.link(slot)),
            Action::SwapLink { slot, from, weak, .. } => match event {
                Event::Kept(link) => link == self.link(slot) && (weak || link != from),
                _ => self.link(slot) == from,
            },
            Action::Publish { next, .. } => match event {
                Event::Published(thread) => thread == self.threads.len() && self.head == next,
                _ => event == Event::Kept(self.head),
            },
            _ => true,
        }
    }

    /// The memory after an action of a thread that had this outcome.
    pub open spec fn after(self, thread: usize, action: Action, event: Event) -> Memory {
        match action {
            Action::SwapState { expected, new, .. } => if self.state == expected {
                Memory { state: new, ..self }
            } else {
                self
            },
            Action::RaiseState(_) => Memory { state: crate::state::raised(self.state), ..self },
            Action::StoreThread { word, .. } => self.with_word(thread, word),
            Action::SwapLink { slot, into, .. } => if event is Swapped {
                self.with_link(slot, into)
            } else {
                self
            },
            Action::Publish { word, next, .. } => if event is Published {
                Memory {
                    head: Link { to: Some(self.threads.len() as usize), deleted: false },
                    threads: self.threads.push(Thread { state: word, next }),
                    ..self
                }
            } else {
                self
            },
            _ => self,
        }
    }

    /// The outcome of an action when nothing fails without a reason.
    pub open spec fn outcome(self, action: Action) -> Event {
        match action {
            Action::LoadState(_) => Event::Word(self.state),
            Action::LoadThread { thread, .. } => Event::Word(self.threads[thread as int].state),
            Action::LoadLink { slot, .. } => Event::Link(self.link(slot)),
            Action::SwapLink { slot, from, .. } => if self.link(slot) == from {
                Event::Swapped
            } else {
                Event::Kept(self.link(slot))
            },
            Action::Publish { next, .. } => if self.head == next {
                Event::Published(self.threads.len() as usize)
            } else {
                Event::Kept(self.head)
            },
            _ => Event::Done,
        }
    }

    /// Whether an entry is marked as deleted.
    pub open spec fn deleted(self, i: int) -> bool {
        self.threads[i].next.deleted
    }

    /// Whether a link in a slot of entry `i` points further down the list, past deleted entries
    /// only.
    pub open spec fn hops(self, link: Link, i: int) -> bool {
        &&& target(link) < i
        &&& forall|k: int| target(link) < k < i ==> #[trigger] self.deleted(k)
    }

    /// What holds of the list at any time: every link points to an entry that was published
    /// earlier, and every entry that is not deleted can be reached from the head.
    pub open spec fn list_wf(self) -> bool {
        &&& !self.head.deleted
        &&& self.hops(self.head, self.threads.len() as int)
        &&& forall|i: int|
            0 <= i < self.threads.len() ==> self.hops((#[trigger] self.threads[i]).next, i)
    }

    /// Whether what a frame remembers of the list is still true.
    pub open spec fn fits(self, frame: Frame) -> bool {
        match frame {
            Frame::Advance(Advance::Visit { pred, curr, .. }) => {
                &&& self.has(pred)
                &&& target(curr) < self.position(pred)
                &&& !curr.deleted
            },
            Frame::Advance(Advance::Remove { pred, curr, thread, succ, .. }) => {
                &&& self.has(pred)
                &&& thread < self.position(pred)
                &&& curr == Link { to: Some(thread), deleted: false }
                &&& self.threads[thread as int].next == Link { to: succ.to, deleted: true }
                &&& !succ.deleted
            },
            Frame::Advance(Advance::Check { thread, succ, .. }) => {
                &&& thread < self.threads.len()
                &&& self.hops(succ, thread as int)
                &&& !succ.deleted
            },
            Frame::Unregister(Unregister::Mark { next }) => !next.deleted,
            _ => true,
        }
    }

    /// Whether a memory can have become another one: entries are never taken away, and a deleted
    /// entry keeps its link.
    pub open spec fn grows_to(self, later: Memory) -> bool {
        &&& self.threads.len() <= later.threads.len()
        &&& forall|i: int|
            0 <= i < self.threads.len() && (#[trigger] self.threads[i]).next.deleted
                ==> later.threads[i].next == self.threads[i].next
    }
}

/// The memory that the threads share.
pub struct Registry {
    state: usize,
    head: Link,
    threads: Vec<Thread>,
}

impl View for Registry {
    type V = Memory;

    closed spec fn view(&self) -> Memory {
        Memory { state: self.state, head: self.head, threads: self.threads@ }
    }
}

impl Registry {
    /// Returns the memory before any thread was registered.
    pub fn new() -> (r: Registry)
        ensures
            r@ == Memory::initial(),
            r@.list_wf(),
    {
        let r = Registry {
            state: 0,
            head: Link { to: None, deleted: false },
            threads: Vec::new(),
        };
        assert(r@ =~= Memory::initial());
        r
    }

    /// Returns the global state.
    pub fn state(&self) -> (state: usize)
        ensures
            state == self@.state,
    {
        self.state
    }

    /// Returns the head of the list of participating threads.
    pub fn head(&self) -> (head: Link)
        ensures
            head == self@.head,
    {
        self.head
    }

    /// Returns the number of entries that were ever published.
    pub fn len(&self) -> (n: usize)
        ensures
            n == self@.threads.len(),
    {
        self.threads.len()
    }

    /// Returns an entry.
    pub fn entry(&self, thread: usize) -> (entry: Thread)
        requires
            thread < self@.threads.len(),
        ensures
            entry == self@.threads[thread as int],
    {
        self.threads[thread]
    }

    fn link(&self, slot: Slot) -> (link: Link)
        requires
            self@.has(slot),
        ensures
            link == self@.link(slot),
    {
        match slot {
            Slot::Head => self.head,
            Slot::Next(i) => self.threads[i].next,
        }
    }

    fn set_link(&mut self, slot: Slot, link: Link)
        requires
            old(self)@.has(slot),
        ensures
            final(self)@ == old(self)@.with_link(slot, link),
    {
        match slot {
            Slot::Head => {
                self.head = link;
            },
            Slot::Next(i) => {
                let entry = self.threads[i];
                self.threads.set(i, Thread { state: entry.state, next: link });
            },
        }
        assert(self@ =~= old(self)@.with_link(slot, link));
    }

    /// Performs the action of a thread, all at once.
    pub fn perform(&mut self, thread: usize, action: Action) -> (event: Event)
        requires
            old(self)@.reaches(thread, action),
            !action.is_outside(),
        ensures
            event == old(self)@.outcome(action),
            old(self)@.tells(action, event),
            final(self)@ == old(self)@.after(thread, action, event),
    {
        match action {
            Action::LoadState(_) => Event::Word(self.state),
            Action::SwapState { expected, new, .. } => {
                if self.state == expected {
                    self.state = new;
                }
                Event::Done
            },
            Action::RaiseState(_) => {
                self.state = crate::state::raise(self.state);
                Event::Done
            },
            Action::LoadThread { thread, .. } => Event::Word(self.threads[thread].state),
            Action::StoreThread { word, .. } => {
                let entry = self.threads[thread];
                self.threads.set(thread, Thread { state: word, next: entry.next });
                assert(self@ =~= old(self)@.with_word(thread, word));
                Event::Done
            },
            Action::LoadLink { slot, .. } => Event::Link(self.link(slot)),
            Action::SwapLink { slot, from, into, .. } => {
                let link = self.link(slot);
                if link == from {
                    self.set_link(slot, into);
                    Event::Swapped
                } else {
                    Event::Kept(link)
                }
            },
            Action::Publish { word, next, .. } => {
                if self.head == next {
                    let thread: usize = self.threads.len();
                    self.threads.push(Thread { state: word, next });
                    self.head = Link { to: Some(thread), deleted: false };
                    Event::Published(thread)
                } else {
                    Event::Kept(self.head)
                }
            },
            _ => Event::Done,
        }
    }
}

} // verus!
