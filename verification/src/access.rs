//! What a thread asks of the memory that it shares with the others, and what it is told.
//!
//! Every access that another thread could observe is a single [`Action`], and the outcome of the
//! access is an [`Event`]. Two more actions are no accesses: they hand work to the garbage queues.
use crate::state::Urgency;
use vstd::prelude::*;

verus! {

/// How an access is ordered with respect to the accesses around it.
#[derive(Clone, Copy, Debug, PartialEq, Eq, Structural)]
pub enum Order {
    Relaxed,
    Acquire,
    Release,
    AcqRel,
    SeqCst,
}

/// A pointer to a thread entry, tagged with a flag.
///
/// In the link of an entry the flag says that this entry is deleted and can be freely removed from
/// the list.
#[derive(Clone, Copy, Debug, PartialEq, Eq, Structural)]
pub struct Link {
    pub to: Option<usize>,
    pub deleted: bool,
}

/// A place that holds a link.
#[derive(Clone, Copy, Debug, PartialEq, Eq, Structural)]
pub enum Slot {
    /// The head of the list of participating threads.
    Head,
    /// The link of an entry to the next entry in the list.
    Next(usize),
}

/// What a thread asks for next.
#[derive(Clone, Copy, Debug, PartialEq, Eq, Structural)]
pub enum Action {
    /// Nothing: the thread only goes on with its own data.
    Proceed,
    /// A memory fence.
    Fence(Order),
    /// Load the global state.
    LoadState(Order),
    /// Replace the global state if it still is what it is expected to be.
    SwapState { expected: usize, new: usize, order: Order },
    /// Set the urgency flag of the global state.
    RaiseState(Order),
    /// Load the word of an entry.
    LoadThread { thread: usize, order: Order },
    /// Store a word into the entry of the thread itself.
    StoreThread { word: usize, order: Order },
    /// Load a link.
    LoadLink { slot: Slot, order: Order },
    /// Replace a link if it still is what it is expected to be. A weak replacement may fail
    /// without a reason.
    SwapLink { slot: Slot, from: Link, into: Link, order: Order, weak: bool },
    /// Make a new entry with this word and this link, and make it the head of the list if the head
    /// still is this link. May fail without a reason.
    Publish { word: usize, next: Link, order: Order },
    /// Free some of the garbage that is safe to free now that `epoch` is the global epoch.
    Collect { epoch: usize },
    /// Push the bag that was closed last into the garbage queues, marked with `epoch`.
    Push { epoch: usize },
}

/// What became of an action.
#[derive(Clone, Copy, Debug, PartialEq, Eq, Structural)]
pub enum Event {
    /// It is done.
    Done,
    /// The word that was loaded.
    Word(usize),
    /// The link that was loaded.
    Link(Link),
    /// The link was replaced.
    Swapped,
    /// The link was not replaced; this is what it was.
    Kept(Link),
    /// The new entry is the head of the list.
    Published(usize),
    /// The garbage queues are done, and this is how urgent the collection of garbage is.
    Reply(Urgency),
}

impl Action {
    /// Whether the action is carried out by the garbage queues and not by the memory.
    pub open spec fn is_outside(self) -> bool {
        self is Collect || self is Push
    }

    /// Whether an event can be the outcome of the action.
    pub open spec fn allows(self, event: Event) -> bool {
        match self {
            Action::Proceed
            | Action::Fence(_)
            | Action::SwapState { .. }
            | Action::RaiseState(_)
            | Action::StoreThread { .. } => event is Done,
            Action::LoadState(_) | Action::LoadThread { .. } => event is Word,
            Action::LoadLink { .. } => event is Link,
            Action::SwapLink { .. } => event is Swapped || event is Kept,
            Action::Publish { .. } => event is Published || event is Kept,
            Action::Collect { .. } | Action::Push { .. } => event is Reply,
        }
    }

    /// Tells whether the action is carried out by the garbage queues and not by the memory.
    pub fn outside(self) -> (b: bool)
        ensures
            b == self.is_outside(),
    {
        match self {
            Action::Collect { .. } | Action::Push { .. } => true,
            _ => false,
        }
    }
}

} // verus!
