//! The routines that a thread runs, one access at a time.
//!
//! A [`Frame`] is a routine together with the point that it has reached. It asks for an [`Action`],
//! is told the [`Event`], and makes a [`Move`]. Between two accesses of one thread any number of
//! accesses of other threads can happen, so nothing is assumed of an event beyond its kind.
use crate::access::{Action, Event, Link, Order, Slot};
use crate::state::{epoch_of, is_pinned, next_epoch_of, urgency_of, Urgency, UNPINNED};
use vstd::prelude::*;

verus! {

/// Marks the thread as pinned and returns the urgency just before pinning.
///
/// Must not be run if the thread is already pinned.
#[derive(Clone, Copy, Debug, PartialEq, Eq, Structural)]
pub enum SetPinned {
    /// Load the global state.
    Load,
    /// Announce the epoch.
    Store { state: usize },
    /// Any further loads must not precede the store: the epoch of this thread must be fully
    /// announced before anything is loaded from the shared memory.
    Fence { state: usize },
}

/// Marks the thread as unpinned.
#[derive(Clone, Copy, Debug, PartialEq, Eq, Structural)]
pub enum SetUnpinned {
    Fence,
    Store,
}

/// Unregisters the thread by marking its entry as deleted.
///
/// This does not remove the entry from the list. Any later [`Advance`] will do that.
#[derive(Clone, Copy, Debug, PartialEq, Eq, Structural)]
pub enum Unregister {
    /// Load the link of the entry.
    Load,
    /// Mark the link of the entry, which was `next` when last seen.
    Mark { next: Link },
}

/// Attempts to advance the global epoch.
///
/// The global epoch can advance only if all currently pinned threads have been pinned in the
/// current epoch. Entries of threads that have exited are removed from the list on the way.
#[derive(Clone, Copy, Debug, PartialEq, Eq, Structural)]
pub enum Advance {
    /// Load the global state.
    Start,
    /// Load the head of the list.
    Head { state: usize },
    /// Go on with the entry that `curr` points to, which was loaded from `pred`. At the end of the
    /// list, advance the epoch.
    Visit { state: usize, pred: Slot, curr: Link },
    /// The thread of entry `thread` has exited: remove the entry from the list.
    Remove { state: usize, pred: Slot, curr: Link, thread: usize, succ: Link },
    /// The thread of entry `thread` has not exited: look whether it lets the epoch advance.
    Check { state: usize, thread: usize, succ: Link },
}

/// Gets rid of a bag that is full, after it was replaced by a fresh one.
#[derive(Clone, Copy, Debug, PartialEq, Eq, Structural)]
pub enum Unlinked {
    /// Waits for [`Advance`].
    Advancing,
    /// Load the global state.
    Advanced,
    /// Spare some cycles on garbage collection.
    Collecting { epoch: usize },
    /// Push the full bag into the garbage queues.
    Pushing { epoch: usize },
    /// Say that garbage must be urgently collected.
    Raising,
}

/// Pins a thread that holds no guard yet.
#[derive(Clone, Copy, Debug, PartialEq, Eq, Structural)]
pub enum Pin {
    /// Waits for [`SetPinned`].
    Entering,
    /// Pinned; done unless garbage must be urgently collected.
    Entered { urgency: Urgency },
    /// Waits for [`Advance`].
    Advancing,
    /// Load the global state.
    Advanced,
    /// Collect some garbage.
    Collecting { state: usize },
    /// Clear the urgency flag.
    Clearing { state: usize },
    /// Waits for [`SetUnpinned`].
    Unpinning,
    /// Unpinned, in order to help advance the epoch as quickly as possible.
    Unpinned,
    /// Waits for [`SetPinned`].
    Repinning,
    /// Pinned again; done.
    Repinned,
}

/// Leaves the list of participating threads when the thread exits.
#[derive(Clone, Copy, Debug, PartialEq, Eq, Structural)]
pub enum Exit {
    /// Waits for [`SetPinned`].
    Entering,
    /// Pinned.
    Entered,
    /// Waits for [`Advance`].
    Advancing,
    /// Load the global state.
    Advanced,
    /// Spare some cycles on garbage collection. This may itself produce garbage.
    Collecting { epoch: usize },
    /// Load the global state again: the local bag is marked with an epoch that is no older than
    /// the garbage that was produced meanwhile.
    Collected,
    /// Push the local bag into the garbage queues.
    Pushing { epoch: usize },
    /// Say that garbage must be urgently collected.
    Raising,
    /// Waits for [`SetUnpinned`].
    Leaving,
    /// Unpinned.
    Left,
    /// Waits for [`Unregister`].
    Unregistering,
    /// The entry is marked as deleted; done.
    Unregistered,
}

/// A routine and the point that it has reached.
#[derive(Clone, Copy, Debug, PartialEq, Eq, Structural)]
pub enum Frame {
    SetPinned(SetPinned),
    SetUnpinned(SetUnpinned),
    Unregister(Unregister),
    Advance(Advance),
    Unlinked(Unlinked),
    Pin(Pin),
    Exit(Exit),
}

/// What a routine does once it knows the outcome of its action.
#[derive(Clone, Copy, Debug, PartialEq, Eq, Structural)]
pub enum Move {
    /// Go on at the frame.
    Goto(Frame),
    /// Run the second frame, and then go on at the first.
    Call(Frame, Frame),
    /// Announce that the entry of a thread became unreachable, and then go on at the frame.
    Stash(Frame, usize),
    /// Return to the caller. The urgency is the result of [`SetPinned`]; no other routine has one.
    Return(Urgency),
}

/// Registers a thread by adding a new entry to the list of participating threads.
///
/// This is the one routine that a thread runs before it has an entry, so it is never called by
/// another one.
#[derive(Clone, Copy, Debug, PartialEq, Eq, Structural)]
pub enum Register {
    /// Load the head of the list.
    Load,
    /// Try installing the entry of this thread as the new head.
    Publish { head: Link },
}

impl Register {
    /// The action that the routine asks for.
    pub open spec fn spec_action(self) -> Action {
        match self {
            Register::Load => Action::LoadLink { slot: Slot::Head, order: Order::Acquire },
            Register::Publish { head } => Action::Publish {
                word: UNPINNED,
                next: head,
                order: Order::AcqRel,
            },
        }
    }

    /// Returns the action that the routine asks for.
    pub fn action(self) -> (a: Action)
        ensures
            a == self.spec_action(),
    {
        match self {
            Register::Load => Action::LoadLink { slot: participants(), order: Order::Acquire },
            Register::Publish { head } => {
                Action::Publish { word: UNPINNED, next: head, order: Order::AcqRel }
            },
        }
    }

    /// Returns the new entry, or where the routine goes on.
    pub fn next(self, event: Event) -> (r: Result<usize, Register>)
        requires
            self.spec_action().allows(event),
        ensures
            match event {
                Event::Published(thread) => r == Ok::<usize, Register>(thread),
                Event::Link(head) | Event::Kept(head) => r == Err::<usize, Register>(
                    Register::Publish { head },
                ),
                _ => false,
            },
    {
        match event {
            Event::Published(thread) => Ok(thread),
            Event::Link(head) | Event::Kept(head) => Err(Register::Publish { head }),
            _ => Err(self),
        }
    }
}

impl SetPinned {
    /// The action that the routine asks for.
    pub open spec fn spec_action(self) -> Action {
        match self {
            SetPinned::Load => Action::LoadState(Order::Relaxed),
            SetPinned::Store { state } => Action::StoreThread {
                word: crate::state::epoch(state),
                order: Order::Relaxed,
            },
            SetPinned::Fence { .. } => Action::Fence(Order::SeqCst),
        }
    }

    /// The move that the routine makes after an event.
    pub open spec fn spec_next(self, event: Event) -> Move {
        match (self, event) {
            (SetPinned::Load, Event::Word(state)) => Move::Goto(
                Frame::SetPinned(SetPinned::Store { state }),
            ),
            (SetPinned::Store { state }, Event::Done) => Move::Goto(
                Frame::SetPinned(SetPinned::Fence { state }),
            ),
            (SetPinned::Fence { state }, Event::Done) => Move::Return(crate::state::urgency(state)),
            _ => Move::Goto(Frame::SetPinned(self)),
        }
    }

    /// Returns the action that the routine asks for.
    pub fn action(self) -> (a: Action)
        ensures
            a == self.spec_action(),
    {
        match self {
            SetPinned::Load => Action::LoadState(Order::Relaxed),
            SetPinned::Store { state } => {
                Action::StoreThread { word: epoch_of(state), order: Order::Relaxed }
            },
            SetPinned::Fence { .. } => Action::Fence(Order::SeqCst),
        }
    }

    /// Returns the move that the routine makes after an event.
    pub fn next(self, event: Event) -> (m: Move)
        requires
            self.spec_action().allows(event),
        ensures
            m == self.spec_next(event),
    {
        match (self, event) {
            (SetPinned::Load, Event::Word(state)) => {
                Move::Goto(Frame::SetPinned(SetPinned::Store { state }))
            },
            (SetPinned::Store { state }, _) => {
                Move::Goto(Frame::SetPinned(SetPinned::Fence { state }))
            },
            (SetPinned::Fence { state }, _) => Move::Return(urgency_of(state)),
            _ => Move::Goto(Frame::SetPinned(self)),
        }
    }
}

impl SetUnpinned {
    /// The action that the routine asks for.
    pub open spec fn spec_action(self) -> Action {
        match self {
            SetUnpinned::Fence => Action::Fence(Order::Release),
            SetUnpinned::Store => Action::StoreThread { word: UNPINNED, order: Order::Relaxed },
        }
    }

    /// The move that the routine makes after an event.
    pub open spec fn spec_next(self, event: Event) -> Move {
        match self {
            SetUnpinned::Fence => Move::Goto(Frame::SetUnpinned(SetUnpinned::Store)),
            SetUnpinned::Store => Move::Return(Urgency::Normal),
        }
    }

    /// Returns the action that the routine asks for.
    pub fn action(self) -> (a: Action)
        ensures
            a == self.spec_action(),
    {
        match self {
            SetUnpinned::Fence => Action::Fence(Order::Release),
            SetUnpinned::Store => Action::StoreThread { word: UNPINNED, order: Order::Relaxed },
        }
    }

    /// Returns the move that the routine makes after an event.
    pub fn next(self, event: Event) -> (m: Move)
        requires
            self.spec_action().allows(event),
        ensures
            m == self.spec_next(event),
    {
        match self {
            SetUnpinned::Fence => Move::Goto(Frame::SetUnpinned(SetUnpinned::Store)),
            SetUnpinned::Store => Move::Return(Urgency::Normal),
        }
    }
}

impl Unregister {
    /// The action that the routine asks for.
    pub open spec fn spec_action(self, thread: usize) -> Action {
        match self {
            Unregister::Load => Action::LoadLink {
                slot: Slot::Next(thread),
                order: Order::Acquire,
            },
            Unregister::Mark { next } => Action::SwapLink {
                slot: Slot::Next(thread),
                from: next,
                into: Link { to: next.to, deleted: true },
                order: Order::AcqRel,
                weak: true,
            },
        }
    }

    /// The move that the routine makes after an event.
    pub open spec fn spec_next(self, event: Event) -> Move {
        match event {
            Event::Link(next) | Event::Kept(next) => if next.deleted {
                Move::Return(Urgency::Normal)
            } else {
                Move::Goto(Frame::Unregister(Unregister::Mark { next }))
            },
            _ => Move::Return(Urgency::Normal),
        }
    }

    /// Returns the action that the routine asks for.
    pub fn action(self, thread: usize) -> (a: Action)
        ensures
            a == self.spec_action(thread),
    {
        match self {
            Unregister::Load => {
                Action::LoadLink { slot: Slot::Next(thread), order: Order::Acquire }
            },
            Unregister::Mark { next } => {
                Action::SwapLink {
                    slot: Slot::Next(thread),
                    from: next,
                    into: Link { to: next.to, deleted: true },
                    order: Order::AcqRel,
                    weak: true,
                }
            },
        }
    }

    /// Returns the move that the routine makes after an event.
    pub fn next(self, event: Event) -> (m: Move)
        ensures
            m == self.spec_next(event),
    {
        match event {
            Event::Link(next) | Event::Kept(next) => {
                if next.deleted {
                    Move::Return(Urgency::Normal)
                } else {
                    Move::Goto(Frame::Unregister(Unregister::Mark { next }))
                }
            },
            _ => Move::Return(Urgency::Normal),
        }
    }
}

/// Returns the place that holds the head of the list of participating threads.
pub fn participants() -> (slot: Slot)
    ensures
        slot == Slot::Head,
{
    Slot::Head
}

impl Advance {
    /// The action that the routine asks for.
    pub open spec fn spec_action(self) -> Action {
        match self {
            Advance::Start => Action::LoadState(Order::SeqCst),
            Advance::Head { .. } => Action::LoadLink { slot: Slot::Head, order: Order::Acquire },
            Advance::Visit { state, pred, curr } => match curr.to {
                Some(thread) => Action::LoadLink {
                    slot: Slot::Next(thread),
                    order: Order::Acquire,
                },
                None => Action::SwapState {
                    expected: state,
                    new: crate::state::next_epoch(state),
                    order: Order::SeqCst,
                },
            },
            Advance::Remove { state, pred, curr, thread, succ } => Action::SwapLink {
                slot: pred,
                from: curr,
                into: succ,
                order: Order::Release,
                weak: false,
            },
            Advance::Check { state, thread, succ } => Action::LoadThread {
                thread,
                order: Order::SeqCst,
            },
        }
    }

    /// The move that the routine makes after an event.
    pub open spec fn spec_next(self, event: Event) -> Move {
        match (self, event) {
            (Advance::Start, Event::Word(state)) => Move::Goto(
                Frame::Advance(Advance::Head { state }),
            ),
            (Advance::Head { state }, Event::Link(curr)) => Move::Goto(
                Frame::Advance(Advance::Visit { state, pred: Slot::Head, curr }),
            ),
            (Advance::Visit { state, pred, curr }, Event::Link(succ)) => match curr.to {
                Some(thread) => if succ.deleted {
                    let succ = Link { to: succ.to, deleted: false };
                    Move::Goto(
                        Frame::Advance(Advance::Remove { state, pred, curr, thread, succ }),
                    )
                } else {
                    Move::Goto(Frame::Advance(Advance::Check { state, thread, succ }))
                },
                None => Move::Return(Urgency::Normal),
            },
            (Advance::Remove { state, pred, curr, thread, succ }, Event::Swapped) => Move::Stash(
                Frame::Advance(Advance::Visit { state, pred, curr: succ }),
                thread,
            ),
            (Advance::Check { state, thread, succ }, Event::Word(word)) => if blocks(word, state) {
                Move::Return(Urgency::Normal)
            } else {
                Move::Goto(
                    Frame::Advance(
                        Advance::Visit { state, pred: Slot::Next(thread), curr: succ },
                    ),
                )
            },
            _ => Move::Return(Urgency::Normal),
        }
    }

    /// Returns the action that the routine asks for.
    pub fn action(self) -> (a: Action)
        ensures
            a == self.spec_action(),
    {
        match self {
            Advance::Start => Action::LoadState(Order::SeqCst),
            Advance::Head { .. } => {
                Action::LoadLink { slot: participants(), order: Order::Acquire }
            },
            Advance::Visit { state, curr, .. } => match curr.to {
                Some(thread) => {
                    Action::LoadLink { slot: Slot::Next(thread), order: Order::Acquire }
                },
                // All pinned threads were pinned in the current global epoch. Finally, try
                // advancing the epoch.
                None => Action::SwapState {
                    expected: state,
                    new: next_epoch_of(state),
                    order: Order::SeqCst,
                },
            },
            Advance::Remove { pred, curr, succ, .. } => {
                Action::SwapLink {
                    slot: pred,
                    from: curr,
                    into: succ,
                    order: Order::Release,
                    weak: false,
                }
            },
            Advance::Check { thread, .. } => Action::LoadThread { thread, order: Order::SeqCst },
        }
    }

    /// Returns the move that the routine makes after an event.
    pub fn next(self, event: Event) -> (m: Move)
        ensures
            m == self.spec_next(event),
    {
        match (self, event) {
            (Advance::Start, Event::Word(state)) => {
                Move::Goto(Frame::Advance(Advance::Head { state }))
            },
            (Advance::Head { state }, Event::Link(curr)) => {
                Move::Goto(Frame::Advance(Advance::Visit { state, pred: participants(), curr }))
            },
            (Advance::Visit { state, pred, curr }, Event::Link(succ)) => {
                match curr.to {
                    Some(thread) => {
                        if succ.deleted {
                            // This thread has exited. Try unlinking it from the list.
                            let succ = Link { to: succ.to, deleted: false };
                            Move::Goto(
                                Frame::Advance(
                                    Advance::Remove { state, pred, curr, thread, succ },
                                ),
                            )
                        } else {
                            Move::Goto(Frame::Advance(Advance::Check { state, thread, succ }))
                        }
                    },
                    None => Move::Return(Urgency::Normal),
                }
            },
            (Advance::Remove { state, pred, thread, succ, .. }, Event::Swapped) => {
                // Predecessor doesn't change.
                Move::Stash(Frame::Advance(Advance::Visit { state, pred, curr: succ }), thread)
            },
            (Advance::Check { state, thread, succ }, Event::Word(word)) => {
                // If the thread was pinned in a different epoch, we cannot advance the global
                // epoch just yet.
                if is_pinned(word) && epoch_of(word) != epoch_of(state) {
                    Move::Return(Urgency::Normal)
                } else {
                    // Move one step forward.
                    Move::Goto(
                        Frame::Advance(
                            Advance::Visit { state, pred: Slot::Next(thread), curr: succ },
                        ),
                    )
                }
            },
            // Either the attempt to advance the epoch is over, or we lost the race to unlink a
            // thread. Usually this means we should traverse the list again from the beginning, but
            // since another thread trying to advance the epoch has won the race, we leave the job
            // to that one.
            _ => Move::Return(Urgency::Normal),
        }
    }
}

/// Whether a thread with this word keeps the epoch of `state` from advancing: it is pinned in a
/// different epoch.
pub open spec fn blocks(word: usize, state: usize) -> bool {
    crate::state::pinned(word) && crate::state::epoch(word) != crate::state::epoch(state)
}

impl Unlinked {
    /// The action that the routine asks for.
    pub open spec fn spec_action(self) -> Action {
        match self {
            Unlinked::Advancing => Action::Proceed,
            Unlinked::Advanced => Action::LoadState(Order::SeqCst),
            Unlinked::Collecting { epoch } => Action::Collect { epoch },
            Unlinked::Pushing { epoch } => Action::Push { epoch },
            Unlinked::Raising => Action::RaiseState(Order::SeqCst),
        }
    }

    /// The move that the routine makes after an event.
    pub open spec fn spec_next(self, event: Event) -> Move {
        match (self, event) {
            (Unlinked::Advanced, Event::Word(state)) => Move::Goto(
                Frame::Unlinked(Unlinked::Collecting { epoch: crate::state::epoch(state) }),
            ),
            (Unlinked::Collecting { epoch }, Event::Reply(_)) => Move::Goto(
                Frame::Unlinked(Unlinked::Pushing { epoch }),
            ),
            (Unlinked::Pushing { .. }, Event::Reply(Urgency::Urgent)) => Move::Goto(
                Frame::Unlinked(Unlinked::Raising),
            ),
            (Unlinked::Pushing { .. }, Event::Reply(Urgency::Normal)) => Move::Return(
                Urgency::Normal,
            ),
            (Unlinked::Raising, Event::Done) => Move::Return(Urgency::Normal),
            _ => Move::Goto(Frame::Unlinked(self)),
        }
    }

    /// Returns the action that the routine asks for.
    pub fn action(self) -> (a: Action)
        ensures
            a == self.spec_action(),
    {
        match self {
            Unlinked::Advancing => Action::Proceed,
            Unlinked::Advanced => Action::LoadState(Order::SeqCst),
            Unlinked::Collecting { epoch } => Action::Collect { epoch },
            Unlinked::Pushing { epoch } => Action::Push { epoch },
            Unlinked::Raising => Action::RaiseState(Order::SeqCst),
        }
    }

    /// Returns the move that the routine makes after an event.
    pub fn next(self, event: Event) -> (m: Move)
        ensures
            m == self.spec_next(event),
    {
        match (self, event) {
            (Unlinked::Advanced, Event::Word(state)) => {
                Move::Goto(Frame::Unlinked(Unlinked::Collecting { epoch: epoch_of(state) }))
            },
            (Unlinked::Collecting { epoch }, Event::Reply(_)) => {
                Move::Goto(Frame::Unlinked(Unlinked::Pushing { epoch }))
            },
            (Unlinked::Pushing { .. }, Event::Reply(Urgency::Urgent)) => {
                Move::Goto(Frame::Unlinked(Unlinked::Raising))
            },
            (Unlinked::Pushing { .. }, Event::Reply(Urgency::Normal)) => {
                Move::Return(Urgency::Normal)
            },
            (Unlinked::Raising, Event::Done) => Move::Return(Urgency::Normal),
            _ => Move::Goto(Frame::Unlinked(self)),
        }
    }
}

impl Pin {
    /// The action that the routine asks for.
    pub open spec fn spec_action(self) -> Action {
        match self {
            Pin::Advanced => Action::LoadState(Order::SeqCst),
            Pin::Collecting { state } => Action::Collect { epoch: crate::state::epoch(state) },
            Pin::Clearing { state } => Action::SwapState {
                expected: state,
                new: crate::state::epoch(state),
                order: Order::SeqCst,
            },
            _ => Action::Proceed,
        }
    }

    /// The move that the routine makes after an event.
    pub open spec fn spec_next(self, event: Event) -> Move {
        let unpin = Move::Call(
            Frame::Pin(Pin::Unpinning),
            Frame::SetUnpinned(SetUnpinned::Fence),
        );
        match (self, event) {
            (Pin::Entered { urgency }, Event::Done) => match urgency {
                Urgency::Normal => Move::Return(Urgency::Normal),
                Urgency::Urgent => Move::Call(
                    Frame::Pin(Pin::Advancing),
                    Frame::Advance(Advance::Start),
                ),
            },
            (Pin::Advanced, Event::Word(state)) => Move::Goto(
                Frame::Pin(Pin::Collecting { state }),
            ),
            (Pin::Collecting { state }, Event::Reply(Urgency::Normal)) => Move::Goto(
                Frame::Pin(Pin::Clearing { state }),
            ),
            (Pin::Collecting { .. }, Event::Reply(Urgency::Urgent)) => unpin,
            (Pin::Clearing { .. }, Event::Done) => unpin,
            (Pin::Unpinned, Event::Done) => Move::Call(
                Frame::Pin(Pin::Repinning),
                Frame::SetPinned(SetPinned::Load),
            ),
            (Pin::Repinned, Event::Done) => Move::Return(Urgency::Normal),
            _ => Move::Goto(Frame::Pin(self)),
        }
    }

    /// Returns the action that the routine asks for.
    pub fn action(self) -> (a: Action)
        ensures
            a == self.spec_action(),
    {
        match self {
            Pin::Advanced => Action::LoadState(Order::SeqCst),
            Pin::Collecting { state } => Action::Collect { epoch: epoch_of(state) },
            Pin::Clearing { state } => {
                Action::SwapState { expected: state, new: epoch_of(state), order: Order::SeqCst }
            },
            _ => Action::Proceed,
        }
    }

    /// Returns the move that the routine makes after an event.
    pub fn next(self, event: Event) -> (m: Move)
        ensures
            m == self.spec_next(event),
    {
        match (self, event) {
            (Pin::Entered { urgency }, Event::Done) => match urgency {
                Urgency::Normal => Move::Return(Urgency::Normal),
                // Try advancing the epoch and collecting some garbage.
                Urgency::Urgent => {
                    Move::Call(Frame::Pin(Pin::Advancing), Frame::Advance(Advance::Start))
                },
            },
            (Pin::Advanced, Event::Word(state)) => {
                Move::Goto(Frame::Pin(Pin::Collecting { state }))
            },
            (Pin::Collecting { state }, Event::Reply(Urgency::Normal)) => {
                Move::Goto(Frame::Pin(Pin::Clearing { state }))
            },
            // Unpin and pin again, in order to help advance the epoch as quickly as possible.
            (Pin::Collecting { .. }, Event::Reply(Urgency::Urgent))
            | (Pin::Clearing { .. }, Event::Done) => {
                Move::Call(Frame::Pin(Pin::Unpinning), Frame::SetUnpinned(SetUnpinned::Fence))
            },
            (Pin::Unpinned, Event::Done) => {
                Move::Call(Frame::Pin(Pin::Repinning), Frame::SetPinned(SetPinned::Load))
            },
            (Pin::Repinned, Event::Done) => Move::Return(Urgency::Normal),
            _ => Move::Goto(Frame::Pin(self)),
        }
    }
}

impl Exit {
    /// The action that the routine asks for.
    pub open spec fn spec_action(self) -> Action {
        match self {
            Exit::Advanced | Exit::Collected => Action::LoadState(Order::SeqCst),
            Exit::Collecting { epoch } => Action::Collect { epoch },
            Exit::Pushing { epoch } => Action::Push { epoch },
            Exit::Raising => Action::RaiseState(Order::SeqCst),
            _ => Action::Proceed,
        }
    }

    /// The move that the routine makes after an event.
    pub open spec fn spec_next(self, event: Event) -> Move {
        let leave = Move::Call(
            Frame::Exit(Exit::Leaving),
            Frame::SetUnpinned(SetUnpinned::Fence),
        );
        match (self, event) {
            (Exit::Entered, Event::Done) => Move::Call(
                Frame::Exit(Exit::Advancing),
                Frame::Advance(Advance::Start),
            ),
            (Exit::Advanced, Event::Word(state)) => Move::Goto(
                Frame::Exit(Exit::Collecting { epoch: crate::state::epoch(state) }),
            ),
            (Exit::Collecting { .. }, Event::Reply(_)) => Move::Goto(Frame::Exit(Exit::Collected)),
            (Exit::Collected, Event::Word(state)) => Move::Goto(
                Frame::Exit(Exit::Pushing { epoch: crate::state::epoch(state) }),
            ),
            (Exit::Pushing { .. }, Event::Reply(Urgency::Urgent)) => Move::Goto(
                Frame::Exit(Exit::Raising),
            ),
            (Exit::Pushing { .. }, Event::Reply(Urgency::Normal)) => leave,
            (Exit::Raising, Event::Done) => leave,
            (Exit::Left, Event::Done) => Move::Call(
                Frame::Exit(Exit::Unregistering),
                Frame::Unregister(Unregister::Load),
            ),
            (Exit::Unregistered, Event::Done) => Move::Return(Urgency::Normal),
            _ => Move::Goto(Frame::Exit(self)),
        }
    }

    /// Returns the action that the routine asks for.
    pub fn action(self) -> (a: Action)
        ensures
            a == self.spec_action(),
    {
        match self {
            Exit::Advanced | Exit::Collected => Action::LoadState(Order::SeqCst),
            Exit::Collecting { epoch } => Action::Collect { epoch },
            Exit::Pushing { epoch } => Action::Push { epoch },
            Exit::Raising => Action::RaiseState(Order::SeqCst),
            _ => Action::Proceed,
        }
    }

    /// Returns the move that the routine makes after an event.
    pub fn next(self, event: Event) -> (m: Move)
        ensures
            m == self.spec_next(event),
    {
        match (self, event) {
            // Let's try advancing the epoch and help free some garbage.
            (Exit::Entered, Event::Done) => {
                Move::Call(Frame::Exit(Exit::Advancing), Frame::Advance(Advance::Start))
            },
            (Exit::Advanced, Event::Word(state)) => {
                Move::Goto(Frame::Exit(Exit::Collecting { epoch: epoch_of(state) }))
            },
            (Exit::Collecting { .. }, Event::Reply(_)) => Move::Goto(Frame::Exit(Exit::Collected)),
            (Exit::Collected, Event::Word(state)) => {
                Move::Goto(Frame::Exit(Exit::Pushing { epoch: epoch_of(state) }))
            },
            (Exit::Pushing { .. }, Event::Reply(Urgency::Urgent)) => {
                Move::Goto(Frame::Exit(Exit::Raising))
            },
            (Exit::Pushing { .. }, Event::Reply(Urgency::Normal))
            | (Exit::Raising, Event::Done) => {
                Move::Call(Frame::Exit(Exit::Leaving), Frame::SetUnpinned(SetUnpinned::Fence))
            },
            (Exit::Left, Event::Done) => {
                Move::Call(Frame::Exit(Exit::Unregistering), Frame::Unregister(Unregister::Load))
            },
            (Exit::Unregistered, Event::Done) => Move::Return(Urgency::Normal),
            _ => Move::Goto(Frame::Exit(self)),
        }
    }
}

impl Frame {
    /// The action that the frame asks for, where `thread` is the entry of the thread.
    pub open spec fn spec_action(self, thread: usize) -> Action {
        match self {
            Frame::SetPinned(f) => f.spec_action(),
            Frame::SetUnpinned(f) => f.spec_action(),
            Frame::Unregister(f) => f.spec_action(thread),
            Frame::Advance(f) => f.spec_action(),
            Frame::Unlinked(f) => f.spec_action(),
            Frame::Pin(f) => f.spec_action(),
            Frame::Exit(f) => f.spec_action(),
        }
    }

    /// The move that the frame makes after an event.
    pub open spec fn spec_next(self, event: Event) -> Move {
        match self {
            Frame::SetPinned(f) => f.spec_next(event),
            Frame::SetUnpinned(f) => f.spec_next(event),
            Frame::Unregister(f) => f.spec_next(event),
            Frame::Advance(f) => f.spec_next(event),
            Frame::Unlinked(f) => f.spec_next(event),
            Frame::Pin(f) => f.spec_next(event),
            Frame::Exit(f) => f.spec_next(event),
        }
    }

    /// Where the frame goes on once the frame that it has called returns.
    pub open spec fn spec_returned(self, urgency: Urgency) -> Frame {
        match self {
            Frame::Unlinked(Unlinked::Advancing) => Frame::Unlinked(Unlinked::Advanced),
            Frame::Pin(Pin::Entering) => Frame::Pin(Pin::Entered { urgency }),
            Frame::Pin(Pin::Advancing) => Frame::Pin(Pin::Advanced),
            Frame::Pin(Pin::Unpinning) => Frame::Pin(Pin::Unpinned),
            Frame::Pin(Pin::Repinning) => Frame::Pin(Pin::Repinned),
            Frame::Exit(Exit::Entering) => Frame::Exit(Exit::Entered),
            Frame::Exit(Exit::Advancing) => Frame::Exit(Exit::Advanced),
            Frame::Exit(Exit::Leaving) => Frame::Exit(Exit::Left),
            Frame::Exit(Exit::Unregistering) => Frame::Exit(Exit::Unregistered),
            _ => self,
        }
    }

    /// Whether the frame waits for a frame that it has called.
    pub open spec fn waits(self) -> bool {
        match self {
            Frame::Unlinked(Unlinked::Advancing)
            | Frame::Pin(Pin::Entering)
            | Frame::Pin(Pin::Advancing)
            | Frame::Pin(Pin::Unpinning)
            | Frame::Pin(Pin::Repinning)
            | Frame::Exit(Exit::Entering)
            | Frame::Exit(Exit::Advancing)
            | Frame::Exit(Exit::Leaving)
            | Frame::Exit(Exit::Unregistering) => true,
            _ => false,
        }
    }

    /// Whether the frame asks the garbage queues to free some garbage.
    pub open spec fn collects(self) -> bool {
        self is Unlinked && self->Unlinked_0 is Collecting
            || self is Pin && self->Pin_0 is Collecting
            || self is Exit && self->Exit_0 is Collecting
    }

    /// Whether code outside of this library can run, and use the guard of the thread, while the
    /// garbage queues do what the frame asks for.
    ///
    /// The push of the local bag of a thread that exits is different: the thread has no bag left
    /// that could take an object.
    pub open spec fn is_open(self) -> bool {
        self.collects() || self is Unlinked && self->Unlinked_0 is Pushing
    }

    /// Whether the frame owns a closed bag.
    pub open spec fn owns_bag(self) -> bool {
        match self {
            Frame::Unlinked(Unlinked::Raising) => false,
            Frame::Unlinked(_) => true,
            Frame::Exit(Exit::Pushing { .. }) => true,
            _ => false,
        }
    }

    /// Returns the action that the frame asks for, where `thread` is the entry of the thread.
    pub fn action(self, thread: usize) -> (a: Action)
        ensures
            a == self.spec_action(thread),
    {
        match self {
            Frame::SetPinned(f) => f.action(),
            Frame::SetUnpinned(f) => f.action(),
            Frame::Unregister(f) => f.action(thread),
            Frame::Advance(f) => f.action(),
            Frame::Unlinked(f) => f.action(),
            Frame::Pin(f) => f.action(),
            Frame::Exit(f) => f.action(),
        }
    }

    /// Returns the move that the frame makes after an event.
    pub fn next(self, thread: usize, event: Event) -> (m: Move)
        requires
            self.spec_action(thread).allows(event),
        ensures
            m == self.spec_next(event),
    {
        match self {
            Frame::SetPinned(f) => f.next(event),
            Frame::SetUnpinned(f) => f.next(event),
            Frame::Unregister(f) => f.next(event),
            Frame::Advance(f) => f.next(event),
            Frame::Unlinked(f) => f.next(event),
            Frame::Pin(f) => f.next(event),
            Frame::Exit(f) => f.next(event),
        }
    }

    /// Returns where the frame goes on once the frame that it has called returns.
    pub fn returned(self, urgency: Urgency) -> (f: Frame)
        ensures
            f == self.spec_returned(urgency),
    {
        match self {
            Frame::Unlinked(Unlinked::Advancing) => Frame::Unlinked(Unlinked::Advanced),
            Frame::Pin(Pin::Entering) => Frame::Pin(Pin::Entered { urgency }),
            Frame::Pin(Pin::Advancing) => Frame::Pin(Pin::Advanced),
            Frame::Pin(Pin::Unpinning) => Frame::Pin(Pin::Unpinned),
            Frame::Pin(Pin::Repinning) => Frame::Pin(Pin::Repinned),
            Frame::Exit(Exit::Entering) => Frame::Exit(Exit::Entered),
            Frame::Exit(Exit::Advancing) => Frame::Exit(Exit::Advanced),
            Frame::Exit(Exit::Leaving) => Frame::Exit(Exit::Left),
            Frame::Exit(Exit::Unregistering) => Frame::Exit(Exit::Unregistered),
            _ => self,
        }
    }
}

} // verus!
