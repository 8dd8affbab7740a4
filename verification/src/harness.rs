//! The data of one thread: its place in the list, its guards, its garbage and its routines.
use crate::access::{Action, Event};
use crate::garbage::{Bag, Object};
use crate::routine::{Advance, Exit, Frame, Move, Pin, SetPinned, SetUnpinned, Unlinked, Unregister};
use crate::state::Urgency;
use vstd::prelude::*;

verus! {

/// The data of one thread, as contracts speak of it.
#[verifier::ext_equal]
pub struct Local {
    /// The entry of the thread in the list of participating threads.
    pub thread: usize,
    /// The number of guards that the thread holds.
    pub pin_count: usize,
    /// The number of objects that a bag has room for.
    pub capacity: nat,
    /// The local bag of unlinked objects.
    pub bag: Seq<Object>,
    /// The bags that are full, or local no more, and not yet in the garbage queues.
    pub closed: Seq<Seq<Object>>,
    /// The routines that the thread is in; the last one runs.
    pub stack: Seq<Frame>,
    /// Whether the thread has exited.
    pub exited: bool,
}

/// Whether a routine at `caller` can have called a routine that is now at `callee`.
pub open spec fn calls(caller: Frame, callee: Frame) -> bool {
    match callee {
        Frame::SetPinned(_) => caller == Frame::Pin(Pin::Entering) || caller == Frame::Pin(
            Pin::Repinning,
        ) || caller == Frame::Exit(Exit::Entering),
        Frame::SetUnpinned(_) => caller == Frame::Pin(Pin::Unpinning) || caller == Frame::Exit(
            Exit::Leaving,
        ),
        Frame::Unregister(_) => caller == Frame::Exit(Exit::Unregistering),
        Frame::Advance(_) => caller == Frame::Pin(Pin::Advancing) || caller == Frame::Exit(
            Exit::Advancing,
        ) || caller == Frame::Unlinked(Unlinked::Advancing),
        Frame::Unlinked(_) => caller.is_open() || caller is Advance && caller->Advance_0 is Visit,
        Frame::Pin(_) => false,
        Frame::Exit(_) => false,
    }
}

/// The number of frames that own a closed bag.
pub open spec fn bag_owners(stack: Seq<Frame>) -> nat
    decreases stack.len(),
{
    if stack.len() == 0 {
        0
    } else {
        bag_owners(stack.drop_last()) + (if stack.last().owns_bag() {
            1nat
        } else {
            0nat
        })
    }
}

/// Whether every frame of a stack can have been called by the one below it.
pub open spec fn chained(stack: Seq<Frame>) -> bool
    decreases stack.len(),
{
    stack.len() >= 2 ==> chained(stack.drop_last()) && calls(
        stack[stack.len() - 2],
        stack[stack.len() - 1],
    )
}

/// What a stack is like when a frame is pushed onto it.
pub proof fn lemma_push(stack: Seq<Frame>, frame: Frame)
    ensures
        chained(stack.push(frame)) <==> chained(stack) && (stack.len() > 0 ==> calls(
            stack.last(),
            frame,
        )),
        bag_owners(stack.push(frame)) == bag_owners(stack) + (if frame.owns_bag() {
            1nat
        } else {
            0nat
        }),
{
    assert(stack.push(frame).drop_last() =~= stack);
}

/// In a stack that the routines build, each frame can have been called by the one below it.
pub proof fn lemma_chained_at(stack: Seq<Frame>, k: int)
    requires
        chained(stack),
        0 < k < stack.len(),
    ensures
        calls(stack[k - 1], stack[k]),
    decreases stack.len(),
{
    if k < stack.len() - 1 {
        lemma_chained_at(stack.drop_last(), k);
    }
}

impl Local {
    /// A thread that has just been registered.
    pub open spec fn fresh(thread: usize, capacity: nat) -> Local {
        Local {
            thread,
            pin_count: 0,
            capacity,
            bag: Seq::empty(),
            closed: Seq::empty(),
            stack: Seq::empty(),
            exited: false,
        }
    }

    /// Whether the thread runs no routine.
    pub open spec fn idle(self) -> bool {
        self.stack.len() == 0
    }

    /// The action that the thread asks for.
    pub open spec fn action(self) -> Action {
        self.stack.last().spec_action(self.thread)
    }

    /// Whether the thread waits for the garbage queues, or runs no routine.
    pub open spec fn stopped(self) -> bool {
        self.idle() || self.action().is_outside()
    }

    /// Whether code outside of this library can run in the thread: it runs no routine, or the
    /// garbage queues are freeing objects or taking a full bag.
    pub open spec fn open(self) -> bool {
        !self.exited && (self.idle() || self.stack.last().is_open())
    }

    /// Whether the routine at the bottom of the stack is one that a thread starts with.
    pub open spec fn rooted(self) -> bool {
        match self.stack[0] {
            Frame::Pin(_) => self.pin_count > 0,
            Frame::Unlinked(_) => self.pin_count > 0,
            Frame::SetUnpinned(_) => self.pin_count == 0,
            Frame::Exit(f) => self.pin_count == 0 && (match f {
                Exit::Entering
                | Exit::Entered
                | Exit::Advancing
                | Exit::Advanced
                | Exit::Collecting { .. }
                | Exit::Collected => true,
                _ => self.bag.len() == 0,
            }),
            _ => false,
        }
    }

    /// What holds of the data of every thread: the local bag is never full, the stack is one that
    /// the routines build, and each closed bag is owned by a frame.
    pub open spec fn wf(self) -> bool {
        &&& self.bag.len() < self.capacity
        &&& self.closed.len() == bag_owners(self.stack)
        &&& self.stack.len() > 0 ==> !self.exited && self.rooted() && !self.stack.last().waits()
        &&& chained(self.stack)
        &&& self.exited ==> self.pin_count == 0 && self.bag.len() == 0
    }

    /// Whether the thread has announced that it is pinned.
    pub open spec fn announced(self) -> bool {
        if self.idle() {
            self.pin_count > 0
        } else {
            match self.stack[0] {
                Frame::Pin(Pin::Entering)
                | Frame::Pin(Pin::Repinning)
                | Frame::Exit(Exit::Entering) => self.stack[1] is SetPinned
                    && self.stack[1]->SetPinned_0 is Fence,
                Frame::Pin(Pin::Unpinned)
                | Frame::Exit(Exit::Left)
                | Frame::Exit(Exit::Unregistering)
                | Frame::Exit(Exit::Unregistered) => false,
                _ => true,
            }
        }
    }

    /// Whether the thread may have marked its entry as deleted.
    pub open spec fn leaving(self) -> bool {
        self.exited || self.stack.len() > 0 && (self.stack[0] == Frame::Exit(Exit::Unregistering)
            || self.stack[0] == Frame::Exit(Exit::Unregistered))
    }

    /// Whether the thread has marked its entry as deleted.
    pub open spec fn gone(self) -> bool {
        self.exited || self.stack.len() > 0 && self.stack[0] == Frame::Exit(Exit::Unregistered)
    }

    /// The thread with another frame at the top of its stack.
    pub open spec fn at(self, frame: Frame) -> Local {
        Local { stack: self.stack.drop_last().push(frame), ..self }
    }

    /// The thread after a call of a routine.
    pub open spec fn called(self, frame: Frame) -> Local {
        Local { stack: self.stack.push(frame), ..self }
    }

    /// The thread after its running routine has returned.
    pub open spec fn returned(self, urgency: Urgency) -> Local {
        let stack = self.stack.drop_last();
        if stack.len() == 0 {
            Local { stack, exited: self.exited || self.stack.last() is Exit, ..self }
        } else {
            Local { stack, ..self }.at(stack.last().spec_returned(urgency))
        }
    }

    /// The thread after it has put an object into its bag. If that makes the bag full, a fresh
    /// bag replaces it, and the thread sets out to get rid of the full one.
    pub open spec fn stashed(self, object: Object) -> Local {
        let bag = self.bag.push(object);
        if bag.len() < self.capacity {
            Local { bag, ..self }
        } else {
            Local { bag: Seq::empty(), closed: self.closed.push(bag), ..self }.called(
                Frame::Unlinked(Unlinked::Advancing),
            ).called(Frame::Advance(Advance::Start))
        }
    }

    /// The thread after a bag has changed hands, where its running routine waits for that: a thread
    /// that exits closes its local bag once some garbage was collected, and a bag that was pushed
    /// into the garbage queues is gone.
    pub open spec fn handed(self) -> Local {
        match self.stack.last() {
            Frame::Exit(Exit::Collected) => Local {
                bag: Seq::empty(),
                closed: self.closed.push(self.bag),
                ..self
            },
            Frame::Exit(Exit::Pushing { .. }) | Frame::Unlinked(Unlinked::Pushing { .. }) => Local {
                closed: self.closed.drop_last(),
                ..self
            },
            _ => self,
        }
    }

    /// The thread after it was told the outcome of its action.
    pub open spec fn resumed(self, event: Event) -> Local {
        match self.stack.last().spec_next(event) {
            Move::Goto(frame) => self.handed().at(frame),
            Move::Call(frame, callee) => self.handed().at(frame).called(callee),
            Move::Stash(frame, thread) => self.handed().at(frame).stashed(
                Object::spec_thread(thread),
            ),
            Move::Return(urgency) => self.handed().returned(urgency),
        }
    }

    /// Whether the thread can take another guard. Pinning is reentrant, but a thread that exits
    /// cannot be pinned.
    pub open spec fn can_pin(self) -> bool {
        &&& self.open()
        &&& self.pin_count < usize::MAX
        &&& self.pin_count == 0 ==> self.idle()
    }

    /// The thread after it has set out to take a guard. Pinning a pinned thread only counts the
    /// guard.
    pub open spec fn begun_pin(self) -> Local {
        let counted = Local { pin_count: (self.pin_count + 1) as usize, ..self };
        if self.pin_count == 0 {
            counted.called(Frame::Pin(Pin::Entering)).called(Frame::SetPinned(SetPinned::Load))
        } else {
            counted
        }
    }

    /// Whether the thread can drop a guard. The last guard is not dropped while a routine needs it.
    pub open spec fn can_unpin(self) -> bool {
        &&& self.open()
        &&& self.pin_count > 0
        &&& self.pin_count == 1 ==> self.idle()
    }

    /// The thread after it has set out to drop a guard. Only the last one unpins the thread.
    pub open spec fn begun_unpin(self) -> Local {
        let counted = Local { pin_count: (self.pin_count - 1) as usize, ..self };
        if self.pin_count == 1 {
            counted.called(Frame::SetUnpinned(SetUnpinned::Fence))
        } else {
            counted
        }
    }

    /// Whether the thread can announce that an object became unreachable: it is pinned.
    pub open spec fn can_unlink(self) -> bool {
        self.open() && (self.pin_count > 0 || !self.idle())
    }

    /// Whether the thread can exit: it holds no guard.
    pub open spec fn can_exit(self) -> bool {
        !self.exited && self.idle() && self.pin_count == 0
    }

    /// The thread after it has set out to exit.
    pub open spec fn begun_exit(self) -> Local {
        self.called(Frame::Exit(Exit::Entering)).called(Frame::SetPinned(SetPinned::Load))
    }
}

/// Telling a thread the outcome of its action keeps its data in order.
pub proof fn lemma_resumed_wf(l: Local, event: Event)
    requires
        l.wf(),
        !l.idle(),
        l.action().allows(event),
    ensures
        l.resumed(event).wf(),
{
    let top = l.stack.last();
    let below = l.stack.drop_last();
    lemma_push(below, top);
    assert(below.push(top) =~= l.stack);
    if below.len() > 0 {
        lemma_chained_at(l.stack, 1);
    }
    match top.spec_next(event) {
        Move::Goto(frame) => {
            lemma_push(below, frame);
        },
        Move::Call(frame, callee) => {
            lemma_push(below, frame);
            lemma_push(below.push(frame), callee);
        },
        Move::Stash(frame, thread) => {
            lemma_push(below, frame);
            lemma_stashed_wf(l.at(frame), Object::spec_thread(thread));
        },
        Move::Return(urgency) => {
            if below.len() > 0 {
                let rest = below.drop_last();
                let caller = below.last();
                assert(rest.push(caller) =~= below);
                lemma_push(rest, caller);
                lemma_push(rest, caller.spec_returned(urgency));
            }
        },
    }
}

proof fn lemma_stashed_wf(l: Local, object: Object)
    requires
        l.wf(),
        l.idle() ==> l.pin_count > 0,
        !l.idle() ==> calls(l.stack.last(), Frame::Unlinked(Unlinked::Advancing)),
        !l.exited,
    ensures
        l.stashed(object).wf(),
{
    let unlinked = Frame::Unlinked(Unlinked::Advancing);
    lemma_push(l.stack, unlinked);
    lemma_push(l.stack.push(unlinked), Frame::Advance(Advance::Start));
    if l.stack.len() > 1 {
        lemma_chained_at(l.stack, 1);
    }
    if l.stack.len() > 2 {
        lemma_chained_at(l.stack, 2);
    }
}

/// Starting a routine keeps the data of a thread in order.
pub proof fn lemma_begun_wf(l: Local)
    requires
        l.wf(),
    ensures
        l.can_pin() ==> l.begun_pin().wf(),
        l.can_unpin() ==> l.begun_unpin().wf(),
        l.can_exit() ==> l.begun_exit().wf(),
        l.can_unlink() ==> forall|object: Object| (#[trigger] l.stashed(object)).wf(),
{
    let pin = Frame::Pin(Pin::Entering);
    let exit = Frame::Exit(Exit::Entering);
    lemma_push(l.stack, Frame::SetUnpinned(SetUnpinned::Fence));
    lemma_push(l.stack, pin);
    lemma_push(l.stack, exit);
    lemma_push(l.stack.push(pin), Frame::SetPinned(SetPinned::Load));
    lemma_push(l.stack.push(exit), Frame::SetPinned(SetPinned::Load));
    if l.stack.len() > 1 {
        lemma_chained_at(l.stack, 1);
    }
    assert forall|object: Object| l.can_unlink() implies (#[trigger] l.stashed(object)).wf() by {
        lemma_stashed_wf(l, object);
    }
}

/// Holds the data of one thread.
pub struct Harness {
    /// The entry of the thread in the list of participating threads.
    thread: usize,
    /// The number of guards that the thread holds.
    pin_count: usize,
    /// The local bag of unlinked objects.
    bag: Bag,
    /// The bags that are full, or local no more, and not yet in the garbage queues.
    closed: Vec<Bag>,
    /// The routines that the thread is in; the last one runs.
    stack: Vec<Frame>,
    /// Whether the thread has exited.
    exited: bool,
}

impl View for Harness {
    type V = Local;

    closed spec fn view(&self) -> Local {
        Local {
            thread: self.thread,
            pin_count: self.pin_count,
            capacity: self.bag.spec_capacity(),
            bag: self.bag@,
            closed: Seq::new(self.closed@.len(), |i: int| self.closed@[i]@),
            stack: self.stack@,
            exited: self.exited,
        }
    }
}

impl Harness {
    /// Returns the data of a thread that has just been registered, with bags that have room for
    /// `capacity` objects.
    pub fn new(thread: usize, capacity: usize) -> (h: Harness)
        requires
            capacity > 0,
        ensures
            h@ == Local::fresh(thread, capacity as nat),
            h@.thread == thread,
            h@.capacity == capacity,
            h@.pin_count == 0,
            h@.bag.len() == 0,
            h@.closed.len() == 0,
            h@.stack.len() == 0,
            !h@.exited,
            h@.wf(),
    {
        let h = Harness {
            thread,
            pin_count: 0,
            bag: Bag::new(capacity),
            closed: Vec::new(),
            stack: Vec::new(),
            exited: false,
        };
        assert(h@ =~= Local::fresh(thread, capacity as nat));
        h
    }

    /// Returns the entry of the thread in the list of participating threads.
    pub fn thread(&self) -> (thread: usize)
        ensures
            thread == self@.thread,
    {
        self.thread
    }

    /// Returns the number of guards that the thread holds.
    pub fn pin_count(&self) -> (count: usize)
        ensures
            count == self@.pin_count,
    {
        self.pin_count
    }

    /// Returns the local bag of unlinked objects.
    pub fn bag(&self) -> (bag: &Bag)
        ensures
            bag@ == self@.bag,
            bag.spec_capacity() == self@.capacity,
    {
        &self.bag
    }

    /// Tells whether the thread has exited.
    pub fn has_exited(&self) -> (exited: bool)
        ensures
            exited == self@.exited,
    {
        self.exited
    }

    /// Tells whether the thread runs no routine.
    pub fn is_idle(&self) -> (idle: bool)
        ensures
            idle == self@.idle(),
    {
        self.stack.len() == 0
    }

    /// Returns the number of routines that the thread is in.
    pub fn depth(&self) -> (n: usize)
        ensures
            n == self@.stack.len(),
    {
        self.stack.len()
    }

    /// Tells whether code outside of this library can run in the thread.
    pub fn is_open(&self) -> (open: bool)
        ensures
            open == self@.open(),
    {
        if self.exited {
            return false;
        }
        let n: usize = self.stack.len();
        if n == 0 {
            return true;
        }
        match self.stack[n - 1] {
            Frame::Unlinked(Unlinked::Collecting { .. })
            | Frame::Unlinked(Unlinked::Pushing { .. })
            | Frame::Pin(Pin::Collecting { .. })
            | Frame::Exit(Exit::Collecting { .. }) => true,
            _ => false,
        }
    }

    /// Tells whether the thread waits for the garbage queues, or runs no routine.
    pub fn is_stopped(&self) -> (stopped: bool)
        ensures
            stopped == self@.stopped(),
    {
        self.is_idle() || self.action().outside()
    }

    /// Returns the action that the thread asks for.
    pub fn action(&self) -> (action: Action)
        requires
            !self@.idle(),
        ensures
            action == self@.action(),
    {
        let n: usize = self.stack.len();
        self.stack[n - 1].action(self.thread)
    }

    /// Returns the bag that has to be pushed into the garbage queues.
    pub fn outgoing(&self) -> (bag: &Bag)
        requires
            self@.wf(),
            !self@.idle(),
            self@.action() is Push,
        ensures
            bag@ == self@.closed.last(),
    {
        proof {
            lemma_push(self@.stack.drop_last(), self@.stack.last());
            assert(self@.stack.drop_last().push(self@.stack.last()) =~= self@.stack);
        }
        let n: usize = self.closed.len();
        &self.closed[n - 1]
    }

    /// Puts an object into the local bag, and sets out to get rid of the bag if that makes it full.
    fn stash(&mut self, object: Object)
        requires
            old(self)@.bag.len() < old(self)@.capacity,
        ensures
            final(self)@ == old(self)@.stashed(object),
    {
        let inserted = self.bag.try_insert(object);
        assert(inserted);
        if self.bag.is_full() {
            // Replace the bag with a fresh one.
            let mut bag = Bag::new(self.bag.capacity());
            std::mem::swap(&mut bag, &mut self.bag);
            self.closed.push(bag);
            self.stack.push(Frame::Unlinked(Unlinked::Advancing));
            // Spare some cycles on garbage collection.
            self.stack.push(Frame::Advance(Advance::Start));
        }
        assert(self@ =~= old(self)@.stashed(object));
    }

    /// Tells the thread the outcome of its action.
    pub fn resume(&mut self, event: Event)
        requires
            old(self)@.wf(),
            !old(self)@.idle(),
            old(self)@.action().allows(event),
        ensures
            final(self)@ == old(self)@.resumed(event),
            final(self)@.wf(),
    {
        proof {
            lemma_resumed_wf(self@, event);
            lemma_push(self@.stack.drop_last(), self@.stack.last());
            assert(self@.stack.drop_last().push(self@.stack.last()) =~= self@.stack);
        }
        let n: usize = self.stack.len();
        let top = self.stack[n - 1];
        self.hand();
        let ghost handed = self@;
        self.stack.pop();
        match top.next(self.thread, event) {
            Move::Goto(frame) => {
                self.stack.push(frame);
            },
            Move::Call(frame, callee) => {
                self.stack.push(frame);
                self.stack.push(callee);
            },
            Move::Stash(frame, thread) => {
                self.stack.push(frame);
                assert(self@ =~= handed.at(frame));
                self.stash(Object::thread(thread));
            },
            Move::Return(urgency) => {
                if n >= 2 {
                    let caller = self.stack[n - 2];
                    self.stack.pop();
                    self.stack.push(caller.returned(urgency));
                } else {
                    match top {
                        Frame::Exit(_) => {
                            self.exited = true;
                        },
                        _ => {},
                    }
                }
            },
        }
        assert(self@ =~= old(self)@.resumed(event));
    }

    /// Closes the local bag, or lets go of a closed bag, where the running routine does so.
    fn hand(&mut self)
        requires
            !old(self)@.idle(),
            old(self)@.closed.len() == bag_owners(old(self)@.stack),
        ensures
            final(self)@ == old(self)@.handed(),
    {
        let n: usize = self.stack.len();
        proof {
            lemma_push(self@.stack.drop_last(), self@.stack.last());
            assert(self@.stack.drop_last().push(self@.stack.last()) =~= self@.stack);
        }
        match self.stack[n - 1] {
            Frame::Exit(Exit::Collected) => {
                let mut bag = Bag::new(self.bag.capacity());
                std::mem::swap(&mut bag, &mut self.bag);
                self.closed.push(bag);
            },
            Frame::Exit(Exit::Pushing { .. }) | Frame::Unlinked(Unlinked::Pushing { .. }) => {
                self.closed.pop();
            },
            _ => {},
        }
        assert(self@ =~= old(self)@.handed());
    }

    /// Sets out to take a guard.
    pub fn begin_pin(&mut self)
        requires
            old(self)@.wf(),
            old(self)@.can_pin(),
        ensures
            final(self)@ == old(self)@.begun_pin(),
            final(self)@.wf(),
    {
        proof {
            lemma_begun_wf(self@);
        }
        let c: usize = self.pin_count;
        self.pin_count = c + 1;
        if c == 0 {
            self.stack.push(Frame::Pin(Pin::Entering));
            self.stack.push(Frame::SetPinned(SetPinned::Load));
        }
        assert(self@ =~= old(self)@.begun_pin());
    }

    /// Sets out to drop a guard.
    pub fn begin_unpin(&mut self)
        requires
            old(self)@.wf(),
            old(self)@.can_unpin(),
        ensures
            final(self)@ == old(self)@.begun_unpin(),
            final(self)@.wf(),
    {
        proof {
            lemma_begun_wf(self@);
        }
        let c: usize = self.pin_count;
        self.pin_count = c - 1;
        if c == 1 {
            self.stack.push(Frame::SetUnpinned(SetUnpinned::Fence));
        }
        assert(self@ =~= old(self)@.begun_unpin());
    }

    /// Puts an object that became unreachable into the local bag.
    pub fn begin_unlinked(&mut self, object: Object)
        requires
            old(self)@.wf(),
            old(self)@.can_unlink(),
        ensures
            final(self)@ == old(self)@.stashed(object),
            final(self)@.wf(),
    {
        proof {
            lemma_begun_wf(self@);
        }
        self.stash(object);
    }

    /// Sets out to exit.
    pub fn begin_exit(&mut self)
        requires
            old(self)@.wf(),
            old(self)@.can_exit(),
        ensures
            final(self)@ == old(self)@.begun_exit(),
            final(self)@.wf(),
    {
        proof {
            lemma_begun_wf(self@);
        }
        self.stack.push(Frame::Exit(Exit::Entering));
        self.stack.push(Frame::SetPinned(SetPinned::Load));
        assert(self@ =~= old(self)@.begun_exit());
    }
}

} // verus!
