//! The world together with what has happened in it, counted in advances of the global epoch.
//!
//! The words in memory wrap around. What is promised of the library speaks of the order in which
//! things happened, so a history counts the advances without bound, and notes for each thing the
//! count at which it happened.
use crate::access::{Action, Event};
use crate::harness::Local;
use crate::registry::target;
use crate::routine::{blocks, Advance, Exit, Frame, Move, Pin, SetPinned, Unlinked};
use crate::state::{
    epoch, epochs, lemma_next_epoch_parts, lemma_nth_epoch, lemma_nth_epoch_injective,
    lemma_raise_keeps_epoch, next_epoch, nth_epoch, pinned,
};
use crate::world::{lemma_other_thread, lemma_step_wf, Step, World};
use vstd::prelude::*;

verus! {

/// When things happened in one thread.
#[verifier::ext_equal]
pub struct Notes {
    /// The count whose epoch the thread announced when it got pinned last.
    pub announced: nat,
    /// The count when the thread got pinned last.
    pub since: nat,
    /// For each routine, the count when it was called.
    pub entered: Seq<nat>,
    /// For each routine, the count when it loaded the global state, or was called before it has.
    pub loaded: Seq<nat>,
    /// For each object in the local bag, the count when it became unreachable.
    pub bag: Seq<nat>,
    /// For each object in each closed bag, the count when it became unreachable.
    pub closed: Seq<Seq<nat>>,
}

/// The world and its past.
#[verifier::ext_equal]
pub struct History {
    pub world: World,
    /// How often the global epoch has advanced.
    pub count: nat,
    pub notes: Seq<Notes>,
    /// The entries that were removed from the list, with the count when that happened.
    pub removed: Map<int, nat>,
}

/// The epoch that a frame has loaded and goes by.
pub open spec fn held_epoch(frame: Frame) -> Option<usize> {
    match frame {
        Frame::SetPinned(SetPinned::Store { state }) => Some(epoch(state)),
        Frame::SetPinned(SetPinned::Fence { state }) => Some(epoch(state)),
        Frame::Advance(Advance::Head { state }) => Some(epoch(state)),
        Frame::Advance(Advance::Visit { state, .. }) => Some(epoch(state)),
        Frame::Advance(Advance::Remove { state, .. }) => Some(epoch(state)),
        Frame::Advance(Advance::Check { state, .. }) => Some(epoch(state)),
        Frame::Unlinked(Unlinked::Collecting { epoch }) => Some(epoch),
        Frame::Unlinked(Unlinked::Pushing { epoch }) => Some(epoch),
        Frame::Pin(Pin::Collecting { state }) => Some(epoch(state)),
        Frame::Pin(Pin::Clearing { state }) => Some(epoch(state)),
        Frame::Exit(Exit::Collecting { epoch }) => Some(epoch),
        Frame::Exit(Exit::Pushing { epoch }) => Some(epoch),
        _ => None,
    }
}

/// The entry that an attempt to advance has reached: it has passed all entries above.
pub open spec fn reached(frame: Frame) -> Option<int> {
    match frame {
        Frame::Advance(Advance::Visit { curr, .. }) => Some(target(curr)),
        Frame::Advance(Advance::Remove { thread, .. }) => Some(thread as int),
        Frame::Advance(Advance::Check { thread, .. }) => Some(thread as int),
        _ => None,
    }
}

impl Notes {
    /// The notes of a thread that was just registered.
    pub open spec fn fresh(count: nat) -> Notes {
        Notes {
            announced: count,
            since: count,
            entered: Seq::empty(),
            loaded: Seq::empty(),
            bag: Seq::empty(),
            closed: Seq::empty(),
        }
    }

    /// The notes once the stack has `n` frames; `loads` says whether the running routine has
    /// loaded the global state.
    pub open spec fn restacked(self, n: nat, loads: bool, count: nat) -> Notes {
        Notes {
            entered: Seq::new(
                n,
                |k: int|
                    if k < self.entered.len() {
                        self.entered[k]
                    } else {
                        count
                    },
            ),
            loaded: Seq::new(
                n,
                |k: int|
                    if k < self.loaded.len() && !(loads && k == self.loaded.len() - 1) {
                        self.loaded[k]
                    } else {
                        count
                    },
            ),
            ..self
        }
    }

    /// The notes once the thread with data `l` has put an object into its bag.
    pub open spec fn stashed(self, l: Local, count: nat) -> Notes {
        let bag = self.bag.push(count);
        if l.bag.len() + 1 < l.capacity {
            Notes { bag, ..self }
        } else {
            Notes { bag: Seq::empty(), closed: self.closed.push(bag), ..self }
        }
    }

    /// The notes once the local bag, or the closed bag, of the thread has changed hands.
    pub open spec fn handed(self, l: Local) -> Notes {
        match l.stack.last() {
            Frame::Exit(Exit::Collected) => Notes {
                bag: Seq::empty(),
                closed: self.closed.push(self.bag),
                ..self
            },
            Frame::Exit(Exit::Pushing { .. }) | Frame::Unlinked(Unlinked::Pushing { .. }) => Notes {
                closed: self.closed.drop_last(),
                ..self
            },
            _ => self,
        }
    }

    /// The notes once the thread has stored a word into its entry.
    pub open spec fn stored(self, action: Action, count: nat) -> Notes {
        match action {
            Action::StoreThread { word, .. } => if pinned(word) {
                Notes { announced: self.loaded.last(), since: count, ..self }
            } else {
                self
            },
            _ => self,
        }
    }
}

impl History {
    /// The history before any thread was registered.
    pub open spec fn initial() -> History {
        History {
            world: World::initial(),
            count: 0,
            notes: Seq::empty(),
            removed: Map::empty(),
        }
    }

    /// The history after a step.
    pub open spec fn taken(self, step: Step) -> History {
        let world = self.world.taken(step);
        let count = if epoch(world.mem.state) == epoch(self.world.mem.state) {
            self.count
        } else {
            self.count + 1
        };
        match step {
            Step::Act { thread, event } => {
                let l = self.world.locals[thread];
                let n = world.locals[thread].stack.len();
                let notes = self.notes[thread].stored(l.action(), self.count).handed(l);
                let m = l.stack.last().spec_next(event);
                let notes = if m is Stash {
                    notes.stashed(l, self.count)
                } else {
                    notes
                };
                History {
                    world,
                    count,
                    notes: self.notes.update(
                        thread,
                        notes.restacked(n, l.action() is LoadState, self.count),
                    ),
                    removed: match m {
                        Move::Stash(_, entry) => self.removed.insert(entry as int, self.count),
                        _ => self.removed,
                    },
                }
            },
            Step::Unlink { thread, .. } => {
                let l = self.world.locals[thread];
                let n = world.locals[thread].stack.len();
                History {
                    world,
                    notes: self.notes.update(
                        thread,
                        self.notes[thread].stashed(l, self.count).restacked(n, false, self.count),
                    ),
                    ..self
                }
            },
            Step::Pin { thread } | Step::Unpin { thread } | Step::Exit { thread } => {
                let n = world.locals[thread].stack.len();
                History {
                    world,
                    notes: self.notes.update(
                        thread,
                        self.notes[thread].restacked(n, false, self.count),
                    ),
                    ..self
                }
            },
            Step::Join { .. } => History {
                world,
                notes: self.notes.push(Notes::fresh(self.count)),
                ..self
            },
        }
    }

    /// Whether a step takes an epoch for another one that has the same word, a whole turn of the
    /// epoch counter apart: the epoch that a pinned thread has announced, or the global epoch, for
    /// the one from which an attempt to advance has started.
    pub open spec fn mistakes(self, step: Step) -> bool {
        match step {
            Step::Act { thread, event } => {
                let loaded = self.notes[thread].loaded.last();
                match self.world.locals[thread].stack.last() {
                    Frame::Advance(Advance::Check { state, thread: u, .. }) => {
                        &&& self.world.is_pinned(u as int)
                        &&& epoch(self.world.mem.threads[u as int].state) == epoch(state)
                        &&& self.notes[u as int].announced != loaded
                    },
                    Frame::Advance(Advance::Visit { state, curr, .. }) => {
                        &&& curr.to is None
                        &&& self.world.mem.state == state
                        &&& self.count != loaded
                    },
                    _ => false,
                }
            },
            _ => false,
        }
    }

    /// Whether nobody is as late as a whole turn of the epoch counter: neither a pinned thread with
    /// the epoch that it announced, nor an attempt to advance with the epoch that it started from.
    pub open spec fn timely(self) -> bool {
        &&& forall|t: int|
            self.world.has(t) && #[trigger] self.world.is_pinned(t) ==> self.count
                < self.notes[t].announced + epochs()
        &&& forall|t: int, k: int|
            self.world.has(t) && 0 <= k < self.world.locals[t].stack.len()
                && #[trigger] self.world.locals[t].stack[k] is Advance
                && held_epoch(self.world.locals[t].stack[k]) is Some ==> self.count
                < self.notes[t].loaded[k] + epochs()
    }

    /// Whether the notes speak of the world.
    pub open spec fn notes_wf(self, t: int) -> bool {
        let l = self.world.locals[t];
        let notes = self.notes[t];
        &&& notes.entered.len() == l.stack.len()
        &&& notes.loaded.len() == l.stack.len()
        &&& notes.bag.len() == l.bag.len()
        &&& notes.closed.len() == l.closed.len()
        &&& forall|i: int|
            0 <= i < notes.closed.len() ==> (#[trigger] notes.closed[i]).len()
                == l.closed[i].len()
        &&& notes.announced <= notes.since <= self.count
    }

    /// Whether a pinned thread announced what its notes say, and the global epoch has advanced at
    /// most once since the thread got pinned.
    pub open spec fn pin_wf(self, t: int) -> bool {
        self.world.is_pinned(t) ==> {
            &&& self.world.mem.threads[t].state == nth_epoch(self.notes[t].announced)
            &&& self.count <= self.notes[t].since + 1
        }
    }

    /// Whether a frame holds the epoch that its notes say, and has passed no thread that was pinned
    /// before it loaded that epoch.
    pub open spec fn frame_wf(self, t: int, k: int) -> bool {
        let frame = self.world.locals[t].stack[k];
        let loaded = self.notes[t].loaded[k];
        &&& self.notes[t].entered[k] <= loaded <= self.count
        &&& held_epoch(frame) matches Some(e) ==> e == nth_epoch(loaded)
        &&& reached(frame) matches Some(c) ==> forall|u: int|
            self.world.has(u) && c < u && #[trigger] self.world.is_pinned(u)
                ==> self.notes[u].since >= loaded
    }

    /// What holds of the epochs at any time.
    pub open spec fn epochs_wf(self) -> bool {
        &&& self.world.wf()
        &&& self.notes.len() == self.world.locals.len()
        &&& epoch(self.world.mem.state) == nth_epoch(self.count)
        &&& forall|t: int| self.world.has(t) ==> #[trigger] self.notes_wf(t)
        &&& forall|t: int| self.world.has(t) ==> #[trigger] self.pin_wf(t)
        &&& forall|t: int, k: int|
            self.world.has(t) && 0 <= k < self.world.locals[t].stack.len()
                ==> #[trigger] self.frame_wf(t, k)
    }
}

/// Only an attempt to advance that succeeds changes the global epoch, and then to the next one.
pub proof fn lemma_epoch_changes(w: World, step: Step)
    requires
        w.wf(),
        w.enables(step),
    ensures
        epoch(w.taken(step).mem.state) != epoch(w.mem.state) ==> {
            &&& epoch(w.taken(step).mem.state) == next_epoch(epoch(w.mem.state))
            &&& step is Act
            &&& w.locals[step->Act_thread].stack.last() matches Frame::Advance(Advance::Visit {
                state,
                curr,
                ..
            }) && curr.to is None && state == w.mem.state
        },
{
    lemma_raise_keeps_epoch(w.mem.state);
    lemma_next_epoch_parts(w.mem.state);
    match step {
        Step::Act { thread, event } => {
            assert(w.thread_wf(thread));
        },
        _ => {},
    }
}

/// A thread whose entry is marked as deleted is not pinned.
pub proof fn lemma_deleted_unpinned(w: World, u: int)
    requires
        w.wf(),
        w.has(u),
        w.mem.deleted(u),
    ensures
        !w.is_pinned(u),
{
    assert(w.thread_wf(u));
}

/// Whenever the global epoch advances, all pinned threads have been pinned in the epoch that ends.
pub proof fn lemma_advance_sees_all(h: History, step: Step)
    requires
        h.epochs_wf(),
        h.world.enables(step),
        !h.mistakes(step),
        h.taken(step).count != h.count,
    ensures
        h.taken(step).count == h.count + 1,
        forall|u: int|
            h.world.has(u) && #[trigger] h.world.is_pinned(u) ==> h.notes[u].since == h.count,
{
    lemma_epoch_changes(h.world, step);
    let t = step->Act_thread;
    let l = h.world.locals[t];
    let k = l.stack.len() - 1;
    assert(h.frame_wf(t, k));
    assert(l.stack[k] == l.stack.last());
    assert(h.notes_wf(t));
    assert(h.notes[t].loaded[k] == h.count);
    assert forall|u: int| h.world.has(u) && #[trigger] h.world.is_pinned(u) implies h.notes[u].since
        == h.count by {
        assert(h.notes_wf(u));
    }
}

proof fn lemma_taken_notes_wf(h: History, step: Step, u: int)
    requires
        h.epochs_wf(),
        h.world.enables(step),
        h.taken(step).world.has(u),
    ensures
        h.taken(step).notes_wf(u),
{
    let next = h.taken(step);
    if h.world.has(u) {
        assert(h.notes_wf(u));
        assert(h.world.thread_wf(u));
        let l = h.world.locals[u];
        if l.stack.len() > 0 {
            assert(h.frame_wf(u, l.stack.len() - 1));
        }
    }
}

proof fn lemma_taken_pin_wf(h: History, step: Step, u: int)
    requires
        h.epochs_wf(),
        h.world.enables(step),
        !h.mistakes(step),
        h.taken(step).world.has(u),
    ensures
        h.taken(step).pin_wf(u),
{
    let next = h.taken(step);
    if h.world.has(u) {
        assert(h.pin_wf(u));
        assert(h.notes_wf(u));
        assert(h.world.thread_wf(u));
        if next.count != h.count {
            lemma_advance_sees_all(h, step);
        }
        match step {
            Step::Act { thread, event } => {
                assert(h.world.thread_wf(thread));
                if u != thread {
                    lemma_other_thread(h.world, thread, event, u);
                } else {
                    let l = h.world.locals[u];
                    assert(l.stack[l.stack.len() - 1] == l.stack.last());
                    assert(h.frame_wf(u, l.stack.len() - 1));
                    assert(h.world.mem.fits(l.stack[l.stack.len() - 1]));
                }
            },
            _ => {},
        }
    }
}

/// A thread that is pinned after a step was pinned before it at the same count, or got pinned by
/// the step.
proof fn lemma_since_grows(h: History, step: Step, u: int)
    requires
        h.epochs_wf(),
        h.world.enables(step),
        h.taken(step).world.has(u),
        h.taken(step).world.is_pinned(u),
    ensures
        h.world.has(u),
        h.taken(step).notes[u].since == h.count || h.world.is_pinned(u)
            && h.taken(step).notes[u].since == h.notes[u].since,
{
    match step {
        Step::Act { thread, event } => {
            assert(h.world.thread_wf(thread));
            assert(h.world.thread_wf(u));
            let l = h.world.locals[thread];
            assert(l.stack[l.stack.len() - 1] == l.stack.last());
            assert(h.world.mem.fits(l.stack[l.stack.len() - 1]));
            if u != thread {
                lemma_other_thread(h.world, thread, event, u);
            }
        },
        _ => {},
    }
}

/// An attempt to advance that moves down the list passes only threads that were not pinned before
/// it loaded the epoch.
proof fn lemma_passes(h: History, t: int, event: Event, u: int)
    requires
        h.epochs_wf(),
        h.world.enables(Step::Act { thread: t, event }),
        !h.mistakes(Step::Act { thread: t, event }),
        h.world.has(u),
        h.world.is_pinned(u),
        h.world.locals[t].stack.last() is Advance,
        match h.world.locals[t].stack.last().spec_next(event) {
            Move::Goto(frame) => reached(frame) is Some && reached(frame)->0 < u,
            Move::Stash(frame, _) => reached(frame) is Some && reached(frame)->0 < u,
            _ => false,
        },
    ensures
        h.notes[u].since >= h.notes[t].loaded.last(),
{
    let w = h.world;
    let l = w.locals[t];
    let k = l.stack.len() - 1;
    assert(h.notes_wf(t));
    assert(h.notes_wf(u));
    assert(h.pin_wf(u));
    assert(h.frame_wf(t, k));
    assert(l.stack[k] == l.stack.last());
    assert(w.thread_wf(t));
    assert(w.mem.fits(l.stack[k]));
    if w.mem.deleted(u) {
        lemma_deleted_unpinned(w, u);
    }
    match l.stack.last() {
        Frame::Advance(Advance::Head { .. }) => {
            assert(w.mem.hops(w.mem.head, w.mem.threads.len() as int));
        },
        Frame::Advance(Advance::Remove { thread, succ, .. }) => {
            let c = thread as int;
            assert(w.mem.hops(w.mem.threads[c].next, c));
            assert(w.mem.deleted(c));
        },
        Frame::Advance(Advance::Check { state, thread, succ }) => {
            if u == thread {
                assert(event == Event::Word(w.mem.threads[u].state));
                assert(!blocks(w.mem.threads[u].state, state));
            }
        },
        _ => {},
    }
}

proof fn lemma_taken_frame_wf(h: History, step: Step, u: int, k: int)
    requires
        h.epochs_wf(),
        h.world.enables(step),
        !h.mistakes(step),
        h.taken(step).world.has(u),
        0 <= k < h.taken(step).world.locals[u].stack.len(),
    ensures
        h.taken(step).frame_wf(u, k),
{
    let next = h.taken(step);
    let frame = next.world.locals[u].stack[k];
    let loaded = next.notes[u].loaded[k];
    assert(h.world.has(u));
    assert(h.notes_wf(u));
    assert(h.world.thread_wf(u));
    let l = h.world.locals[u];
    let n = l.stack.len() as int;
    if k < n {
        assert(h.frame_wf(u, k));
    }
    if n > 0 {
        assert(l.stack[n - 1] == l.stack.last());
    }
    if reached(frame) is Some {
        let c = reached(frame)->0;
        assert forall|v: int|
            next.world.has(v) && c < v && #[trigger] next.world.is_pinned(v) implies next.notes[v].since
            >= loaded by {
            lemma_since_grows(h, step, v);
            match step {
                Step::Act { thread, event } => {
                    if next.notes[v].since != h.count && u == thread && k == n - 1 {
                        lemma_passes(h, thread, event, v);
                    }
                },
                _ => {},
            }
        }
    }
}

/// As long as nobody is a whole turn late, no step takes an epoch for another one.
pub proof fn law_timely(h: History, step: Step)
    requires
        h.epochs_wf(),
        h.timely(),
        h.world.enables(step),
    ensures
        !h.mistakes(step),
{
    match step {
        Step::Act { thread, event } => {
            let l = h.world.locals[thread];
            let k = l.stack.len() - 1;
            assert(l.stack[k] == l.stack.last());
            assert(h.notes_wf(thread));
            assert(h.frame_wf(thread, k));
            assert(h.world.thread_wf(thread));
            assert(h.world.mem.fits(l.stack[k]));
            let loaded = h.notes[thread].loaded[k];
            match l.stack.last() {
                Frame::Advance(Advance::Check { state, thread: u, .. }) => {
                    let u = u as int;
                    if h.world.is_pinned(u) && epoch(h.world.mem.threads[u].state) == epoch(state) {
                        let announced = h.notes[u].announced;
                        assert(h.pin_wf(u));
                        assert(h.notes_wf(u));
                        lemma_nth_epoch(announced);
                        if announced <= loaded {
                            lemma_nth_epoch_injective(announced, loaded);
                        } else {
                            lemma_nth_epoch_injective(loaded, announced);
                        }
                    }
                },
                Frame::Advance(Advance::Visit { state, curr, .. }) => {
                    if h.world.mem.state == state {
                        lemma_nth_epoch_injective(loaded, h.count);
                    }
                },
                _ => {},
            }
        },
        _ => {},
    }
}

/// Every step keeps the epochs in order, as long as it does not take an epoch for another one.
pub proof fn lemma_step_epochs_wf(h: History, step: Step)
    requires
        h.epochs_wf(),
        h.world.enables(step),
        !h.mistakes(step),
    ensures
        h.taken(step).epochs_wf(),
{
    let next = h.taken(step);
    lemma_step_wf(h.world, step);
    lemma_epoch_changes(h.world, step);
    lemma_nth_epoch(h.count);
    assert forall|u: int| next.world.has(u) implies #[trigger] next.notes_wf(u) by {
        lemma_taken_notes_wf(h, step, u);
    }
    assert forall|u: int| next.world.has(u) implies #[trigger] next.pin_wf(u) by {
        lemma_taken_pin_wf(h, step, u);
    }
    assert forall|u: int, k: int|
        next.world.has(u) && 0 <= k < next.world.locals[u].stack.len() implies #[trigger] next.frame_wf(
        u,
        k,
    ) by {
        lemma_taken_frame_wf(h, step, u, k);
    }
}

} // verus!
