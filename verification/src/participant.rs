//! When a thread becomes a participant: it registers the first time it is pinned, and never again.
use crate::access::Link;
use crate::course::{after_calls, callable, Call};
use crate::domain::Domain;
use crate::laws::{law_listed, listed};
use crate::registry::{target, Memory, Thread};
use crate::run::{guard_taken, pin, progress, Guard, Progress};
use crate::settle::{fuel, lemma_fuel_decreases, lemma_settled_locals, settled};
use crate::world::{lemma_act_list_wf, lemma_step_wf, Step, World};
use vstd::prelude::*;

verus! {

/// Where a thread keeps the entry that it got when it registered.
///
/// It is empty until the thread is pinned for the first time.
pub struct Participant {
    thread: Option<usize>,
}

impl View for Participant {
    type V = Option<usize>;

    closed spec fn view(&self) -> Option<usize> {
        self.thread
    }
}

impl Participant {
    /// Returns what a thread has before it is pinned for the first time.
    pub fn new() -> (p: Participant)
        ensures
            p@ == None::<usize>,
    {
        Participant { thread: None }
    }

    /// Returns the entry of the thread, if it has registered.
    pub fn thread(&self) -> (thread: Option<usize>)
        ensures
            thread == self@,
    {
        self.thread
    }

    /// Pins the thread, and registers it before if this is the first time. Then its bags get room
    /// for `capacity` objects.
    pub fn pin(&mut self, d: &mut Domain, capacity: usize) -> (r: (Guard, Progress))
        requires
            old(d)@.wf(),
            capacity > 0,
            old(self)@ matches Some(t) ==> old(d)@.has(t as int) && old(
                d,
            )@.locals[t as int].can_pin(),
        ensures
            (Scene { world: old(d)@, thread: old(self)@ }).allows(capacity as nat, Turn::Pin),
            (Scene { world: final(d)@, thread: final(self)@ }) == (Scene {
                world: old(d)@,
                thread: old(self)@,
            }).turned(capacity as nat, Turn::Pin),
            final(self)@ == Some(r.0.spec_thread()),
            guard_taken(
                (Scene { world: old(d)@, thread: old(self)@ }).registered(capacity as nat).world,
                r.0.spec_thread() as int,
                final(d)@,
            ),
            r.1 == progress(final(d)@.locals[r.0.spec_thread() as int]),
            old(self)@ matches Some(t) ==> r.0.spec_thread() == t,
            old(self)@ is None ==> {
                &&& r.0.spec_thread() == old(d)@.mem.threads.len()
                &&& final(d)@.locals[r.0.spec_thread() as int].capacity == capacity
            },
            final(d)@.mem.threads.len() == old(d)@.mem.threads.len() + (if old(self)@ is None {
                1int
            } else {
                0int
            }),
            final(d)@.wf(),
    {
        let t: usize = match self.thread {
            Some(t) => t,
            None => Thread::register(d, capacity),
        };
        self.thread = Some(t);
        proof {
            lemma_call(d@, Call::Pin { thread: t as int });
        }
        pin(d, t)
    }
}

/// The world, and what one of the threads keeps of its registration.
pub struct Scene {
    pub world: World,
    /// The entry of the thread, if it has registered.
    pub thread: Option<usize>,
}

/// Something that happens in a scene.
pub enum Turn {
    /// The thread of the scene is pinned, whether or not it has registered.
    Pin,
    /// Any other call, of this thread or of another one.
    Call(Call),
}

impl Scene {
    /// Whether the entry that the thread keeps is there.
    pub open spec fn wf(self) -> bool {
        &&& self.world.wf()
        &&& self.thread matches Some(t) ==> self.world.has(t as int)
    }

    /// The scene once the thread has registered, if it had not before.
    pub open spec fn registered(self, capacity: nat) -> Scene {
        match self.thread {
            Some(_) => self,
            None => Scene {
                world: Call::Register { capacity }.made(self.world),
                thread: Some(self.world.mem.threads.len() as usize),
            },
        }
    }

    /// Whether a turn is possible, for a thread whose bags have room for `capacity` objects.
    pub open spec fn allows(self, capacity: nat, turn: Turn) -> bool {
        match turn {
            Turn::Pin => {
                let scene = self.registered(capacity);
                &&& self.thread is None ==> self.world.enables(Call::Register { capacity }.step())
                &&& scene.world.enables(Call::Pin { thread: scene.thread->0 as int }.step())
            },
            Turn::Call(call) => self.world.enables(call.step()),
        }
    }

    /// The scene after a turn.
    pub open spec fn turned(self, capacity: nat, turn: Turn) -> Scene {
        match turn {
            Turn::Pin => {
                let scene = self.registered(capacity);
                Scene {
                    world: Call::Pin { thread: scene.thread->0 as int }.made(scene.world),
                    ..scene
                }
            },
            Turn::Call(call) => Scene { world: call.made(self.world), ..self },
        }
    }
}

/// The scene after turns that follow one another.
pub open spec fn after_turns(s: Scene, capacity: nat, turns: Seq<Turn>) -> Scene
    decreases turns.len(),
{
    if turns.len() == 0 {
        s
    } else {
        after_turns(s, capacity, turns.drop_last()).turned(capacity, turns.last())
    }
}

/// Whether turns can follow one another.
pub open spec fn playable(s: Scene, capacity: nat, turns: Seq<Turn>) -> bool
    decreases turns.len(),
{
    turns.len() > 0 ==> playable(s, capacity, turns.drop_last()) && after_turns(
        s,
        capacity,
        turns.drop_last(),
    ).allows(capacity, turns.last())
}

/// How many threads register.
pub open spec fn registers(calls: Seq<Call>) -> nat
    decreases calls.len(),
{
    if calls.len() == 0 {
        0
    } else {
        registers(calls.drop_last()) + (if calls.last() is Register {
            1nat
        } else {
            0nat
        })
    }
}

/// How many other threads register.
pub open spec fn others_register(turns: Seq<Turn>) -> nat
    decreases turns.len(),
{
    if turns.len() == 0 {
        0
    } else {
        others_register(turns.drop_last()) + (if turns.last() is Call && turns.last()->Call_0
            is Register {
            1nat
        } else {
            0nat
        })
    }
}

/// How often the thread of the scene is pinned.
pub open spec fn times_pinned(turns: Seq<Turn>) -> nat
    decreases turns.len(),
{
    if turns.len() == 0 {
        0
    } else {
        times_pinned(turns.drop_last()) + (if turns.last() is Pin {
            1nat
        } else {
            0nat
        })
    }
}

/// Whether no entry in the list is marked as deleted.
pub open spec fn all_live(m: Memory) -> bool {
    forall|i: int| #[trigger] listed(m, m.head, i) ==> !m.deleted(i)
}

/// Whether the entries that are marked as deleted were so before.
pub open spec fn none_deleted(before: Memory, m: Memory) -> bool {
    forall|i: int|
        0 <= i < m.threads.len() && #[trigger] m.deleted(i) ==> i < before.threads.len()
            && before.deleted(i)
}

/// Entries that are deleted stay so while a thread goes on by itself.
proof fn lemma_settled_deleted(w: World, t: int)
    requires
        w.wf(),
        w.has(t),
    ensures
        forall|i: int|
            0 <= i < w.mem.threads.len() && w.mem.deleted(i) ==> #[trigger] settled(
                w,
                t,
            ).mem.deleted(i),
    decreases fuel(w, t),
{
    if !w.locals[t].stopped() {
        lemma_fuel_decreases(w, t);
        let next = w.taken(w.next_step(t));
        lemma_act_list_wf(w, t, w.next_step(t)->Act_event);
        lemma_settled_deleted(next, t);
        assert forall|i: int|
            0 <= i < w.mem.threads.len() && w.mem.deleted(i) implies #[trigger] settled(
            w,
            t,
        ).mem.deleted(i) by {
            assert(w.mem.threads[i].next.deleted);
            assert(next.mem.deleted(i));
        }
    }
}

/// What one call does to the entries: only registration adds one, and none that is deleted ceases to
/// be.
proof fn lemma_call(w: World, call: Call)
    requires
        w.wf(),
        w.enables(call.step()),
    ensures
        call.made(w).wf(),
        call.made(w).mem.threads.len() == w.mem.threads.len() + (if call is Register {
            1int
        } else {
            0int
        }),
        forall|i: int|
            0 <= i < w.mem.threads.len() && w.mem.deleted(i) ==> #[trigger] call.made(
                w,
            ).mem.deleted(i),
{
    lemma_step_wf(w, call.step());
    let begun = w.taken(call.step());
    match call {
        Call::Register { .. } => {},
        Call::Pin { thread }
        | Call::Drop { thread }
        | Call::Unlinked { thread, .. }
        | Call::Exit { thread }
        | Call::Reply { thread, .. } => {
            lemma_settled_locals(begun, thread);
            lemma_settled_deleted(begun, thread);
            assert(begun.mem == w.mem);
        },
    }
}

/// The head of the list is the entry that was registered last, if that one is not deleted.
proof fn lemma_head(m: Memory)
    requires
        m.list_wf(),
        0 < m.threads.len() <= usize::MAX + 1,
        !m.deleted(m.threads.len() - 1),
    ensures
        m.head == (Link { to: Some((m.threads.len() - 1) as usize), deleted: false }),
{
    assert(m.hops(m.head, m.threads.len() as int));
    if target(m.head) < m.threads.len() - 1 {
        assert(m.deleted(m.threads.len() - 1));
    }
}

proof fn lemma_entries_fit(w: World)
    requires
        w.wf(),
    ensures
        w.mem.threads.len() <= usize::MAX + 1,
{
    if w.mem.threads.len() > 0 {
        assert(w.thread_wf(w.mem.threads.len() - 1));
    }
}

/// Whatever is called, and by whichever threads, there are as many entries more as threads have
/// registered. The head of the list is the entry that was registered last, unless it is deleted.
pub proof fn law_registered(w: World, calls: Seq<Call>)
    requires
        w.wf(),
        callable(w, calls),
    ensures
        ({
            let m = after_calls(w, calls).mem;
            let n = m.threads.len() as int;
            &&& after_calls(w, calls).wf()
            &&& n == w.mem.threads.len() + registers(calls)
            &&& n > 0 && !m.deleted(n - 1) ==> m.head == (Link {
                to: Some((n - 1) as usize),
                deleted: false,
            })
        }),
    decreases calls.len(),
{
    if calls.len() > 0 {
        law_registered(w, calls.drop_last());
        lemma_call(after_calls(w, calls.drop_last()), calls.last());
    }
    let now = after_calls(w, calls);
    lemma_entries_fit(now);
    if now.mem.threads.len() > 0 && !now.mem.deleted(now.mem.threads.len() - 1) {
        lemma_head(now.mem);
    }
}

/// A thread registers the first time it is pinned, and never again, however often it is pinned and
/// whatever else is called in between: it has an entry once it was pinned, it keeps that entry, and
/// there are as many entries more as other threads have registered, and one for the thread if it had
/// none.
pub proof fn law_registered_once(s: Scene, capacity: nat, turns: Seq<Turn>)
    requires
        s.wf(),
        playable(s, capacity, turns),
    ensures
        ({
            let now = after_turns(s, capacity, turns);
            &&& now.wf()
            &&& s.thread is Some ==> now.thread == s.thread
            &&& s.thread is None ==> (now.thread is Some <==> times_pinned(turns) > 0)
            &&& now.world.mem.threads.len() == s.world.mem.threads.len() + others_register(turns)
                + (if s.thread is None && times_pinned(turns) > 0 {
                1int
            } else {
                0int
            })
        }),
    decreases turns.len(),
{
    if turns.len() > 0 {
        let before = after_turns(s, capacity, turns.drop_last());
        law_registered_once(s, capacity, turns.drop_last());
        lemma_turn(before, capacity, turns.last());
    }
}

proof fn lemma_turn(s: Scene, capacity: nat, turn: Turn)
    requires
        s.wf(),
        s.allows(capacity, turn),
    ensures
        ({
            let now = s.turned(capacity, turn);
            &&& now.wf()
            &&& s.thread is Some ==> now.thread == s.thread
            &&& s.thread is None ==> (now.thread is Some <==> turn is Pin)
            &&& s.thread is None && turn is Pin ==> now.thread == Some(
                s.world.mem.threads.len() as usize,
            ) && s.world.mem.threads.len() <= usize::MAX
            &&& now.world.mem.threads.len() == s.world.mem.threads.len() + (if turn is Call
                && turn->Call_0 is Register || turn is Pin && s.thread is None {
                1int
            } else {
                0int
            })
            &&& forall|i: int|
                0 <= i < s.world.mem.threads.len() && s.world.mem.deleted(i)
                    ==> #[trigger] now.world.mem.deleted(i)
        }),
{
    match turn {
        Turn::Pin => {
            let scene = s.registered(capacity);
            if s.thread is None {
                lemma_call(s.world, Call::Register { capacity });
            }
            lemma_call(scene.world, Call::Pin { thread: scene.thread->0 as int });
        },
        Turn::Call(call) => {
            lemma_call(s.world, call);
        },
    }
}

proof fn lemma_turns_deleted(s: Scene, capacity: nat, turns: Seq<Turn>)
    requires
        s.wf(),
        playable(s, capacity, turns),
    ensures
        ({
            let now = after_turns(s, capacity, turns);
            forall|i: int|
                0 <= i < s.world.mem.threads.len() && s.world.mem.deleted(i)
                    ==> #[trigger] now.world.mem.deleted(i)
        }),
    decreases turns.len(),
{
    if turns.len() > 0 {
        let before = after_turns(s, capacity, turns.drop_last());
        law_registered_once(s, capacity, turns.drop_last());
        lemma_turns_deleted(s, capacity, turns.drop_last());
        lemma_turn(before, capacity, turns.last());
        let now = after_turns(s, capacity, turns);
        assert forall|i: int|
            0 <= i < s.world.mem.threads.len() && s.world.mem.deleted(
                i,
            ) implies #[trigger] now.world.mem.deleted(i) by {
            assert(before.world.mem.deleted(i));
        }
    }
}

/// Without other threads that register, the entry that a thread gets is the next one.
proof fn lemma_next_entry(s: Scene, capacity: nat, turns: Seq<Turn>)
    requires
        s.wf(),
        s.thread is None,
        playable(s, capacity, turns),
        others_register(turns) == 0,
        times_pinned(turns) > 0,
    ensures
        s.world.mem.threads.len() <= usize::MAX,
        after_turns(s, capacity, turns).thread == Some(s.world.mem.threads.len() as usize),
    decreases turns.len(),
{
    let earlier = turns.drop_last();
    law_registered_once(s, capacity, earlier);
    lemma_turn(after_turns(s, capacity, earlier), capacity, turns.last());
    if times_pinned(earlier) > 0 {
        lemma_next_entry(s, capacity, earlier);
    }
}

/// A link leads to entries only.
proof fn lemma_listed_entry(m: Memory, link: Link, i: int)
    requires
        m.list_wf(),
        target(link) < m.threads.len(),
        listed(m, link, i),
    ensures
        0 <= i <= target(link),
    decreases target(link) + 1,
{
    let c = target(link);
    if i != c {
        lemma_listed_entry(m, m.threads[c].next, i);
    }
}

/// When a thread without an entry was pinned, once or more often, the list has exactly one entry
/// more than before, at its head, and that is the entry of the thread. This is so while no other
/// thread registers and no entry of the list is deleted.
pub proof fn law_listed_once(s: Scene, capacity: nat, turns: Seq<Turn>)
    requires
        s.wf(),
        s.thread is None,
        playable(s, capacity, turns),
        others_register(turns) == 0,
        times_pinned(turns) > 0,
        all_live(s.world.mem),
        all_live(after_turns(s, capacity, turns).world.mem),
        none_deleted(s.world.mem, after_turns(s, capacity, turns).world.mem),
    ensures
        ({
            let before = s.world.mem;
            let now = after_turns(s, capacity, turns);
            let m = now.world.mem;
            &&& now.thread == Some(before.threads.len() as usize)
            &&& m.head == (Link { to: now.thread, deleted: false })
            &&& !listed(before, before.head, now.thread->0 as int)
            &&& forall|i: int| #[trigger]
                listed(m, m.head, i) <==> i == now.thread->0 || listed(before, before.head, i)
        }),
{
    let w = s.world;
    let now = after_turns(s, capacity, turns);
    let m = now.world.mem;
    let n = w.mem.threads.len() as int;
    law_registered_once(s, capacity, turns);
    lemma_next_entry(s, capacity, turns);
    lemma_turns_deleted(s, capacity, turns);
    assert(!m.deleted(n));
    lemma_head(m);
    if listed(w.mem, w.mem.head, n) {
        lemma_listed_entry(w.mem, w.mem.head, n);
    }
    assert forall|i: int| #[trigger] listed(m, m.head, i) <==> i == n || listed(
        w.mem,
        w.mem.head,
        i,
    ) by {
        if listed(m, m.head, i) {
            lemma_listed_entry(m, m.head, i);
            if i < n {
                if w.mem.deleted(i) {
                    assert(m.deleted(i));
                }
                law_listed(w, i);
            }
        }
        if listed(w.mem, w.mem.head, i) {
            lemma_listed_entry(w.mem, w.mem.head, i);
            if m.deleted(i) {
                assert(w.mem.deleted(i));
            }
            law_listed(now.world, i);
        }
    }
}

} // verus!
