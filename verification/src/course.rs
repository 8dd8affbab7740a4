//! What happens over any number of steps or calls: how many guards a thread holds, and where the
//! objects are that it has announced.
use crate::access::Event;
use crate::garbage::Object;
use crate::harness::Local;
use crate::laws::law_guard;
use crate::routine::Move;
use crate::settle::{fuel, lemma_fuel_decreases, settled};
use crate::state::Urgency;
use crate::world::{lemma_step_wf, Step, World};
use vstd::prelude::*;

verus! {

/// The world after steps that are taken one after another.
pub open spec fn after_steps(w: World, steps: Seq<Step>) -> World
    decreases steps.len(),
{
    if steps.len() == 0 {
        w
    } else {
        after_steps(w, steps.drop_last()).taken(steps.last())
    }
}

/// Whether steps can be taken one after another.
pub open spec fn runs(w: World, steps: Seq<Step>) -> bool
    decreases steps.len(),
{
    steps.len() > 0 ==> runs(w, steps.drop_last()) && after_steps(w, steps.drop_last()).enables(
        steps.last(),
    )
}

/// How often a thread sets out to take a guard.
pub open spec fn guards_taken(steps: Seq<Step>, t: int) -> nat
    decreases steps.len(),
{
    if steps.len() == 0 {
        0
    } else {
        guards_taken(steps.drop_last(), t) + (if steps.last() == (Step::Pin { thread: t }) {
            1nat
        } else {
            0nat
        })
    }
}

/// How often a thread sets out to drop a guard.
pub open spec fn guards_dropped(steps: Seq<Step>, t: int) -> nat
    decreases steps.len(),
{
    if steps.len() == 0 {
        0
    } else {
        guards_dropped(steps.drop_last(), t) + (if steps.last() == (Step::Unpin { thread: t }) {
            1nat
        } else {
            0nat
        })
    }
}

/// The number of guards that a thread holds. A thread that is not registered yet holds none.
pub open spec fn guards(w: World, t: int) -> int {
    if w.has(t) {
        w.locals[t].pin_count as int
    } else {
        0
    }
}

/// The object that a thread announces in a step: one that its user has unlinked, or an entry that
/// it has removed from the list.
pub open spec fn announces(w: World, step: Step, t: int) -> Option<Object> {
    match step {
        Step::Unlink { thread, object } => if thread == t {
            Some(object)
        } else {
            None
        },
        Step::Act { thread, event } => if thread == t {
            match w.locals[t].stack.last().spec_next(event) {
                Move::Stash(_, entry) => Some(Object::spec_thread(entry)),
                _ => None,
            }
        } else {
            None
        },
        _ => None,
    }
}

/// The bag that the garbage queues take from a thread in a step.
pub open spec fn hands_over(w: World, step: Step, t: int) -> Option<Seq<Object>> {
    match step {
        Step::Act { thread, .. } => if thread == t && w.locals[t].action() is Push {
            Some(w.locals[t].closed.last())
        } else {
            None
        },
        _ => None,
    }
}

/// The objects that a thread announces, in that order.
pub open spec fn announced(w: World, steps: Seq<Step>, t: int) -> Seq<Object>
    decreases steps.len(),
{
    if steps.len() == 0 {
        Seq::empty()
    } else {
        let before = announced(w, steps.drop_last(), t);
        match announces(after_steps(w, steps.drop_last()), steps.last(), t) {
            Some(object) => before.push(object),
            None => before,
        }
    }
}

/// The bags that the garbage queues take from a thread, in that order.
pub open spec fn pushed(w: World, steps: Seq<Step>, t: int) -> Seq<Seq<Object>>
    decreases steps.len(),
{
    if steps.len() == 0 {
        Seq::empty()
    } else {
        let before = pushed(w, steps.drop_last(), t);
        match hands_over(after_steps(w, steps.drop_last()), steps.last(), t) {
            Some(bag) => before.push(bag),
            None => before,
        }
    }
}

/// The bags that a thread still has: those that wait to be pushed, and the local one.
pub open spec fn bags(w: World, t: int) -> Seq<Seq<Object>> {
    if w.has(t) {
        w.locals[t].closed.push(w.locals[t].bag)
    } else {
        Seq::empty()
    }
}

/// How often an object occurs in a bag.
pub open spec fn occurrences(bag: Seq<Object>, object: Object) -> nat
    decreases bag.len(),
{
    if bag.len() == 0 {
        0
    } else {
        occurrences(bag.drop_last(), object) + (if bag.last() == object {
            1nat
        } else {
            0nat
        })
    }
}

/// How often an object occurs in some bags together.
pub open spec fn stored(bags: Seq<Seq<Object>>, object: Object) -> nat
    decreases bags.len(),
{
    if bags.len() == 0 {
        0
    } else {
        stored(bags.drop_last(), object) + occurrences(bags.last(), object)
    }
}

/// Whether the object at `k` in bag `i` is this one.
pub open spec fn lies_at(bags: Seq<Seq<Object>>, i: int, k: int, object: Object) -> bool {
    0 <= i < bags.len() && 0 <= k < bags[i].len() && bags[i][k] == object
}

/// Whether an object lies in exactly one bag, at exactly one place.
pub open spec fn lies_once(bags: Seq<Seq<Object>>, object: Object) -> bool {
    exists|i: int, k: int| #[trigger]
        lies_at(bags, i, k, object) && forall|i2: int, k2: int| #[trigger]
            lies_at(bags, i2, k2, object) ==> i2 == i && k2 == k
}

/// What all these are like when one more step is taken.
proof fn lemma_one_more(w: World, steps: Seq<Step>, step: Step)
    ensures
        after_steps(w, steps.push(step)) == after_steps(w, steps).taken(step),
        runs(w, steps.push(step)) <==> runs(w, steps) && after_steps(w, steps).enables(step),
        forall|t: int| #[trigger]
            guards_taken(steps.push(step), t) == guards_taken(steps, t) + (if step == (Step::Pin {
                thread: t,
            }) {
                1nat
            } else {
                0nat
            }),
        forall|t: int| #[trigger]
            guards_dropped(steps.push(step), t) == guards_dropped(steps, t) + (if step
                == (Step::Unpin { thread: t }) {
                1nat
            } else {
                0nat
            }),
        forall|t: int| #[trigger]
            announced(w, steps.push(step), t) == (match announces(after_steps(w, steps), step, t) {
                Some(object) => announced(w, steps, t).push(object),
                None => announced(w, steps, t),
            }),
        forall|t: int| #[trigger]
            pushed(w, steps.push(step), t) == (match hands_over(after_steps(w, steps), step, t) {
                Some(bag) => pushed(w, steps, t).push(bag),
                None => pushed(w, steps, t),
            }),
{
    assert(steps.push(step).drop_last() =~= steps);
}

proof fn lemma_occurrences_push(bag: Seq<Object>, last: Object, object: Object)
    ensures
        occurrences(bag.push(last), object) == occurrences(bag, object) + (if last == object {
            1nat
        } else {
            0nat
        }),
{
    assert(bag.push(last).drop_last() =~= bag);
}

proof fn lemma_stored_push(bags: Seq<Seq<Object>>, bag: Seq<Object>, object: Object)
    ensures
        stored(bags.push(bag), object) == stored(bags, object) + occurrences(bag, object),
{
    assert(bags.push(bag).drop_last() =~= bags);
}

proof fn lemma_stored_join(a: Seq<Seq<Object>>, b: Seq<Seq<Object>>, object: Object)
    ensures
        stored(a + b, object) == stored(a, object) + stored(b, object),
    decreases b.len(),
{
    if b.len() == 0 {
        assert(a + b =~= a);
    } else {
        assert((a + b).drop_last() =~= a + b.drop_last());
        lemma_stored_join(a, b.drop_last(), object);
    }
}

/// Every step keeps the world in order.
pub proof fn law_runs_in_order(w: World, steps: Seq<Step>)
    requires
        w.wf(),
        runs(w, steps),
    ensures
        after_steps(w, steps).wf(),
    decreases steps.len(),
{
    if steps.len() > 0 {
        law_runs_in_order(w, steps.drop_last());
        lemma_step_wf(after_steps(w, steps.drop_last()), steps.last());
    }
}

proof fn lemma_step_guards(w: World, step: Step, t: int)
    requires
        w.wf(),
        w.enables(step),
    ensures
        guards(w.taken(step), t) == guards(w, t) + (if step == (Step::Pin { thread: t }) {
            1int
        } else if step == (Step::Unpin { thread: t }) {
            -1int
        } else {
            0int
        }),
{
}

/// The number of guards that a thread holds is the number of guards that it has taken and not yet
/// dropped, whatever all threads do meanwhile and in whatever order they do it. Whenever the thread
/// runs no routine, it is pinned if and only if it holds one.
pub proof fn law_guards_counted(w: World, steps: Seq<Step>, t: int)
    requires
        w.wf(),
        runs(w, steps),
        after_steps(w, steps).has(t),
    ensures
        ({
            let now = after_steps(w, steps);
            let l = now.locals[t];
            &&& l.pin_count == guards(w, t) + guards_taken(steps, t) - guards_dropped(steps, t)
            &&& l.open() && l.pin_count > 0 ==> now.is_pinned(t)
            &&& l.open() && l.idle() ==> (now.is_pinned(t) <==> l.pin_count > 0)
        }),
{
    law_runs_in_order(w, steps);
    lemma_guards_counted(w, steps, t);
    if after_steps(w, steps).locals[t].open() {
        law_guard(after_steps(w, steps), t);
    }
}

proof fn lemma_guards_counted(w: World, steps: Seq<Step>, t: int)
    requires
        w.wf(),
        runs(w, steps),
    ensures
        guards(after_steps(w, steps), t) == guards(w, t) + guards_taken(steps, t) - guards_dropped(
            steps,
            t,
        ),
    decreases steps.len(),
{
    if steps.len() > 0 {
        lemma_guards_counted(w, steps.drop_last(), t);
        law_runs_in_order(w, steps.drop_last());
        lemma_step_guards(after_steps(w, steps.drop_last()), steps.last(), t);
    }
}

/// A thread that is registered stays so.
proof fn lemma_has_stays(w: World, steps: Seq<Step>, t: int)
    requires
        w.wf(),
        w.has(t),
        runs(w, steps),
    ensures
        after_steps(w, steps).has(t),
    decreases steps.len(),
{
    if steps.len() > 0 {
        lemma_has_stays(w, steps.drop_last(), t);
    }
}

/// Dropping guards undoes taking them: once a thread has dropped as many guards as it has taken, in
/// any order, it holds as many as before, and is pinned if and only if that is more than none.
pub proof fn law_guards_dropped(w: World, steps: Seq<Step>, t: int)
    requires
        w.wf(),
        w.has(t),
        runs(w, steps),
        guards_taken(steps, t) == guards_dropped(steps, t),
    ensures
        ({
            let now = after_steps(w, steps);
            let l = now.locals[t];
            &&& now.has(t)
            &&& l.pin_count == w.locals[t].pin_count
            &&& l.open() && l.idle() ==> (now.is_pinned(t) <==> w.locals[t].pin_count > 0)
        }),
{
    lemma_has_stays(w, steps, t);
    law_guards_counted(w, steps, t);
}

/// Putting an object into the local bag stores it once.
proof fn lemma_stashed_stored(l: Local, stashed: Object, object: Object)
    ensures
        stored(l.stashed(stashed).closed.push(l.stashed(stashed).bag), object) == stored(
            l.closed.push(l.bag),
            object,
        ) + (if stashed == object {
            1nat
        } else {
            0nat
        }),
{
    let bag = l.bag.push(stashed);
    lemma_occurrences_push(l.bag, stashed, object);
    lemma_stored_push(l.closed, l.bag, object);
    lemma_stored_push(l.closed, bag, object);
    lemma_stored_push(l.closed.push(bag), Seq::empty(), object);
}

proof fn lemma_step_stored(w: World, step: Step, t: int, object: Object)
    requires
        w.wf(),
        w.enables(step),
    ensures
        stored(bags(w.taken(step), t), object) + (match hands_over(w, step, t) {
            Some(bag) => occurrences(bag, object),
            None => 0nat,
        }) == stored(bags(w, t), object) + (if announces(w, step, t) == Some(object) {
            1nat
        } else {
            0nat
        }),
{
    match step {
        Step::Act { thread, event } => {
            if thread == t {
                assert(w.thread_wf(t));
                let l = w.locals[t];
                let top = l.stack.last();
                assert(l.stack.drop_last().push(top) =~= l.stack);
                crate::harness::lemma_push(l.stack.drop_last(), top);
                lemma_stored_push(l.closed, l.bag, object);
                lemma_stored_push(l.closed.push(l.bag), Seq::empty(), object);
                if l.closed.len() > 0 {
                    let rest = l.closed.drop_last();
                    assert(rest.push(l.closed.last()) =~= l.closed);
                    lemma_stored_push(rest, l.closed.last(), object);
                    lemma_stored_push(rest, l.bag, object);
                }
                match top.spec_next(event) {
                    Move::Stash(frame, entry) => {
                        lemma_stashed_stored(l.at(frame), Object::spec_thread(entry), object);
                    },
                    _ => {},
                }
            }
        },
        Step::Unlink { thread, object: unlinked } => {
            if thread == t {
                lemma_stashed_stored(w.locals[t], unlinked, object);
            }
        },
        Step::Join { .. } => {
            if t == w.locals.len() {
                lemma_stored_push(Seq::empty(), Seq::empty(), object);
            }
        },
        _ => {},
    }
}

/// A thread neither loses an object nor stores one twice: each is in the bags that it has, or in
/// those that the garbage queues have taken, as often as it was announced.
pub proof fn law_stored(w: World, steps: Seq<Step>, t: int, object: Object)
    requires
        w.wf(),
        runs(w, steps),
    ensures
        stored(pushed(w, steps, t) + bags(after_steps(w, steps), t), object) == stored(
            bags(w, t),
            object,
        ) + occurrences(announced(w, steps, t), object),
    decreases steps.len(),
{
    let now = after_steps(w, steps);
    lemma_stored_join(pushed(w, steps, t), bags(now, t), object);
    if steps.len() > 0 {
        let rest = steps.drop_last();
        let before = after_steps(w, rest);
        law_stored(w, rest, t, object);
        lemma_stored_join(pushed(w, rest, t), bags(before, t), object);
        law_runs_in_order(w, rest);
        lemma_step_stored(before, steps.last(), t, object);
        match announces(before, steps.last(), t) {
            Some(last) => {
                lemma_occurrences_push(announced(w, rest, t), last, object);
            },
            None => {},
        }
        match hands_over(before, steps.last(), t) {
            Some(bag) => {
                lemma_stored_push(pushed(w, rest, t), bag, object);
            },
            None => {},
        }
    }
}

proof fn lemma_occurs(bag: Seq<Object>, object: Object, k: int)
    requires
        0 <= k < bag.len(),
        bag[k] == object,
    ensures
        occurrences(bag, object) >= 1,
        forall|k2: int|
            0 <= k2 < bag.len() && k2 != k && #[trigger] bag[k2] == object ==> occurrences(
                bag,
                object,
            ) >= 2,
    decreases bag.len(),
{
    let rest = bag.drop_last();
    if k < rest.len() {
        lemma_occurs(rest, object, k);
    }
    assert forall|k2: int|
        0 <= k2 < bag.len() && k2 != k && #[trigger] bag[k2] == object implies occurrences(
        bag,
        object,
    ) >= 2 by {
        if k2 < rest.len() {
            assert(rest[k2] == object);
            lemma_occurs_somewhere(rest, object, k2);
        }
    }
}

proof fn lemma_occurs_somewhere(bag: Seq<Object>, object: Object, k: int)
    requires
        0 <= k < bag.len(),
        bag[k] == object,
    ensures
        occurrences(bag, object) >= 1,
    decreases bag.len(),
{
    if k < bag.len() - 1 {
        lemma_occurs_somewhere(bag.drop_last(), object, k);
    }
}

proof fn lemma_occurs_at(bag: Seq<Object>, object: Object) -> (k: int)
    requires
        occurrences(bag, object) >= 1,
    ensures
        0 <= k < bag.len(),
        bag[k] == object,
    decreases bag.len(),
{
    if bag.last() == object {
        bag.len() - 1
    } else {
        lemma_occurs_at(bag.drop_last(), object)
    }
}

proof fn lemma_stored_somewhere(bags: Seq<Seq<Object>>, object: Object, i: int, k: int)
    requires
        lies_at(bags, i, k, object),
    ensures
        stored(bags, object) >= 1,
        stored(bags, object) >= occurrences(bags[i], object),
    decreases bags.len(),
{
    if i < bags.len() - 1 {
        lemma_stored_somewhere(bags.drop_last(), object, i, k);
    } else {
        lemma_occurs_somewhere(bags[i], object, k);
    }
}

/// An object that is stored once lies at exactly one place.
proof fn lemma_lies_once(bags: Seq<Seq<Object>>, object: Object)
    requires
        stored(bags, object) == 1,
    ensures
        lies_once(bags, object),
    decreases bags.len(),
{
    let rest = bags.drop_last();
    let n = bags.len() - 1;
    if occurrences(bags.last(), object) == 1 {
        let k = lemma_occurs_at(bags.last(), object);
        assert(lies_at(bags, n, k, object));
        assert forall|i2: int, k2: int| #[trigger] lies_at(bags, i2, k2, object) implies i2 == n
            && k2 == k by {
            if i2 < n {
                assert(lies_at(rest, i2, k2, object));
                lemma_stored_somewhere(rest, object, i2, k2);
            } else {
                lemma_occurs(bags.last(), object, k);
            }
        }
    } else {
        lemma_lies_once(rest, object);
        let (i, k) = choose|i: int, k: int| #[trigger]
            lies_at(rest, i, k, object) && forall|i2: int, k2: int| #[trigger]
                lies_at(rest, i2, k2, object) ==> i2 == i && k2 == k;
        assert(lies_at(bags, i, k, object));
        assert forall|i2: int, k2: int| #[trigger] lies_at(bags, i2, k2, object) implies i2 == i
            && k2 == k by {
            if i2 < n {
                assert(lies_at(rest, i2, k2, object));
            } else {
                lemma_occurs_somewhere(bags.last(), object, k2);
            }
        }
    }
}

/// An object that a thread announces once is in exactly one bag, once: in the local bag, in one that
/// waits to be pushed, or in one that the garbage queues have taken. No bag waits while the thread
/// runs no routine.
pub proof fn law_stored_once(w: World, steps: Seq<Step>, t: int, object: Object)
    requires
        w.wf(),
        runs(w, steps),
        after_steps(w, steps).has(t),
        stored(bags(w, t), object) == 0,
        occurrences(announced(w, steps, t), object) == 1,
    ensures
        lies_once(pushed(w, steps, t) + bags(after_steps(w, steps), t), object),
        after_steps(w, steps).locals[t].idle() ==> bags(after_steps(w, steps), t) == seq![
            after_steps(w, steps).locals[t].bag,
        ],
{
    law_stored(w, steps, t, object);
    lemma_lies_once(pushed(w, steps, t) + bags(after_steps(w, steps), t), object);
    law_runs_in_order(w, steps);
    let now = after_steps(w, steps);
    assert(now.thread_wf(t));
    if now.locals[t].idle() {
        assert(bags(now, t) =~= seq![now.locals[t].bag]);
    }
}

/// A call of the library, or an answer of the garbage queues to a call that waits for them.
pub enum Call {
    /// A thread registers.
    Register { capacity: nat },
    /// A thread takes a guard.
    Pin { thread: int },
    /// A thread drops a guard.
    Drop { thread: int },
    /// A thread announces that an object became unreachable.
    Unlinked { thread: int, object: Object },
    /// A thread exits.
    Exit { thread: int },
    /// The garbage queues have done what a thread asked for.
    Reply { thread: int, urgency: Urgency },
}

impl Call {
    /// The step that the call begins with.
    pub open spec fn step(self) -> Step {
        match self {
            Call::Register { capacity } => Step::Join { capacity },
            Call::Pin { thread } => Step::Pin { thread },
            Call::Drop { thread } => Step::Unpin { thread },
            Call::Unlinked { thread, object } => Step::Unlink { thread, object },
            Call::Exit { thread } => Step::Exit { thread },
            Call::Reply { thread, urgency } => Step::Act { thread, event: Event::Reply(urgency) },
        }
    }

    /// The world after the call: the thread goes on by itself until it waits for the garbage queues,
    /// or has nothing more to do.
    pub open spec fn made(self, w: World) -> World {
        let begun = w.taken(self.step());
        match self {
            Call::Register { .. } => begun,
            Call::Pin { thread }
            | Call::Drop { thread }
            | Call::Unlinked { thread, .. }
            | Call::Exit { thread }
            | Call::Reply { thread, .. } => settled(begun, thread),
        }
    }
}

/// The world after calls that are made one after another, by any threads.
pub open spec fn after_calls(w: World, calls: Seq<Call>) -> World
    decreases calls.len(),
{
    if calls.len() == 0 {
        w
    } else {
        calls.last().made(after_calls(w, calls.drop_last()))
    }
}

/// Whether calls can be made one after another.
pub open spec fn callable(w: World, calls: Seq<Call>) -> bool
    decreases calls.len(),
{
    calls.len() > 0 ==> callable(w, calls.drop_last()) && after_calls(
        w,
        calls.drop_last(),
    ).enables(calls.last().step())
}

/// How often a thread is pinned.
pub open spec fn pins(calls: Seq<Call>, t: int) -> nat
    decreases calls.len(),
{
    if calls.len() == 0 {
        0
    } else {
        pins(calls.drop_last(), t) + (if calls.last() == (Call::Pin { thread: t }) {
            1nat
        } else {
            0nat
        })
    }
}

/// How often a guard of a thread is dropped.
pub open spec fn drops(calls: Seq<Call>, t: int) -> nat
    decreases calls.len(),
{
    if calls.len() == 0 {
        0
    } else {
        drops(calls.drop_last(), t) + (if calls.last() == (Call::Drop { thread: t }) {
            1nat
        } else {
            0nat
        })
    }
}

/// The objects that the user of a thread announces, in that order.
pub open spec fn unlinked_in(calls: Seq<Call>, t: int) -> Seq<Object>
    decreases calls.len(),
{
    if calls.len() == 0 {
        Seq::empty()
    } else {
        let before = unlinked_in(calls.drop_last(), t);
        match calls.last() {
            Call::Unlinked { thread, object } => if thread == t {
                before.push(object)
            } else {
                before
            },
            _ => before,
        }
    }
}

/// The bags that the garbage queues take from a thread, in that order.
pub open spec fn pushed_in(w: World, calls: Seq<Call>, t: int) -> Seq<Seq<Object>>
    decreases calls.len(),
{
    if calls.len() == 0 {
        Seq::empty()
    } else {
        let before = pushed_in(w, calls.drop_last(), t);
        match hands_over(after_calls(w, calls.drop_last()), calls.last().step(), t) {
            Some(bag) => before.push(bag),
            None => before,
        }
    }
}

/// Whether two courses of steps differ at most in what threads do by themselves: in neither of them
/// more guards are taken or dropped, bags pushed, or objects announced by users.
spec fn same_calls(w: World, steps: Seq<Step>, more: Seq<Step>) -> bool {
    &&& forall|u: int| #[trigger] guards_taken(more, u) == guards_taken(steps, u)
    &&& forall|u: int| #[trigger] guards_dropped(more, u) == guards_dropped(steps, u)
    &&& forall|u: int| #[trigger] pushed(w, more, u) == pushed(w, steps, u)
    &&& forall|u: int, object: Object|
        object.kind !is Thread ==> #[trigger] occurrences(announced(w, more, u), object)
            == occurrences(announced(w, steps, u), object)
}

/// A thread that goes on by itself takes steps that belong to no call.
proof fn lemma_settle_more(w: World, steps: Seq<Step>, t: int) -> (more: Seq<Step>)
    requires
        w.wf(),
        runs(w, steps),
        after_steps(w, steps).has(t),
    ensures
        runs(w, more),
        after_steps(w, more) == settled(after_steps(w, steps), t),
        same_calls(w, steps, more),
    decreases fuel(after_steps(w, steps), t),
{
    let now = after_steps(w, steps);
    law_runs_in_order(w, steps);
    if now.locals[t].stopped() {
        steps
    } else {
        lemma_fuel_decreases(now, t);
        let step = now.next_step(t);
        let one_more = steps.push(step);
        lemma_one_more(w, steps, step);
        assert forall|u: int, object: Object| object.kind !is Thread implies #[trigger] occurrences(
            announced(w, one_more, u),
            object,
        ) == occurrences(announced(w, steps, u), object) by {
            match announces(now, step, u) {
                Some(entry) => {
                    lemma_occurrences_push(announced(w, steps, u), entry, object);
                },
                None => {},
            }
        }
        assert(same_calls(w, steps, one_more));
        let more = lemma_settle_more(w, one_more, t);
        assert(same_calls(w, steps, more));
        more
    }
}

/// Calls that are made one after another are a course of steps, which other threads could interleave
/// with theirs.
pub proof fn law_calls_by_steps(w: World, calls: Seq<Call>) -> (steps: Seq<Step>)
    requires
        w.wf(),
        callable(w, calls),
    ensures
        runs(w, steps),
        after_steps(w, steps) == after_calls(w, calls),
        forall|t: int| #[trigger] guards_taken(steps, t) == pins(calls, t),
        forall|t: int| #[trigger] guards_dropped(steps, t) == drops(calls, t),
        forall|t: int| #[trigger] pushed(w, steps, t) == pushed_in(w, calls, t),
        forall|t: int, object: Object|
            object.kind !is Thread ==> #[trigger] occurrences(announced(w, steps, t), object)
                == occurrences(unlinked_in(calls, t), object),
    decreases calls.len(),
{
    if calls.len() == 0 {
        Seq::empty()
    } else {
        let earlier = calls.drop_last();
        let call = calls.last();
        let steps = law_calls_by_steps(w, earlier);
        let now = after_steps(w, steps);
        law_runs_in_order(w, steps);
        lemma_step_wf(now, call.step());
        lemma_one_more(w, steps, call.step());
        let begun = steps.push(call.step());
        assert forall|t: int, object: Object| object.kind !is Thread implies #[trigger] occurrences(
            announced(w, begun, t),
            object,
        ) == occurrences(unlinked_in(calls, t), object) by {
            match announces(now, call.step(), t) {
                Some(last) => {
                    lemma_occurrences_push(announced(w, steps, t), last, object);
                    lemma_occurrences_push(unlinked_in(earlier, t), last, object);
                },
                None => {},
            }
        }
        match call {
            Call::Register { .. } => begun,
            Call::Pin { thread }
            | Call::Drop { thread }
            | Call::Unlinked { thread, .. }
            | Call::Exit { thread }
            | Call::Reply { thread, .. } => lemma_settle_more(w, begun, thread),
        }
    }
}

/// Between calls, the number of guards that a thread holds is the number of times that it was pinned
/// less the number of guards that were dropped, and a thread that is done with its calls is pinned
/// if and only if it holds a guard.
///
/// So a thread that is done can drop a guard if and only if there is one that was not dropped, and
/// the count never gets below zero.
pub proof fn law_pin_count(w: World, calls: Seq<Call>, t: int)
    requires
        w.wf(),
        callable(w, calls),
        after_calls(w, calls).has(t),
    ensures
        ({
            let now = after_calls(w, calls);
            let l = now.locals[t];
            let held = guards(w, t) + pins(calls, t) - drops(calls, t);
            &&& now.wf()
            &&& l.pin_count == held
            &&& l.open() && held > 0 ==> now.is_pinned(t)
            &&& l.open() && l.idle() ==> {
                &&& now.is_pinned(t) <==> held > 0
                &&& now.enables(Step::Unpin { thread: t }) <==> held > 0
            }
        }),
{
    let steps = law_calls_by_steps(w, calls);
    law_runs_in_order(w, steps);
    law_guards_counted(w, steps, t);
    assert(guards_taken(steps, t) == pins(calls, t));
    assert(guards_dropped(steps, t) == drops(calls, t));
}

/// Dropping guards undoes pinning: after any number of calls in which a thread was pinned as often
/// as its guards were dropped, in any order and whether or not garbage had to be urgently collected,
/// it holds as many guards as before, and is pinned if and only if that is more than none.
pub proof fn law_pins_and_drops(w: World, calls: Seq<Call>, t: int)
    requires
        w.wf(),
        w.has(t),
        callable(w, calls),
        pins(calls, t) == drops(calls, t),
    ensures
        ({
            let now = after_calls(w, calls);
            let l = now.locals[t];
            &&& now.has(t)
            &&& l.pin_count == w.locals[t].pin_count
            &&& l.open() && l.idle() ==> (now.is_pinned(t) <==> w.locals[t].pin_count > 0)
        }),
{
    let steps = law_calls_by_steps(w, calls);
    lemma_has_stays(w, steps, t);
    law_pin_count(w, calls, t);
}

/// An object that the user of a thread announces once is in exactly one bag, once: in the local bag,
/// in one that waits to be pushed, or in one that the garbage queues have taken. No bag waits when
/// the thread is done with its calls.
pub proof fn law_unlinked_once(w: World, calls: Seq<Call>, t: int, object: Object)
    requires
        w.wf(),
        callable(w, calls),
        after_calls(w, calls).has(t),
        object.kind !is Thread,
        stored(bags(w, t), object) == 0,
        occurrences(unlinked_in(calls, t), object) == 1,
    ensures
        lies_once(pushed_in(w, calls, t) + bags(after_calls(w, calls), t), object),
        after_calls(w, calls).locals[t].idle() ==> bags(after_calls(w, calls), t) == seq![
            after_calls(w, calls).locals[t].bag,
        ],
{
    let steps = law_calls_by_steps(w, calls);
    assert(occurrences(announced(w, steps, t), object) == 1);
    law_stored_once(w, steps, t, object);
    assert(pushed(w, steps, t) == pushed_in(w, calls, t));
}

} // verus!
