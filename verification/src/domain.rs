//! Threads that share a memory and take their steps one at a time, in any order.
use crate::access::{Event, Link};
use crate::garbage::Object;
use crate::harness::{Harness, Local};
use crate::registry::{Memory, Registry, Thread};
use crate::routine::Register;
use crate::state::{Urgency, UNPINNED};
use crate::world::{lemma_reaches, lemma_step_wf, Step, World};
use vstd::prelude::*;

verus! {

/// The memory that the threads share, and the data of each thread.
pub struct Domain {
    registry: Registry,
    harnesses: Vec<Harness>,
}

impl View for Domain {
    type V = World;

    closed spec fn view(&self) -> World {
        World {
            mem: self.registry@,
            locals: Seq::new(self.harnesses@.len(), |t: int| self.harnesses@[t]@),
        }
    }
}

impl Domain {
    /// Returns a domain without threads.
    pub fn new() -> (d: Domain)
        ensures
            d@ == World::initial(),
            d@.wf(),
    {
        let d = Domain { registry: Registry::new(), harnesses: Vec::new() };
        assert(d@ =~= World::initial());
        d
    }

    /// Returns the shared memory.
    pub fn registry(&self) -> (r: &Registry)
        ensures
            r@ == self@.mem,
    {
        &self.registry
    }

    /// Returns the data of a thread.
    pub fn harness(&self, t: usize) -> (h: &Harness)
        requires
            self@.has(t as int),
        ensures
            h@ == self@.locals[t as int],
    {
        &self.harnesses[t]
    }

    /// Lets a thread perform its action and go on.
    pub fn step(&mut self, t: usize)
        requires
            old(self)@.wf(),
            old(self)@.has(t as int),
            !old(self)@.locals[t as int].stopped(),
        ensures
            ({
                let action = old(self)@.locals[t as int].action();
                let step = Step::Act { thread: t as int, event: old(self)@.mem.outcome(action) };
                old(self)@.enables(step) && final(self)@ == old(self)@.taken(step)
            }),
            final(self)@.wf(),
    {
        proof {
            assert(self@.thread_wf(t as int));
            lemma_reaches(self@, t as int);
        }
        let action = self.harnesses[t].action();
        let event = self.registry.perform(t, action);
        self.harnesses[t].resume(event);
        proof {
            let step = Step::Act { thread: t as int, event };
            lemma_step_wf(old(self)@, step);
            assert(self@ =~= old(self)@.taken(step));
        }
    }

    /// Tells a thread that the garbage queues have done what it asked for.
    pub fn answer(&mut self, t: usize, urgency: Urgency)
        requires
            old(self)@.wf(),
            old(self)@.has(t as int),
            !old(self)@.locals[t as int].idle(),
            old(self)@.locals[t as int].action().is_outside(),
        ensures
            ({
                let step = Step::Act { thread: t as int, event: Event::Reply(urgency) };
                old(self)@.enables(step) && final(self)@ == old(self)@.taken(step)
            }),
            final(self)@.wf(),
    {
        proof {
            assert(self@.thread_wf(t as int));
        }
        self.harnesses[t].resume(Event::Reply(urgency));
        proof {
            let step = Step::Act { thread: t as int, event: Event::Reply(urgency) };
            lemma_step_wf(old(self)@, step);
            assert(self@ =~= old(self)@.taken(step));
        }
    }

    /// Lets a thread set out to take a guard.
    pub fn begin_pin(&mut self, t: usize)
        requires
            old(self)@.wf(),
            old(self)@.enables(Step::Pin { thread: t as int }),
        ensures
            final(self)@ == old(self)@.taken(Step::Pin { thread: t as int }),
            final(self)@.wf(),
    {
        proof {
            assert(self@.thread_wf(t as int));
            lemma_step_wf(self@, Step::Pin { thread: t as int });
        }
        self.harnesses[t].begin_pin();
        assert(self@ =~= old(self)@.taken(Step::Pin { thread: t as int }));
    }

    /// Lets a thread set out to drop a guard.
    pub fn begin_unpin(&mut self, t: usize)
        requires
            old(self)@.wf(),
            old(self)@.enables(Step::Unpin { thread: t as int }),
        ensures
            final(self)@ == old(self)@.taken(Step::Unpin { thread: t as int }),
            final(self)@.wf(),
    {
        proof {
            assert(self@.thread_wf(t as int));
            lemma_step_wf(self@, Step::Unpin { thread: t as int });
        }
        self.harnesses[t].begin_unpin();
        assert(self@ =~= old(self)@.taken(Step::Unpin { thread: t as int }));
    }

    /// Lets a thread announce that an object became unreachable.
    pub fn begin_unlinked(&mut self, t: usize, object: Object)
        requires
            old(self)@.wf(),
            old(self)@.enables(Step::Unlink { thread: t as int, object }),
        ensures
            final(self)@ == old(self)@.taken(Step::Unlink { thread: t as int, object }),
            final(self)@.wf(),
    {
        proof {
            assert(self@.thread_wf(t as int));
            lemma_step_wf(self@, Step::Unlink { thread: t as int, object });
        }
        self.harnesses[t].begin_unlinked(object);
        assert(self@ =~= old(self)@.taken(Step::Unlink { thread: t as int, object }));
    }

    /// Lets a thread set out to exit.
    pub fn begin_exit(&mut self, t: usize)
        requires
            old(self)@.wf(),
            old(self)@.enables(Step::Exit { thread: t as int }),
        ensures
            final(self)@ == old(self)@.taken(Step::Exit { thread: t as int }),
            final(self)@.wf(),
    {
        proof {
            assert(self@.thread_wf(t as int));
            lemma_step_wf(self@, Step::Exit { thread: t as int });
        }
        self.harnesses[t].begin_exit();
        assert(self@ =~= old(self)@.taken(Step::Exit { thread: t as int }));
    }
}

impl Thread {
    /// Registers a thread, whose bags have room for `capacity` objects, by adding a new entry to the
    /// list of participating threads. Returns the entry.
    pub fn register(d: &mut Domain, capacity: usize) -> (t: usize)
        requires
            old(d)@.wf(),
            capacity > 0,
        ensures
            t == old(d)@.mem.threads.len(),
            final(d)@.mem == (Memory {
                state: old(d)@.mem.state,
                head: Link { to: Some(t), deleted: false },
                threads: old(d)@.mem.threads.push(
                    Thread { state: UNPINNED, next: old(d)@.mem.head },
                ),
            }),
            final(d)@.locals == old(d)@.locals.push(Local::fresh(t, capacity as nat)),
            final(d)@.mem.threads[t as int].state % 2 == 1,
            final(d)@.locals[t as int].thread == t,
            final(d)@.locals[t as int].capacity == capacity,
            final(d)@.locals[t as int].pin_count == 0,
            final(d)@.locals[t as int].bag.len() == 0,
            final(d)@.locals[t as int].closed.len() == 0,
            final(d)@.locals[t as int].stack.len() == 0,
            !final(d)@.locals[t as int].exited,
            old(d)@.enables(Step::Join { capacity: capacity as nat }),
            final(d)@ == old(d)@.taken(Step::Join { capacity: capacity as nat }),
            final(d)@.wf(),
    {
        let n: usize = d.registry.len();
        let ghost step = Step::Join { capacity: capacity as nat };
        proof {
            lemma_step_wf(d@, step);
        }
        let mut register = Register::Load;
        let mut thread: Option<usize> = None;
        while thread.is_none()
            invariant
                capacity > 0,
                old(d)@.wf(),
                n == old(d)@.mem.threads.len(),
                d.harnesses@ == old(d).harnesses@,
                thread is None ==> d.registry@ == old(d).registry@ && (register is Load
                    || register == (Register::Publish { head: old(d)@.mem.head })),
                thread matches Some(t) ==> t == n && d.registry@ == old(d)@.taken(step).mem,
                step == (Step::Join { capacity: capacity as nat }),
            decreases
                    (if thread is None {
                        1nat
                    } else {
                        0nat
                    }) + (if register is Load {
                        1nat
                    } else {
                        0nat
                    }),
        {
            let event = d.registry.perform(n, register.action());
            match register.next(event) {
                Ok(t) => {
                    thread = Some(t);
                },
                Err(r) => {
                    register = r;
                },
            }
        }
        d.harnesses.push(Harness::new(n, capacity));
        assert(d@ =~= old(d)@.taken(step));
        n
    }
}

} // verus!
