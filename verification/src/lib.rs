//! Thread synchronization and pinning for epoch-based memory reclamation.
//!
//! # The global epoch
//!
//! The global state holds two pieces of data: the current global epoch and whether garbage needs to
//! be urgently collected. Every so often the global epoch is incremented - we say it "advances". It
//! can advance only if all currently pinned threads have been pinned in the current epoch.
//!
//! If an object became unreachable in some epoch, we can be sure that no thread will hold a
//! reference to it after two epoch advancements - that is the moment when it will be safe to free
//! its memory.
//!
//! # Registration
//!
//! Every thread registers an entry in a lock-free singly-linked list. The entry contains a word that
//! tells whether the thread is pinned and if so, what was the global epoch at the time it was
//! pinned. A thread that exits marks its entry as deleted, and whoever attempts to advance the
//! global epoch removes deleted entries from the list.
//!
//! # Stashing garbage
//!
//! If a pinned thread wants to stash away an unlinked object to free its memory at a later safe
//! time, it stores it in its thread-local bag. If that makes the bag full, it is replaced with a
//! fresh one, and pushed into the garbage queues, marked with the current epoch.
//!
//! # Layout
//!
//! - [`state`]: the words that carry an epoch.
//! - [`access`], [`routine`], [`harness`]: what a thread does, one access to shared memory at a
//!   time. Whoever owns the memory performs the accesses.
//! - [`registry`], [`domain`]: a memory, and threads that share it.
//! - [`run`]: the calls of the library, in a domain where one thread at a time goes on.
//! - [`participant`]: registration of a thread the first time it is pinned.
//! - [`world`], [`history`], [`reclaim`]: everything that threads can do in any order, and what holds
//!   of it.
//! - [`settle`], [`scan`]: what one thread does by itself.
//! - [`laws`], [`course`]: what the library promises, at any moment and over any number of calls.
//! - [`protocol`], [`effects`], [`outcomes`]: what a thread asks for and in which order, what an access
//!   does to the memory, and what a call comes to, all said of plain words, links and objects.
//!
//! The accesses of all threads happen one after another here. What a processor may reorder is held
//! back by the [`access::Order`] of each access, which is part of the action and not interpreted.
pub mod access;
pub mod course;
pub mod domain;
pub mod effects;
pub mod garbage;
pub mod harness;
pub mod history;
pub mod laws;
pub mod outcomes;
pub mod participant;
pub mod protocol;
pub mod reclaim;
pub mod registry;
pub mod routine;
pub mod run;
pub mod scan;
pub mod settle;
pub mod state;
pub mod world;

pub use run::{pin, unlinked, Guard};
