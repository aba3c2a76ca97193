//! A meeting-room scheduler built on an interval index.
//!
//! The crate is the sequential core of the scheduler: the interval index
//! ([`intervaltree`]), the queue of pending end-times ([`min_heap`]), the
//! booking rules and the decisions of the cleanup worker ([`scheduler`],
//! [`cleanup`]), and the values they work on ([`types`], [`traits`]). Locks,
//! threads and the clock belong to the program that embeds it.
//!
//! Every function states what it returns and changes over the view of the
//! value it works on: the index is a set of triples, the queue a multiset of
//! end-times, the scheduler a record of both with its rooms.

pub mod cleanup;
pub mod indices;
pub mod intervaltree;
pub mod min_heap;
pub mod scheduler;
pub mod traits;
pub mod types;
