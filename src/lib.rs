//! A fixed-capacity multi-producer / single-consumer ring buffer protocol.
//!
//! `protocol` holds the decisions a producer and the consumer take over the
//! shared cursors, epoch and per-slot generation flags; `ring` runs them on a
//! ring held in ordinary memory and proves what each push and pop does;
//! `laws` states what sequences of those operations give; `cell` is the
//! storage of one slot.
use vstd::prelude::*;

pub mod cell;
pub mod laws;
pub mod protocol;
pub mod ring;

verus! {

/// Runs a concurrent scenario once: calls `f` on this thread and returns when it returns.
///
/// Under a model checker this entry point would explore every interleaving of the
/// threads that `f` spawns; here the scenario runs a single time on real threads.
pub fn model<F>(f: F)
    where
        F: Fn() + Sync + Send + 'static,
    requires
        f.requires(()),
    ensures
        f.ensures((), ()),
{
    f()
}

} // verus!
