use std::sync::atomic::{AtomicUsize, Ordering};
use vstd::prelude::*;

verus! {

/// The number of workers waiting for work. Workers change it concurrently,
/// so a value read from it may already be out of date.
#[derive(Debug)]
pub struct Idle {
    idle_threads: AtomicUsize,
}

impl Idle {
    pub fn new() -> (r: Idle) {
        Idle { idle_threads: AtomicUsize::new(0) }
    }

    pub fn count(&self) -> (r: usize) {
        self.idle_threads.load(Ordering::SeqCst)
    }

    /// Mark one worker busy again; returns the count before.
    pub fn dec(&self) -> (r: usize) {
        self.idle_threads.fetch_sub(1, Ordering::SeqCst)
    }

    /// Mark one worker idle; returns the count before.
    pub fn inc(&self) -> (r: usize) {
        self.idle_threads.fetch_add(1, Ordering::SeqCst)
    }
}

} // verus!
