//! The stop switch of a batch generation, shared between the task that runs
//! the batch and the command that asks it to stop.
use vstd::prelude::*;
use std::sync::Arc;
use std::sync::atomic::AtomicBool;

verus! {

/// A flag, shared across threads, that asks a running generation to stop.
#[derive(Clone, Default)]
pub struct GenerationControl {
    stop_requested: Arc<AtomicBool>,
}

impl GenerationControl {
    /// A switch that is not set. The verifier sees no value inside a std
    /// atomic (vstd specifies none), so nothing is stated of it.
    pub fn new() -> Self {
        GenerationControl { stop_requested: Arc::new(AtomicBool::new(false)) }
    }

    /// Clears the request to stop.
    pub fn reset(&self) {
        let flag: &AtomicBool = &self.stop_requested;
        flag.store(false, std::sync::atomic::Ordering::SeqCst);
    }

    /// Asks the running generation to stop.
    pub fn request_stop(&self) {
        let flag: &AtomicBool = &self.stop_requested;
        flag.store(true, std::sync::atomic::Ordering::SeqCst);
    }

    /// Whether a stop has been asked for. Another thread may change the
    /// answer at any time, so nothing is stated of it.
    pub fn should_stop(&self) -> bool {
        let flag: &AtomicBool = &self.stop_requested;
        flag.load(std::sync::atomic::Ordering::SeqCst)
    }
}

} // verus!
