//! Runtime-driven re-specialisation. Without the native adaptive
//! runtime linked in, starting and stopping it does nothing.
use vstd::prelude::*;

verus! {

/// Starts the adaptive runtime (nothing to start without it).
pub fn init() {
}

/// Stops the adaptive runtime (nothing to stop without it).
pub fn shutdown() {
}

} // verus!
