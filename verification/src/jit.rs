//! JIT specialisation. Without the native JIT linked in, no JIT is
//! available and no pipeline is ever specialised.
use vstd::prelude::*;

verus! {

/// Whether a JIT is available: never, without the native JIT.
pub fn available() -> (r: bool)
    ensures
        !r,
{
    false
}

/// Asks the JIT to specialise `pipeline_name`; without the native JIT
/// nothing is specialised, whatever the name.
pub fn specialize_simple(pipeline_name: &str) -> (r: bool)
    ensures
        !r,
{
    false
}

} // verus!
