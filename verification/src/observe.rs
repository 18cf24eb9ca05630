//! Tracing spans. Without the native tracer linked in, spans record
//! nothing; a span name must still be representable as a C string (no
//! NUL character).
use vstd::prelude::*;
use crate::text::nul_free;

verus! {

/// Stops the tracer (nothing to stop without it).
pub fn shutdown() {
}

/// Opens a span named `name`.
pub fn span_begin(name: &str)
    requires
        nul_free(name@),
{
}

/// Closes the innermost open span.
pub fn span_end() {
}

/// A span open for as long as the guard lives.
pub struct SpanGuard;

impl SpanGuard {
    /// Opens a span named `name`.
    pub fn new(name: &str) -> (g: SpanGuard)
        requires
            nul_free(name@),
    {
        span_begin(name);
        SpanGuard
    }
}

/// Runs `f` inside a span named `name` and returns its result.
pub fn span<T, F: FnOnce() -> T>(name: &str, f: F) -> (r: T)
    requires
        nul_free(name@),
        f.requires(()),
    ensures
        f.ensures((), r),
{
    let _guard = SpanGuard::new(name);
    let r = f();
    span_end();
    r
}

} // verus!
