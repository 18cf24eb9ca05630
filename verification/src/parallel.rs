//! The thread pool's public vocabulary. Without the native pool linked
//! in, starting, stopping and ensuring it started do nothing.
use vstd::prelude::*;

verus! {

/// Task priority, most urgent first (`Critical` is 0 ... `Background`
/// is 4 as integers).
#[derive(Debug, Clone, Copy, PartialEq, Eq)]
pub enum Priority {
    Critical,
    High,
    Normal,
    Low,
    Background,
}

/// Starts the pool with `num_threads` workers (nothing without it).
pub fn init(num_threads: u32) {
}

/// Stops the pool (nothing without it).
pub fn shutdown() {
}

/// Starts the pool if it is not running (nothing without it).
pub fn ensure_init() {
}

/// Starts cost sampling of the function `name` (no NUL character
/// allowed; nothing is sampled without the pool).
pub fn cost_begin(name: &str)
    requires
        crate::text::nul_free(name@),
{
}

/// Ends cost sampling of the function `name` (no NUL character
/// allowed; nothing is sampled without the pool).
pub fn cost_end(name: &str)
    requires
        crate::text::nul_free(name@),
{
}

} // verus!

verus! {

/// Runs `f` on the pool and waits for its result (inline, without the
/// pool).
pub fn run<T>(f: impl FnOnce() -> T) -> (r: T)
    requires
        f.requires(()),
    ensures
        f.ensures((), r),
{
    ensure_init();
    f()
}

/// Runs every task on the pool and waits for all results, in task order
/// (inline and in order, without the pool).
pub fn run_all<T>(tasks: Vec<impl FnOnce() -> T>) -> (r: Vec<T>)
    requires
        forall|i: int| 0 <= i < tasks@.len() ==> (#[trigger] tasks@[i]).requires(()),
    ensures
        r@.len() == tasks@.len(),
        forall|i: int| 0 <= i < tasks@.len() ==> (#[trigger] tasks@[i]).ensures((), r@[i]),
{
    ensure_init();
    let ghost ts = tasks@;
    let mut results: Vec<T> = Vec::new();
    for f in it: tasks
        invariant
            ts == it.seq(),
            results@.len() == it.index(),
            forall|j: int| 0 <= j < ts.len() ==> (#[trigger] ts[j]).requires(()),
            forall|j: int| 0 <= j < it.index() ==> (#[trigger] ts[j]).ensures((), results@[j]),
    {
        results.push(f());
    }
    results
}

} // verus!
