//! The runtime entry points without the native runtimes linked in.

use topo::observe::{span, span_begin, span_end, SpanGuard};
use topo::parallel::Priority;
use topo::pipeline::{pipeline_expansion, PipelineExpansion};

#[test]
fn adaptive_init_shutdown_no_panic() {
    topo::adaptive::init();
    topo::adaptive::shutdown();
}

#[test]
fn available_returns_false_without_jit_feature() {
    assert!(!topo::jit::available());
}

#[test]
fn specialize_simple_returns_false_without_jit_feature() {
    assert!(!topo::jit::specialize_simple("test_pipeline"));
}

#[test]
fn specialize_simple_with_empty_name() {
    assert!(!topo::jit::specialize_simple(""));
}

#[test]
fn specialize_simple_with_special_chars() {
    assert!(!topo::jit::specialize_simple("pipeline::with::colons"));
    assert!(!topo::jit::specialize_simple("pipeline-with-dashes"));
    assert!(!topo::jit::specialize_simple("pipeline_with_underscores"));
}

#[test]
fn span_begin_end_no_panic() {
    span_begin("test_span");
    span_end();
}

#[test]
fn span_guard_drop() {
    let guard = SpanGuard::new("guard_span");
    drop(guard);
}

#[test]
fn span_closure_executes() {
    let mut executed = false;
    span("closure_span", || {
        executed = true;
    });
    assert!(executed);
}

#[test]
fn span_closure_result() {
    let result = span("result_span", || 42);
    assert_eq!(result, 42);
}

#[test]
fn priority_values() {
    assert_eq!(Priority::Critical as i32, 0);
    assert_eq!(Priority::High as i32, 1);
    assert_eq!(Priority::Normal as i32, 2);
    assert_eq!(Priority::Low as i32, 3);
    assert_eq!(Priority::Background as i32, 4);
}

#[test]
fn parallel_lifecycle_no_panic() {
    topo::parallel::init(4);
    topo::parallel::ensure_init();
    topo::parallel::shutdown();
    topo::observe::shutdown();
}

#[test]
fn placeholder_is_the_default() {
    assert_eq!(topo::pipeline::placeholder::<i32>(), 0);
    assert_eq!(topo::pipeline::placeholder::<String>(), "");
}

#[test]
fn run_returns_result() {
    assert_eq!(topo::parallel::run(|| 42), 42);
}

#[test]
fn run_all_ordered_results() {
    let tasks: Vec<Box<dyn FnOnce() -> i32 + Send>> = vec![Box::new(|| 1), Box::new(|| 2), Box::new(|| 3)];
    assert_eq!(topo::parallel::run_all(tasks), vec![1, 2, 3]);
}

#[test]
fn run_all_empty() {
    let tasks: Vec<Box<dyn FnOnce() -> i32 + Send>> = vec![];
    let results = topo::parallel::run_all::<i32>(tasks);
    assert!(results.is_empty());
}

#[test]
fn cost_begin_end_no_panic() {
    topo::parallel::cost_begin("f");
    topo::parallel::cost_end("f");
}

#[test]
fn pipeline_macro_decisions() {
    assert_eq!(
        pipeline_expansion("", true, Some("i32")),
        PipelineExpansion::Placeholder { return_type: "i32".to_string() }
    );
    assert_eq!(
        pipeline_expansion("", true, None),
        PipelineExpansion::Placeholder { return_type: "()".to_string() }
    );
    assert_eq!(
        pipeline_expansion("stage = \"ingest\"", true, None),
        PipelineExpansion::Reject {
            message: "#[topo_pipeline] takes no arguments today (got `stage = \"ingest\"`)".to_string()
        }
    );
    match pipeline_expansion("", false, Some("i32")) {
        PipelineExpansion::Reject { message } => assert!(message.starts_with("#[topo_pipeline] requires an empty body")),
        other => panic!("unexpected {other:?}"),
    }
}
