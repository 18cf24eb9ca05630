//! The pipeline placeholder a code-generation pass replaces.
use vstd::prelude::*;

verus! {

/// A stand-in result: `T`'s default value.
pub fn placeholder<T: Default>() -> (r: T)
    ensures
        call_ensures(T::default, (), r),
{
    T::default()
}

} // verus!

verus! {

/// What `#[topo_pipeline]` makes of a function.
#[derive(Debug, PartialEq, Eq)]
pub enum PipelineExpansion {
    /// The body becomes `topo::pipeline::placeholder::<T>()` for the
    /// function's return type `T` (`()` when it returns nothing).
    Placeholder { return_type: String },
    /// A compile error with this message.
    Reject { message: String },
}

/// The message for attribute arguments (`attr` is their text).
pub open spec fn attr_rejection(attr: Seq<char>) -> Seq<char> {
    "#[topo_pipeline] takes no arguments today (got `"@ + attr + "`)"@
}

/// The message for a non-empty body.
pub open spec fn body_rejection() -> Seq<char> {
    "#[topo_pipeline] requires an empty body `{}` -- the IR pass replaces the function body wholesale, so any user-written statements are silently dropped at runtime"@
}

/// The decision of `#[topo_pipeline]`: the attribute takes no arguments
/// (any token is refused, naming them), the body must be empty (the
/// placeholder replaces it wholesale), and otherwise the body becomes the
/// placeholder for the return type. `attr` is the attribute's argument
/// text, `body_empty` whether the body holds no statement, `return_type`
/// the return type's text (`None` for none).
pub fn pipeline_expansion(attr: &str, body_empty: bool, return_type: Option<&str>) -> (r: PipelineExpansion)
    ensures
        attr@.len() > 0 ==> (r matches PipelineExpansion::Reject { message } && message@ == attr_rejection(attr@)),
        attr@.len() == 0 && !body_empty ==> (r matches PipelineExpansion::Reject { message } && message@ == body_rejection()),
        attr@.len() == 0 && body_empty ==> (r matches PipelineExpansion::Placeholder { return_type: t } && t@ == match return_type {
            Some(x) => x@,
            None => "()"@,
        }),
{
    let a = crate::text::chars_of(attr);
    if a.len() > 0 {
        let mut m: Vec<char> = Vec::new();
        crate::text::extend_str(&mut m, "#[topo_pipeline] takes no arguments today (got `");
        crate::text::extend_str(&mut m, attr);
        crate::text::extend_str(&mut m, "`)");
        return PipelineExpansion::Reject { message: crate::text::string_of(&m) };
    }
    if !body_empty {
        return PipelineExpansion::Reject {
            message: crate::text::owned(
                "#[topo_pipeline] requires an empty body `{}` -- the IR pass replaces the function body wholesale, so any user-written statements are silently dropped at runtime",
            ),
        };
    }
    match return_type {
        Some(t) => PipelineExpansion::Placeholder { return_type: crate::text::owned(t) },
        None => PipelineExpansion::Placeholder { return_type: crate::text::owned("()") },
    }
}

} // verus!
