//! Handler In/Out types and their `.topo` spellings.
//!
//! A handler's input and output are described by a [`TypeRef`]: a stdlib
//! scalar as the Rust host spells it in `.topo` (`i64`, `f64`, `bool`,
//! `string`), or a record of named fields in declared order. Types that
//! can stand as a handler In/Out report their spelling through
//! [`TopoType`].
use vstd::prelude::*;
use crate::text::{owned, extend_str, string_of};
use crate::toml_emit::{joined, lemma_joined_push};
use crate::config_model::ConfigValue;

verus! {

/// A topo type as spelled in the emitted `.topo`.
#[derive(Debug, PartialEq, Eq)]
pub enum TypeRef {
    /// A stdlib scalar alias (`i64`, `f64`, `bool`, `string`, ...).
    Scalar(String),
    /// A record with named fields in declared (never sorted) order.
    Record(Vec<(String, TypeRef)>),
}

/// The content of a [`TypeRef`].
pub enum TypeTree {
    Scalar(Seq<char>),
    Record(Seq<(Seq<char>, TypeTree)>),
}

impl TypeRef {
    /// The type's content.
    pub open spec fn view(self) -> TypeTree
        decreases self, 1int,
    {
        match self {
            TypeRef::Scalar(s) => TypeTree::Scalar(s@),
            TypeRef::Record(fs) => TypeTree::Record(type_fields(fs, fs@.len() as int)),
        }
    }
}

/// Content of the first `n` record fields.
pub open spec fn type_fields(fs: Vec<(String, TypeRef)>, n: int) -> Seq<(Seq<char>, TypeTree)>
    decreases fs, n,
{
    if n <= 0 || n > fs@.len() {
        Seq::empty()
    } else {
        proof {
            assert(decreases_to!(fs => fs@[n - 1]));
            assert(decreases_to!(fs@[n - 1] => fs@[n - 1].1));
        }
        type_fields(fs, n - 1).push((fs@[n - 1].0@, fs@[n - 1].1.view()))
    }
}

/// `type_fields` lists each field with its content.
pub proof fn lemma_type_fields(fs: Vec<(String, TypeRef)>, n: int)
    requires
        0 <= n <= fs@.len(),
    ensures
        type_fields(fs, n).len() == n,
        forall|i: int| 0 <= i < n ==> #[trigger] type_fields(fs, n)[i] == (fs@[i].0@, fs@[i].1.view()),
    decreases n,
{
    if n > 0 {
        lemma_type_fields(fs, n - 1);
    }
}

/// The `.topo` spelling: a scalar's name, or
/// `record<name: type, ...>` with fields in declared order.
pub open spec fn type_text(t: TypeTree) -> Seq<char>
    decreases t, 1int, 0int,
{
    match t {
        TypeTree::Scalar(s) => s,
        TypeTree::Record(fs) => "record<"@ + joined(field_texts(t, fs.len() as int), ", "@) + ">"@,
    }
}

/// The `name: type` texts of the first `n` fields of a record.
pub open spec fn field_texts(t: TypeTree, n: int) -> Seq<Seq<char>>
    decreases t, 0int, n,
{
    if n <= 0 {
        Seq::empty()
    } else {
        match t {
            TypeTree::Record(fs) => {
                if n > fs.len() {
                    Seq::empty()
                } else {
                    proof {
                        assert(decreases_to!(t => t->Record_0[n - 1].1));
                    }
                    field_texts(t, n - 1).push(fs[n - 1].0 + ": "@ + type_text(fs[n - 1].1))
                }
            },
            _ => Seq::empty(),
        }
    }
}

/// `field_texts` lists the `name: type` text of each field.
pub proof fn lemma_field_texts(t: TypeTree, n: int)
    requires
        t is Record,
        0 <= n <= t->Record_0.len(),
    ensures
        field_texts(t, n).len() == n,
        forall|i: int|
            0 <= i < n ==> #[trigger] field_texts(t, n)[i] == t->Record_0[i].0 + ": "@ + type_text(
                t->Record_0[i].1,
            ),
    decreases n,
{
    if n > 0 {
        lemma_field_texts(t, n - 1);
    }
}

fn push_type_text(out: &mut Vec<char>, t: &TypeRef)
    ensures
        final(out)@ == old(out)@ + type_text(t@),
    decreases *t,
{
    match t {
        TypeRef::Scalar(s) => {
            extend_str(out, s.as_str());
        },
        TypeRef::Record(fs) => {
            let ghost o0 = out@;
            let ghost tt = t@;
            proof {
                lemma_type_fields(*fs, fs@.len() as int);
            }
            extend_str(out, "record<");
            let mut i: usize = 0;
            while i < fs.len()
                invariant
                    i <= fs@.len(),
                    *t == TypeRef::Record(*fs),
                    tt == t@,
                    tt->Record_0 == type_fields(*fs, fs@.len() as int),
                    type_fields(*fs, fs@.len() as int).len() == fs@.len(),
                    forall|j: int|
                        0 <= j < fs@.len() ==> #[trigger] type_fields(*fs, fs@.len() as int)[j]
                            == (fs@[j].0@, fs@[j].1.view()),
                    out@ == o0 + "record<"@ + joined(field_texts(tt, i as int), ", "@),
                decreases fs.len() - i,
            {
                proof {
                    assert((*t)->Record_0 == *fs);
                    assert(decreases_to!(*t => (*t)->Record_0));
                    assert(decreases_to!(*fs => fs@[i as int].1));
                }
                let ghost before = field_texts(tt, i as int);
                let ghost line = fs@[i as int].0@ + ": "@ + type_text(fs@[i as int].1@);
                assert(field_texts(tt, i + 1) == before.push(line));
                proof {
                    lemma_joined_push(before, ", "@, line);
                }
                if i > 0 {
                    extend_str(out, ", ");
                }
                extend_str(out, fs[i].0.as_str());
                extend_str(out, ": ");
                push_type_text(out, &fs[i].1);
                assert(out@ =~= o0 + "record<"@ + joined(before.push(line), ", "@));
                i += 1;
            }
            extend_str(out, ">");
            assert(out@ =~= o0 + type_text(tt));
        },
    }
}

impl TypeRef {
    /// The `.topo` spelling of this type.
    pub fn topo(&self) -> (r: String)
        ensures
            r@ == type_text(self@),
    {
        let mut out: Vec<char> = Vec::new();
        push_type_text(&mut out, self);
        assert(out@ =~= type_text(self@));
        string_of(&out)
    }
}

/// A type that can stand as a handler In or Out and reports its `.topo`
/// type.
pub trait TopoType {
    /// The type it reports.
    spec fn topo_type() -> TypeTree;

    /// The reported type.
    fn type_ref() -> (r: TypeRef)
        ensures
            r@ == Self::topo_type(),
    ;
}

impl TopoType for i64 {
    open spec fn topo_type() -> TypeTree {
        TypeTree::Scalar("i64"@)
    }

    fn type_ref() -> (r: TypeRef) {
        TypeRef::Scalar(owned("i64"))
    }
}

impl TopoType for bool {
    open spec fn topo_type() -> TypeTree {
        TypeTree::Scalar("bool"@)
    }

    fn type_ref() -> (r: TypeRef) {
        TypeRef::Scalar(owned("bool"))
    }
}

impl TopoType for String {
    open spec fn topo_type() -> TypeTree {
        TypeTree::Scalar("string"@)
    }

    fn type_ref() -> (r: TypeRef) {
        TypeRef::Scalar(owned("string"))
    }
}

/// The `TypeRef` of a scalar handler type.
pub fn scalar<T: TopoType>() -> (r: TypeRef)
    ensures
        r@ == T::topo_type(),
{
    T::type_ref()
}

/// The Rust-host `.topo` spelling of a config scalar (`bool`, `i64`,
/// `f64`, `string`); arrays, records and date/times have none.
pub fn scalar_topo_of(value: &ConfigValue) -> (r: Option<&'static str>)
    ensures
        r == match *value {
            ConfigValue::Bool(_) => Some("bool"),
            ConfigValue::Int(_) => Some("i64"),
            ConfigValue::Float(_) => Some("f64"),
            ConfigValue::Str(_) => Some("string"),
            _ => None::<&'static str>,
        },
{
    match value {
        ConfigValue::Bool(_) => Some("bool"),
        ConfigValue::Int(_) => Some("i64"),
        ConfigValue::Float(_) => Some("f64"),
        ConfigValue::Str(_) => Some("string"),
        ConfigValue::Array(_) => None,
        ConfigValue::Record(_) => None,
        ConfigValue::Datetime(_) => None,
    }
}

} // verus!
