//! Language-agnostic core of the product runtime configuration: the
//! layered value model and its merge precedence, per-value provenance,
//! the stdlib-typed value contract, tags, the two orthogonal permission
//! roles (read-visibility tier and write gate), the unified browse and the
//! pure-internal (`d`) band.
//!
//! The three runtime layers, least to most explicit: `b` (inlined default
//! embedded in the artifact), `a` (the external `topo-app.toml`), `c`
//! (injected in code). Per key, the most explicit layer that sets it wins:
//! `b ◁ a ◁ c`. The `d` band is never merged at runtime.
use vstd::prelude::*;
use crate::strmap::{StrMap, StrSet, pairs_map, pair_keys, sorted_upsert};
use crate::text::{
    chars_of, extend_str, lex_lt, find_char, find_first, lemma_find_first, lists_sorted,
    push_int, int_text, string_of, views, owned, slice_chars, strictly_sorted,
};

verus! {

/// Fixed product runtime config filename.
pub const PRODUCT_CONFIG_FILENAME: &'static str = "topo-app.toml";

/// Section names owned by the build toolchain's `Topo.toml`; a key whose
/// first dotted segment is one of these never belongs to the product
/// runtime config.
pub const BUILD_TOOLCHAIN_SECTIONS: [&'static str; 13] = [
    "topo",
    "build",
    "builder",
    "parallel",
    "adaptive",
    "optimize",
    "observability",
    "lifetime",
    "loop_parallel",
    "types",
    "completeness",
    "check",
    "test",
];

/// Which runtime layer a value originates from. Declaration order encodes
/// precedence (later wins); `D` is never produced by the runtime merge.
#[derive(Debug, Clone, Copy, PartialEq, Eq, Hash, Structural)]
pub enum Layer {
    /// pure-internal; promoted to code, never merged at runtime
    D,
    /// inlined / hidden TOML default embedded in the artifact
    B,
    /// external topo-app.toml the user manages
    A,
    /// in-code explicit injection
    C,
}

/// Layers that participate in the runtime merge, least to most explicit.
pub const RUNTIME_MERGE_ORDER: [Layer; 3] = [Layer::B, Layer::A, Layer::C];

/// A writer with no credential presents level 0.
pub const NO_CREDENTIAL_LEVEL: i64 = 0;

/// How disruptive a wrong write to a config item is (ordered scale).
#[derive(Debug, Clone, Copy, PartialEq, Eq, Hash, PartialOrd, Ord, Structural)]
pub enum ImpactLevel {
    /// routine; a wrong value is easily noticed and reverted
    Low,
    /// outsized blast radius; a careless write must be deliberate
    High,
}

/// Uppercase spelling of an impact level.
pub open spec fn impact_name(i: ImpactLevel) -> Seq<char> {
    match i {
        ImpactLevel::Low => "LOW"@,
        ImpactLevel::High => "HIGH"@,
    }
}

impl ImpactLevel {
    /// The uppercase spelling used in user-facing messages.
    pub fn name(&self) -> (r: &'static str)
        ensures
            r@ == impact_name(*self),
    {
        match self {
            ImpactLevel::Low => "LOW",
            ImpactLevel::High => "HIGH",
        }
    }
}

// --- values --------------------------------------------------------------

/// The mathematical content of a [`ConfigValue`]: text as character
/// sequences, a record as its key-sorted (field, value) pairs.
pub enum Plain {
    Bool(bool),
    Int(i64),
    Float(Seq<char>),
    Str(Seq<char>),
    Array(Seq<Plain>),
    Record(Seq<(Seq<char>, Plain)>),
    Datetime(Seq<char>),
}

/// The decoded plain-data value vocabulary the model operates on.
///
/// `Float` carries the value's canonical decimal spelling — the text
/// Rust's `Debug` prints for the `f64`, which determines the number — so
/// the model stores, compares and re-emits floats without float
/// arithmetic. `Datetime` exists only so the type contract can refuse a
/// decoded TOML date/time by name.
#[derive(Debug, PartialEq)]
pub enum ConfigValue {
    Bool(bool),
    Int(i64),
    Float(String),
    Str(String),
    Array(Vec<ConfigValue>),
    Record(Fields),
    Datetime(String),
}

/// The fields of a record value: names in strictly increasing order, each
/// with its value at the same position.
#[derive(Debug, PartialEq)]
pub struct Fields {
    pub(crate) names: StrSet,
    pub(crate) values: Vec<ConfigValue>,
}

impl Fields {
    /// The (name, value) pairs, in name order.
    pub closed spec fn pairs(self) -> Seq<(Seq<char>, ConfigValue)> {
        Seq::new(self.values@.len(), |i: int| (self.names.seq()[i], self.values@[i]))
    }

    /// The field names, in order.
    pub open spec fn key_seq(self) -> Seq<Seq<char>> {
        pair_keys(self.pairs())
    }

    /// Field name -> value.
    pub open spec fn view(self) -> Map<Seq<char>, ConfigValue> {
        pairs_map(self.pairs())
    }

    #[verifier::type_invariant]
    closed spec fn aligned(self) -> bool {
        self.names.seq().len() == self.values@.len()
    }

    /// A field value is structurally smaller than the record.
    pub proof fn lemma_value_decreases(self, i: int)
        requires
            0 <= i < self.pairs().len(),
        ensures
            decreases_to!(self => self.pairs()[i].1),
    {
        assert(decreases_to!(self => self.values@[i]));
    }

    /// A record with no fields.
    pub fn new() -> (f: Fields)
        ensures
            f.pairs() == Seq::<(Seq<char>, ConfigValue)>::empty(),
    {
        let f = Fields { names: StrSet::new(), values: Vec::new() };
        assert(f.pairs() =~= Seq::<(Seq<char>, ConfigValue)>::empty());
        f
    }

    /// Number of fields; also exposes that names are sorted.
    pub fn len(&self) -> (n: usize)
        ensures
            n == self.pairs().len(),
            strictly_sorted(self.key_seq()),
    {
        proof {
            use_type_invariant(self);
        }
        let n = self.names.len();
        assert(self.key_seq() =~= self.names.seq());
        n
    }

    /// The `i`-th field name.
    pub fn key_at(&self, i: usize) -> (k: &String)
        requires
            i < self.pairs().len(),
        ensures
            k@ == self.pairs()[i as int].0,
    {
        proof {
            use_type_invariant(self);
        }
        self.names.item_at(i)
    }

    /// The `i`-th field value.
    pub fn value_at(&self, i: usize) -> (v: &ConfigValue)
        requires
            i < self.pairs().len(),
        ensures
            *v == self.pairs()[i as int].1,
    {
        &self.values[i]
    }

    /// Sets field `k` to `v` (adding it, or replacing its value).
    pub fn insert(&mut self, k: String, v: ConfigValue)
        ensures
            final(self)@ == old(self)@.insert(k@, v),
            final(self).pairs() == sorted_upsert(old(self).pairs(), k@, v),
            strictly_sorted(final(self).key_seq()),
    {
        proof {
            use_type_invariant(&*self);
        }
        let ghost op = self.pairs();
        let (i, found) = self.names.position(k.as_str());
        let mut taken = Fields::new();
        std::mem::swap(&mut taken, self);
        let Fields { names, values } = taken;
        let mut names = names;
        let mut values = values;
        let ghost kk = k@;
        if found {
            values.set(i, v);
        } else {
            names.insert_at(i, k);
            values.insert(i, v);
        }
        let nf = Fields { names, values };
        proof {
            let np = nf.pairs();
            assert(nf.key_seq() =~= nf.names.seq());
            assert(pair_keys(op) =~= old(self).names.seq());
            crate::strmap::lemma_locate_lower_bound(pair_keys(op), kk, i as int, found);
            if found {
                assert(np =~= op.update(i as int, (kk, v)));
            } else {
                assert(np =~= op.insert(i as int, (kk, v)));
                crate::text::lemma_lex_order(kk, kk);
                if (i as int) < op.len() {
                    assert(pair_keys(op)[i as int] == op[i as int].0);
                }
            }
            crate::strmap::lemma_pairs_map_insert(op, np, i as int, kk, v, found);
        }
        *self = nf;
    }

    /// Appends a field whose name sorts after every name present.
    pub fn push_greatest(&mut self, k: String, v: ConfigValue)
        requires
            forall|j: int|
                0 <= j < old(self).pairs().len() ==> lex_lt(#[trigger] old(self).key_seq()[j], k@),
        ensures
            final(self).pairs() == old(self).pairs().push((k@, v)),
    {
        proof {
            use_type_invariant(&*self);
        }
        let ghost op = self.pairs();
        let n = self.values.len();
        assert(self.key_seq() =~= self.names.seq());
        let mut taken = Fields::new();
        std::mem::swap(&mut taken, self);
        let Fields { names, values } = taken;
        let mut names = names;
        let mut values = values;
        let ghost kk = k@;
        names.insert_at(n, k);
        values.push(v);
        let nf = Fields { names, values };
        assert(nf.pairs() =~= op.push((kk, v)));
        *self = nf;
    }
}

impl ConfigValue {
    /// The value's content.
    pub open spec fn view(self) -> Plain
        decreases self, 0int,
    {
        match self {
            ConfigValue::Bool(b) => Plain::Bool(b),
            ConfigValue::Int(i) => Plain::Int(i),
            ConfigValue::Float(f) => Plain::Float(f@),
            ConfigValue::Str(s) => Plain::Str(s@),
            ConfigValue::Array(xs) => {
                Plain::Array(items_view(xs, xs@.len() as int))
            },
            ConfigValue::Record(m) => {
                Plain::Record(fields_view(m, m.pairs().len() as int))
            },
            ConfigValue::Datetime(d) => Plain::Datetime(d@),
        }
    }
}

/// Content of the first `n` elements of `xs`.
pub open spec fn items_view(xs: Vec<ConfigValue>, n: int) -> Seq<Plain>
    decreases xs, n,
{
    if n <= 0 || n > xs@.len() {
        Seq::empty()
    } else {
        items_view(xs, n - 1).push(xs@[n - 1].view())
    }
}

/// Content of the first `n` fields of record `m`.
pub open spec fn fields_view(m: Fields, n: int) -> Seq<(Seq<char>, Plain)>
    decreases m, n,
{
    if n <= 0 || n > m.pairs().len() {
        Seq::empty()
    } else {
        proof {
            m.lemma_value_decreases(n - 1);
        }
        fields_view(m, n - 1).push((m.pairs()[n - 1].0, m.pairs()[n - 1].1.view()))
    }
}

/// `items_view` lists each element's content.
pub proof fn lemma_items_view(xs: Vec<ConfigValue>, n: int)
    requires
        0 <= n <= xs@.len(),
    ensures
        items_view(xs, n).len() == n,
        forall|i: int| 0 <= i < n ==> #[trigger] items_view(xs, n)[i] == xs@[i].view(),
    decreases n,
{
    if n > 0 {
        lemma_items_view(xs, n - 1);
    }
}

/// `fields_view` lists each field with its content.
pub proof fn lemma_fields_view(m: Fields, n: int)
    requires
        0 <= n <= m.pairs().len(),
    ensures
        fields_view(m, n).len() == n,
        forall|i: int|
            0 <= i < n ==> #[trigger] fields_view(m, n)[i] == (
                m.pairs()[i].0,
                m.pairs()[i].1.view(),
            ),
    decreases n,
{
    if n > 0 {
        lemma_fields_view(m, n - 1);
    }
}

/// Whether a TOML date/time occurs anywhere inside the value.
pub open spec fn has_datetime(p: Plain) -> bool
    decreases p, 1int, 0int,
{
    match p {
        Plain::Datetime(_) => true,
        Plain::Array(xs) => any_item_datetime(p, xs.len() as int),
        Plain::Record(fs) => any_item_datetime(p, fs.len() as int),
        _ => false,
    }
}

/// Whether one of the first `n` elements (array) or field values
/// (record) of `p` holds a date/time.
pub open spec fn any_item_datetime(p: Plain, n: int) -> bool
    decreases p, 0int, n,
{
    if n <= 0 {
        false
    } else {
        match p {
            Plain::Array(xs) => {
                if n > xs.len() {
                    false
                } else {
                    proof {
                        assert(decreases_to!(p => p->Array_0[n - 1]));
                    }
                    has_datetime(xs[n - 1]) || any_item_datetime(p, n - 1)
                }
            },
            Plain::Record(fs) => {
                if n > fs.len() {
                    false
                } else {
                    proof {
                        assert(decreases_to!(p => p->Record_0[n - 1].1));
                    }
                    has_datetime(fs[n - 1].1) || any_item_datetime(p, n - 1)
                }
            },
            _ => false,
        }
    }
}

proof fn lemma_any_item_datetime(p: Plain, n: int)
    requires
        0 <= n,
        p is Array ==> n <= p->Array_0.len(),
        p is Record ==> n <= p->Record_0.len(),
    ensures
        p is Array ==> (any_item_datetime(p, n) <==> exists|i: int|
            0 <= i < n && #[trigger] has_datetime(p->Array_0[i])),
        p is Record ==> (any_item_datetime(p, n) <==> exists|i: int|
            0 <= i < n && #[trigger] has_datetime(p->Record_0[i].1)),
    decreases n,
{
    if n > 0 {
        lemma_any_item_datetime(p, n - 1);
        if p is Array {
            let xs = p->Array_0;
            assert(any_item_datetime(p, n) == (has_datetime(xs[n - 1]) || any_item_datetime(p, n - 1)));
            if any_item_datetime(p, n) {
                if has_datetime(xs[n - 1]) {
                    assert(0 <= n - 1 < n && has_datetime(p->Array_0[n - 1]));
                }
            }
            if exists|i: int| 0 <= i < n && #[trigger] has_datetime(p->Array_0[i]) {
                let i = choose|i: int| 0 <= i < n && #[trigger] has_datetime(p->Array_0[i]);
                if i < n - 1 {
                    assert(0 <= i < n - 1 && has_datetime(p->Array_0[i]));
                }
            }
        }
        if p is Record {
            let fs = p->Record_0;
            assert(any_item_datetime(p, n) == (has_datetime(fs[n - 1].1) || any_item_datetime(p, n - 1)));
            if any_item_datetime(p, n) {
                if has_datetime(fs[n - 1].1) {
                    assert(0 <= n - 1 < n && has_datetime(p->Record_0[n - 1].1));
                }
            }
            if exists|i: int| 0 <= i < n && #[trigger] has_datetime(p->Record_0[i].1) {
                let i = choose|i: int| 0 <= i < n && #[trigger] has_datetime(p->Record_0[i].1);
                if i < n - 1 {
                    assert(0 <= i < n - 1 && has_datetime(p->Record_0[i].1));
                }
            }
        }
    }
}

/// An array holds a date/time iff one of its elements does.
pub proof fn lemma_array_datetime(xs: Seq<Plain>)
    ensures
        has_datetime(Plain::Array(xs)) <==> exists|i: int|
            0 <= i < xs.len() && #[trigger] has_datetime(xs[i]),
{
    lemma_any_item_datetime(Plain::Array(xs), xs.len() as int);
}

/// A record holds a date/time iff one of its field values does.
pub proof fn lemma_record_datetime(fs: Seq<(Seq<char>, Plain)>)
    ensures
        has_datetime(Plain::Record(fs)) <==> exists|i: int|
            0 <= i < fs.len() && #[trigger] has_datetime(fs[i].1),
{
    lemma_any_item_datetime(Plain::Record(fs), fs.len() as int);
}

/// The stdlib bridge spelling of a value's type.
pub open spec fn bridge_type(p: Plain) -> Seq<char> {
    match p {
        Plain::Bool(_) => "bool"@,
        Plain::Int(_) => "int"@,
        Plain::Float(_) => "float"@,
        Plain::Str(_) => "str"@,
        Plain::Array(_) => "slice"@,
        Plain::Record(_) => "record"@,
        Plain::Datetime(_) => "datetime"@,
    }
}

/// An independent copy of a string.
fn copy_string(s: &String) -> (r: String)
    ensures
        r@ == s@,
{
    owned(s.as_str())
}

impl ConfigValue {
    /// An independent copy with the same content.
    pub fn deep_copy(&self) -> (r: ConfigValue)
        ensures
            r@ == self@,
        decreases *self, 1int,
    {
        match self {
            ConfigValue::Bool(b) => ConfigValue::Bool(*b),
            ConfigValue::Int(i) => ConfigValue::Int(*i),
            ConfigValue::Float(f) => ConfigValue::Float(copy_string(f)),
            ConfigValue::Str(s) => ConfigValue::Str(copy_string(s)),
            ConfigValue::Datetime(d) => ConfigValue::Datetime(copy_string(d)),
            ConfigValue::Array(xs) => {
                let ys = copy_items(xs);
                proof {
                    lemma_items_view(*xs, xs@.len() as int);
                    lemma_items_view(ys, ys@.len() as int);
                    assert(items_view(ys, ys@.len() as int) =~= items_view(*xs, xs@.len() as int));
                }
                ConfigValue::Array(ys)
            },
            ConfigValue::Record(m) => ConfigValue::Record(m.copy_fields()),
        }
    }
}

impl Fields {
    /// An independent copy with the same field names and contents.
    pub fn copy_fields(&self) -> (out: Fields)
        ensures
            fields_view(out, out.pairs().len() as int) == fields_view(*self, self.pairs().len() as int),
            out.pairs().len() == self.pairs().len(),
        decreases *self, 0int,
    {
        let n = self.len();
        let mut out = Fields::new();
        let mut i: usize = 0;
        while i < n
            invariant
                n == self.pairs().len(),
                strictly_sorted(self.key_seq()),
                i <= n,
                out.pairs().len() == i,
                forall|j: int|
                    0 <= j < i ==> (#[trigger] out.pairs()[j]).0 == self.pairs()[j].0
                        && out.pairs()[j].1@ == self.pairs()[j].1@,
            decreases n - i,
        {
            proof {
                self.lemma_value_decreases(i as int);
            }
            let k = copy_string(self.key_at(i));
            let v = self.value_at(i).deep_copy();
            proof {
                assert forall|j: int| 0 <= j < out.pairs().len() implies lex_lt(
                    #[trigger] out.key_seq()[j],
                    k@,
                ) by {
                    assert(out.key_seq()[j] == self.key_seq()[j]);
                    assert(self.key_seq()[i as int] == k@);
                }
            }
            out.push_greatest(k, v);
            i += 1;
        }
        proof {
            lemma_fields_view(*self, n as int);
            lemma_fields_view(out, n as int);
            assert(fields_view(out, n as int) =~= fields_view(*self, n as int));
        }
        out
    }
}

impl Clone for Fields {
    /// An independent copy with the same fields.
    fn clone(&self) -> (r: Self)
        ensures
            fields_view(r, r.pairs().len() as int) == fields_view(*self, self.pairs().len() as int),
    {
        self.copy_fields()
    }
}

impl Clone for ConfigValue {
    /// An independent copy with the same content.
    fn clone(&self) -> (r: Self)
        ensures
            r@ == self@,
    {
        self.deep_copy()
    }
}

fn copy_items(xs: &Vec<ConfigValue>) -> (ys: Vec<ConfigValue>)
    ensures
        ys@.len() == xs@.len(),
        forall|i: int| 0 <= i < xs@.len() ==> (#[trigger] ys@[i])@ == xs@[i]@,
    decreases *xs, 0int,
{
    let mut ys: Vec<ConfigValue> = Vec::new();
    let mut i: usize = 0;
    while i < xs.len()
        invariant
            i <= xs@.len(),
            ys@.len() == i,
            forall|j: int| 0 <= j < i ==> (#[trigger] ys@[j])@ == xs@[j]@,
        decreases xs.len() - i,
    {
        assert(decreases_to!(*xs => xs@[i as int]));
        ys.push(xs[i].deep_copy());
        i += 1;
    }
    ys
}

// --- errors --------------------------------------------------------------

/// The errors the model raises; each carries its user-facing message
/// (`KeyNotFound` carries the key).
#[derive(Debug, Clone, PartialEq)]
pub enum ConfigError {
    /// A build-toolchain key was offered to the product runtime config.
    BuildConfigKey(String),
    /// A value whose type has no stdlib bridge was offered.
    UnbridgedValue(String),
    /// A write (or a read below the item's tier) was refused for want of
    /// credential level.
    WriteProtection(String),
    /// No runtime layer sets the requested key.
    KeyNotFound(String),
}

impl ConfigError {
    /// The text the error displays.
    pub open spec fn display(self) -> Seq<char> {
        match self {
            ConfigError::BuildConfigKey(m) => m@,
            ConfigError::UnbridgedValue(m) => m@,
            ConfigError::WriteProtection(m) => m@,
            ConfigError::KeyNotFound(k) => "key not found: "@ + k@,
        }
    }

    /// The text the error displays.
    pub fn to_display_string(&self) -> (r: String)
        ensures
            r@ == self.display(),
    {
        match self {
            ConfigError::BuildConfigKey(m) => copy_string(m),
            ConfigError::UnbridgedValue(m) => copy_string(m),
            ConfigError::WriteProtection(m) => copy_string(m),
            ConfigError::KeyNotFound(k) => {
                let mut v: Vec<char> = Vec::new();
                extend_str(&mut v, "key not found: ");
                extend_str(&mut v, k.as_str());
                string_of(&v)
            },
        }
    }
}

// --- the Topo.toml boundary ---------------------------------------------

/// First dotted segment of a key (`a.b.c` -> `a`; no dot -> the key).
pub open spec fn root_section(key: Seq<char>) -> Seq<char> {
    if find_first(key, '.') < 0 {
        key
    } else {
        key.take(find_first(key, '.'))
    }
}

/// `s` is one of the build toolchain's section names.
pub open spec fn is_build_section(s: Seq<char>) -> bool {
    exists|i: int| 0 <= i < 13 && (#[trigger] BUILD_TOOLCHAIN_SECTIONS@[i])@ == s
}

/// The key belongs to `Topo.toml`, not the product runtime config.
pub open spec fn is_build_key(key: Seq<char>) -> bool {
    is_build_section(root_section(key))
}

/// A key's section is its first dotted segment: it holds no `.`, the key
/// begins with it, and a `.` follows it unless it is the whole key.
pub proof fn lemma_root_section_is_first_segment(key: Seq<char>)
    ensures
        !root_section(key).contains('.'),
        root_section(key).len() <= key.len(),
        key.take(root_section(key).len() as int) == root_section(key),
        root_section(key).len() < key.len() ==> key[root_section(key).len() as int] == '.',
{
    lemma_find_first(key, '.');
    let r = root_section(key);
    if r.contains('.') {
        let j = choose|j: int| 0 <= j < r.len() && r[j] == '.';
        assert(key[j] == '.');
    }
    assert(key.take(r.len() as int) =~= r);
}

/// Whatever follows the first `.`, a key's section is the text before
/// it; so a key under a build-toolchain section is a build key however
/// many segments follow (`build.a.b` as much as `build.a`).
pub proof fn lemma_build_key_by_first_segment(section: Seq<char>, rest: Seq<char>)
    requires
        !section.contains('.'),
    ensures
        root_section(section + seq!['.'] + rest) == section,
        root_section(section) == section,
        is_build_section(section) ==> is_build_key(section + seq!['.'] + rest) && is_build_key(section),
{
    crate::text::lemma_find_first_after(section, rest, '.');
    assert((section + seq!['.'] + rest).take(section.len() as int) =~= section);
    lemma_find_first(section, '.');
    if find_first(section, '.') >= 0 {
        assert(section[find_first(section, '.')] == '.');
    }
}

/// The refusal message for a build-toolchain key.
pub open spec fn build_key_message(key: Seq<char>) -> Seq<char> {
    "'"@ + key + "' configures the build toolchain (section '["@ + root_section(key)
        + "]') and belongs in Topo.toml, not the product runtime config ("@
        + PRODUCT_CONFIG_FILENAME@ + "). The two files share no sections; set this in Topo.toml instead."@
}

fn root_section_chars(key: &str) -> (r: Vec<char>)
    ensures
        r@ == root_section(key@),
{
    let v = chars_of(key);
    match find_char(&v, '.') {
        Some(i) => {
            proof {
                lemma_find_first(v@, '.');
            }
            slice_chars(&v, 0, i)
        },
        None => {
            proof {
                lemma_find_first(v@, '.');
            }
            v
        },
    }
}

fn is_build_section_chars(s: &Vec<char>) -> (b: bool)
    ensures
        b == is_build_section(s@),
{
    let mut i: usize = 0;
    while i < 13
        invariant
            i <= 13,
            forall|j: int| 0 <= j < i ==> (#[trigger] BUILD_TOOLCHAIN_SECTIONS@[j])@ != s@,
        decreases 13 - i,
    {
        let name = chars_of(BUILD_TOOLCHAIN_SECTIONS[i]);
        if crate::text::compare_chars(&name, s) == crate::text::Cmp::Equal {
            return true;
        }
        i += 1;
    }
    false
}

/// Boundary guard: refuse a key whose first dotted segment is a
/// build-toolchain section, naming `Topo.toml` as its home.
pub fn reject_if_build_config_key(key: &str) -> (r: Result<(), ConfigError>)
    ensures
        r is Ok <==> !is_build_key(key@),
        r matches Err(e) ==> e matches ConfigError::BuildConfigKey(m) && m@ == build_key_message(
            key@,
        ),
{
    let section = root_section_chars(key);
    if is_build_section_chars(&section) {
        let mut m: Vec<char> = Vec::new();
        extend_str(&mut m, "'");
        extend_str(&mut m, key);
        extend_str(&mut m, "' configures the build toolchain (section '[");
        crate::text::extend_chars(&mut m, &section);
        extend_str(&mut m, "]') and belongs in Topo.toml, not the product runtime config (");
        extend_str(&mut m, PRODUCT_CONFIG_FILENAME);
        extend_str(
            &mut m,
            "). The two files share no sections; set this in Topo.toml instead.",
        );
        assert(m@ =~= build_key_message(key@));
        return Err(ConfigError::BuildConfigKey(string_of(&m)));
    }
    Ok(())
}

// --- the stdlib value-type contract --------------------------------------

/// Why a date/time value is refused.
pub open spec fn datetime_message() -> Seq<char> {
    "value of type 'datetime' has no stdlib bridge type — TOML date/time maps to the not-yet-implemented time_* family (stdlib-bridging-types gap: the time_*/uuid/decimal128 family is not yet wired). Accepting it would store a value with no schema contract; use a bridged scalar instead."@
}

fn datetime_error() -> (e: ConfigError)
    ensures
        e matches ConfigError::UnbridgedValue(m) && m@ == datetime_message(),
{
    ConfigError::UnbridgedValue(
        owned(
            "value of type 'datetime' has no stdlib bridge type — TOML date/time maps to the not-yet-implemented time_* family (stdlib-bridging-types gap: the time_*/uuid/decimal128 family is not yet wired). Accepting it would store a value with no schema contract; use a bridged scalar instead.",
        ),
    )
}

/// The stdlib bridge spelling of a value's type, or the date/time refusal
/// when a date/time occurs anywhere inside it.
pub fn stdlib_type_of(value: &ConfigValue) -> (r: Result<&'static str, ConfigError>)
    ensures
        r is Ok <==> !has_datetime(value@),
        r matches Ok(t) ==> t@ == bridge_type(value@),
        r matches Err(e) ==> e matches ConfigError::UnbridgedValue(m) && m@ == datetime_message(),
    decreases *value,
{
    match value {
        ConfigValue::Datetime(_) => Err(datetime_error()),
        ConfigValue::Bool(_) => Ok("bool"),
        ConfigValue::Int(_) => Ok("int"),
        ConfigValue::Float(_) => Ok("float"),
        ConfigValue::Str(_) => Ok("str"),
        ConfigValue::Array(xs) => {
            proof {
                lemma_items_view(*xs, xs@.len() as int);
            }
            let mut i: usize = 0;
            while i < xs.len()
                invariant
                    i <= xs@.len(),
                    *value == ConfigValue::Array(*xs),
                    items_view(*xs, xs@.len() as int).len() == xs@.len(),
                    forall|j: int|
                        0 <= j < xs@.len() ==> #[trigger] items_view(*xs, xs@.len() as int)[j]
                            == xs@[j]@,
                    forall|j: int| 0 <= j < i ==> !has_datetime(#[trigger] xs@[j]@),
                decreases xs.len() - i,
            {
                assert(decreases_to!(*value => xs@[i as int]));
                match stdlib_type_of(&xs[i]) {
                    Ok(_) => {},
                    Err(e) => {
                        assert(has_datetime(items_view(*xs, xs@.len() as int)[i as int]));
                        let ghost iv = items_view(*xs, xs@.len() as int);
                        assert(0 <= i < iv.len() && has_datetime(iv[i as int]));
                        proof {
                            lemma_array_datetime(iv);
                        }
                        assert(value@ == Plain::Array(iv));
                        return Err(e);
                    },
                }
                i += 1;
            }
            assert forall|j: int| 0 <= j < xs@.len() implies !has_datetime(
                #[trigger] items_view(*xs, xs@.len() as int)[j],
            ) by {
                assert(!has_datetime(xs@[j]@));
            }
            proof {
                lemma_array_datetime(items_view(*xs, xs@.len() as int));
            }
            Ok("slice")
        },
        ConfigValue::Record(f) => {
            let n = f.len();
            proof {
                lemma_fields_view(*f, n as int);
            }
            let mut i: usize = 0;
            while i < n
                invariant
                    n == f.pairs().len(),
                    i <= n,
                    *value == ConfigValue::Record(*f),
                    fields_view(*f, n as int).len() == n,
                    forall|j: int|
                        0 <= j < n ==> #[trigger] fields_view(*f, n as int)[j] == (
                            f.pairs()[j].0,
                            f.pairs()[j].1@,
                        ),
                    forall|j: int| 0 <= j < i ==> !has_datetime((#[trigger] f.pairs()[j]).1@),
                decreases n - i,
            {
                proof {
                    f.lemma_value_decreases(i as int);
                    assert(decreases_to!(*value => *f));
                }
                match stdlib_type_of(f.value_at(i)) {
                    Ok(_) => {},
                    Err(e) => {
                        assert(has_datetime(fields_view(*f, n as int)[i as int].1));
                        let ghost fv = fields_view(*f, n as int);
                        assert(0 <= i < fv.len() && has_datetime(fv[i as int].1));
                        proof {
                            lemma_record_datetime(fv);
                        }
                        assert(value@ == Plain::Record(fv));
                        return Err(e);
                    },
                }
                i += 1;
            }
            assert forall|j: int| 0 <= j < n implies !has_datetime(
                (#[trigger] fields_view(*f, n as int)[j]).1,
            ) by {
                assert(!has_datetime(f.pairs()[j].1@));
            }
            proof {
                lemma_record_datetime(fields_view(*f, n as int));
            }
            Ok("record")
        },
    }
}

/// The refusal message for a value offered under `key`.
pub open spec fn keyed_unbridged_message(key: Seq<char>) -> Seq<char> {
    "config key '"@ + key + "': "@ + datetime_message()
}

/// Type-gate a value about to be stored under `key`.
pub fn validate_value(key: &str, value: &ConfigValue) -> (r: Result<(), ConfigError>)
    ensures
        r is Ok <==> !has_datetime(value@),
        r matches Err(e) ==> e matches ConfigError::UnbridgedValue(m) && m@
            == keyed_unbridged_message(key@),
{
    match stdlib_type_of(value) {
        Ok(_) => Ok(()),
        Err(ConfigError::UnbridgedValue(msg)) => {
            let mut m: Vec<char> = Vec::new();
            extend_str(&mut m, "config key '");
            extend_str(&mut m, key);
            extend_str(&mut m, "': ");
            extend_str(&mut m, msg.as_str());
            assert(m@ =~= keyed_unbridged_message(key@));
            Err(ConfigError::UnbridgedValue(string_of(&m)))
        },
        Err(other) => Err(other),
    }
}

// --- the layered model ---------------------------------------------------

/// An effective value plus the layer it came from.
#[derive(Debug, Clone, PartialEq)]
pub struct ResolvedValue {
    pub value: ConfigValue,
    pub layer: Layer,
}

/// The a/b/c layers as flat dotted-key -> value maps.
#[derive(Debug)]
pub struct LayeredConfig {
    pub inlined: StrMap<ConfigValue>,
    pub external: StrMap<ConfigValue>,
    pub injected: StrMap<ConfigValue>,
}

/// The first build-toolchain key among `ks[i..]`, if any.
pub open spec fn first_build_key_from(ks: Seq<Seq<char>>, i: int) -> Option<Seq<char>>
    decreases ks.len() - i,
{
    if i < 0 || i >= ks.len() {
        None
    } else if is_build_key(ks[i]) {
        Some(ks[i])
    } else {
        first_build_key_from(ks, i + 1)
    }
}

/// The first build-toolchain key of `ks`, in order, if any.
pub open spec fn first_build_key(ks: Seq<Seq<char>>) -> Option<Seq<char>> {
    first_build_key_from(ks, 0)
}

proof fn lemma_first_build_key_from(ks: Seq<Seq<char>>, i: int)
    requires
        0 <= i <= ks.len(),
    ensures
        first_build_key_from(ks, i) is None <==> forall|j: int|
            i <= j < ks.len() ==> !is_build_key(#[trigger] ks[j]),
    decreases ks.len() - i,
{
    if i < ks.len() {
        lemma_first_build_key_from(ks, i + 1);
    }
}

/// `first_build_key` is `None` exactly when no key is a build key.
pub proof fn lemma_first_build_key(ks: Seq<Seq<char>>)
    ensures
        first_build_key(ks) is None <==> forall|j: int|
            0 <= j < ks.len() ==> !is_build_key(#[trigger] ks[j]),
{
    lemma_first_build_key_from(ks, 0);
}

proof fn lemma_first_build_key_from_found(ks: Seq<Seq<char>>, i: int)
    requires
        0 <= i <= ks.len(),
        first_build_key_from(ks, i) is Some,
    ensures
        exists|j: int|
            i <= j < ks.len() && #[trigger] ks[j] == first_build_key_from(ks, i)->0 && is_build_key(
                ks[j],
            ) && forall|l: int| i <= l < j ==> !is_build_key(#[trigger] ks[l]),
    decreases ks.len() - i,
{
    if !is_build_key(ks[i]) {
        lemma_first_build_key_from_found(ks, i + 1);
        let j = choose|j: int|
            i + 1 <= j < ks.len() && #[trigger] ks[j] == first_build_key_from(ks, i + 1)->0
                && is_build_key(ks[j]) && forall|l: int| i + 1 <= l < j ==> !is_build_key(#[trigger] ks[l]);
        assert(i <= j < ks.len() && ks[j] == first_build_key_from(ks, i)->0 && is_build_key(ks[j])
            && forall|l: int| i <= l < j ==> !is_build_key(#[trigger] ks[l]));
    } else {
        assert(i <= i < ks.len() && ks[i] == first_build_key_from(ks, i)->0 && is_build_key(ks[i])
            && forall|l: int| i <= l < i ==> !is_build_key(#[trigger] ks[l]));
    }
}

/// Over increasing keys, the first build-toolchain key in order is the
/// least one.
pub proof fn lemma_first_build_key_least(ks: Seq<Seq<char>>)
    requires
        strictly_sorted(ks),
    ensures
        first_build_key(ks) is None <==> forall|k: Seq<char>| #[trigger] ks.contains(k) ==> !is_build_key(k),
        first_build_key(ks) is Some ==> least_build_key(ks.to_set(), first_build_key(ks)->0),
{
    lemma_first_build_key(ks);
    if first_build_key(ks) is None {
        assert forall|k: Seq<char>| #[trigger] ks.contains(k) implies !is_build_key(k) by {
            let j = choose|j: int| 0 <= j < ks.len() && ks[j] == k;
        }
    } else {
        let k0 = first_build_key(ks)->0;
        lemma_first_build_key_from_found(ks, 0);
        let j = choose|j: int|
            0 <= j < ks.len() && #[trigger] ks[j] == k0 && is_build_key(ks[j]) && forall|l: int|
                0 <= l < j ==> !is_build_key(#[trigger] ks[l]);
        assert(ks.contains(k0));
        assert forall|k: Seq<char>| #[trigger] ks.to_set().contains(k) && is_build_key(k) implies !lex_lt(k, k0) by {
            let l = choose|l: int| 0 <= l < ks.len() && ks[l] == k;
            crate::text::lemma_lex_order(k, k0);
            if l > j {
                assert(lex_lt(ks[j], ks[l]));
            }
        }
        assert(!ks.contains(k0) || is_build_key(k0));
    }
}

/// Checks `m`'s keys in order; the first build-toolchain key is refused.
fn reject_build_keys<V>(m: &StrMap<V>) -> (r: Result<(), ConfigError>)
    ensures
        r is Ok <==> first_build_key(m.key_seq()) is None,
        r matches Err(e) ==> e matches ConfigError::BuildConfigKey(msg) && msg@
            == build_key_message(first_build_key(m.key_seq())->0),
{
    let n = m.len();
    let mut i: usize = 0;
    while i < n
        invariant
            n == m.pairs().len(),
            n == m.key_seq().len(),
            i <= n,
            first_build_key(m.key_seq()) == first_build_key_from(m.key_seq(), i as int),
        decreases n - i,
    {
        let k = m.key_at(i);
        assert(m.key_seq()[i as int] == k@);
        reject_if_build_config_key(k.as_str())?;
        i += 1;
    }
    Ok(())
}

impl LayeredConfig {
    /// The value map of a runtime layer (`D` has none).
    pub open spec fn layer_values(self, l: Layer) -> Map<Seq<char>, ConfigValue> {
        match l {
            Layer::B => self.inlined@,
            Layer::A => self.external@,
            Layer::C => self.injected@,
            Layer::D => Map::empty(),
        }
    }

    /// Every key some runtime layer sets.
    pub open spec fn key_set(self) -> Set<Seq<char>> {
        self.inlined@.dom() + self.external@.dom() + self.injected@.dom()
    }

    /// The effective value of `k` and the layer that sets it: the most
    /// explicit of `c`, `a`, `b` that carries the key.
    pub open spec fn winner(self, k: Seq<char>) -> Option<(ConfigValue, Layer)> {
        if self.injected@.contains_key(k) {
            Some((self.injected@[k], Layer::C))
        } else if self.external@.contains_key(k) {
            Some((self.external@[k], Layer::A))
        } else if self.inlined@.contains_key(k) {
            Some((self.inlined@[k], Layer::B))
        } else {
            None
        }
    }

    /// The content of `k`'s effective value (when some layer sets `k`).
    pub open spec fn winner_value(self, k: Seq<char>) -> Plain {
        match self.winner(k) {
            Some(w) => w.0@,
            None => Plain::Bool(false),
        }
    }

    /// The layer that sets `k` (when some layer does).
    pub open spec fn winner_layer(self, k: Seq<char>) -> Layer {
        match self.winner(k) {
            Some(w) => w.1,
            None => Layer::D,
        }
    }

    /// The first build-toolchain key across the layers, checked in merge
    /// order `b`, `a`, `c` and in key order within each layer.
    pub open spec fn first_build_key(self) -> Option<Seq<char>> {
        if first_build_key(self.inlined.key_seq()) is Some {
            first_build_key(self.inlined.key_seq())
        } else if first_build_key(self.external.key_seq()) is Some {
            first_build_key(self.external.key_seq())
        } else {
            first_build_key(self.injected.key_seq())
        }
    }

    /// An empty layered config.
    pub fn new() -> (c: Self)
        ensures
            c.inlined@ == Map::<Seq<char>, ConfigValue>::empty(),
            c.external@ == Map::<Seq<char>, ConfigValue>::empty(),
            c.injected@ == Map::<Seq<char>, ConfigValue>::empty(),
    {
        LayeredConfig { inlined: StrMap::new(), external: StrMap::new(), injected: StrMap::new() }
    }

    /// Registers already-decoded data as the inlined (`b`) layer; refuses
    /// it, leaving the config unchanged, if it holds a build-toolchain key
    /// (the first in key order is named).
    pub fn install_inlined(&mut self, data: StrMap<ConfigValue>) -> (r: Result<(), ConfigError>)
        ensures
            r is Ok <==> first_build_key(data.key_seq()) is None,
            r matches Err(e) ==> e matches ConfigError::BuildConfigKey(msg) && msg@
                == build_key_message(first_build_key(data.key_seq())->0),
            r is Ok ==> final(self).inlined == data,
            r is Err ==> final(self).inlined == old(self).inlined,
            final(self).external == old(self).external,
            final(self).injected == old(self).injected,
    {
        reject_build_keys(&data)?;
        self.inlined = data;
        Ok(())
    }

    /// The map of a runtime merge layer; `D` is not one and is refused.
    pub fn layer_map_for(&self, layer: Layer) -> (r: Result<&StrMap<ConfigValue>, ConfigError>)
        ensures
            layer == Layer::D <==> r is Err,
            r matches Err(e) ==> e matches ConfigError::WriteProtection(m) && m@
                == "D is not a runtime merge layer"@,
            r matches Ok(m) ==> m@ == self.layer_values(layer),
    {
        match layer {
            Layer::B => Ok(&self.inlined),
            Layer::A => Ok(&self.external),
            Layer::C => Ok(&self.injected),
            Layer::D => Err(ConfigError::WriteProtection(owned("D is not a runtime merge layer"))),
        }
    }

    /// Every key any runtime layer sets, once each, in increasing order.
    pub fn keys(&self) -> (r: Vec<String>)
        ensures
            lists_sorted(views(r@), self.key_set()),
    {
        let mut set = StrSet::new();
        add_keys(&mut set, &self.inlined);
        add_keys(&mut set, &self.external);
        add_keys(&mut set, &self.injected);
        let r = set.to_vec();
        assert(set@ =~= self.key_set());
        r
    }

    /// Effective value and provenance of one key: refused for a
    /// build-toolchain key, `KeyNotFound` when no layer sets it.
    pub fn resolve(&self, key: &str) -> (r: Result<ResolvedValue, ConfigError>)
        ensures
            r matches Ok(rv) ==> !is_build_key(key@) && (self.winner(key@) matches Some(w)
                && rv.value@ == w.0@ && rv.layer == w.1),
            r matches Err(e) ==> if is_build_key(key@) {
                e matches ConfigError::BuildConfigKey(m) && m@ == build_key_message(key@)
            } else {
                self.winner(key@) is None && (e matches ConfigError::KeyNotFound(k) && k@ == key@)
            },
            r is Ok <==> !is_build_key(key@) && self.winner(key@) is Some,
    {
        reject_if_build_config_key(key)?;
        if let Some(v) = self.injected.get(key) {
            return Ok(ResolvedValue { value: v.deep_copy(), layer: Layer::C });
        }
        if let Some(v) = self.external.get(key) {
            return Ok(ResolvedValue { value: v.deep_copy(), layer: Layer::A });
        }
        if let Some(v) = self.inlined.get(key) {
            return Ok(ResolvedValue { value: v.deep_copy(), layer: Layer::B });
        }
        Err(ConfigError::KeyNotFound(owned(key)))
    }

    /// Every key -> effective value and provenance. Refused, naming the
    /// first offending key, when any layer holds a build-toolchain key.
    pub fn resolve_all(&self) -> (r: Result<StrMap<ResolvedValue>, ConfigError>)
        ensures
            r is Ok <==> self.first_build_key() is None,
            r matches Err(e) ==> e matches ConfigError::BuildConfigKey(m) && m@
                == build_key_message(self.first_build_key()->0),
            r matches Ok(out) ==> resolves_all(*self, out),
    {
        reject_build_keys(&self.inlined)?;
        reject_build_keys(&self.external)?;
        reject_build_keys(&self.injected)?;
        proof {
            lemma_first_build_key(self.inlined.key_seq());
            lemma_first_build_key(self.external.key_seq());
            lemma_first_build_key(self.injected.key_seq());
            self.inlined.lemma_view_facts();
            self.external.lemma_view_facts();
            self.injected.lemma_view_facts();
        }
        let keys = self.keys();
        let mut out: StrMap<ResolvedValue> = StrMap::new();
        let mut i: usize = 0;
        while i < keys.len()
            invariant
                i <= keys@.len(),
                lists_sorted(views(keys@), self.key_set()),
                forall|k: Seq<char>| #[trigger] self.key_set().contains(k) ==> !is_build_key(k),
                forall|k: Seq<char>|
                    #[trigger] out@.contains_key(k) <==> exists|j: int|
                        0 <= j < i && views(keys@)[j] == k,
                forall|k: Seq<char>|
                    #[trigger] out@.contains_key(k) ==> (self.winner(k) matches Some(w)
                        && out@[k].value@ == w.0@ && out@[k].layer == w.1),
            decreases keys.len() - i,
        {
            let ghost kk = keys@[i as int]@;
            assert(views(keys@)[i as int] == kk);
            assert(views(keys@).contains(kk));
            assert(self.key_set().contains(kk));
            match self.resolve(keys[i].as_str()) {
                Ok(rv) => {
                    out.insert(owned(keys[i].as_str()), rv);
                },
                Err(e) => {
                    assert(false);
                    return Err(e);
                },
            }
            proof {
                assert forall|k: Seq<char>| #[trigger] out@.contains_key(k) <==> exists|j: int|
                    0 <= j < i + 1 && views(keys@)[j] == k by {
                    if k == kk {
                        assert(views(keys@)[i as int] == k);
                    }
                }
            }
            i += 1;
        }
        proof {
            assert forall|k: Seq<char>| #[trigger] self.key_set().contains(k) implies out@.contains_key(
                k,
            ) by {
                let j = choose|j: int| 0 <= j < views(keys@).len() && views(keys@)[j] == k;
            }
        }
        Ok(out)
    }
}

/// `out` maps exactly the keys any layer sets, each to its effective
/// value and provenance.
pub open spec fn resolves_all(c: LayeredConfig, out: StrMap<ResolvedValue>) -> bool {
    &&& forall|k: Seq<char>| #[trigger] out@.contains_key(k) <==> c.key_set().contains(k)
    &&& forall|k: Seq<char>|
        #[trigger] out@.contains_key(k) ==> (c.winner(k) matches Some(w) && out@[k].value@ == w.0@
            && out@[k].layer == w.1)
}

/// Adds the keys of `m` to `set`.
fn add_keys<V>(set: &mut StrSet, m: &StrMap<V>)
    ensures
        final(set)@ == old(set)@ + m@.dom(),
{
    proof {
        m.lemma_view_facts();
    }
    let n = m.len();
    let mut i: usize = 0;
    while i < n
        invariant
            n == m.pairs().len(),
            n == m.key_seq().len(),
            i <= n,
            forall|k: Seq<char>| #[trigger] m@.contains_key(k) <==> m.key_seq().contains(k),
            set@ == old(set)@ + Set::new(|k: Seq<char>| exists|j: int| 0 <= j < i && m.key_seq()[j] == k),
        decreases n - i,
    {
        let k = owned(m.key_at(i).as_str());
        assert(m.key_seq()[i as int] == k@);
        set.insert(k);
        assert(set@ =~= old(set)@ + Set::new(
            |k: Seq<char>| exists|j: int| 0 <= j < i + 1 && m.key_seq()[j] == k,
        ));
        i += 1;
    }
    assert(set@ =~= old(set)@ + m@.dom());
}

impl Default for LayeredConfig {
    /// An empty layered config.
    fn default() -> (c: Self)
        ensures
            c.inlined@ == Map::<Seq<char>, ConfigValue>::empty(),
            c.external@ == Map::<Seq<char>, ConfigValue>::empty(),
            c.injected@ == Map::<Seq<char>, ConfigValue>::empty(),
    {
        LayeredConfig::new()
    }
}

/// Builds a layered config from the three layer maps and resolves it.
pub fn merge_layers(
    inlined: StrMap<ConfigValue>,
    external: StrMap<ConfigValue>,
    injected: StrMap<ConfigValue>,
) -> (r: Result<StrMap<ResolvedValue>, ConfigError>)
    ensures
        ({
            let c = LayeredConfig { inlined, external, injected };
            &&& r is Ok <==> c.first_build_key() is None
            &&& r matches Err(e) ==> e matches ConfigError::BuildConfigKey(m) && m@
                == build_key_message(c.first_build_key()->0)
            &&& r matches Ok(out) ==> resolves_all(c, out)
        }),
{
    LayeredConfig { inlined, external, injected }.resolve_all()
}

/// Flattens a resolved mapping into (key, value, layer) triples in key
/// order.
pub fn iter_provenance(resolved: &StrMap<ResolvedValue>) -> (r: Vec<(String, ConfigValue, Layer)>)
    ensures
        r@.len() == resolved.pairs().len(),
        forall|i: int|
            0 <= i < r@.len() ==> (#[trigger] r@[i]).0@ == resolved.pairs()[i].0 && r@[i].1@
                == resolved.pairs()[i].1.value@ && r@[i].2 == resolved.pairs()[i].1.layer,
{
    let n = resolved.len();
    let mut r: Vec<(String, ConfigValue, Layer)> = Vec::new();
    let mut i: usize = 0;
    while i < n
        invariant
            n == resolved.pairs().len(),
            i <= n,
            r@.len() == i,
            forall|j: int|
                0 <= j < i ==> (#[trigger] r@[j]).0@ == resolved.pairs()[j].0 && r@[j].1@
                    == resolved.pairs()[j].1.value@ && r@[j].2 == resolved.pairs()[j].1.layer,
        decreases n - i,
    {
        let k = owned(resolved.key_at(i).as_str());
        let rv = resolved.value_at(i);
        r.push((k, rv.value.deep_copy(), rv.layer));
        i += 1;
    }
    r
}

// --- write protection and read tiers ------------------------------------

/// The credential level a writer must present per impact level — an
/// explicit table so a mid threshold is a table edit.
#[derive(Debug, Clone)]
pub struct RequiredCredentialTable {
    low: Option<i64>,
    high: Option<i64>,
}

impl RequiredCredentialTable {
    /// The level required for `impact` (0 when the table has no entry).
    pub closed spec fn level(self, impact: ImpactLevel) -> i64 {
        match impact {
            ImpactLevel::Low => match self.low {
                Some(l) => l,
                None => 0,
            },
            ImpactLevel::High => match self.high {
                Some(l) => l,
                None => 0,
            },
        }
    }

    /// The minimum credential level for an impact (0 if unset).
    pub fn level_for(&self, impact: ImpactLevel) -> (r: i64)
        ensures
            r == self.level(impact),
    {
        let entry = match impact {
            ImpactLevel::Low => self.low,
            ImpactLevel::High => self.high,
        };
        match entry {
            Some(l) => l,
            None => 0,
        }
    }

    /// Re-points an impact's required level.
    pub fn set(&mut self, impact: ImpactLevel, level: i64)
        ensures
            final(self).level(impact) == level,
            forall|other: ImpactLevel| other != impact ==> final(self).level(other) == old(self).level(other),
    {
        match impact {
            ImpactLevel::Low => {
                self.low = Some(level);
            },
            ImpactLevel::High => {
                self.high = Some(level);
            },
        }
    }
}

impl Default for RequiredCredentialTable {
    /// LOW needs level 0, HIGH needs level 1.
    fn default() -> (t: Self)
        ensures
            t.level(ImpactLevel::Low) == 0,
            t.level(ImpactLevel::High) == 1,
    {
        RequiredCredentialTable { low: Some(0), high: Some(1) }
    }
}

/// Per-item declaration of three orthogonal dimensions: write-gate
/// impact, retrieval tags, and read-visibility tier.
#[derive(Debug, Clone, PartialEq, Eq)]
pub struct ItemPolicy {
    pub impact: ImpactLevel,
    pub tags: StrSet,
    pub read_level: i64,
}

impl Default for ItemPolicy {
    /// Unguarded: LOW impact, no tags, open read tier.
    fn default() -> (p: Self)
        ensures
            p.impact == ImpactLevel::Low,
            p.tags@ == Set::<Seq<char>>::empty(),
            p.read_level == 0,
    {
        ItemPolicy { impact: ImpactLevel::Low, tags: StrSet::new(), read_level: 0 }
    }
}

/// The set of the given tag strings.
pub open spec fn tag_set(tags: Seq<&str>) -> Set<Seq<char>> {
    Set::new(|x: Seq<char>| exists|i: int| 0 <= i < tags.len() && (#[trigger] tags[i])@ == x)
}

impl ItemPolicy {
    /// The unguarded default policy.
    pub fn new() -> (p: Self)
        ensures
            p.impact == ImpactLevel::Low,
            p.tags@ == Set::<Seq<char>>::empty(),
            p.read_level == 0,
    {
        ItemPolicy::default()
    }

    /// Builder: sets the write-gate impact level.
    pub fn with_impact(self, impact: ImpactLevel) -> (p: Self)
        ensures
            p.impact == impact,
            p.tags == self.tags,
            p.read_level == self.read_level,
    {
        ItemPolicy { impact, tags: self.tags, read_level: self.read_level }
    }

    /// Builder: sets the tags (order and repetition do not matter).
    pub fn with_tags(self, tags: &[&str]) -> (p: Self)
        ensures
            p.impact == self.impact,
            p.tags@ == tag_set(tags@),
            p.read_level == self.read_level,
    {
        let t = StrSet::from_strs(tags);
        assert(t@ =~= tag_set(tags@));
        ItemPolicy { impact: self.impact, tags: t, read_level: self.read_level }
    }

    /// Builder: sets the read-visibility tier.
    pub fn with_read_level(self, level: i64) -> (p: Self)
        ensures
            p.impact == self.impact,
            p.tags == self.tags,
            p.read_level == level,
    {
        ItemPolicy { impact: self.impact, tags: self.tags, read_level: level }
    }

    /// An independent copy.
    pub fn copy(&self) -> (p: Self)
        ensures
            p.impact == self.impact,
            p.tags@ == self.tags@,
            p.read_level == self.read_level,
    {
        ItemPolicy { impact: self.impact, tags: self.tags.copy(), read_level: self.read_level }
    }
}

/// The minimum level a caller must present to have an item listed or read.
pub fn required_read_level(policy: &ItemPolicy) -> (r: i64)
    ensures
        r == policy.read_level,
{
    policy.read_level
}

/// The refusal message of the write gate.
pub open spec fn write_refusal_message(key: Seq<char>, impact: ImpactLevel, needed: i64, presented: i64) -> Seq<char> {
    "config key '"@ + key + "' is impact="@ + impact_name(impact)
        + "; writing it requires credential level >= "@ + int_text(needed as int)
        + ", but the write presented level "@ + int_text(presented as int)
        + ". This guard prevents accidental high-impact changes; re-issue the write with a sufficient credential level if the change is intended."@
}

/// Passes iff `credential_level` meets the level the table requires for
/// the item's impact. Identity-independent: only levels are compared.
pub fn authorize_write(
    key: &str,
    policy: &ItemPolicy,
    credential_level: i64,
    table: &RequiredCredentialTable,
) -> (r: Result<(), ConfigError>)
    ensures
        r is Ok <==> credential_level >= table.level(policy.impact),
        r matches Err(e) ==> e matches ConfigError::WriteProtection(m) && m@ == write_refusal_message(
            key@,
            policy.impact,
            table.level(policy.impact),
            credential_level,
        ),
{
    let needed = table.level_for(policy.impact);
    if credential_level < needed {
        let mut m: Vec<char> = Vec::new();
        extend_str(&mut m, "config key '");
        extend_str(&mut m, key);
        extend_str(&mut m, "' is impact=");
        extend_str(&mut m, policy.impact.name());
        extend_str(&mut m, "; writing it requires credential level >= ");
        push_int(&mut m, needed);
        extend_str(&mut m, ", but the write presented level ");
        push_int(&mut m, credential_level);
        extend_str(
            &mut m,
            ". This guard prevents accidental high-impact changes; re-issue the write with a sufficient credential level if the change is intended.",
        );
        assert(m@ =~= write_refusal_message(key@, policy.impact, needed, credential_level));
        return Err(ConfigError::WriteProtection(string_of(&m)));
    }
    Ok(())
}

// --- the read/write façade ----------------------------------------------

/// Read/write façade over a [`LayeredConfig`]: reads honour `b ◁ a ◁ c`;
/// writes land in the external (`a`) layer after the boundary guard, the
/// value-type contract and the write gate all pass.
#[derive(Debug)]
pub struct ConfigStore {
    cfg: LayeredConfig,
    policies: StrMap<ItemPolicy>,
    credential_table: RequiredCredentialTable,
}

/// The tag set a query asks for (`None` asks for none).
pub open spec fn wanted_tags(tags: Option<&[&str]>) -> Set<Seq<char>> {
    match tags {
        Some(t) => tag_set(t@),
        None => Set::empty(),
    }
}

/// `k0` is the least build-toolchain key of `keys`.
pub open spec fn least_build_key(keys: Set<Seq<char>>, k0: Seq<char>) -> bool {
    &&& keys.contains(k0)
    &&& is_build_key(k0)
    &&& forall|k: Seq<char>| #[trigger] keys.contains(k) && is_build_key(k) ==> !lex_lt(k, k0)
}

/// Why a read below the item's tier is refused.
pub open spec fn read_refusal_message(key: Seq<char>, needed: i64, presented: i64) -> Seq<char> {
    "config key '"@ + key + "' requires read level >= "@ + int_text(needed as int)
        + " to be listed or read; the request presented level "@ + int_text(presented as int)
        + ". Permission-gated items are hidden below their tier; re-issue with a sufficient level."@
}

impl ConfigStore {
    /// The layered values.
    pub closed spec fn layers(self) -> LayeredConfig {
        self.cfg
    }

    /// The declared policies.
    pub closed spec fn declared(self) -> StrMap<ItemPolicy> {
        self.policies
    }

    /// The required-credential table.
    pub closed spec fn table(self) -> RequiredCredentialTable {
        self.credential_table
    }

    /// Impact level in effect for `k` (LOW when undeclared).
    pub open spec fn impact_of(self, k: Seq<char>) -> ImpactLevel {
        if self.declared()@.contains_key(k) {
            self.declared()@[k].impact
        } else {
            ImpactLevel::Low
        }
    }

    /// Tags in effect for `k` (none when undeclared).
    pub open spec fn tags_of(self, k: Seq<char>) -> Set<Seq<char>> {
        if self.declared()@.contains_key(k) {
            self.declared()@[k].tags@
        } else {
            Set::empty()
        }
    }

    /// Read tier in effect for `k` (0 when undeclared).
    pub open spec fn read_level_of(self, k: Seq<char>) -> i64 {
        if self.declared()@.contains_key(k) {
            self.declared()@[k].read_level
        } else {
            0
        }
    }

    /// A caller presenting `level` may list and read `k`.
    pub open spec fn visible(self, k: Seq<char>, level: i64) -> bool {
        level >= self.read_level_of(k)
    }

    /// The keys a query lists: every runtime key within the caller's read
    /// tier whose tags include all the requested ones.
    pub open spec fn query_set(self, tags: Option<&[&str]>, level: i64) -> Set<Seq<char>> {
        Set::new(
            |k: Seq<char>|
                self.layers().key_set().contains(k) && self.visible(k, level) && wanted_tags(
                    tags,
                ).subset_of(self.tags_of(k)),
        )
    }

    /// A store over `layered` with the given declarations and the default
    /// credential table.
    pub fn new(layered: LayeredConfig, policies: StrMap<ItemPolicy>) -> (s: Self)
        ensures
            s.layers() == layered,
            s.declared() == policies,
            s.table().level(ImpactLevel::Low) == 0,
            s.table().level(ImpactLevel::High) == 1,
    {
        ConfigStore { cfg: layered, policies, credential_table: RequiredCredentialTable::default() }
    }

    /// The underlying layered model.
    pub fn layered(&self) -> (r: &LayeredConfig)
        ensures
            *r == self.layers(),
    {
        &self.cfg
    }

    /// Mutable access to the underlying layered model.
    pub fn layered_mut(&mut self) -> (r: &mut LayeredConfig)
        ensures
            *r == old(self).layers(),
            final(self).layers() == *final(r),
            final(self).declared() == old(self).declared(),
            final(self).table() == old(self).table(),
    {
        &mut self.cfg
    }

    /// Mutable access to the required-credential table.
    pub fn credential_table_mut(&mut self) -> (r: &mut RequiredCredentialTable)
        ensures
            *r == old(self).table(),
            final(self).table() == *final(r),
            final(self).declared() == old(self).declared(),
            final(self).layers() == old(self).layers(),
    {
        &mut self.credential_table
    }

    /// Attaches a policy to `key` (refused for a build-toolchain key).
    pub fn declare(&mut self, key: &str, policy: ItemPolicy) -> (r: Result<(), ConfigError>)
        ensures
            r is Ok <==> !is_build_key(key@),
            r matches Err(e) ==> e matches ConfigError::BuildConfigKey(m) && m@ == build_key_message(
                key@,
            ),
            r is Ok ==> final(self).declared()@ == old(self).declared()@.insert(key@, policy),
            r is Err ==> final(self).declared() == old(self).declared(),
            final(self).layers() == old(self).layers(),
            final(self).table() == old(self).table(),
    {
        reject_if_build_config_key(key)?;
        self.policies.insert(owned(key), policy);
        Ok(())
    }

    /// The item's declared policy, or the unguarded default.
    pub fn policy_of(&self, key: &str) -> (p: ItemPolicy)
        ensures
            p.impact == self.impact_of(key@),
            p.tags@ == self.tags_of(key@),
            p.read_level == self.read_level_of(key@),
    {
        match self.policies.get(key) {
            Some(p) => p.copy(),
            None => ItemPolicy::default(),
        }
    }

    /// The highest read level any runtime item requires (0 when there is
    /// no runtime item).
    pub fn max_read_level(&self) -> (r: i64)
        ensures
            self.layers().key_set().is_empty() ==> r == 0,
            !self.layers().key_set().is_empty() ==> {
                &&& exists|k: Seq<char>| #[trigger] self.layers().key_set().contains(k) && r == self.read_level_of(k)
                &&& forall|k: Seq<char>| #[trigger] self.layers().key_set().contains(k) ==> self.read_level_of(k) <= r
            },
    {
        let keys = self.cfg.keys();
        let mut best: Option<i64> = None;
        let mut i: usize = 0;
        while i < keys.len()
            invariant
                i <= keys@.len(),
                lists_sorted(views(keys@), self.layers().key_set()),
                best is None <==> i == 0,
                best matches Some(b) ==> (exists|j: int| 0 <= j < i && b == self.read_level_of(#[trigger] views(keys@)[j]))
                    && forall|j: int| 0 <= j < i ==> self.read_level_of(#[trigger] views(keys@)[j]) <= b,
            decreases keys.len() - i,
        {
            assert(views(keys@)[i as int] == keys@[i as int]@);
            let level = self.policy_of(keys[i].as_str()).read_level;
            let next = match best {
                Some(b) => if level > b { level } else { b },
                None => level,
            };
            best = Some(next);
            i += 1;
        }
        proof {
            if self.layers().key_set().is_empty() {
                if keys@.len() > 0 {
                    assert(views(keys@).contains(views(keys@)[0]));
                    assert(self.layers().key_set().contains(views(keys@)[0]));
                }
            } else {
                let k = choose|k: Seq<char>| self.layers().key_set().contains(k);
                assert(views(keys@).contains(k));
            }
        }
        match best {
            Some(b) => {
                proof {
                    let j = choose|j: int| 0 <= j < keys@.len() && b == self.read_level_of(#[trigger] views(keys@)[j]);
                    assert(views(keys@).contains(views(keys@)[j]));
                    assert(self.layers().key_set().contains(views(keys@)[j]));
                    assert forall|k: Seq<char>| #[trigger] self.layers().key_set().contains(k) implies self.read_level_of(k) <= b by {
                        assert(views(keys@).contains(k));
                        let jj = choose|jj: int| 0 <= jj < views(keys@).len() && views(keys@)[jj] == k;
                    }
                }
                b
            },
            None => 0,
        }
    }

    /// Keys matching the tag filter (tag AND; no tags = all) and within
    /// the caller's read tier, in increasing order.
    pub fn query(&self, tags: Option<&[&str]>, credential_level: i64) -> (r: Vec<String>)
        ensures
            lists_sorted(views(r@), self.query_set(tags, credential_level)),
    {
        let wanted = match tags {
            Some(t) => StrSet::from_strs(t),
            None => StrSet::new(),
        };
        assert(wanted@ =~= wanted_tags(tags));
        let keys = self.cfg.keys();
        let mut out: Vec<String> = Vec::new();
        let mut i: usize = 0;
        while i < keys.len()
            invariant
                i <= keys@.len(),
                wanted@ == wanted_tags(tags),
                lists_sorted(views(keys@), self.layers().key_set()),
                strictly_sorted(views(out@)),
                forall|a: int| 0 <= a < out@.len() ==> exists|j: int| 0 <= j < i && views(keys@)[j] == (#[trigger] views(out@)[a]),
                forall|k: Seq<char>| #[trigger] views(out@).contains(k) <==> (exists|j: int| 0 <= j < i && views(keys@)[j] == k)
                    && self.query_set(tags, credential_level).contains(k),
            decreases keys.len() - i,
        {
            let ghost kk = keys@[i as int]@;
            assert(views(keys@)[i as int] == kk);
            assert(views(keys@).contains(kk));
            let policy = self.policy_of(keys[i].as_str());
            let keep = credential_level >= policy.read_level
                && (wanted.len() == 0 || wanted.is_subset_of(&policy.tags));
            proof {
                if wanted@.len() == 0 {
                }
                assert(self.layers().key_set().contains(kk));
                if wanted.seq().len() == 0 {
                    assert(wanted@ =~= Set::<Seq<char>>::empty());
                }
            }
            assert(keep == self.query_set(tags, credential_level).contains(kk));
            if keep {
                let ghost prev = out@;
                out.push(owned(keys[i].as_str()));
                proof {
                    assert(views(out@) =~= views(prev).push(kk));
                    assert forall|a: int, b: int| 0 <= a < b < views(out@).len() implies crate::text::lex_lt(#[trigger] views(out@)[a], #[trigger] views(out@)[b]) by {
                        if b == views(prev).len() {
                            assert(views(prev)[a] == views(out@)[a]);
                            let j = choose|j: int| 0 <= j < i && views(keys@)[j] == views(prev)[a];
                            assert(crate::text::lex_lt(views(keys@)[j], views(keys@)[i as int]));
                        } else {
                            assert(views(prev)[a] == views(out@)[a]);
                            assert(views(prev)[b] == views(out@)[b]);
                        }
                    }
                    assert forall|a: int| 0 <= a < out@.len() implies exists|j: int| 0 <= j < i + 1 && views(keys@)[j] == (#[trigger] views(out@)[a]) by {
                        if a < prev.len() {
                            assert(views(prev)[a] == views(out@)[a]);
                            let j = choose|j: int| 0 <= j < i && views(keys@)[j] == views(prev)[a];
                        } else {
                            assert(views(keys@)[i as int] == views(out@)[a]);
                        }
                    }
                    assert forall|k: Seq<char>| #[trigger] views(out@).contains(k) <==> (exists|j: int| 0 <= j < i + 1 && views(keys@)[j] == k)
                        && self.query_set(tags, credential_level).contains(k) by {
                        if views(out@).contains(k) && k != kk {
                            let a = choose|a: int| 0 <= a < views(out@).len() && views(out@)[a] == k;
                            assert(views(prev)[a] == k);
                            assert(views(prev).contains(k));
                        }
                        if (exists|j: int| 0 <= j < i + 1 && views(keys@)[j] == k) && self.query_set(tags, credential_level).contains(k) {
                            if k == kk {
                                assert(views(out@)[views(prev).len() as int] == k);
                            } else {
                                let j = choose|j: int| 0 <= j < i + 1 && views(keys@)[j] == k;
                                assert(j < i);
                                assert(views(prev).contains(k));
                                let a = choose|a: int| 0 <= a < views(prev).len() && views(prev)[a] == k;
                                assert(views(out@)[a] == k);
                            }
                        }
                    }
                }
            } else {
                proof {
                    assert forall|k: Seq<char>| #[trigger] views(out@).contains(k) <==> (exists|j: int| 0 <= j < i + 1 && views(keys@)[j] == k)
                        && self.query_set(tags, credential_level).contains(k) by {
                        if (exists|j: int| 0 <= j < i + 1 && views(keys@)[j] == k) && self.query_set(tags, credential_level).contains(k) {
                            let j = choose|j: int| 0 <= j < i + 1 && views(keys@)[j] == k;
                            if j == i {
                                assert(k == kk);
                            }
                        }
                    }
                }
            }
            i += 1;
        }
        proof {
            assert forall|k: Seq<char>| #[trigger] self.query_set(tags, credential_level).contains(k) <==> views(out@).contains(k) by {
                if self.query_set(tags, credential_level).contains(k) {
                    assert(self.layers().key_set().contains(k));
                    assert(views(keys@).contains(k));
                    let j = choose|j: int| 0 <= j < views(keys@).len() && views(keys@)[j] == k;
                }
            }
        }
        out
    }
}


/// One self-describing row of the unified browse.
#[derive(Debug, Clone, PartialEq)]
pub struct BrowseEntry {
    pub key: String,
    /// The stdlib bridge spelling of the item's type.
    pub value_type: String,
    /// The inlined (`b`) built-in default, if the item has one.
    pub default: Option<ConfigValue>,
    pub effective: ConfigValue,
    pub layer: Layer,
    pub impact: ImpactLevel,
    pub required_write_level: i64,
    pub required_read_level: i64,
    pub tags: StrSet,
}

/// The type a browse row reports: the effective value's, except that a
/// date/time effective value over a bridged default reports the
/// default's; `None` when neither yields a type.
pub open spec fn row_type(effective: Plain, default: Option<Plain>) -> Option<Seq<char>> {
    if effective is Datetime && default is Some && !has_datetime(default->0) {
        Some(bridge_type(default->0))
    } else if has_datetime(effective) {
        None
    } else {
        Some(bridge_type(effective))
    }
}

impl ConfigStore {
    /// The inlined default of `k`, if any.
    pub open spec fn default_of(self, k: Seq<char>) -> Option<Plain> {
        if self.layers().inlined@.contains_key(k) {
            Some(self.layers().inlined@[k]@)
        } else {
            None
        }
    }

    /// The row type of `k`'s browse entry.
    pub open spec fn row_type_of(self, k: Seq<char>) -> Option<Seq<char>> {
        row_type(self.layers().winner_value(k), self.default_of(k))
    }

    /// [`ConfigStore::query`] with each key's effective value and
    /// provenance. Refused, naming the least offending key, when a listed
    /// key is a build-toolchain key.
    pub fn query_resolved(
        &self,
        tags: Option<&[&str]>,
        credential_level: i64,
    ) -> (r: Result<StrMap<ResolvedValue>, ConfigError>)
        ensures
            r is Ok <==> forall|k: Seq<char>| #[trigger] self.query_set(tags, credential_level).contains(k) ==> !is_build_key(k),
            r matches Err(e) ==> exists|k0: Seq<char>| least_build_key(self.query_set(tags, credential_level), k0)
                && (e matches ConfigError::BuildConfigKey(m) && m@ == build_key_message(k0)),
            r matches Ok(out) ==> {
                &&& forall|k: Seq<char>| #[trigger] out@.contains_key(k) <==> self.query_set(tags, credential_level).contains(k)
                &&& forall|k: Seq<char>| #[trigger] out@.contains_key(k) ==> (self.layers().winner(k) matches Some(w)
                    && out@[k].value@ == w.0@ && out@[k].layer == w.1)
            },
    {
        let keys = self.query(tags, credential_level);
        let ghost q = self.query_set(tags, credential_level);
        let mut out: StrMap<ResolvedValue> = StrMap::new();
        let mut i: usize = 0;
        while i < keys.len()
            invariant
                i <= keys@.len(),
                q == self.query_set(tags, credential_level),
                lists_sorted(views(keys@), q),
                forall|j: int| 0 <= j < i ==> !is_build_key(#[trigger] views(keys@)[j]),
                forall|k: Seq<char>| #[trigger] out@.contains_key(k) <==> exists|j: int| 0 <= j < i && views(keys@)[j] == k,
                forall|k: Seq<char>| #[trigger] out@.contains_key(k) ==> (self.layers().winner(k) matches Some(w)
                    && out@[k].value@ == w.0@ && out@[k].layer == w.1),
            decreases keys.len() - i,
        {
            let ghost kk = keys@[i as int]@;
            assert(views(keys@)[i as int] == kk);
            assert(views(keys@).contains(kk));
            assert(q.contains(kk));
            match self.cfg.resolve(keys[i].as_str()) {
                Ok(rv) => {
                    out.insert(owned(keys[i].as_str()), rv);
                },
                Err(e) => {
                    proof {
                        assert(is_build_key(kk));
                        assert forall|k: Seq<char>| #[trigger] q.contains(k) && is_build_key(k) implies !lex_lt(k, kk) by {
                            assert(views(keys@).contains(k));
                            let j = choose|j: int| 0 <= j < views(keys@).len() && views(keys@)[j] == k;
                            if j < i {
                            } else if j > i {
                                assert(lex_lt(kk, k));
                                crate::text::lemma_lex_order(kk, k);
                            } else {
                                crate::text::lemma_lex_order(kk, kk);
                            }
                        }
                        assert(least_build_key(q, kk));
                    }
                    return Err(e);
                },
            }
            proof {
                assert forall|k: Seq<char>| #[trigger] out@.contains_key(k) <==> exists|j: int| 0 <= j < i + 1 && views(keys@)[j] == k by {
                    if k == kk {
                        assert(views(keys@)[i as int] == k);
                    }
                }
            }
            i += 1;
        }
        proof {
            assert forall|k: Seq<char>| #[trigger] q.contains(k) implies !is_build_key(k) by {
                assert(views(keys@).contains(k));
                let j = choose|j: int| 0 <= j < views(keys@).len() && views(keys@)[j] == k;
            }
            assert forall|k: Seq<char>| #[trigger] out@.contains_key(k) <==> q.contains(k) by {
                if q.contains(k) {
                    assert(views(keys@).contains(k));
                    let j = choose|j: int| 0 <= j < views(keys@).len() && views(keys@)[j] == k;
                }
            }
        }
        Ok(out)
    }

    /// Every key any runtime layer sets, once each, in increasing order.
    pub fn keys(&self) -> (r: Vec<String>)
        ensures
            lists_sorted(views(r@), self.layers().key_set()),
    {
        self.cfg.keys()
    }

    /// Effective value honouring `b ◁ a ◁ c`; `KeyNotFound` when no layer
    /// sets the key (tier-blind).
    pub fn get(&self, key: &str) -> (r: Result<ConfigValue, ConfigError>)
        ensures
            r is Ok <==> !is_build_key(key@) && self.layers().winner(key@) is Some,
            r matches Ok(v) ==> v@ == self.layers().winner_value(key@),
            r matches Err(e) ==> if is_build_key(key@) {
                e matches ConfigError::BuildConfigKey(m) && m@ == build_key_message(key@)
            } else {
                e matches ConfigError::KeyNotFound(k) && k@ == key@
            },
    {
        let rv = self.cfg.resolve(key)?;
        Ok(rv.value)
    }

    /// Effective value, or `default` when no layer yields one.
    pub fn get_or(&self, key: &str, default: ConfigValue) -> (r: ConfigValue)
        ensures
            !is_build_key(key@) && self.layers().winner(key@) is Some ==> r@ == self.layers().winner_value(key@),
            !(!is_build_key(key@) && self.layers().winner(key@) is Some) ==> r == default,
    {
        match self.cfg.resolve(key) {
            Ok(rv) => rv.value,
            Err(_) => default,
        }
    }

    /// Effective value and provenance (tier-blind).
    pub fn resolve(&self, key: &str) -> (r: Result<ResolvedValue, ConfigError>)
        ensures
            r matches Ok(rv) ==> !is_build_key(key@) && (self.layers().winner(key@) matches Some(w)
                && rv.value@ == w.0@ && rv.layer == w.1),
            r matches Err(e) ==> if is_build_key(key@) {
                e matches ConfigError::BuildConfigKey(m) && m@ == build_key_message(key@)
            } else {
                self.layers().winner(key@) is None && (e matches ConfigError::KeyNotFound(k) && k@ == key@)
            },
            r is Ok <==> !is_build_key(key@) && self.layers().winner(key@) is Some,
    {
        self.cfg.resolve(key)
    }

    /// Every key -> effective value and provenance (tier-blind).
    pub fn resolve_all(&self) -> (r: Result<StrMap<ResolvedValue>, ConfigError>)
        ensures
            r is Ok <==> self.layers().first_build_key() is None,
            r matches Err(e) ==> e matches ConfigError::BuildConfigKey(m) && m@
                == build_key_message(self.layers().first_build_key()->0),
            r matches Ok(out) ==> resolves_all(self.layers(), out),
    {
        self.cfg.resolve_all()
    }

    /// Read honouring the read tier: below the item's tier the read is
    /// refused exactly as enumeration hides the item.
    pub fn read(&self, key: &str, credential_level: i64) -> (r: Result<ConfigValue, ConfigError>)
        ensures
            r is Ok <==> self.visible(key@, credential_level) && !is_build_key(key@)
                && self.layers().winner(key@) is Some,
            r matches Ok(v) ==> v@ == self.layers().winner_value(key@),
            r matches Err(e) ==> if !self.visible(key@, credential_level) {
                e matches ConfigError::WriteProtection(m) && m@ == read_refusal_message(
                    key@,
                    self.read_level_of(key@),
                    credential_level,
                )
            } else if is_build_key(key@) {
                e matches ConfigError::BuildConfigKey(m) && m@ == build_key_message(key@)
            } else {
                e matches ConfigError::KeyNotFound(k) && k@ == key@
            },
    {
        let policy = self.policy_of(key);
        if credential_level < policy.read_level {
            let needed = policy.read_level;
            let mut m: Vec<char> = Vec::new();
            extend_str(&mut m, "config key '");
            extend_str(&mut m, key);
            extend_str(&mut m, "' requires read level >= ");
            push_int(&mut m, needed);
            extend_str(&mut m, " to be listed or read; the request presented level ");
            push_int(&mut m, credential_level);
            extend_str(
                &mut m,
                ". Permission-gated items are hidden below their tier; re-issue with a sufficient level.",
            );
            assert(m@ =~= read_refusal_message(key@, needed, credential_level));
            return Err(ConfigError::WriteProtection(string_of(&m)));
        }
        let rv = self.cfg.resolve(key)?;
        Ok(rv.value)
    }

    /// Writes `value` for `key` into the external (`a`) layer. Checked in
    /// order: the build-toolchain boundary, the value-type contract, the
    /// write gate; a refused write changes nothing.
    pub fn set(&mut self, key: &str, value: ConfigValue, credential_level: i64) -> (r: Result<(), ConfigError>)
        ensures
            r is Ok <==> !is_build_key(key@) && !has_datetime(value@)
                && credential_level >= old(self).table().level(old(self).impact_of(key@)),
            r matches Err(e) ==> if is_build_key(key@) {
                e matches ConfigError::BuildConfigKey(m) && m@ == build_key_message(key@)
            } else if has_datetime(value@) {
                e matches ConfigError::UnbridgedValue(m) && m@ == keyed_unbridged_message(key@)
            } else {
                e matches ConfigError::WriteProtection(m) && m@ == write_refusal_message(
                    key@,
                    old(self).impact_of(key@),
                    old(self).table().level(old(self).impact_of(key@)),
                    credential_level,
                )
            },
            r is Ok ==> final(self).layers().external@ == old(self).layers().external@.insert(key@, value),
            r is Ok ==> final(self).layers().inlined == old(self).layers().inlined,
            r is Ok ==> final(self).layers().injected == old(self).layers().injected,
            r is Err ==> final(self).layers() == old(self).layers(),
            final(self).declared() == old(self).declared(),
            final(self).table() == old(self).table(),
    {
        reject_if_build_config_key(key)?;
        validate_value(key, &value)?;
        let policy = self.policy_of(key);
        authorize_write(key, &policy, credential_level, &self.credential_table)?;
        self.cfg.external.insert(owned(key), value);
        Ok(())
    }

    /// The external-layer map a host bridge persists after a write.
    pub fn pending_external(&self) -> (r: &StrMap<ConfigValue>)
        ensures
            *r == self.layers().external,
    {
        &self.cfg.external
    }
}

/// The keys of browse rows, in order.
pub open spec fn row_keys(rows: Seq<BrowseEntry>) -> Seq<Seq<char>> {
    rows.map_values(|row: BrowseEntry| row.key@)
}

/// The content of an optional value.
pub open spec fn opt_view(v: Option<ConfigValue>) -> Option<Plain> {
    match v {
        Some(x) => Some(x@),
        None => None,
    }
}

impl ConfigStore {
    /// `row` describes runtime item `row.key` as the store holds it.
    pub open spec fn describes(self, row: BrowseEntry) -> bool {
        let k = row.key@;
        &&& row.effective@ == self.layers().winner_value(k)
        &&& row.layer == self.layers().winner_layer(k)
        &&& opt_view(row.default) == self.default_of(k)
        &&& self.row_type_of(k) == Some(row.value_type@)
        &&& row.impact == self.impact_of(k)
        &&& row.required_write_level == self.table().level(self.impact_of(k))
        &&& row.required_read_level == self.read_level_of(k)
        &&& row.tags@ == self.tags_of(k)
    }

    /// Self-describing rows for every item a query with the same filter
    /// lists, in key order. Refused when a listed key is a
    /// build-toolchain key (the least is named) or when a listed item has
    /// no bridged type.
    pub fn browse(&self, tags: Option<&[&str]>, credential_level: i64) -> (r: Result<Vec<BrowseEntry>, ConfigError>)
        ensures
            r is Ok <==> forall|k: Seq<char>| #[trigger] self.query_set(tags, credential_level).contains(k)
                ==> !is_build_key(k) && self.row_type_of(k) is Some,
            r matches Err(e) ==> if exists|k: Seq<char>| #[trigger] self.query_set(tags, credential_level).contains(k) && is_build_key(k) {
                exists|k0: Seq<char>| least_build_key(self.query_set(tags, credential_level), k0)
                    && (e matches ConfigError::BuildConfigKey(m) && m@ == build_key_message(k0))
            } else {
                e matches ConfigError::UnbridgedValue(m) && m@ == datetime_message()
            },
            r matches Ok(rows) ==> {
                &&& lists_sorted(row_keys(rows@), self.query_set(tags, credential_level))
                &&& forall|i: int| 0 <= i < rows@.len() ==> self.describes(#[trigger] rows@[i])
            },
    {
        let ghost q = self.query_set(tags, credential_level);
        let resolved = match self.query_resolved(tags, credential_level) {
            Ok(m) => m,
            Err(e) => {
                proof {
                    let k0 = choose|k0: Seq<char>| least_build_key(q, k0);
                    assert(q.contains(k0) && is_build_key(k0));
                }
                return Err(e);
            },
        };
        let n = resolved.len();
        proof {
            resolved.lemma_view_facts();
        }
        let mut rows: Vec<BrowseEntry> = Vec::new();
        let mut i: usize = 0;
        while i < n
            invariant
                n == resolved.pairs().len(),
                n == resolved.key_seq().len(),
                i <= n,
                resolved.sorted(),
                q == self.query_set(tags, credential_level),
                forall|k: Seq<char>| #[trigger] resolved@.contains_key(k) <==> q.contains(k),
                forall|k: Seq<char>| #[trigger] resolved@.contains_key(k) <==> resolved.key_seq().contains(k),
                forall|k: Seq<char>| #[trigger] q.contains(k) ==> !is_build_key(k),
                forall|k: Seq<char>| #[trigger] resolved@.contains_key(k) ==> (self.layers().winner(k) matches Some(w)
                    && resolved@[k].value@ == w.0@ && resolved@[k].layer == w.1),
                rows@.len() == i,
                forall|j: int| 0 <= j < i ==> (#[trigger] rows@[j]).key@ == resolved.key_seq()[j],
                forall|j: int| 0 <= j < i ==> self.describes(#[trigger] rows@[j]),
                forall|j: int| 0 <= j < i ==> self.row_type_of(#[trigger] resolved.key_seq()[j]) is Some,
            decreases n - i,
        {
            let key = resolved.key_at(i);
            let rv = resolved.value_at(i);
            let ghost k = key@;
            proof {
                resolved.lemma_lookup(i as int);
                assert(resolved.key_seq()[i as int] == k);
            }
            let policy = self.policy_of(key.as_str());
            let default_value: Option<ConfigValue> = match self.cfg.inlined.get(key.as_str()) {
                Some(d) => Some(d.deep_copy()),
                None => None,
            };
            let effective_is_datetime = match &rv.value {
                ConfigValue::Datetime(_) => true,
                _ => false,
            };
            let value_type: &'static str = match &default_value {
                Some(d) if effective_is_datetime => match stdlib_type_of(d) {
                    Ok(t) => t,
                    Err(_) => match stdlib_type_of(&rv.value) {
                        Ok(t) => t,
                        Err(e) => {
                            proof {
                                assert(q.contains(k));
                            }
                            return Err(e);
                        },
                    },
                },
                _ => match stdlib_type_of(&rv.value) {
                    Ok(t) => t,
                    Err(e) => {
                        proof {
                            assert(q.contains(k));
                        }
                        return Err(e);
                    },
                },
            };
            let row = BrowseEntry {
                key: owned(key.as_str()),
                value_type: owned(value_type),
                default: default_value,
                effective: rv.value.deep_copy(),
                layer: rv.layer,
                impact: policy.impact,
                required_write_level: self.credential_table.level_for(policy.impact),
                required_read_level: required_read_level(&policy),
                tags: policy.tags.copy(),
            };
            assert(self.describes(row));
            rows.push(row);
            i += 1;
        }
        proof {
            let ks = row_keys(rows@);
            assert(ks =~= resolved.key_seq());
            assert forall|k: Seq<char>| #[trigger] q.contains(k) <==> ks.contains(k) by {
                assert(resolved@.contains_key(k) <==> resolved.key_seq().contains(k));
            }
            assert forall|k: Seq<char>| #[trigger] q.contains(k) implies !is_build_key(k) && self.row_type_of(k) is Some by {
                assert(resolved@.contains_key(k));
                assert(resolved.key_seq().contains(k));
            }
        }
        Ok(rows)
    }
}

impl Default for ConfigStore {
    /// An empty store with no declarations.
    fn default() -> (s: Self)
        ensures
            s.layers().key_set() == Set::<Seq<char>>::empty(),
            s.declared()@ == Map::<Seq<char>, ItemPolicy>::empty(),
            s.table().level(ImpactLevel::Low) == 0,
            s.table().level(ImpactLevel::High) == 1,
    {
        let s = ConfigStore::new(LayeredConfig::new(), StrMap::new());
        assert(s.layers().key_set() =~= Set::<Seq<char>>::empty());
        s
    }
}

// --- the pure-internal (d) band ---------------------------------------------

/// A pure-internal datum as seen only during development.
#[derive(Debug, Clone, PartialEq)]
pub struct DevInternalItem {
    pub name: String,
    pub value: ConfigValue,
    pub tags: StrSet,
}

/// A development-only catalogue of `d` declarations, structurally apart
/// from the runtime store: nothing on the runtime read or merge path
/// refers to it.
#[derive(Debug)]
pub struct DevInternalRegistry {
    items: StrMap<DevInternalItem>,
}

impl DevInternalRegistry {
    /// The declared items by name.
    pub closed spec fn catalogue(self) -> StrMap<DevInternalItem> {
        self.items
    }

    #[verifier::type_invariant]
    closed spec fn names_match(self) -> bool {
        forall|k: Seq<char>| #[trigger] self.items@.contains_key(k) ==> self.items@[k].name@ == k
    }

    /// The names whose tags include every tag in `wanted`.
    pub open spec fn search_set(self, wanted: Set<Seq<char>>) -> Set<Seq<char>> {
        Set::new(
            |k: Seq<char>|
                self.catalogue()@.contains_key(k) && wanted.subset_of(self.catalogue()@[k].tags@),
        )
    }

    /// An empty catalogue.
    pub fn new() -> (r: Self)
        ensures
            r.catalogue()@ == Map::<Seq<char>, DevInternalItem>::empty(),
    {
        DevInternalRegistry { items: StrMap::new() }
    }

    /// Records a pure-internal datum and returns the plain value to bind
    /// as a host constant. The name passes the build-toolchain boundary
    /// and the value the stdlib type contract, as for a runtime item.
    pub fn declare(&mut self, name: &str, value: ConfigValue, tags: &[&str]) -> (r: Result<ConfigValue, ConfigError>)
        ensures
            r is Ok <==> !is_build_key(name@) && !has_datetime(value@),
            r matches Err(e) ==> if is_build_key(name@) {
                e matches ConfigError::BuildConfigKey(m) && m@ == build_key_message(name@)
            } else {
                e matches ConfigError::UnbridgedValue(m) && m@ == keyed_unbridged_message(name@)
            },
            r matches Ok(v) ==> v@ == value@,
            r is Ok ==> {
                &&& final(self).catalogue()@.dom() == old(self).catalogue()@.dom().insert(name@)
                &&& final(self).catalogue()@[name@].name@ == name@
                &&& final(self).catalogue()@[name@].value@ == value@
                &&& final(self).catalogue()@[name@].tags@ == tag_set(tags@)
                &&& forall|k: Seq<char>| k != name@ && #[trigger] old(self).catalogue()@.contains_key(k)
                    ==> final(self).catalogue()@[k] == old(self).catalogue()@[k]
            },
            r is Err ==> final(self).catalogue() == old(self).catalogue(),
    {
        proof {
            use_type_invariant(&*self);
        }
        reject_if_build_config_key(name)?;
        validate_value(name, &value)?;
        let t = StrSet::from_strs(tags);
        assert(t@ =~= tag_set(tags@));
        let item = DevInternalItem { name: owned(name), value: value.deep_copy(), tags: t };
        let mut items = StrMap::new();
        std::mem::swap(&mut items, &mut self.items);
        items.insert(owned(name), item);
        self.items = items;
        Ok(value)
    }

    /// Every declared name, in increasing order.
    pub fn names(&self) -> (r: Vec<String>)
        ensures
            lists_sorted(views(r@), self.catalogue()@.dom()),
    {
        proof {
            self.items.lemma_view_facts();
        }
        let r = self.items.keys();
        r
    }

    /// The record declared under `name`, if any.
    pub fn get(&self, name: &str) -> (r: Option<&DevInternalItem>)
        ensures
            r is Some <==> self.catalogue()@.contains_key(name@),
            r matches Some(item) ==> *item == self.catalogue()@[name@] && item.name@ == name@,
    {
        proof {
            use_type_invariant(self);
        }
        self.items.get(name)
    }

    /// Names whose tag set includes every requested tag (tag AND), in
    /// increasing order.
    pub fn search(&self, tags: &[&str]) -> (r: Vec<String>)
        ensures
            lists_sorted(views(r@), self.search_set(tag_set(tags@))),
    {
        let wanted = StrSet::from_strs(tags);
        assert(wanted@ =~= tag_set(tags@));
        let ghost s = self.search_set(tag_set(tags@));
        let n = self.items.len();
        proof {
            self.items.lemma_view_facts();
        }
        let mut out: Vec<String> = Vec::new();
        let mut i: usize = 0;
        while i < n
            invariant
                n == self.items.pairs().len(),
                n == self.items.key_seq().len(),
                i <= n,
                self.items.sorted(),
                wanted@ == tag_set(tags@),
                s == self.search_set(tag_set(tags@)),
                forall|k: Seq<char>| #[trigger] self.items@.contains_key(k) <==> self.items.key_seq().contains(k),
                views(out@).len() == out@.len(),
                forall|a: int| 0 <= a < out@.len() ==> exists|j: int| 0 <= j < i && self.items.key_seq()[j] == (#[trigger] views(out@)[a]),
                forall|a: int, b: int| 0 <= a < b < out@.len() ==> lex_lt(#[trigger] views(out@)[a], #[trigger] views(out@)[b]),
                forall|k: Seq<char>| #[trigger] views(out@).contains(k) <==> (exists|j: int| 0 <= j < i && self.items.key_seq()[j] == k) && s.contains(k),
            decreases n - i,
        {
            let ghost kk = self.items.key_seq()[i as int];
            proof {
                self.items.lemma_lookup(i as int);
            }
            let keep = wanted.is_subset_of(&self.items.value_at(i).tags);
            assert(keep == s.contains(kk));
            if keep {
                let ghost prev = out@;
                out.push(owned(self.items.key_at(i).as_str()));
                proof {
                    assert(views(out@) =~= views(prev).push(kk));
                    assert forall|a: int, b: int| 0 <= a < b < out@.len() implies lex_lt(#[trigger] views(out@)[a], #[trigger] views(out@)[b]) by {
                        assert(views(prev)[a] == views(out@)[a]);
                        if b == prev.len() {
                            let j = choose|j: int| 0 <= j < i && self.items.key_seq()[j] == views(prev)[a];
                            assert(lex_lt(self.items.key_seq()[j], self.items.key_seq()[i as int]));
                        } else {
                            assert(views(prev)[b] == views(out@)[b]);
                        }
                    }
                    assert forall|a: int| 0 <= a < out@.len() implies exists|j: int| 0 <= j < i + 1 && self.items.key_seq()[j] == (#[trigger] views(out@)[a]) by {
                        if a < prev.len() {
                            assert(views(prev)[a] == views(out@)[a]);
                            let j = choose|j: int| 0 <= j < i && self.items.key_seq()[j] == views(prev)[a];
                        }
                    }
                    assert forall|k: Seq<char>| #[trigger] views(out@).contains(k) <==> (exists|j: int| 0 <= j < i + 1 && self.items.key_seq()[j] == k) && s.contains(k) by {
                        if views(out@).contains(k) && k != kk {
                            let a = choose|a: int| 0 <= a < views(out@).len() && views(out@)[a] == k;
                            assert(views(prev)[a] == k);
                            assert(views(prev).contains(k));
                        }
                        if (exists|j: int| 0 <= j < i + 1 && self.items.key_seq()[j] == k) && s.contains(k) {
                            if k == kk {
                                assert(views(out@)[prev.len() as int] == k);
                            } else {
                                let j = choose|j: int| 0 <= j < i + 1 && self.items.key_seq()[j] == k;
                                assert(j < i);
                                assert(views(prev).contains(k));
                                let a = choose|a: int| 0 <= a < views(prev).len() && views(prev)[a] == k;
                                assert(views(out@)[a] == k);
                            }
                        }
                    }
                }
            } else {
                proof {
                    assert forall|k: Seq<char>| #[trigger] views(out@).contains(k) <==> (exists|j: int| 0 <= j < i + 1 && self.items.key_seq()[j] == k) && s.contains(k) by {
                        if (exists|j: int| 0 <= j < i + 1 && self.items.key_seq()[j] == k) && s.contains(k) {
                            let j = choose|j: int| 0 <= j < i + 1 && self.items.key_seq()[j] == k;
                            if j == i {
                                assert(k == kk);
                            }
                        }
                    }
                }
            }
            i += 1;
        }
        proof {
            assert forall|k: Seq<char>| #[trigger] s.contains(k) <==> views(out@).contains(k) by {
                if s.contains(k) {
                    assert(self.items.key_seq().contains(k));
                    let j = choose|j: int| 0 <= j < self.items.key_seq().len() && self.items.key_seq()[j] == k;
                }
            }
        }
        out
    }
}

impl Default for DevInternalRegistry {
    /// An empty catalogue.
    fn default() -> (r: Self)
        ensures
            r.catalogue()@ == Map::<Seq<char>, DevInternalItem>::empty(),
    {
        DevInternalRegistry::new()
    }
}

/// Tag AND: a search lists a declared name exactly when its tags include
/// every requested tag; asking for one more tag that the item lacks drops
/// it, and asking for more tags never lists more names.
pub proof fn lemma_search_is_tag_and(reg: DevInternalRegistry, wanted: Set<Seq<char>>, k: Seq<char>, extra: Seq<char>)
    ensures
        reg.search_set(wanted).contains(k) <==> reg.catalogue()@.contains_key(k) && forall|t: Seq<char>|
            #[trigger] wanted.contains(t) ==> reg.catalogue()@[k].tags@.contains(t),
        reg.catalogue()@.contains_key(k) && !reg.catalogue()@[k].tags@.contains(extra) ==> !reg.search_set(
            wanted.insert(extra),
        ).contains(k),
        reg.search_set(wanted.insert(extra)).subset_of(reg.search_set(wanted)),
{
    assert(wanted.insert(extra).contains(extra));
}

} // verus!
