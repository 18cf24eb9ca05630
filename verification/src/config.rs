//! The TOML side of the product runtime configuration: decoding a TOML
//! document into the model's flat dotted-key map, and the
//! [`ProductConfig`] entry point over a [`ConfigStore`].
//!
//! Parsing is the `toml` crate's; the parsed document is carried as a
//! [`TomlNode`] of plain values, and everything after the parse (value
//! conversion, flattening, the layered model, the writer) is verified.
use vstd::prelude::*;
use crate::text::{owned, chars_of, string_of, extend_str, extend_chars};
use crate::strmap::{StrMap, StrSet, pair_keys, lower_bound, sorted_upsert};
use crate::config_model::{
    Plain, ConfigValue, Fields, ConfigError, fields_view, lemma_fields_view, items_view,
    lemma_items_view, ConfigStore, LayeredConfig, ItemPolicy, ImpactLevel, ResolvedValue,
    BrowseEntry, DevInternalRegistry, DevInternalItem, is_build_key, has_datetime,
    build_key_message, keyed_unbridged_message, first_build_key, least_build_key,
    lemma_first_build_key_least, tag_set, read_refusal_message, write_refusal_message,
    datetime_message, row_keys,
};
use crate::toml_emit::{plain_pairs, serialized, serialize_flat, emit_datetime_message};
use crate::text::{lists_sorted, views};

verus! {

// --- the parsed document ----------------------------------------------------

/// A parsed TOML value held as plain data: a float by its canonical
/// spelling (Rust's `Debug` text of the `f64`), a date/time by its TOML
/// text, a table as its (key, value) entries in the parser's order.
#[derive(Debug)]
pub enum TomlNode {
    String(String),
    Integer(i64),
    Float(String),
    Boolean(bool),
    Datetime(String),
    Array(Vec<TomlNode>),
    Table(Vec<(String, TomlNode)>),
}

/// The content of a [`TomlNode`].
pub enum TomlTree {
    String(Seq<char>),
    Integer(i64),
    Float(Seq<char>),
    Boolean(bool),
    Datetime(Seq<char>),
    Array(Seq<TomlTree>),
    Table(Seq<(Seq<char>, TomlTree)>),
}

impl TomlNode {
    /// The node's content.
    pub open spec fn view(self) -> TomlTree
        decreases self, 1int,
    {
        match self {
            TomlNode::String(s) => TomlTree::String(s@),
            TomlNode::Integer(i) => TomlTree::Integer(i),
            TomlNode::Float(f) => TomlTree::Float(f@),
            TomlNode::Boolean(b) => TomlTree::Boolean(b),
            TomlNode::Datetime(d) => TomlTree::Datetime(d@),
            TomlNode::Array(xs) => TomlTree::Array(node_items(xs, xs@.len() as int)),
            TomlNode::Table(es) => TomlTree::Table(node_entries(es, es@.len() as int)),
        }
    }
}

/// Content of the first `n` array elements.
pub open spec fn node_items(xs: Vec<TomlNode>, n: int) -> Seq<TomlTree>
    decreases xs, n,
{
    if n <= 0 || n > xs@.len() {
        Seq::empty()
    } else {
        node_items(xs, n - 1).push(xs@[n - 1].view())
    }
}

/// Content of the first `n` table entries.
pub open spec fn node_entries(es: Vec<(String, TomlNode)>, n: int) -> Seq<(Seq<char>, TomlTree)>
    decreases es, n,
{
    if n <= 0 || n > es@.len() {
        Seq::empty()
    } else {
        proof {
            assert(decreases_to!(es => es@[n - 1]));
            assert(decreases_to!(es@[n - 1] => es@[n - 1].1));
        }
        node_entries(es, n - 1).push((es@[n - 1].0@, es@[n - 1].1.view()))
    }
}

proof fn lemma_node_items(xs: Vec<TomlNode>, n: int)
    requires
        0 <= n <= xs@.len(),
    ensures
        node_items(xs, n).len() == n,
        forall|i: int| 0 <= i < n ==> #[trigger] node_items(xs, n)[i] == xs@[i].view(),
    decreases n,
{
    if n > 0 {
        lemma_node_items(xs, n - 1);
    }
}

proof fn lemma_node_entries(es: Vec<(String, TomlNode)>, n: int)
    requires
        0 <= n <= es@.len(),
    ensures
        node_entries(es, n).len() == n,
        forall|i: int|
            0 <= i < n ==> #[trigger] node_entries(es, n)[i] == (es@[i].0@, es@[i].1.view()),
    decreases n,
{
    if n > 0 {
        lemma_node_entries(es, n - 1);
    }
}

/// The document the `toml` crate parses from `text`, or the text of its
/// parse error.
pub uninterp spec fn toml_document(text: Seq<char>) -> Result<TomlTree, Seq<char>>;

/// The content of a parse outcome.
pub open spec fn parse_outcome(r: Result<TomlNode, String>) -> Result<TomlTree, Seq<char>> {
    match r {
        Ok(n) => Ok(n@),
        Err(e) => Err(e@),
    }
}

#[verifier::external_type_specification]
#[verifier::external_body]
pub struct ExTomlValue(toml::Value);

/// Carries a parsed `toml::Value` over as plain data, variant for
/// variant: a float as its `Debug` spelling, a date/time as its
/// `Display` text, a table's entries in the map's own order.
#[verifier::external_body]
fn node_of(v: &toml::Value) -> TomlNode {
    match v {
        toml::Value::String(s) => TomlNode::String(s.clone()),
        toml::Value::Integer(i) => TomlNode::Integer(*i),
        toml::Value::Float(f) => TomlNode::Float(format!("{:?}", f)),
        toml::Value::Boolean(b) => TomlNode::Boolean(*b),
        toml::Value::Datetime(d) => TomlNode::Datetime(d.to_string()),
        toml::Value::Array(xs) => TomlNode::Array(xs.iter().map(node_of).collect()),
        toml::Value::Table(m) => TomlNode::Table(m.iter().map(|(k, x)| (k.clone(), node_of(x))).collect()),
    }
}

/// `toml::Value::from_str` (the `toml` crate's document parser,
/// `toml::from_str`): the parsed document, or the `Display` text of the
/// parse error. The contract claims only that the outcome is the one
/// named by [`toml_document`] for this text; what the parser accepts and
/// builds is the crate's own.
#[verifier::external_body]
fn parse_document(text: &str) -> (r: Result<TomlNode, String>)
    ensures
        parse_outcome(r) == toml_document(text@),
{
    match text.parse::<toml::Value>() {
        Ok(v) => Ok(node_of(&v)),
        Err(e) => Err(e.to_string()),
    }
}


// --- parsed values to model values ---------------------------------------------

/// The model value a parsed TOML value decodes to; a table becomes a
/// record whose fields are its entries in name order.
pub open spec fn config_of(t: TomlTree) -> Plain
    decreases t, 1int, 0int,
{
    match t {
        TomlTree::String(s) => Plain::Str(s),
        TomlTree::Integer(i) => Plain::Int(i),
        TomlTree::Float(f) => Plain::Float(f),
        TomlTree::Boolean(b) => Plain::Bool(b),
        TomlTree::Datetime(d) => Plain::Datetime(d),
        TomlTree::Array(xs) => Plain::Array(config_items(t, xs.len() as int)),
        TomlTree::Table(es) => Plain::Record(config_fields(t, es.len() as int)),
    }
}

/// The decoded first `n` elements of an array.
pub open spec fn config_items(t: TomlTree, n: int) -> Seq<Plain>
    decreases t, 0int, n,
{
    if n <= 0 {
        Seq::empty()
    } else {
        match t {
            TomlTree::Array(xs) => {
                if n > xs.len() {
                    Seq::empty()
                } else {
                    proof {
                        assert(decreases_to!(t => t->Array_0[n - 1]));
                    }
                    config_items(t, n - 1).push(config_of(xs[n - 1]))
                }
            },
            _ => Seq::empty(),
        }
    }
}

/// The record fields the first `n` entries of a table decode to, in
/// name order (a later entry under an equal name replaces the earlier).
pub open spec fn config_fields(t: TomlTree, n: int) -> Seq<(Seq<char>, Plain)>
    decreases t, 0int, n,
{
    if n <= 0 {
        Seq::empty()
    } else {
        match t {
            TomlTree::Table(es) => {
                if n > es.len() {
                    Seq::empty()
                } else {
                    proof {
                        assert(decreases_to!(t => t->Table_0[n - 1].1));
                    }
                    sorted_upsert(config_fields(t, n - 1), es[n - 1].0, config_of(es[n - 1].1))
                }
            },
            _ => Seq::empty(),
        }
    }
}

proof fn lemma_config_items(t: TomlTree, n: int)
    requires
        t is Array,
        0 <= n <= t->Array_0.len(),
    ensures
        config_items(t, n).len() == n,
        forall|i: int| 0 <= i < n ==> #[trigger] config_items(t, n)[i] == config_of(t->Array_0[i]),
    decreases n,
{
    if n > 0 {
        lemma_config_items(t, n - 1);
    }
}

/// Putting a field in place commutes with taking the fields' contents.
proof fn lemma_plain_upsert(ps: Seq<(Seq<char>, ConfigValue)>, k: Seq<char>, v: ConfigValue)
    ensures
        plain_pairs(sorted_upsert(ps, k, v)) == sorted_upsert(plain_pairs(ps), k, v@),
{
    assert(pair_keys(plain_pairs(ps)) =~= pair_keys(ps));
    let i = lower_bound(pair_keys(ps), k);
    crate::strmap::lemma_lower_bound_range(pair_keys(ps), k);
    if 0 <= i < ps.len() && ps[i].0 == k {
        assert(plain_pairs(ps.update(i, (k, v))) =~= plain_pairs(ps).update(i, (k, v@)));
    } else {
        assert(plain_pairs(ps.insert(i, (k, v))) =~= plain_pairs(ps).insert(i, (k, v@)));
    }
}

proof fn lemma_fields_plain(f: Fields)
    ensures
        fields_view(f, f.pairs().len() as int) == plain_pairs(f.pairs()),
{
    lemma_fields_view(f, f.pairs().len() as int);
    assert(fields_view(f, f.pairs().len() as int) =~= plain_pairs(f.pairs()));
}

/// The model value of a parsed TOML value: strings, integers, floats,
/// booleans and date/times carried over, arrays element by element, a
/// table as a record.
pub fn toml_to_config(value: &TomlNode) -> (r: ConfigValue)
    ensures
        r@ == config_of(value@),
    decreases *value,
{
    match value {
        TomlNode::String(s) => ConfigValue::Str(owned(s.as_str())),
        TomlNode::Integer(i) => ConfigValue::Int(*i),
        TomlNode::Float(f) => ConfigValue::Float(owned(f.as_str())),
        TomlNode::Boolean(b) => ConfigValue::Bool(*b),
        TomlNode::Datetime(d) => ConfigValue::Datetime(owned(d.as_str())),
        TomlNode::Array(xs) => {
            let ghost t = value@;
            proof {
                lemma_node_items(*xs, xs@.len() as int);
                lemma_config_items(t, xs@.len() as int);
            }
            let mut ys: Vec<ConfigValue> = Vec::new();
            let mut i: usize = 0;
            while i < xs.len()
                invariant
                    i <= xs@.len(),
                    *value == TomlNode::Array(*xs),
                    ys@.len() == i,
                    forall|j: int| 0 <= j < i ==> (#[trigger] ys@[j])@ == config_of(xs@[j]@),
                decreases xs.len() - i,
            {
                proof {
                    assert((*value)->Array_0 == *xs);
                    assert(decreases_to!(*value => (*value)->Array_0));
                    assert(decreases_to!(*xs => xs@[i as int]));
                }
                ys.push(toml_to_config(&xs[i]));
                i += 1;
            }
            proof {
                lemma_items_view(ys, ys@.len() as int);
                assert(items_view(ys, ys@.len() as int) =~= config_items(t, xs@.len() as int));
            }
            ConfigValue::Array(ys)
        },
        TomlNode::Table(es) => {
            let ghost t = value@;
            proof {
                lemma_node_entries(*es, es@.len() as int);
            }
            let mut f = Fields::new();
            proof {
                lemma_fields_plain(f);
            }
            let mut i: usize = 0;
            while i < es.len()
                invariant
                    i <= es@.len(),
                    *value == TomlNode::Table(*es),
                    t == value@,
                    t->Table_0 == node_entries(*es, es@.len() as int),
                    node_entries(*es, es@.len() as int).len() == es@.len(),
                    forall|j: int|
                        0 <= j < es@.len() ==> #[trigger] node_entries(*es, es@.len() as int)[j]
                            == (es@[j].0@, es@[j].1@),
                    plain_pairs(f.pairs()) == config_fields(t, i as int),
                decreases es.len() - i,
            {
                assert(decreases_to!(*value => es@[i as int].1));
                let v = toml_to_config(&es[i].1);
                let ghost before = f.pairs();
                f.insert(owned(es[i].0.as_str()), v);
                proof {
                    lemma_plain_upsert(before, es@[i as int].0@, v);
                }
                i += 1;
            }
            proof {
                lemma_fields_plain(f);
            }
            ConfigValue::Record(f)
        },
    }
}

// --- the document to the flat dotted-key map -------------------------------------

/// The dotted key of `name` under `prefix` (just `name` at the root).
pub open spec fn dotted(prefix: Seq<char>, name: Seq<char>) -> Seq<char> {
    if prefix.len() == 0 {
        name
    } else {
        prefix + seq!['.'] + name
    }
}

/// The flat dotted-key map of a parsed value under `prefix`: a table's
/// sub-tables are flattened under their dotted keys, every other entry
/// is one key; anything but a table contributes nothing.
pub open spec fn flat_of(t: TomlTree, prefix: Seq<char>) -> Map<Seq<char>, Plain>
    decreases t, 1int, 0int,
{
    match t {
        TomlTree::Table(es) => flat_entries(t, prefix, es.len() as int),
        _ => Map::empty(),
    }
}

/// What the first `n` entries of a table contribute to the flat map.
pub open spec fn flat_entries(t: TomlTree, prefix: Seq<char>, n: int) -> Map<Seq<char>, Plain>
    decreases t, 0int, n,
{
    if n <= 0 {
        Map::empty()
    } else {
        match t {
            TomlTree::Table(es) => {
                if n > es.len() {
                    Map::empty()
                } else {
                    proof {
                        assert(decreases_to!(t => t->Table_0[n - 1].1));
                    }
                    let key = dotted(prefix, es[n - 1].0);
                    if es[n - 1].1 is Table {
                        flat_entries(t, prefix, n - 1).union_prefer_right(flat_of(es[n - 1].1, key))
                    } else {
                        flat_entries(t, prefix, n - 1).insert(key, config_of(es[n - 1].1))
                    }
                }
            },
            _ => Map::empty(),
        }
    }
}

/// The contents of a map's values.
pub open spec fn plain_map(m: Map<Seq<char>, ConfigValue>) -> Map<Seq<char>, Plain> {
    m.map_values(|v: ConfigValue| v@)
}

/// The flat dotted-key map of a parsed document (keys under `prefix`).
pub fn flatten_nested(value: &TomlNode, prefix: &str) -> (r: StrMap<ConfigValue>)
    ensures
        plain_map(r@) == flat_of(value@, prefix@),
    decreases *value,
{
    let mut flat: StrMap<ConfigValue> = StrMap::new();
    assert(plain_map(flat@) =~= Map::<Seq<char>, Plain>::empty());
    match value {
        TomlNode::Table(es) => {
            let ghost t = value@;
            proof {
                lemma_node_entries(*es, es@.len() as int);
            }
            let pre = chars_of(prefix);
            let mut i: usize = 0;
            while i < es.len()
                invariant
                    i <= es@.len(),
                    *value == TomlNode::Table(*es),
                    pre@ == prefix@,
                    t == value@,
                    t->Table_0 == node_entries(*es, es@.len() as int),
                    node_entries(*es, es@.len() as int).len() == es@.len(),
                    forall|j: int|
                        0 <= j < es@.len() ==> #[trigger] node_entries(*es, es@.len() as int)[j]
                            == (es@[j].0@, es@[j].1@),
                    plain_map(flat@) == flat_entries(t, prefix@, i as int),
                decreases es.len() - i,
            {
                assert(decreases_to!(*value => es@[i as int].1));
                let mut kv: Vec<char> = Vec::new();
                if pre.len() > 0 {
                    extend_chars(&mut kv, &pre);
                    kv.push('.');
                }
                extend_str(&mut kv, es[i].0.as_str());
                assert(kv@ =~= dotted(prefix@, es@[i as int].0@));
                let key = string_of(&kv);
                let ghost before = flat@;
                match &es[i].1 {
                    TomlNode::Table(_) => {
                        let sub = flatten_nested(&es[i].1, key.as_str());
                        let ghost sv = sub@;
                        flat.absorb(sub);
                        assert(plain_map(flat@) =~= plain_map(before).union_prefer_right(plain_map(sv)));
                    },
                    other => {
                        let v = toml_to_config(other);
                        flat.insert(key, v);
                        assert(plain_map(flat@) =~= plain_map(before).insert(kv@, v@));
                    },
                }
                i += 1;
            }
            flat
        },
        _ => flat,
    }
}

/// The flat dotted-key map of the TOML document in `text`, or the text of
/// the parser's error.
pub fn decode_document(text: &str) -> (r: Result<StrMap<ConfigValue>, String>)
    ensures
        toml_document(text@) is Ok <==> r is Ok,
        r matches Ok(m) ==> plain_map(m@) == flat_of(toml_document(text@)->Ok_0, Seq::empty()),
        r matches Err(e) ==> toml_document(text@) == Err::<TomlTree, Seq<char>>(e@),
{
    match parse_document(text) {
        Ok(doc) => {
            let m = flatten_nested(&doc, "");
            proof {
                reveal_strlit("");
            }
            assert(""@ =~= Seq::<char>::empty());
            Ok(m)
        },
        Err(e) => Err(e),
    }
}


// --- the product config entry --------------------------------------------------

/// A pure-internal (`d`) record as the development listing shows it.
#[derive(Debug, Clone, PartialEq)]
pub struct DevBrowseRecord {
    pub name: String,
    pub value: ConfigValue,
    pub tags: StrSet,
}

/// The product runtime config: a [`ConfigStore`] plus the file it is
/// backed by (if any) and the side catalogue of pure-internal data.
pub struct ProductConfig {
    path: Option<String>,
    store: ConfigStore,
    dev_internal: Option<DevInternalRegistry>,
}

/// Builder for [`ProductConfig`]: file path, inlined and injected layers,
/// and item policies.
pub struct ProductConfigBuilder {
    path: Option<String>,
    inlined: StrMap<ConfigValue>,
    injected: StrMap<ConfigValue>,
    policies: StrMap<ItemPolicy>,
}

/// The message a document that does not parse is refused with.
pub open spec fn parse_failure_message(source: Seq<char>, err: Seq<char>) -> Seq<char> {
    "failed to parse "@ + source + ": "@ + err
}

/// The model accepts writing `value` under `key` at `level`: not a
/// build-toolchain key, no date/time inside, and a level meeting the
/// item's write requirement.
pub open spec fn accepts_write(s: ConfigStore, key: Seq<char>, value: Plain, level: i64) -> bool {
    !is_build_key(key) && !has_datetime(value) && level >= s.table().level(s.impact_of(key))
}

/// The declared items of an optional catalogue (none when absent).
pub open spec fn catalogue_of(r: Option<DevInternalRegistry>) -> Map<Seq<char>, DevInternalItem> {
    match r {
        Some(reg) => reg.catalogue()@,
        None => Map::empty(),
    }
}

/// `rec` shows the catalogue item declared under its name.
pub open spec fn shows(cat: Map<Seq<char>, DevInternalItem>, rec: DevBrowseRecord) -> bool {
    &&& cat.contains_key(rec.name@)
    &&& cat[rec.name@].name@ == rec.name@
    &&& rec.value@ == cat[rec.name@].value@
    &&& rec.tags@ == cat[rec.name@].tags@
}

/// The names of development records, in order.
pub open spec fn record_names(rs: Seq<DevBrowseRecord>) -> Seq<Seq<char>> {
    rs.map_values(|r: DevBrowseRecord| r.name@)
}

impl ProductConfigBuilder {
    /// The chosen file path.
    pub closed spec fn chosen_path(self) -> Option<Seq<char>> {
        match self.path {
            Some(p) => Some(p@),
            None => None,
        }
    }

    /// The chosen inlined layer.
    pub closed spec fn chosen_inlined(self) -> StrMap<ConfigValue> {
        self.inlined
    }

    /// The chosen injected layer.
    pub closed spec fn chosen_injected(self) -> StrMap<ConfigValue> {
        self.injected
    }

    /// The chosen item policies.
    pub closed spec fn chosen_policies(self) -> StrMap<ItemPolicy> {
        self.policies
    }

    /// Nothing chosen: no file, empty layers, no policies.
    pub fn new() -> (b: Self)
        ensures
            b.chosen_path() is None,
            b.chosen_inlined()@ == Map::<Seq<char>, ConfigValue>::empty(),
            b.chosen_injected()@ == Map::<Seq<char>, ConfigValue>::empty(),
            b.chosen_policies()@ == Map::<Seq<char>, ItemPolicy>::empty(),
    {
        ProductConfigBuilder {
            path: None,
            inlined: StrMap::new(),
            injected: StrMap::new(),
            policies: StrMap::new(),
        }
    }

    /// Backs the config by the file at `path`.
    pub fn path(self, path: &str) -> (b: Self)
        ensures
            b.chosen_path() == Some(path@),
            b.chosen_inlined() == self.chosen_inlined(),
            b.chosen_injected() == self.chosen_injected(),
            b.chosen_policies() == self.chosen_policies(),
    {
        ProductConfigBuilder { path: Some(owned(path)), ..self }
    }

    /// Sets the inlined (`b`) layer.
    pub fn inlined(self, inlined: StrMap<ConfigValue>) -> (b: Self)
        ensures
            b.chosen_path() == self.chosen_path(),
            b.chosen_inlined() == inlined,
            b.chosen_injected() == self.chosen_injected(),
            b.chosen_policies() == self.chosen_policies(),
    {
        ProductConfigBuilder { inlined, ..self }
    }

    /// Sets the injected (`c`) layer.
    pub fn injected(self, injected: StrMap<ConfigValue>) -> (b: Self)
        ensures
            b.chosen_path() == self.chosen_path(),
            b.chosen_inlined() == self.chosen_inlined(),
            b.chosen_injected() == injected,
            b.chosen_policies() == self.chosen_policies(),
    {
        ProductConfigBuilder { injected, ..self }
    }

    /// Sets the item policies.
    pub fn policies(self, policies: StrMap<ItemPolicy>) -> (b: Self)
        ensures
            b.chosen_path() == self.chosen_path(),
            b.chosen_inlined() == self.chosen_inlined(),
            b.chosen_injected() == self.chosen_injected(),
            b.chosen_policies() == policies,
    {
        ProductConfigBuilder { policies, ..self }
    }

    /// Builds the config. `file_text` is the content of the file at the
    /// chosen path (`None` when there is no path or no such file, which
    /// gives an empty external layer); a file that does not parse is
    /// refused, naming the path and the parser's error.
    pub fn build(self, file_text: Option<&str>) -> (r: Result<ProductConfig, ConfigError>)
        ensures
            r is Err <==> self.chosen_path() is Some && file_text is Some
                && toml_document(file_text->0@) is Err,
            r matches Err(e) ==> e matches ConfigError::UnbridgedValue(m) && m@
                == parse_failure_message(self.chosen_path()->0, toml_document(file_text->0@)->Err_0),
            r matches Ok(c) ==> {
                &&& c.file_path() == self.chosen_path()
                &&& c.internal() is None
                &&& c.model().layers().inlined == self.chosen_inlined()
                &&& c.model().layers().injected == self.chosen_injected()
                &&& plain_map(c.model().layers().external@) == if self.chosen_path() is Some
                    && file_text is Some {
                    flat_of(toml_document(file_text->0@)->Ok_0, Seq::empty())
                } else {
                    Map::empty()
                }
                &&& c.model().declared() == self.chosen_policies()
                &&& c.model().table().level(ImpactLevel::Low) == 0
                &&& c.model().table().level(ImpactLevel::High) == 1
            },
    {
        let ProductConfigBuilder { path, inlined, injected, policies } = self;
        let external = match (&path, file_text) {
            (Some(p), Some(text)) => match decode_document(text) {
                Ok(m) => m,
                Err(e) => {
                    let mut msg: Vec<char> = Vec::new();
                    extend_str(&mut msg, "failed to parse ");
                    extend_str(&mut msg, p.as_str());
                    extend_str(&mut msg, ": ");
                    extend_str(&mut msg, e.as_str());
                    assert(msg@ =~= parse_failure_message(p@, e@));
                    return Err(ConfigError::UnbridgedValue(string_of(&msg)));
                },
            },
            _ => {
                let m: StrMap<ConfigValue> = StrMap::new();
                assert(plain_map(m@) =~= Map::<Seq<char>, Plain>::empty());
                m
            },
        };
        let layered = LayeredConfig { inlined, external, injected };
        Ok(ProductConfig { path, store: ConfigStore::new(layered, policies), dev_internal: None })
    }
}

impl Default for ProductConfigBuilder {
    /// Nothing chosen.
    fn default() -> (b: Self)
        ensures
            b.chosen_path() is None,
            b.chosen_inlined()@ == Map::<Seq<char>, ConfigValue>::empty(),
            b.chosen_injected()@ == Map::<Seq<char>, ConfigValue>::empty(),
            b.chosen_policies()@ == Map::<Seq<char>, ItemPolicy>::empty(),
    {
        ProductConfigBuilder::new()
    }
}

impl ProductConfig {
    /// The model the config wraps.
    pub closed spec fn model(self) -> ConfigStore {
        self.store
    }

    /// The backing file's path, if any.
    pub closed spec fn file_path(self) -> Option<Seq<char>> {
        match self.path {
            Some(p) => Some(p@),
            None => None,
        }
    }

    /// The pure-internal catalogue, once something was declared there.
    pub closed spec fn internal(self) -> Option<DevInternalRegistry> {
        self.dev_internal
    }

    /// A builder with nothing chosen.
    pub fn builder() -> (b: ProductConfigBuilder)
        ensures
            b.chosen_path() is None,
            b.chosen_inlined()@ == Map::<Seq<char>, ConfigValue>::empty(),
            b.chosen_injected()@ == Map::<Seq<char>, ConfigValue>::empty(),
            b.chosen_policies()@ == Map::<Seq<char>, ItemPolicy>::empty(),
    {
        ProductConfigBuilder::new()
    }

    /// A config with no file and empty layers.
    pub fn in_memory() -> (c: Self)
        ensures
            c.file_path() is None,
            c.internal() is None,
            c.model().layers().key_set() == Set::<Seq<char>>::empty(),
            c.model().declared()@ == Map::<Seq<char>, ItemPolicy>::empty(),
            c.model().table().level(ImpactLevel::Low) == 0,
            c.model().table().level(ImpactLevel::High) == 1,
    {
        match ProductConfigBuilder::new().build(None) {
            Ok(c) => {
                assert(c.model().layers().external@ =~= Map::<Seq<char>, ConfigValue>::empty()) by {
                    assert(plain_map(c.model().layers().external@).dom() =~= c.model().layers().external@.dom());
                }
                assert(c.model().layers().key_set() =~= Set::<Seq<char>>::empty());
                c
            },
            Err(_) => {
                assert(false);
                ProductConfig {
                    path: None,
                    store: ConfigStore::new(LayeredConfig::new(), StrMap::new()),
                    dev_internal: None,
                }
            },
        }
    }

    /// The backing file's path, if any (a config without one never
    /// persists).
    pub fn path(&self) -> (r: Option<&str>)
        ensures
            r is None <==> self.file_path() is None,
            r matches Some(p) ==> self.file_path() == Some(p@),
    {
        match &self.path {
            Some(p) => Some(p.as_str()),
            None => None,
        }
    }

    /// The wrapped store.
    pub fn store(&self) -> (r: &ConfigStore)
        ensures
            *r == self.model(),
    {
        &self.store
    }

    /// Mutable access to the wrapped store.
    pub fn store_mut(&mut self) -> (r: &mut ConfigStore)
        ensures
            *r == old(self).model(),
            final(self).model() == *final(r),
            final(self).file_path() == old(self).file_path(),
            final(self).internal() == old(self).internal(),
    {
        &mut self.store
    }

    /// Attaches a policy to `key` (refused for a build-toolchain key).
    pub fn declare(&mut self, key: &str, policy: ItemPolicy) -> (r: Result<(), ConfigError>)
        ensures
            r is Ok <==> !is_build_key(key@),
            r matches Err(e) ==> e matches ConfigError::BuildConfigKey(m) && m@ == build_key_message(
                key@,
            ),
            r is Ok ==> final(self).model().declared()@ == old(self).model().declared()@.insert(key@, policy),
            r is Err ==> final(self).model().declared() == old(self).model().declared(),
            final(self).model().layers() == old(self).model().layers(),
            final(self).model().table() == old(self).model().table(),
            final(self).file_path() == old(self).file_path(),
            final(self).internal() == old(self).internal(),
    {
        self.store.declare(key, policy)
    }

    /// Embeds a TOML block (text) as the inlined (`b`) layer: it replaces
    /// that layer with the block's flat dotted-key map. Refused, changing
    /// nothing, when the text does not parse or a key belongs to the
    /// build toolchain (the least such key is named).
    pub fn declare_inlined_toml(&mut self, source: &str) -> (r: Result<(), ConfigError>)
        ensures
            r is Ok <==> toml_document(source@) is Ok && forall|k: Seq<char>|
                #[trigger] flat_of(toml_document(source@)->Ok_0, Seq::empty()).contains_key(k)
                ==> !is_build_key(k),
            r matches Err(e) ==> if toml_document(source@) is Err {
                e matches ConfigError::UnbridgedValue(m) && m@ == parse_failure_message(
                    "inlined TOML"@,
                    toml_document(source@)->Err_0,
                )
            } else {
                exists|k0: Seq<char>|
                    least_build_key(flat_of(toml_document(source@)->Ok_0, Seq::empty()).dom(), k0)
                        && (e matches ConfigError::BuildConfigKey(m) && m@ == build_key_message(k0))
            },
            r is Ok ==> plain_map(final(self).model().layers().inlined@) == flat_of(
                toml_document(source@)->Ok_0,
                Seq::empty(),
            ),
            r is Err ==> final(self).model().layers().inlined == old(self).model().layers().inlined,
            final(self).model().layers().external == old(self).model().layers().external,
            final(self).model().layers().injected == old(self).model().layers().injected,
            final(self).model().declared() == old(self).model().declared(),
            final(self).model().table() == old(self).model().table(),
            final(self).file_path() == old(self).file_path(),
            final(self).internal() == old(self).internal(),
    {
        match decode_document(source) {
            Err(e) => {
                let mut msg: Vec<char> = Vec::new();
                extend_str(&mut msg, "failed to parse ");
                extend_str(&mut msg, "inlined TOML");
                extend_str(&mut msg, ": ");
                extend_str(&mut msg, e.as_str());
                assert(msg@ =~= parse_failure_message("inlined TOML"@, e@));
                Err(ConfigError::UnbridgedValue(string_of(&msg)))
            },
            Ok(flat) => {
                let _ = flat.len();
                let ghost d = flat@.dom();
                proof {
                    flat.lemma_view_facts();
                    lemma_first_build_key_least(flat.key_seq());
                    assert(plain_map(flat@).dom() =~= d);
                    assert(d =~= flat.key_seq().to_set());
                }
                self.store.layered_mut().install_inlined(flat)
            },
        }
    }

    /// Embeds already-decoded data as the inlined (`b`) layer (refused,
    /// changing nothing, when it holds a build-toolchain key; the first in
    /// key order is named).
    pub fn declare_inlined_data(&mut self, data: StrMap<ConfigValue>) -> (r: Result<(), ConfigError>)
        ensures
            r is Ok <==> first_build_key(data.key_seq()) is None,
            r matches Err(e) ==> e matches ConfigError::BuildConfigKey(msg) && msg@
                == build_key_message(first_build_key(data.key_seq())->0),
            r is Ok ==> final(self).model().layers().inlined == data,
            r is Err ==> final(self).model().layers().inlined == old(self).model().layers().inlined,
            final(self).model().layers().external == old(self).model().layers().external,
            final(self).model().layers().injected == old(self).model().layers().injected,
            final(self).model().declared() == old(self).model().declared(),
            final(self).model().table() == old(self).model().table(),
            final(self).file_path() == old(self).file_path(),
            final(self).internal() == old(self).internal(),
    {
        self.store.layered_mut().install_inlined(data)
    }

    /// The inlined (`b`) layer as TOML text that reads back to the same
    /// data: what the writer makes of it.
    pub fn restore_inlined_toml(&self) -> (r: Result<String, ConfigError>)
        ensures
            r is Ok <==> serialized(plain_pairs(self.model().layers().inlined.pairs())) is Some,
            r matches Ok(t) ==> serialized(plain_pairs(self.model().layers().inlined.pairs())) == Some(t@),
            r matches Err(e) ==> e matches ConfigError::UnbridgedValue(m) && m@ == emit_datetime_message(),
    {
        serialize_flat(&self.store.layered().inlined)
    }

    /// The external (`a`) layer as the TOML text a write persists.
    pub fn serialize_external(&self) -> (r: Result<String, ConfigError>)
        ensures
            r is Ok <==> serialized(plain_pairs(self.model().layers().external.pairs())) is Some,
            r matches Ok(t) ==> serialized(plain_pairs(self.model().layers().external.pairs())) == Some(t@),
            r matches Err(e) ==> e matches ConfigError::UnbridgedValue(m) && m@ == emit_datetime_message(),
    {
        serialize_flat(self.store.pending_external())
    }

    /// The development catalogue of pure-internal data, if anything was
    /// ever declared there.
    pub fn dev_internal(&self) -> (r: Option<&DevInternalRegistry>)
        ensures
            r is None <==> self.internal() is None,
            r matches Some(reg) ==> self.internal() == Some(*reg),
    {
        match &self.dev_internal {
            Some(reg) => Some(reg),
            None => None,
        }
    }

    /// Declares a pure-internal datum and returns the plain value for the
    /// caller to bind; it lands only in the development catalogue (created
    /// on first use), never in the runtime store.
    pub fn declare_internal(&mut self, name: &str, value: ConfigValue, tags: &[&str]) -> (r: Result<
        ConfigValue,
        ConfigError,
    >)
        ensures
            r is Ok <==> !is_build_key(name@) && !has_datetime(value@),
            r matches Err(e) ==> if is_build_key(name@) {
                e matches ConfigError::BuildConfigKey(m) && m@ == build_key_message(name@)
            } else {
                e matches ConfigError::UnbridgedValue(m) && m@ == keyed_unbridged_message(name@)
            },
            r matches Ok(v) ==> v@ == value@,
            final(self).internal() is Some,
            r is Ok ==> {
                let old_cat = catalogue_of(old(self).internal());
                let new_cat = catalogue_of(final(self).internal());
                &&& new_cat.dom() == old_cat.dom().insert(name@)
                &&& new_cat[name@].name@ == name@
                &&& new_cat[name@].value@ == value@
                &&& new_cat[name@].tags@ == tag_set(tags@)
                &&& forall|k: Seq<char>| k != name@ && #[trigger] old_cat.contains_key(k) ==> new_cat[k] == old_cat[k]
            },
            r is Err ==> catalogue_of(final(self).internal()) == catalogue_of(old(self).internal()),
            final(self).model() == old(self).model(),
            final(self).file_path() == old(self).file_path(),
    {
        let mut reg = match self.dev_internal.take() {
            Some(r) => r,
            None => DevInternalRegistry::new(),
        };
        let r = reg.declare(name, value, tags);
        self.dev_internal = Some(reg);
        r
    }

    /// Every runtime key, once each, in increasing order.
    pub fn keys(&self) -> (r: Vec<String>)
        ensures
            lists_sorted(views(r@), self.model().layers().key_set()),
    {
        self.store.keys()
    }

    /// Keys matching the tag filter (tag AND) within the caller's read
    /// tier, in increasing order.
    pub fn query(&self, tags: Option<&[&str]>, credential_level: i64) -> (r: Vec<String>)
        ensures
            lists_sorted(views(r@), self.model().query_set(tags, credential_level)),
    {
        self.store.query(tags, credential_level)
    }

    /// [`ProductConfig::query`] with effective values and provenance.
    pub fn query_resolved(&self, tags: Option<&[&str]>, credential_level: i64) -> (r: Result<
        StrMap<ResolvedValue>,
        ConfigError,
    >)
        ensures
            r is Ok <==> forall|k: Seq<char>| #[trigger] self.model().query_set(tags, credential_level).contains(k) ==> !is_build_key(k),
            r matches Err(e) ==> exists|k0: Seq<char>| least_build_key(self.model().query_set(tags, credential_level), k0)
                && (e matches ConfigError::BuildConfigKey(m) && m@ == build_key_message(k0)),
            r matches Ok(out) ==> {
                &&& forall|k: Seq<char>| #[trigger] out@.contains_key(k) <==> self.model().query_set(tags, credential_level).contains(k)
                &&& forall|k: Seq<char>| #[trigger] out@.contains_key(k) ==> (self.model().layers().winner(k) matches Some(w)
                    && out@[k].value@ == w.0@ && out@[k].layer == w.1)
            },
    {
        self.store.query_resolved(tags, credential_level)
    }

    /// The highest read level a runtime item requires (0 when none).
    pub fn max_read_level(&self) -> (r: i64)
        ensures
            self.model().layers().key_set().is_empty() ==> r == 0,
            !self.model().layers().key_set().is_empty() ==> {
                &&& exists|k: Seq<char>| #[trigger] self.model().layers().key_set().contains(k) && r == self.model().read_level_of(k)
                &&& forall|k: Seq<char>| #[trigger] self.model().layers().key_set().contains(k) ==> self.model().read_level_of(k) <= r
            },
    {
        self.store.max_read_level()
    }

    /// Read honouring the read tier.
    pub fn read(&self, key: &str, credential_level: i64) -> (r: Result<ConfigValue, ConfigError>)
        ensures
            r is Ok <==> self.model().visible(key@, credential_level) && !is_build_key(key@)
                && self.model().layers().winner(key@) is Some,
            r matches Ok(v) ==> v@ == self.model().layers().winner_value(key@),
            r matches Err(e) ==> if !self.model().visible(key@, credential_level) {
                e matches ConfigError::WriteProtection(m) && m@ == read_refusal_message(
                    key@,
                    self.model().read_level_of(key@),
                    credential_level,
                )
            } else if is_build_key(key@) {
                e matches ConfigError::BuildConfigKey(m) && m@ == build_key_message(key@)
            } else {
                e matches ConfigError::KeyNotFound(k) && k@ == key@
            },
    {
        self.store.read(key, credential_level)
    }

    /// Self-describing rows for every runtime item within the caller's
    /// read tier; pure-internal data never appears.
    pub fn browse(&self, tags: Option<&[&str]>, credential_level: i64) -> (r: Result<
        Vec<BrowseEntry>,
        ConfigError,
    >)
        ensures
            r is Ok <==> forall|k: Seq<char>| #[trigger] self.model().query_set(tags, credential_level).contains(k)
                ==> !is_build_key(k) && self.model().row_type_of(k) is Some,
            r matches Err(e) ==> if exists|k: Seq<char>| #[trigger] self.model().query_set(tags, credential_level).contains(k) && is_build_key(k) {
                exists|k0: Seq<char>| least_build_key(self.model().query_set(tags, credential_level), k0)
                    && (e matches ConfigError::BuildConfigKey(m) && m@ == build_key_message(k0))
            } else {
                e matches ConfigError::UnbridgedValue(m) && m@ == datetime_message()
            },
            r matches Ok(rows) ==> {
                &&& lists_sorted(row_keys(rows@), self.model().query_set(tags, credential_level))
                &&& forall|i: int| 0 <= i < rows@.len() ==> self.model().describes(#[trigger] rows@[i])
            },
    {
        self.store.browse(tags, credential_level)
    }

    /// The development-only listing of pure-internal data: every declared
    /// item (or those whose tags include all of `tags`), in name order,
    /// empty when nothing was declared.
    pub fn dev_browse(&self, tags: Option<&[&str]>) -> (r: Vec<DevBrowseRecord>)
        ensures
            self.internal() is None ==> r@.len() == 0,
            self.internal() matches Some(reg) ==> lists_sorted(
                record_names(r@),
                match tags {
                    Some(t) => reg.search_set(tag_set(t@)),
                    None => reg.catalogue()@.dom(),
                },
            ),
            forall|i: int| 0 <= i < r@.len() ==> shows(catalogue_of(self.internal()), #[trigger] r@[i]),
    {
        let reg = match &self.dev_internal {
            Some(r) => r,
            None => {
                return Vec::new();
            },
        };
        let names = match tags {
            Some(t) => reg.search(t),
            None => reg.names(),
        };
        let ghost wanted = match tags {
            Some(t) => reg.search_set(tag_set(t@)),
            None => reg.catalogue()@.dom(),
        };
        proof {
            assert forall|k: Seq<char>| #[trigger] wanted.contains(k) implies reg.catalogue()@.contains_key(k) by {}
        }
        let mut out: Vec<DevBrowseRecord> = Vec::new();
        let mut i: usize = 0;
        while i < names.len()
            invariant
                i <= names@.len(),
                self.internal() == Some(*reg),
                lists_sorted(views(names@), wanted),
                forall|k: Seq<char>| #[trigger] wanted.contains(k) ==> reg.catalogue()@.contains_key(k),
                record_names(out@) == views(names@).take(i as int),
                forall|j: int| 0 <= j < out@.len() ==> shows(reg.catalogue()@, #[trigger] out@[j]),
            decreases names.len() - i,
        {
            assert(views(names@)[i as int] == names@[i as int]@);
            assert(views(names@).contains(names@[i as int]@));
            match reg.get(names[i].as_str()) {
                Some(item) => {
                    let rec = DevBrowseRecord {
                        name: owned(item.name.as_str()),
                        value: item.value.deep_copy(),
                        tags: item.tags.copy(),
                    };
                    let ghost prev = out@;
                    assert(rec.name@ == names@[i as int]@);
                    assert(record_names(prev).len() == prev.len());
                    assert(views(names@).take(i as int).len() == i);
                    assert(prev.len() == i);
                    out.push(rec);
                    assert(out@ == prev.push(rec));
                    assert forall|j: int| 0 <= j < i + 1 implies #[trigger] record_names(out@)[j]
                        == views(names@).take(i + 1)[j] by {
                        if j < i {
                            assert(record_names(prev)[j] == views(names@).take(i as int)[j]);
                            assert(out@[j] == prev[j]);
                        }
                    }
                    assert(record_names(out@) =~= views(names@).take(i + 1));
                },
                None => {
                    assert(wanted.contains(names@[i as int]@));
                    assert(false);
                },
            }
            i += 1;
        }
        assert(views(names@).take(names@.len() as int) =~= views(names@));
        out
    }

    /// Effective value honouring `b ◁ a ◁ c` (tier-blind).
    pub fn get(&self, key: &str) -> (r: Result<ConfigValue, ConfigError>)
        ensures
            r is Ok <==> !is_build_key(key@) && self.model().layers().winner(key@) is Some,
            r matches Ok(v) ==> v@ == self.model().layers().winner_value(key@),
            r matches Err(e) ==> if is_build_key(key@) {
                e matches ConfigError::BuildConfigKey(m) && m@ == build_key_message(key@)
            } else {
                e matches ConfigError::KeyNotFound(k) && k@ == key@
            },
    {
        self.store.get(key)
    }

    /// Effective value, or `default` when no layer yields one.
    pub fn get_or(&self, key: &str, default: ConfigValue) -> (r: ConfigValue)
        ensures
            !is_build_key(key@) && self.model().layers().winner(key@) is Some ==> r@ == self.model().layers().winner_value(key@),
            !(!is_build_key(key@) && self.model().layers().winner(key@) is Some) ==> r == default,
    {
        self.store.get_or(key, default)
    }

    /// Effective value and provenance (tier-blind).
    pub fn resolve(&self, key: &str) -> (r: Result<ResolvedValue, ConfigError>)
        ensures
            r matches Ok(rv) ==> !is_build_key(key@) && (self.model().layers().winner(key@) matches Some(w)
                && rv.value@ == w.0@ && rv.layer == w.1),
            r matches Err(e) ==> if is_build_key(key@) {
                e matches ConfigError::BuildConfigKey(m) && m@ == build_key_message(key@)
            } else {
                self.model().layers().winner(key@) is None && (e matches ConfigError::KeyNotFound(k) && k@ == key@)
            },
            r is Ok <==> !is_build_key(key@) && self.model().layers().winner(key@) is Some,
    {
        self.store.resolve(key)
    }

    /// Writes through the model; for a file-backed config the external
    /// layer is then serialised for persisting (a failure there is
    /// reported after the write took effect).
    pub fn set(&mut self, key: &str, value: ConfigValue, credential_level: i64) -> (r: Result<(), ConfigError>)
        ensures
            r is Ok <==> accepts_write(old(self).model(), key@, value@, credential_level) && (old(
                self,
            ).file_path() is Some ==> serialized(plain_pairs(final(self).model().layers().external.pairs()))
                is Some),
            accepts_write(old(self).model(), key@, value@, credential_level) ==> {
                &&& final(self).model().layers().external@ == old(self).model().layers().external@.insert(key@, value)
                &&& final(self).model().layers().inlined == old(self).model().layers().inlined
                &&& final(self).model().layers().injected == old(self).model().layers().injected
            },
            !accepts_write(old(self).model(), key@, value@, credential_level) ==> final(self).model().layers()
                == old(self).model().layers(),
            r matches Err(e) ==> if accepts_write(old(self).model(), key@, value@, credential_level) {
                e matches ConfigError::UnbridgedValue(m) && m@ == emit_datetime_message()
            } else if is_build_key(key@) {
                e matches ConfigError::BuildConfigKey(m) && m@ == build_key_message(key@)
            } else if has_datetime(value@) {
                e matches ConfigError::UnbridgedValue(m) && m@ == keyed_unbridged_message(key@)
            } else {
                e matches ConfigError::WriteProtection(m) && m@ == write_refusal_message(
                    key@,
                    old(self).model().impact_of(key@),
                    old(self).model().table().level(old(self).model().impact_of(key@)),
                    credential_level,
                )
            },
            final(self).model().declared() == old(self).model().declared(),
            final(self).model().table() == old(self).model().table(),
            final(self).file_path() == old(self).file_path(),
            final(self).internal() == old(self).internal(),
    {
        self.store.set(key, value, credential_level)?;
        if self.path.is_some() {
            self.serialize_external()?;
        }
        Ok(())
    }
}

} // verus!
