//! The deterministic TOML writer for flat dotted-key maps.
//!
//! Dotted keys are split into nested tables; every table is written
//! scalars first (as `name = value` lines), then each sub-table as a
//! `[dotted.path]` header followed by its own body, with names in
//! increasing order throughout. A record value is written inline
//! (`{k = v, ...}`) so it reads back as one value.
use vstd::prelude::*;
use crate::text::{
    int_text, push_int, extend_str, extend_chars, chars_of, string_of, trim, trim_chars,
    compare_chars, Cmp, pieces, split_on, char_views, copy_chars,
};
use crate::strmap::{StrMap, pair_keys, lower_bound, sorted_upsert};
use crate::config_model::{
    Plain, ConfigValue, ConfigError, items_view, fields_view, lemma_items_view,
    lemma_fields_view,
};

verus! {

// --- scalar values --------------------------------------------------------

/// How one character of a string value is written inside double quotes.
pub open spec fn escape_char(c: char) -> Seq<char> {
    if c == '\\' {
        seq!['\\', '\\']
    } else if c == '"' {
        seq!['\\', '"']
    } else if c == '\n' {
        seq!['\\', 'n']
    } else if c == '\t' {
        seq!['\\', 't']
    } else {
        seq![c]
    }
}

/// A string's characters with backslash, quote, newline and tab escaped.
pub open spec fn escaped(s: Seq<char>) -> Seq<char>
    decreases s.len(),
{
    if s.len() == 0 {
        Seq::empty()
    } else {
        escaped(s.drop_last()) + escape_char(s.last())
    }
}

/// The parts joined with `sep` between consecutive parts.
pub open spec fn joined(parts: Seq<Seq<char>>, sep: Seq<char>) -> Seq<char>
    decreases parts.len(),
{
    if parts.len() == 0 {
        Seq::empty()
    } else if parts.len() == 1 {
        parts[0]
    } else {
        joined(parts.drop_last(), sep) + sep + parts.last()
    }
}

/// Joining one more part.
pub proof fn lemma_joined_push(parts: Seq<Seq<char>>, sep: Seq<char>, p: Seq<char>)
    ensures
        joined(parts.push(p), sep) == if parts.len() == 0 {
            p
        } else {
            joined(parts, sep) + sep + p
        },
{
    assert(parts.push(p).drop_last() =~= parts);
}

/// The TOML text of a value, or `None` when a date/time occurs in it.
pub open spec fn scalar_text(p: Plain) -> Option<Seq<char>>
    decreases p, 1int, 0int,
{
    match p {
        Plain::Bool(b) => Some(
            if b {
                "true"@
            } else {
                "false"@
            },
        ),
        Plain::Int(i) => Some(int_text(i as int)),
        Plain::Float(f) => Some(f),
        Plain::Str(s) => Some(seq!['"'] + escaped(s) + seq!['"']),
        Plain::Array(xs) => match item_texts(p, xs.len() as int) {
            Some(ts) => Some(seq!['['] + joined(ts, ", "@) + seq![']']),
            None => None,
        },
        Plain::Record(fs) => match item_texts(p, fs.len() as int) {
            Some(ts) => Some(seq!['{'] + joined(ts, ", "@) + seq!['}']),
            None => None,
        },
        Plain::Datetime(_) => None,
    }
}

/// The texts of the first `n` elements of an array (each element's
/// text) or fields of a record (`name = text`).
pub open spec fn item_texts(p: Plain, n: int) -> Option<Seq<Seq<char>>>
    decreases p, 0int, n,
{
    if n <= 0 {
        Some(Seq::empty())
    } else {
        match p {
            Plain::Array(xs) => {
                if n > xs.len() {
                    None
                } else {
                    proof {
                        assert(decreases_to!(p => p->Array_0[n - 1]));
                    }
                    match (item_texts(p, n - 1), scalar_text(xs[n - 1])) {
                        (Some(a), Some(t)) => Some(a.push(t)),
                        _ => None,
                    }
                }
            },
            Plain::Record(fs) => {
                if n > fs.len() {
                    None
                } else {
                    proof {
                        assert(decreases_to!(p => p->Record_0[n - 1].1));
                    }
                    match (item_texts(p, n - 1), scalar_text(fs[n - 1].1)) {
                        (Some(a), Some(t)) => Some(a.push(fs[n - 1].0 + " = "@ + t)),
                        _ => None,
                    }
                }
            },
            _ => None,
        }
    }
}

/// Once one item has no text, no longer prefix has one either.
proof fn lemma_item_texts_none(p: Plain, n: int, m: int)
    requires
        0 <= n <= m,
        item_texts(p, n) is None,
    ensures
        item_texts(p, m) is None,
    decreases m - n,
{
    if n < m {
        lemma_item_texts_none(p, n, m - 1);
    }
}

/// Why serialisation stopped at a date/time value.
pub open spec fn emit_datetime_message() -> Seq<char> {
    "datetime values have no stdlib bridge and must be rejected by the model before serialisation"@
}

fn emit_datetime_error() -> (e: ConfigError)
    ensures
        e matches ConfigError::UnbridgedValue(m) && m@ == emit_datetime_message(),
{
    ConfigError::UnbridgedValue(
        crate::text::owned(
            "datetime values have no stdlib bridge and must be rejected by the model before serialisation",
        ),
    )
}

fn push_escaped(out: &mut Vec<char>, s: &str)
    ensures
        final(out)@ == old(out)@ + escaped(s@),
{
    let v = chars_of(s);
    let ghost o0 = out@;
    let mut i: usize = 0;
    while i < v.len()
        invariant
            i <= v@.len(),
            v@ == s@,
            out@ == o0 + escaped(v@.take(i as int)),
        decreases v.len() - i,
    {
        let c = v[i];
        assert(v@.take(i + 1).drop_last() =~= v@.take(i as int));
        if c == '\\' {
            out.push('\\');
            out.push('\\');
        } else if c == '"' {
            out.push('\\');
            out.push('"');
        } else if c == '\n' {
            out.push('\\');
            out.push('n');
        } else if c == '\t' {
            out.push('\\');
            out.push('t');
        } else {
            out.push(c);
        }
        assert(out@ =~= o0 + escaped(v@.take(i + 1)));
        i += 1;
    }
    assert(v@.take(v@.len() as int) =~= v@);
}

fn scalar_chars(value: &ConfigValue) -> (r: Option<Vec<char>>)
    ensures
        r is None <==> scalar_text(value@) is None,
        r matches Some(t) ==> scalar_text(value@) == Some(t@),
    decreases *value,
{
    match value {
        ConfigValue::Bool(b) => {
            let mut out: Vec<char> = Vec::new();
            if *b {
                extend_str(&mut out, "true");
            } else {
                extend_str(&mut out, "false");
            }
            Some(out)
        },
        ConfigValue::Int(i) => {
            let mut out: Vec<char> = Vec::new();
            push_int(&mut out, *i);
            assert(out@ =~= int_text(*i as int));
            Some(out)
        },
        ConfigValue::Float(f) => Some(chars_of(f.as_str())),
        ConfigValue::Str(s) => {
            let mut out: Vec<char> = Vec::new();
            out.push('"');
            push_escaped(&mut out, s.as_str());
            out.push('"');
            assert(out@ =~= seq!['"'] + escaped(s@) + seq!['"']);
            Some(out)
        },
        ConfigValue::Datetime(_) => None,
        ConfigValue::Array(xs) => {
            let ghost iv = items_view(*xs, xs@.len() as int);
            let ghost p = Plain::Array(iv);
            proof {
                lemma_items_view(*xs, xs@.len() as int);
            }
            assert(value@ == p);
            let mut out: Vec<char> = Vec::new();
            out.push('[');
            let mut i: usize = 0;
            while i < xs.len()
                invariant
                    i <= xs@.len(),
                    *value == ConfigValue::Array(*xs),
                    p == Plain::Array(iv),
                    value@ == p,
                    iv.len() == xs@.len(),
                    forall|j: int| 0 <= j < xs@.len() ==> #[trigger] iv[j] == xs@[j]@,
                    item_texts(p, i as int) is Some,
                    out@ == seq!['['] + joined(item_texts(p, i as int)->Some_0, ", "@),
                decreases xs.len() - i,
            {
                assert(decreases_to!(*value => xs@[i as int]));
                let ghost before = item_texts(p, i as int)->Some_0;
                match scalar_chars(&xs[i]) {
                    None => {
                        assert(item_texts(p, i + 1) is None);
                        proof {
                            lemma_item_texts_none(p, i + 1, iv.len() as int);
                        }
                        assert(scalar_text(p) is None);
                        return None;
                    },
                    Some(t) => {
                        assert(item_texts(p, i + 1) == Some(before.push(t@)));
                        proof {
                            lemma_joined_push(before, ", "@, t@);
                        }
                        if i > 0 {
                            extend_str(&mut out, ", ");
                        }
                        extend_chars(&mut out, &t);
                        assert(out@ =~= seq!['['] + joined(before.push(t@), ", "@));
                    },
                }
                i += 1;
            }
            out.push(']');
            Some(out)
        },
        ConfigValue::Record(f) => {
            let n = f.len();
            let ghost fv = fields_view(*f, n as int);
            let ghost p = Plain::Record(fv);
            proof {
                lemma_fields_view(*f, n as int);
            }
            assert(value@ == p);
            let mut out: Vec<char> = Vec::new();
            out.push('{');
            let mut i: usize = 0;
            while i < n
                invariant
                    n == f.pairs().len(),
                    i <= n,
                    *value == ConfigValue::Record(*f),
                    p == Plain::Record(fv),
                    value@ == p,
                    fv.len() == n,
                    forall|j: int|
                        0 <= j < n ==> #[trigger] fv[j] == (f.pairs()[j].0, f.pairs()[j].1@),
                    item_texts(p, i as int) is Some,
                    out@ == seq!['{'] + joined(item_texts(p, i as int)->Some_0, ", "@),
                decreases n - i,
            {
                proof {
                    f.lemma_value_decreases(i as int);
                    assert(decreases_to!(*value => *f));
                }
                let ghost before = item_texts(p, i as int)->Some_0;
                match scalar_chars(f.value_at(i)) {
                    None => {
                        assert(item_texts(p, i + 1) is None);
                        proof {
                            lemma_item_texts_none(p, i + 1, fv.len() as int);
                        }
                        assert(scalar_text(p) is None);
                        return None;
                    },
                    Some(t) => {
                        let name = f.key_at(i);
                        let ghost line = name@ + " = "@ + t@;
                        assert(item_texts(p, i + 1) == Some(before.push(line)));
                        proof {
                            lemma_joined_push(before, ", "@, line);
                        }
                        if i > 0 {
                            extend_str(&mut out, ", ");
                        }
                        extend_str(&mut out, name.as_str());
                        extend_str(&mut out, " = ");
                        extend_chars(&mut out, &t);
                        assert(out@ =~= seq!['{'] + joined(before.push(line), ", "@));
                    },
                }
                i += 1;
            }
            out.push('}');
            Some(out)
        },
    }
}

/// The TOML text of one value: booleans and integers as Rust prints
/// them, a float by its stored spelling, a string double-quoted with `\`,
/// `"`, newline and tab escaped, an array as `[a, b]`, a record inline as
/// `{k = v}`; a date/time anywhere inside is refused.
pub fn toml_scalar(value: &ConfigValue) -> (r: Result<String, ConfigError>)
    ensures
        r is Ok <==> scalar_text(value@) is Some,
        r matches Ok(t) ==> scalar_text(value@) == Some(t@),
        r matches Err(e) ==> e matches ConfigError::UnbridgedValue(m) && m@ == emit_datetime_message(),
{
    match scalar_chars(value) {
        Some(t) => Ok(string_of(&t)),
        None => Err(emit_datetime_error()),
    }
}


// --- dotted keys to nested tables ---------------------------------------

/// An entry of a nested table: a value, or a table of named entries.
pub enum Node {
    Leaf(Plain),
    Table(Seq<(Seq<char>, Node)>),
}

/// The segments of a dotted key, split at every dot (`a.b` gives `a`
/// and `b`; a key without a dot is one segment).
pub open spec fn segments(k: Seq<char>) -> Seq<Seq<char>> {
    pieces(k, '.')
}

/// The sub-table named `name` in `t`, or an empty table when there is
/// none (or the name holds a value, which the sub-table then replaces).
pub open spec fn child_table(t: Seq<(Seq<char>, Node)>, name: Seq<char>) -> Seq<(Seq<char>, Node)> {
    let i = lower_bound(pair_keys(t), name);
    if 0 <= i < t.len() && t[i].0 == name && t[i].1 is Table {
        t[i].1->Table_0
    } else {
        Seq::empty()
    }
}

/// `t` with value `v` placed at the path `segs`, creating (or turning
/// into tables) the intermediate entries.
pub open spec fn place(t: Seq<(Seq<char>, Node)>, segs: Seq<Seq<char>>, v: Plain) -> Seq<
    (Seq<char>, Node),
>
    decreases segs.len(),
{
    if segs.len() <= 1 {
        sorted_upsert(t, segs[0], Node::Leaf(v))
    } else {
        sorted_upsert(
            t,
            segs[0],
            Node::Table(place(child_table(t, segs[0]), segs.drop_first(), v)),
        )
    }
}

/// The nested table the first `n` (dotted key, value) pairs build, in
/// order.
pub open spec fn nested_from(ps: Seq<(Seq<char>, Plain)>, n: int) -> Seq<(Seq<char>, Node)>
    decreases n,
{
    if n <= 0 || n > ps.len() {
        Seq::empty()
    } else {
        place(nested_from(ps, n - 1), segments(ps[n - 1].0), ps[n - 1].1)
    }
}

/// The `name = value` lines of the value entries among the first `n`
/// entries of a table.
pub open spec fn leaf_lines(t: Seq<(Seq<char>, Node)>, n: int) -> Option<Seq<Seq<char>>>
    decreases n,
{
    if n <= 0 || n > t.len() {
        Some(Seq::empty())
    } else {
        match leaf_lines(t, n - 1) {
            None => None,
            Some(a) => match t[n - 1].1 {
                Node::Leaf(p) => match scalar_text(p) {
                    Some(x) => Some(a.push(t[n - 1].0 + " = "@ + x)),
                    None => None,
                },
                Node::Table(_) => Some(a),
            },
        }
    }
}

/// The header line of the section at `path`.
pub open spec fn section_header(path: Seq<Seq<char>>) -> Seq<char> {
    seq!['\n', '['] + joined(path, seq!['.']) + seq![']']
}

/// Header and (non-empty) body of each sub-table among the first `n`
/// entries of the table at `path`.
pub open spec fn table_parts(t: Seq<(Seq<char>, Node)>, path: Seq<Seq<char>>, n: int) -> Option<
    Seq<Seq<char>>,
>
    decreases t, 0int, n,
{
    if n <= 0 || n > t.len() {
        Some(Seq::empty())
    } else {
        match t[n - 1].1 {
            Node::Leaf(_) => table_parts(t, path, n - 1),
            Node::Table(_) => {
                proof {
                    assert(decreases_to!(t => t[n - 1]));
                    assert(decreases_to!(t[n - 1] => t[n - 1].1));
                    assert(decreases_to!(t[n - 1].1 => t[n - 1].1->Table_0));
                }
                let sub = path.push(t[n - 1].0);
                match (table_parts(t, path, n - 1), emit_table(t[n - 1].1->Table_0, sub)) {
                    (Some(a), Some(b)) => Some(
                        if b.len() == 0 {
                            a.push(section_header(sub))
                        } else {
                            a.push(section_header(sub)).push(b)
                        },
                    ),
                    _ => None,
                }
            },
        }
    }
}

/// The text of the table at `path`: its value lines, then its
/// sub-sections, one per line; `None` when a date/time occurs.
pub open spec fn emit_table(t: Seq<(Seq<char>, Node)>, path: Seq<Seq<char>>) -> Option<Seq<char>>
    decreases t, 1int, 0int,
{
    match (leaf_lines(t, t.len() as int), table_parts(t, path, t.len() as int)) {
        (Some(a), Some(b)) => Some(joined(a + b, seq!['\n'])),
        _ => None,
    }
}

/// Record values' contents, keyed as stored.
pub open spec fn plain_pairs(ps: Seq<(Seq<char>, ConfigValue)>) -> Seq<(Seq<char>, Plain)> {
    ps.map_values(|e: (Seq<char>, ConfigValue)| (e.0, e.1@))
}

/// The TOML text of a flat dotted-key map: empty for an empty map, else
/// the nested tables' text, trimmed, with one final newline.
pub open spec fn serialized(ps: Seq<(Seq<char>, Plain)>) -> Option<Seq<char>> {
    if ps.len() == 0 {
        Some(Seq::empty())
    } else {
        match emit_table(nested_from(ps, ps.len() as int), Seq::empty()) {
            Some(b) => Some(trim(b).push('\n')),
            None => None,
        }
    }
}


// --- the executable tree --------------------------------------------------

enum Nested {
    Leaf(ConfigValue),
    Table(Vec<(Vec<char>, Nested)>),
}

spec fn node_of(n: Nested) -> Node
    decreases n, 1int,
{
    match n {
        Nested::Leaf(v) => Node::Leaf(v@),
        Nested::Table(es) => Node::Table(entries_view(es, es@.len() as int)),
    }
}

spec fn entries_view(es: Vec<(Vec<char>, Nested)>, n: int) -> Seq<(Seq<char>, Node)>
    decreases es, n,
{
    if n <= 0 || n > es@.len() {
        Seq::empty()
    } else {
        proof {
            assert(decreases_to!(es => es@[n - 1]));
            assert(decreases_to!(es@[n - 1] => es@[n - 1].1));
        }
        entries_view(es, n - 1).push((es@[n - 1].0@, node_of(es@[n - 1].1)))
    }
}

spec fn tv(es: Vec<(Vec<char>, Nested)>) -> Seq<(Seq<char>, Node)> {
    entries_view(es, es@.len() as int)
}

proof fn lemma_entries_view(es: Vec<(Vec<char>, Nested)>, n: int)
    requires
        0 <= n <= es@.len(),
    ensures
        entries_view(es, n).len() == n,
        forall|i: int|
            0 <= i < n ==> #[trigger] entries_view(es, n)[i] == (es@[i].0@, node_of(es@[i].1)),
    decreases n,
{
    if n > 0 {
        lemma_entries_view(es, n - 1);
    }
}

proof fn lemma_tv(es: Vec<(Vec<char>, Nested)>)
    ensures
        tv(es).len() == es@.len(),
        forall|i: int| 0 <= i < es@.len() ==> #[trigger] tv(es)[i] == (es@[i].0@, node_of(es@[i].1)),
        forall|i: int| 0 <= i < es@.len() ==> #[trigger] pair_keys(tv(es))[i] == es@[i].0@,
{
    lemma_entries_view(es, es@.len() as int);
}

fn lower_bound_in(es: &Vec<(Vec<char>, Nested)>, name: &Vec<char>) -> (r: usize)
    ensures
        r == lower_bound(pair_keys(tv(*es)), name@),
        r <= es@.len(),
{
    proof {
        lemma_tv(*es);
    }
    let ghost ks = pair_keys(tv(*es));
    assert(ks.take(ks.len() as int) =~= ks);
    let mut i: usize = es.len();
    while i > 0
        invariant
            i <= es@.len(),
            ks == pair_keys(tv(*es)),
            ks.len() == es@.len(),
            forall|j: int| 0 <= j < es@.len() ==> #[trigger] ks[j] == es@[j].0@,
            lower_bound(ks, name@) == lower_bound(ks.take(i as int), name@),
        decreases i,
    {
        let c = compare_chars(&es[i - 1].0, name);
        assert(ks.take(i as int).last() == ks[i - 1]);
        if c == Cmp::Less {
            return i;
        }
        assert(ks.take(i as int).drop_last() =~= ks.take(i - 1));
        i -= 1;
    }
    i
}

fn place_in(
    es: Vec<(Vec<char>, Nested)>,
    segs: &Vec<Vec<char>>,
    k: usize,
    v: ConfigValue,
) -> (r: Vec<(Vec<char>, Nested)>)
    requires
        k < segs@.len(),
    ensures
        tv(r) == place(tv(es), char_views(segs@).skip(k as int), v@),
    decreases segs@.len() - k,
{
    let mut es = es;
    let ghost t = tv(es);
    let ghost sv = char_views(segs@).skip(k as int);
    let name = copy_chars(&segs[k]);
    assert(sv[0] == name@);
    let i = lower_bound_in(&es, &name);
    proof {
        lemma_tv(es);
    }
    let found = i < es.len() && compare_chars(&es[i].0, &name) == Cmp::Equal;
    assert(found == (0 <= i < t.len() && t[i as int].0 == name@));
    if k == segs.len() - 1 {
        let ghost leaf = Node::Leaf(v@);
        if found {
            es.remove(i);
        }
        es.insert(i, (name, Nested::Leaf(v)));
        proof {
            lemma_tv(es);
            assert(node_of(Nested::Leaf(v)) == leaf);
            if found {
                assert(tv(es) =~= t.update(i as int, (sv[0], leaf)));
            } else {
                assert(tv(es) =~= t.insert(i as int, (sv[0], leaf)));
            }
        }
        es
    } else {
        let child: Vec<(Vec<char>, Nested)> = if found {
            let (_, node) = es.remove(i);
            match node {
                Nested::Table(c) => c,
                Nested::Leaf(_) => Vec::new(),
            }
        } else {
            Vec::new()
        };
        proof {
            lemma_tv(child);
            assert(tv(child) =~= child_table(t, sv[0]));
            assert(char_views(segs@).skip(k + 1) =~= sv.drop_first());
        }
        let newc = place_in(child, segs, k + 1, v);
        let ghost sub = Node::Table(tv(newc));
        es.insert(i, (name, Nested::Table(newc)));
        proof {
            lemma_tv(es);
            if found {
                assert(tv(es) =~= t.update(i as int, (sv[0], sub)));
            } else {
                assert(tv(es) =~= t.insert(i as int, (sv[0], sub)));
            }
        }
        es
    }
}


fn copy_segs(p: &Vec<Vec<char>>) -> (r: Vec<Vec<char>>)
    ensures
        char_views(r@) == char_views(p@),
{
    let mut r: Vec<Vec<char>> = Vec::new();
    let mut i: usize = 0;
    while i < p.len()
        invariant
            i <= p@.len(),
            r@.len() == i,
            forall|j: int| 0 <= j < i ==> (#[trigger] r@[j])@ == p@[j]@,
        decreases p.len() - i,
    {
        r.push(copy_chars(&p[i]));
        i += 1;
    }
    assert(char_views(r@) =~= char_views(p@));
    r
}

fn join_chars(parts: &Vec<Vec<char>>, sep: char) -> (r: Vec<char>)
    ensures
        r@ == joined(char_views(parts@), seq![sep]),
{
    let ghost pv = char_views(parts@);
    let mut r: Vec<char> = Vec::new();
    let mut i: usize = 0;
    while i < parts.len()
        invariant
            i <= parts@.len(),
            pv == char_views(parts@),
            r@ == joined(pv.take(i as int), seq![sep]),
        decreases parts.len() - i,
    {
        proof {
            lemma_joined_push(pv.take(i as int), seq![sep], parts@[i as int]@);
            assert(pv.take(i as int).push(parts@[i as int]@) =~= pv.take(i + 1));
        }
        if i > 0 {
            r.push(sep);
        }
        extend_chars(&mut r, &parts[i]);
        assert(r@ =~= joined(pv.take(i + 1), seq![sep]));
        i += 1;
    }
    assert(pv.take(parts@.len() as int) =~= pv);
    r
}

proof fn lemma_leaf_lines_none(t: Seq<(Seq<char>, Node)>, n: int, m: int)
    requires
        0 <= n <= m <= t.len(),
        leaf_lines(t, n) is None,
    ensures
        leaf_lines(t, m) is None,
    decreases m - n,
{
    if n < m {
        lemma_leaf_lines_none(t, n, m - 1);
    }
}

proof fn lemma_table_parts_none(t: Seq<(Seq<char>, Node)>, path: Seq<Seq<char>>, n: int, m: int)
    requires
        0 <= n <= m <= t.len(),
        table_parts(t, path, n) is None,
    ensures
        table_parts(t, path, m) is None,
    decreases m - n,
{
    if n < m {
        lemma_table_parts_none(t, path, n, m - 1);
    }
}

fn emit_nested(t: &Vec<(Vec<char>, Nested)>, path: &Vec<Vec<char>>) -> (r: Option<Vec<char>>)
    ensures
        r is None <==> emit_table(tv(*t), char_views(path@)) is None,
        r matches Some(x) ==> emit_table(tv(*t), char_views(path@)) == Some(x@),
    decreases *t,
{
    proof {
        lemma_tv(*t);
    }
    let ghost tt = tv(*t);
    let ghost pv = char_views(path@);
    let n = t.len();
    let mut parts: Vec<Vec<char>> = Vec::new();
    let mut j: usize = 0;
    while j < n
        invariant
            j <= n,
            n == t@.len(),
            tt == tv(*t),
            tt.len() == n,
            forall|i: int| 0 <= i < n ==> #[trigger] tt[i] == (t@[i].0@, node_of(t@[i].1)),
            leaf_lines(tt, j as int) == Some(char_views(parts@)),
        decreases n - j,
    {
        match &t[j].1 {
            Nested::Leaf(v) => {
                assert(tt[j as int].1 == Node::Leaf(v@));
                match scalar_chars(v) {
                    None => {
                        assert(leaf_lines(tt, j + 1) is None);
                        proof {
                            lemma_leaf_lines_none(tt, j + 1, n as int);
                        }
                        return None;
                    },
                    Some(x) => {
                        let ghost before = char_views(parts@);
                        let mut line = copy_chars(&t[j].0);
                        extend_str(&mut line, " = ");
                        extend_chars(&mut line, &x);
                        parts.push(line);
                        assert(char_views(parts@) =~= before.push(t@[j as int].0@ + " = "@ + x@));
                    },
                }
            },
            Nested::Table(_) => {},
        }
        j += 1;
    }
    let ghost a = char_views(parts@);
    let mut j: usize = 0;
    while j < n
        invariant
            j <= n,
            n == t@.len(),
            tt == tv(*t),
            pv == char_views(path@),
            tt.len() == n,
            forall|i: int| 0 <= i < n ==> #[trigger] tt[i] == (t@[i].0@, node_of(t@[i].1)),
            leaf_lines(tt, n as int) == Some(a),
            table_parts(tt, pv, j as int) is Some,
            char_views(parts@) == a + table_parts(tt, pv, j as int)->Some_0,
        decreases n - j,
    {
        match &t[j].1 {
            Nested::Leaf(_) => {},
            Nested::Table(c) => {
                proof {
                    assert(decreases_to!(*t => t@));
                    assert(decreases_to!(t@ => t@[j as int]));
                    assert(decreases_to!(t@[j as int] => t@[j as int].1));
                    assert(decreases_to!(t@[j as int].1 => t@[j as int].1->Table_0));
                }
                let ghost before = char_views(parts@);
                let ghost b0 = table_parts(tt, pv, j as int)->Some_0;
                let mut sub = copy_segs(path);
                sub.push(copy_chars(&t[j].0));
                let ghost sv = pv.push(t@[j as int].0@);
                assert(char_views(sub@) =~= sv);
                let mut header: Vec<char> = Vec::new();
                header.push('\n');
                header.push('[');
                let jp = join_chars(&sub, '.');
                extend_chars(&mut header, &jp);
                header.push(']');
                assert(header@ =~= section_header(sv));
                assert(tt[j as int].1->Table_0 == tv(*c));
                match emit_nested(c, &sub) {
                    None => {
                        assert(table_parts(tt, pv, j + 1) is None);
                        proof {
                            lemma_table_parts_none(tt, pv, j + 1, n as int);
                        }
                        return None;
                    },
                    Some(b) => {
                        let ghost hv = header@;
                        parts.push(header);
                        assert(char_views(parts@) =~= before.push(hv));
                        if b.len() > 0 {
                            let ghost bv = b@;
                            let ghost p1 = char_views(parts@);
                            parts.push(b);
                            assert(char_views(parts@) =~= p1.push(bv));
                            assert(char_views(parts@) =~= a + b0.push(section_header(sv)).push(b@));
                        } else {
                            assert(char_views(parts@) =~= a + b0.push(section_header(sv)));
                        }
                    },
                }
            },
        }
        j += 1;
    }
    let out = join_chars(&parts, '\n');
    Some(out)
}

fn split_nested(flat: &StrMap<ConfigValue>) -> (r: Vec<(Vec<char>, Nested)>)
    ensures
        tv(r) == nested_from(plain_pairs(flat.pairs()), flat.pairs().len() as int),
{
    let n = flat.len();
    let ghost pp = plain_pairs(flat.pairs());
    let mut t: Vec<(Vec<char>, Nested)> = Vec::new();
    proof {
        lemma_tv(t);
    }
    assert(tv(t) =~= nested_from(pp, 0));
    let mut i: usize = 0;
    while i < n
        invariant
            i <= n,
            n == flat.pairs().len(),
            pp == plain_pairs(flat.pairs()),
            tv(t) == nested_from(pp, i as int),
        decreases n - i,
    {
        let key = chars_of(flat.key_at(i).as_str());
        let segs = split_on(&key, '.');
        assert(segments(key@).len() > 0);
        let v = flat.value_at(i).deep_copy();
        assert(pp[i as int] == (key@, v@));
        assert(char_views(segs@).skip(0) =~= char_views(segs@));
        t = place_in(t, &segs, 0, v);
        i += 1;
    }
    t
}

/// The deterministic TOML text of a flat dotted-key map (what `set`
/// writes and the inlined layer restores to): `""` for an empty map.
pub fn serialize_flat(flat: &StrMap<ConfigValue>) -> (r: Result<String, ConfigError>)
    ensures
        r is Ok <==> serialized(plain_pairs(flat.pairs())) is Some,
        r matches Ok(t) ==> serialized(plain_pairs(flat.pairs())) == Some(t@),
        r matches Err(e) ==> e matches ConfigError::UnbridgedValue(m) && m@ == emit_datetime_message(),
{
    if flat.len() == 0 {
        let empty: Vec<char> = Vec::new();
        return Ok(string_of(&empty));
    }
    let nested = split_nested(flat);
    let root: Vec<Vec<char>> = Vec::new();
    assert(char_views(root@) =~= Seq::<Seq<char>>::empty());
    match emit_nested(&nested, &root) {
        Some(body) => {
            let mut t = trim_chars(&body);
            t.push('\n');
            Ok(string_of(&t))
        },
        None => Err(emit_datetime_error()),
    }
}

} // verus!
