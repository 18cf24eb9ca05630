//! Reading `.topo` back into a [`Graph`] from the toolchain's AST dump.
//!
//! The `.topo` text is parsed by the real `topo --ast-dump` (run by the
//! host); this module reads the parser's structured dump, one trimmed
//! line at a time: `NamespaceDecl 'ns'`, `HandlerDecl 'name(T p) -> R'`,
//! `FlowBlock 'name'` and `Edge a -> b` (a target `void` is terminal).
use vstd::prelude::*;
use crate::text::{
    chars_of, string_of, extend_str, trim, trim_chars, find_first, lemma_find_first, find_char,
    find_last, lemma_find_last_in, rfind_char, find_pair, find_pair_chars, last_space,
    rfind_space, starts_with, starts_with_chars, before_first, pieces, split_on, char_views,
    slice_chars, copy_chars, lemma_find_pair_from, is_space, lemma_trim_padded, lemma_trim_unpadded,
    lemma_pieces_single, lemma_pieces_concat, lemma_contains_concat, lemma_find_first_after, lemma_trim_empty,
};
use crate::schema::{TypeRef, TypeTree, type_fields, lemma_type_fields, type_text, field_texts, lemma_field_texts};
use crate::toml_emit::joined;
use crate::graph::{Graph, Handler, Edge, Flow, EdgeKey, edge_keys};

verus! {

// --- types -------------------------------------------------------------------

/// A record field as the dump spells it: `name: type` (a missing `:`
/// gives an empty type).
pub open spec fn field_of(part: Seq<char>) -> (Seq<char>, TypeTree) {
    let i = find_first(part, ':');
    if i < 0 || i >= part.len() {
        (trim(part), TypeTree::Scalar(Seq::empty()))
    } else {
        (trim(part.take(i)), TypeTree::Scalar(trim(part.skip(i + 1))))
    }
}

/// The type a dumped spelling denotes: `record<a: T, b: U>` (split at
/// every comma, one nesting level) or a scalar name, after trimming.
pub open spec fn parsed_type(spec: Seq<char>) -> TypeTree {
    let s = trim(spec);
    if starts_with(s, "record<"@) && s.len() >= 8 && s.last() == '>' {
        TypeTree::Record(pieces(s.subrange(7, s.len() - 1), ',').map_values(|p: Seq<char>| field_of(p)))
    } else {
        TypeTree::Scalar(s)
    }
}

/// The type a dumped spelling denotes.
pub fn parse_type(spec: &str) -> (r: TypeRef)
    ensures
        r@ == parsed_type(spec@),
{
    let v = chars_of(spec);
    parse_type_chars(&v)
}

fn parse_type_chars(spec: &Vec<char>) -> (r: TypeRef)
    ensures
        r@ == parsed_type(spec@),
{
    let s = trim_chars(spec);
    proof {
        reveal_strlit("record<");
    }
    if starts_with_chars(&s, "record<") && s.len() >= 8 && s[s.len() - 1] == '>' {
        let inner = slice_chars(&s, 7, s.len() - 1);
        let parts = split_on(&inner, ',');
        let ghost ps = pieces(inner@, ',');
        let mut fields: Vec<(String, TypeRef)> = Vec::new();
        let mut i: usize = 0;
        while i < parts.len()
            invariant
                i <= parts@.len(),
                char_views(parts@) == ps,
                fields@.len() == i,
                forall|j: int| 0 <= j < i ==> ((#[trigger] fields@[j]).0@, fields@[j].1@) == field_of(ps[j]),
            decreases parts.len() - i,
        {
            let part = &parts[i];
            assert(ps[i as int] == part@);
            proof {
                lemma_find_first(part@, ':');
            }
            let (name, ty) = match find_char(part, ':') {
                Some(k) => {
                    let a = slice_chars(part, 0, k);
                    let b = slice_chars(part, k + 1, part.len());
                    assert(a@ =~= part@.take(k as int));
                    assert(b@ =~= part@.skip(k + 1));
                    (trim_chars(&a), trim_chars(&b))
                },
                None => {
                    let e: Vec<char> = Vec::new();
                    (trim_chars(part), e)
                },
            };
            let field_ty = TypeRef::Scalar(string_of(&ty));
            assert(field_ty@ == TypeTree::Scalar(ty@));
            fields.push((string_of(&name), field_ty));
            i += 1;
        }
        proof {
            lemma_type_fields(fields, fields@.len() as int);
            assert(type_fields(fields, fields@.len() as int) =~= ps.map_values(|p: Seq<char>| field_of(p)));
            assert(inner@ =~= s@.subrange(7, s@.len() - 1));
        }
        TypeRef::Record(fields)
    } else {
        TypeRef::Scalar(string_of(&s))
    }
}

// --- reading a spelling back -------------------------------------------------

/// A record field whose `.topo` spelling reads back as itself: the name
/// and its scalar type carry no surrounding whitespace and no `,`, and
/// the name no `:`.
pub open spec fn field_reads_back(f: (Seq<char>, TypeTree)) -> bool {
    &&& trim(f.0) == f.0
    &&& !f.0.contains(',')
    &&& !f.0.contains(':')
    &&& f.1 matches TypeTree::Scalar(x) && trim(x) == x && !x.contains(',')
}

/// A type whose `.topo` spelling reads back as itself: a scalar without
/// surrounding whitespace that is not itself spelled like a record, or a
/// record of at least one field, each reading back.
pub open spec fn spelling_reads_back(t: TypeTree) -> bool {
    match t {
        TypeTree::Scalar(s) => trim(s) == s && !(starts_with(s, "record<"@) && s.len() >= 8 && s.last()
            == '>'),
        TypeTree::Record(fs) => fs.len() > 0 && forall|i: int|
            0 <= i < fs.len() ==> field_reads_back(#[trigger] fs[i]),
    }
}

/// The field texts of a record split back apart at every comma: the first
/// as it is, each later one after the space of the `, ` separator.
proof fn lemma_pieces_joined(parts: Seq<Seq<char>>)
    requires
        parts.len() >= 1,
        forall|i: int| 0 <= i < parts.len() ==> !(#[trigger] parts[i]).contains(','),
    ensures
        pieces(joined(parts, ", "@), ',').len() == parts.len(),
        pieces(joined(parts, ", "@), ',')[0] == parts[0],
        forall|i: int|
            1 <= i < parts.len() ==> #[trigger] pieces(joined(parts, ", "@), ',')[i] == seq![' '] + parts[i],
    decreases parts.len(),
{
    reveal_strlit(", ");
    if parts.len() == 1 {
        lemma_pieces_single(parts[0], ',');
    } else {
        let init = parts.drop_last();
        let last = parts.last();
        assert forall|i: int| 0 <= i < init.len() implies !(#[trigger] init[i]).contains(',') by {
            assert(init[i] == parts[i]);
        }
        lemma_pieces_joined(init);
        let sp = seq![' '] + last;
        assert(joined(parts, ", "@) =~= joined(init, ", "@) + seq![','] + sp);
        assert(!seq![' '].contains(',')) by {
            assert(seq![' '][0] == ' ');
        }
        assert(!last.contains(',')) by {
            assert(last == parts[parts.len() - 1]);
        }
        lemma_contains_concat(seq![' '], last, ',');
        lemma_pieces_single(sp, ',');
        lemma_pieces_concat(joined(init, ", "@), sp, ',');
        let ps = pieces(joined(parts, ", "@), ',');
        assert(ps == pieces(joined(init, ", "@), ',') + seq![sp]);
        assert forall|i: int| 1 <= i < parts.len() implies #[trigger] ps[i] == seq![' '] + parts[i] by {
            if i < init.len() {
                assert(init[i] == parts[i]);
            }
        }
    }
}

/// A `name: type` field text, after nothing or after one space, reads
/// back as the field.
proof fn lemma_field_of_text(pre: Seq<char>, name: Seq<char>, x: Seq<char>)
    requires
        pre == Seq::<char>::empty() || pre == seq![' '],
        trim(name) == name,
        !name.contains(':'),
        trim(x) == x,
    ensures
        field_of(pre + (name + ": "@ + x)) == (name, TypeTree::Scalar(x)),
{
    reveal_strlit(": ");
    let a = pre + name;
    let b = seq![' '] + x;
    let p = pre + (name + ": "@ + x);
    assert(p =~= a + seq![':'] + b);
    assert(!pre.contains(':')) by {
        if pre.len() > 0 {
            assert(pre[0] == ' ');
        }
    }
    assert(forall|j: int| 0 <= j < pre.len() ==> is_space(#[trigger] pre[j])) by {
        if pre.len() > 0 {
            assert(pre[0] == ' ');
        }
    }
    lemma_contains_concat(pre, name, ':');
    lemma_find_first_after(a, b, ':');
    assert(p.take(a.len() as int) =~= pre + name + Seq::<char>::empty());
    assert(p.skip(a.len() as int + 1) =~= seq![' '] + x + Seq::<char>::empty());
    lemma_trim_padded(pre, name, Seq::empty());
    assert(forall|j: int| 0 <= j < 1 ==> is_space(#[trigger] seq![' '][j])) by {
        assert(seq![' '][0] == ' ');
    }
    lemma_trim_padded(seq![' '], x, Seq::empty());
}

/// Reading a type's `.topo` spelling back gives the type again
/// (`parse_type(&t.topo())` is `t`), also when whitespace surrounds the
/// spelling; this holds of every scalar without surrounding whitespace
/// that is not spelled like a record, and of every record of at least one
/// scalar-typed field whose name and type carry no surrounding whitespace
/// and no `,` (the name no `:`).
pub proof fn lemma_spelling_reads_back(t: TypeTree, pre: Seq<char>, post: Seq<char>)
    requires
        spelling_reads_back(t),
        forall|j: int| 0 <= j < pre.len() ==> is_space(#[trigger] pre[j]),
        forall|j: int| 0 <= j < post.len() ==> is_space(#[trigger] post[j]),
    ensures
        parsed_type(pre + type_text(t) + post) == t,
{
    match t {
        TypeTree::Scalar(s) => {
            lemma_trim_padded(pre, s, post);
        },
        TypeTree::Record(fs) => {
            reveal_strlit("record<");
            reveal_strlit(">");
            reveal_strlit(": ");
            let n = fs.len() as int;
            lemma_field_texts(t, n);
            let parts = field_texts(t, n);
            assert(!": "@.contains(',')) by {
                assert(": "@ =~= seq![':', ' ']);
            }
            assert forall|i: int| 0 <= i < parts.len() implies !(#[trigger] parts[i]).contains(',') by {
                assert(field_reads_back(fs[i]));
                let x = fs[i].1->Scalar_0;
                lemma_contains_concat(fs[i].0, ": "@, ',');
                lemma_contains_concat(fs[i].0 + ": "@, x, ',');
            }
            lemma_pieces_joined(parts);
            let j = joined(parts, ", "@);
            assert(j.len() >= 2) by {
                assert(field_reads_back(fs[n - 1]));
                if n > 1 {
                    assert(j == joined(parts.drop_last(), ", "@) + ", "@ + parts.last());
                }
            }
            let s = type_text(t);
            assert(s == "record<"@ + j + ">"@);
            assert(s[0] == 'r');
            assert(s[s.len() - 1] == '>');
            lemma_trim_unpadded(s);
            lemma_trim_padded(pre, s, post);
            assert(s.take(7) =~= "record<"@);
            assert(s.subrange(7, s.len() - 1) =~= j);
            let got = pieces(j, ',').map_values(|p: Seq<char>| field_of(p));
            assert forall|i: int| 0 <= i < n implies #[trigger] got[i] == fs[i] by {
                assert(field_reads_back(fs[i]));
                let x = fs[i].1->Scalar_0;
                if i == 0 {
                    assert(pieces(j, ',')[0] =~= Seq::<char>::empty() + parts[0]);
                    lemma_field_of_text(Seq::empty(), fs[i].0, x);
                } else {
                    lemma_field_of_text(seq![' '], fs[i].0, x);
                }
            }
            assert(got =~= fs);
        },
    }
}

// --- dump lines ----------------------------------------------------------------

/// The text between the first and the last `'` of `s`, when non-empty.
pub open spec fn quoted(s: Seq<char>) -> Option<Seq<char>> {
    let a = find_first(s, '\'');
    let b = find_last(s, '\'');
    if a < 0 || b <= a + 1 {
        None
    } else {
        Some(s.subrange(a + 1, b))
    }
}

fn quoted_chars(s: &Vec<char>) -> (r: Option<Vec<char>>)
    ensures
        r is None <==> quoted(s@) is None,
        r matches Some(q) ==> quoted(s@) == Some(q@),
{
    proof {
        lemma_find_first(s@, '\'');
        lemma_find_last_in(s@, '\'', s@.len() as int);
    }
    match find_char(s, '\'') {
        None => None,
        Some(a) => match rfind_char(s, '\'') {
            None => None,
            Some(b) => {
                let len = s.len();
                assert(a < len);
                if b > a + 1 {
                    Some(slice_chars(s, a + 1, b))
                } else {
                    None
                }
            },
        },
    }
}

/// A handler as read from a dump: name, input type, output type.
pub type HandlerParse = (Seq<char>, Option<TypeTree>, TypeTree);

/// The signature text of a `HandlerDecl` split at the first `->`.
pub open spec fn decl_sig(decl: Seq<char>) -> Seq<char> {
    trim(decl.take(find_pair(decl, '-', '>')))
}

/// The dumped handler `name(Type param) -> Ret`, if it has that shape:
/// the input type is the parameter text before its last whitespace.
pub open spec fn handler_of(decl: Seq<char>) -> Option<HandlerParse> {
    let k = find_pair(decl, '-', '>');
    if k < 0 {
        None
    } else {
        let sig = decl_sig(decl);
        let ret = trim(decl.skip(k + 2));
        let o = find_first(sig, '(');
        let c = find_last(sig, ')');
        if o < 0 || c < 0 {
            None
        } else {
            let params = trim(sig.subrange(o + 1, c));
            let in_type = if params.len() == 0 {
                None
            } else {
                let w = last_space(params);
                Some(
                    parsed_type(
                        if w < 0 {
                            params
                        } else {
                            trim(params.take(w))
                        },
                    ),
                )
            };
            Some((trim(sig.take(o)), in_type, parsed_type(ret)))
        }
    }
}

/// A handler declaration reads back as a source handler (no input type)
/// exactly when the text between its parentheses is empty or only
/// whitespace; any other parameter text gives it an input type.
pub proof fn lemma_source_handler_has_no_input(decl: Seq<char>)
    requires
        !decl_unreadable(decl),
    ensures
        handler_of(decl) matches Some(h) ==> {
            let sig = trim(decl.take(find_pair(decl, '-', '>')));
            let params = sig.subrange(find_first(sig, '(') + 1, find_last(sig, ')'));
            h.1 is None <==> forall|j: int| 0 <= j < params.len() ==> is_space(#[trigger] params[j])
        },
{
    let sig = trim(decl.take(find_pair(decl, '-', '>')));
    lemma_find_first(sig, '(');
    lemma_find_last_in(sig, ')', sig.len() as int);
    let o = find_first(sig, '(');
    let c = find_last(sig, ')');
    if o >= 0 && c >= 0 {
        assert(c != o);
        lemma_trim_empty(sig.subrange(o + 1, c));
    }
}

/// A `HandlerDecl` whose last `)` comes before its first `(` cannot be
/// read (the parameter slice would run backwards).
pub open spec fn decl_unreadable(decl: Seq<char>) -> bool {
    let k = find_pair(decl, '-', '>');
    let sig = decl_sig(decl);
    k >= 0 && find_first(sig, '(') >= 0 && find_last(sig, ')') >= 0 && find_last(sig, ')') < find_first(
        sig,
        '(',
    )
}

/// The dumped edge `src -> tgt` (text after a `[` ignored; `void` is a
/// terminal target), if it has that shape.
pub open spec fn edge_of(rest: Seq<char>) -> Option<EdgeKey> {
    let core = trim(before_first(rest, '['));
    let k = find_pair(core, '-', '>');
    if k < 0 {
        None
    } else {
        let tgt = trim(core.skip(k + 2));
        Some((trim(core.take(k)), if tgt == "void"@ { None } else { Some(tgt) }))
    }
}

/// What a read dump holds so far: namespace, handlers, flow with edges.
pub type DumpState = (Seq<char>, Seq<HandlerParse>, Option<(Seq<char>, Seq<EdgeKey>)>);

/// The effect of one dump line.
pub open spec fn dump_step(st: DumpState, line: Seq<char>) -> DumpState {
    let s = trim(line);
    if starts_with(s, "NamespaceDecl "@) {
        match quoted(s.skip(14)) {
            Some(n) => (n, st.1, st.2),
            None => st,
        }
    } else if starts_with(s, "HandlerDecl "@) {
        match quoted(s.skip(12)) {
            Some(decl) => match handler_of(decl) {
                Some(h) => (st.0, st.1.push(h), st.2),
                None => st,
            },
            None => st,
        }
    } else if starts_with(s, "FlowBlock "@) {
        match quoted(s.skip(10)) {
            Some(n) => (st.0, st.1, Some((n, Seq::empty()))),
            None => st,
        }
    } else if starts_with(s, "Edge "@) {
        match (st.2, edge_of(s.skip(5))) {
            (Some(f), Some(e)) => (st.0, st.1, Some((f.0, f.1.push(e)))),
            _ => st,
        }
    } else {
        st
    }
}

/// A line that cannot be read.
pub open spec fn line_unreadable(line: Seq<char>) -> bool {
    let s = trim(line);
    starts_with(s, "HandlerDecl "@) && !starts_with(s, "NamespaceDecl "@) && (quoted(s.skip(12)) matches Some(
        decl,
    ) && decl_unreadable(decl))
}

/// The state after the first `n` lines.
pub open spec fn dump_fold(lines: Seq<Seq<char>>, n: int) -> DumpState
    decreases n,
{
    if n <= 0 || n > lines.len() {
        (Seq::empty(), Seq::empty(), None)
    } else {
        dump_step(dump_fold(lines, n - 1), lines[n - 1])
    }
}

/// What a whole dump holds.
pub open spec fn dump_state(dump: Seq<char>) -> DumpState {
    dump_fold(pieces(dump, '\n'), pieces(dump, '\n').len() as int)
}

/// Every line of the dump can be read.
pub open spec fn dump_readable(dump: Seq<char>) -> bool {
    forall|i: int| 0 <= i < pieces(dump, '\n').len() ==> !line_unreadable(#[trigger] pieces(dump, '\n')[i])
}

/// A handler's content as a dump records it.
pub open spec fn handler_parse(h: Handler) -> HandlerParse {
    (
        h.name@,
        match h.in_type {
            Some(t) => Some(t@),
            None => None,
        },
        h.out_type@,
    )
}

/// A graph's content as a dump records it.
pub open spec fn graph_state(g: Graph) -> DumpState {
    (
        g.namespace@,
        g.handlers@.map_values(|h: Handler| handler_parse(h)),
        match g.flow {
            Some(f) => Some((f.name@, edge_keys(f.edges@))),
            None => None,
        },
    )
}


// --- reading the dump ----------------------------------------------------------

fn handler_of_chars(decl: &Vec<char>) -> (r: Option<Handler>)
    requires
        !decl_unreadable(decl@),
    ensures
        r is None <==> handler_of(decl@) is None,
        r matches Some(h) ==> handler_of(decl@) == Some(handler_parse(h)),
{
    proof {
        lemma_find_pair_from(decl@, '-', '>', 0);
    }
    match find_pair_chars(decl, '-', '>') {
        None => None,
        Some(k) => {
            let a = slice_chars(decl, 0, k);
            assert(a@ =~= decl@.take(k as int));
            let sig = trim_chars(&a);
            let len = decl.len();
            assert(k + 1 < len);
            let b = slice_chars(decl, k + 2, len);
            assert(b@ =~= decl@.skip(k + 2));
            let ret = trim_chars(&b);
            proof {
                lemma_find_first(sig@, '(');
                lemma_find_last_in(sig@, ')', sig@.len() as int);
            }
            match find_char(&sig, '(') {
                None => None,
                Some(o) => match rfind_char(&sig, ')') {
                    None => None,
                    Some(c) => {
                        assert(sig@[o as int] == '(');
                        assert(sig@[c as int] == ')');
                        assert(o < c);
                        let n0 = slice_chars(&sig, 0, o);
                        assert(n0@ =~= sig@.take(o as int));
                        let name = trim_chars(&n0);
                        let p0 = slice_chars(&sig, o + 1, c);
                        let params = trim_chars(&p0);
                        let in_type = if params.len() == 0 {
                            None
                        } else {
                            match rfind_space(&params) {
                                Some(w) => {
                                    let t0 = slice_chars(&params, 0, w);
                                    assert(t0@ =~= params@.take(w as int));
                                    let ts = trim_chars(&t0);
                                    Some(parse_type_chars(&ts))
                                },
                                None => Some(parse_type_chars(&params)),
                            }
                        };
                        let out_type = parse_type_chars(&ret);
                        Some(Handler { name: string_of(&name), in_type, out_type })
                    },
                },
            }
        },
    }
}

fn edge_of_chars(rest: &Vec<char>) -> (r: Option<Edge>)
    ensures
        r is None <==> edge_of(rest@) is None,
        r matches Some(e) ==> edge_of(rest@) == Some(crate::graph::edge_key(e)),
{
    proof {
        lemma_find_first(rest@, '[');
    }
    let pre = match find_char(rest, '[') {
        Some(i) => slice_chars(rest, 0, i),
        None => copy_chars(rest),
    };
    assert(pre@ =~= before_first(rest@, '['));
    let core = trim_chars(&pre);
    proof {
        lemma_find_pair_from(core@, '-', '>', 0);
    }
    match find_pair_chars(&core, '-', '>') {
        None => None,
        Some(k) => {
            let a = slice_chars(&core, 0, k);
            assert(a@ =~= core@.take(k as int));
            let src = trim_chars(&a);
            let len = core.len();
            assert(k + 1 < len);
            let b = slice_chars(&core, k + 2, len);
            assert(b@ =~= core@.skip(k + 2));
            let tgt = trim_chars(&b);
            let void_word = chars_of("void");
            let is_void = crate::text::compare_chars(&tgt, &void_word) == crate::text::Cmp::Equal;
            let target = if is_void {
                None
            } else {
                Some(string_of(&tgt))
            };
            Some(Edge { source: string_of(&src), target })
        },
    }
}

struct ReadState {
    ns: Vec<char>,
    hs: Vec<Handler>,
    flow: Option<Flow>,
}

spec fn read_view(st: ReadState) -> DumpState {
    (
        st.ns@,
        st.hs@.map_values(|h: Handler| handler_parse(h)),
        match st.flow {
            Some(f) => Some((f.name@, edge_keys(f.edges@))),
            None => None,
        },
    )
}

fn apply_line(st: ReadState, line: &Vec<char>) -> (r: ReadState)
    requires
        !line_unreadable(line@),
    ensures
        read_view(r) == dump_step(read_view(st), line@),
{
    let s = trim_chars(line);
    proof {
        reveal_strlit("NamespaceDecl ");
        reveal_strlit("HandlerDecl ");
        reveal_strlit("FlowBlock ");
        reveal_strlit("Edge ");
    }
    let ReadState { ns, hs, flow } = st;
    let ghost before = read_view(ReadState { ns, hs, flow });
    if starts_with_chars(&s, "NamespaceDecl ") {
        let rest = slice_chars(&s, 14, s.len());
        assert(rest@ =~= s@.skip(14));
        match quoted_chars(&rest) {
            Some(n) => ReadState { ns: n, hs, flow },
            None => ReadState { ns, hs, flow },
        }
    } else if starts_with_chars(&s, "HandlerDecl ") {
        let rest = slice_chars(&s, 12, s.len());
        assert(rest@ =~= s@.skip(12));
        match quoted_chars(&rest) {
            Some(decl) => match handler_of_chars(&decl) {
                Some(h) => {
                    let mut hs = hs;
                    let ghost hp = handler_parse(h);
                    let ghost old_hs = hs@;
                    hs.push(h);
                    assert(hs@.map_values(|h: Handler| handler_parse(h)) =~= old_hs.map_values(
                        |h: Handler| handler_parse(h),
                    ).push(hp));
                    ReadState { ns, hs, flow }
                },
                None => ReadState { ns, hs, flow },
            },
            None => ReadState { ns, hs, flow },
        }
    } else if starts_with_chars(&s, "FlowBlock ") {
        let rest = slice_chars(&s, 10, s.len());
        assert(rest@ =~= s@.skip(10));
        match quoted_chars(&rest) {
            Some(n) => {
                let f = Flow { name: string_of(&n), edges: Vec::new() };
                assert(edge_keys(f.edges@) =~= Seq::<EdgeKey>::empty());
                ReadState { ns, hs, flow: Some(f) }
            },
            None => ReadState { ns, hs, flow },
        }
    } else if starts_with_chars(&s, "Edge ") {
        let rest = slice_chars(&s, 5, s.len());
        assert(rest@ =~= s@.skip(5));
        match flow {
            Some(f) => match edge_of_chars(&rest) {
                Some(e) => {
                    let Flow { name, edges } = f;
                    let mut edges = edges;
                    let ghost ek = crate::graph::edge_key(e);
                    let ghost old_edges = edges@;
                    edges.push(e);
                    assert(edge_keys(edges@) =~= edge_keys(old_edges).push(ek));
                    ReadState { ns, hs, flow: Some(Flow { name, edges }) }
                },
                None => ReadState { ns, hs, flow: Some(f) },
            },
            None => ReadState { ns, hs, flow: None },
        }
    } else {
        ReadState { ns, hs, flow }
    }
}

/// The graph a readable AST dump describes: the last namespace, every
/// handler in order, and the last flow with the edges that follow it.
pub fn parse_ast_dump(dump: &str) -> (g: Graph)
    requires
        dump_readable(dump@),
    ensures
        graph_state(g) == dump_state(dump@),
{
    let text = chars_of(dump);
    let lines = split_on(&text, '\n');
    let ghost ls = pieces(dump@, '\n');
    let mut st = ReadState { ns: Vec::new(), hs: Vec::new(), flow: None };
    assert(read_view(st) =~= dump_fold(ls, 0));
    let mut i: usize = 0;
    while i < lines.len()
        invariant
            i <= lines@.len(),
            char_views(lines@) == ls,
            dump_readable(dump@),
            ls == pieces(dump@, '\n'),
            read_view(st) == dump_fold(ls, i as int),
        decreases lines.len() - i,
    {
        assert(ls[i as int] == lines@[i as int]@);
        assert(!line_unreadable(ls[i as int]));
        st = apply_line(st, &lines[i]);
        i += 1;
    }
    let ReadState { ns, hs, flow } = st;
    Graph { namespace: string_of(&ns), handlers: hs, flow }
}


fn decl_unreadable_chars(decl: &Vec<char>) -> (r: bool)
    ensures
        r == decl_unreadable(decl@),
{
    proof {
        lemma_find_pair_from(decl@, '-', '>', 0);
    }
    match find_pair_chars(decl, '-', '>') {
        None => false,
        Some(k) => {
            let a = slice_chars(decl, 0, k);
            assert(a@ =~= decl@.take(k as int));
            let sig = trim_chars(&a);
            match (find_char(&sig, '('), rfind_char(&sig, ')')) {
                (Some(o), Some(c)) => c < o,
                _ => false,
            }
        },
    }
}

fn line_unreadable_chars(line: &Vec<char>) -> (r: bool)
    ensures
        r == line_unreadable(line@),
{
    let s = trim_chars(line);
    proof {
        reveal_strlit("NamespaceDecl ");
        reveal_strlit("HandlerDecl ");
    }
    if starts_with_chars(&s, "HandlerDecl ") && !starts_with_chars(&s, "NamespaceDecl ") {
        let rest = slice_chars(&s, 12, s.len());
        assert(rest@ =~= s@.skip(12));
        match quoted_chars(&rest) {
            Some(decl) => decl_unreadable_chars(&decl),
            None => false,
        }
    } else {
        false
    }
}

/// Whether every line of an AST dump can be read.
pub fn dump_is_readable(dump: &str) -> (r: bool)
    ensures
        r == dump_readable(dump@),
{
    let text = chars_of(dump);
    let lines = split_on(&text, '\n');
    let ghost ls = pieces(dump@, '\n');
    let mut i: usize = 0;
    while i < lines.len()
        invariant
            i <= lines@.len(),
            char_views(lines@) == ls,
            ls == pieces(dump@, '\n'),
            forall|j: int| 0 <= j < i ==> !line_unreadable(#[trigger] ls[j]),
        decreases lines.len() - i,
    {
        assert(ls[i as int] == lines@[i as int]@);
        if line_unreadable_chars(&lines[i]) {
            return false;
        }
        i += 1;
    }
    true
}

// --- the toolchain's answer ----------------------------------------------------

#[verifier::external_type_specification]
#[verifier::external_body]
pub struct ExIoError(std::io::Error);

/// Why reading back failed: the toolchain rejected the source (exit code
/// and combined output), or the host's I/O failed.
#[derive(Debug)]
pub enum ReadbackError {
    ParseRejected { code: i32, output: String },
    Io(std::io::Error),
}

impl From<std::io::Error> for ReadbackError {
    /// An I/O failure.
    fn from(e: std::io::Error) -> (r: ReadbackError) {
        ReadbackError::Io(e)
    }
}

impl vstd::std_specs::convert::FromSpecImpl<std::io::Error> for ReadbackError {
    open spec fn obeys_from_spec() -> bool {
        true
    }

    open spec fn from_spec(v: std::io::Error) -> ReadbackError {
        ReadbackError::Io(v)
    }
}

/// The message of a rejection.
pub open spec fn rejection_message(code: i32, output: Seq<char>) -> Seq<char> {
    "topo --ast-dump rejected source (exit "@ + crate::text::int_text(code as int) + "):\n"@ + output
}

impl ReadbackError {
    /// The text the error displays.
    pub fn to_display_string(&self) -> (r: String)
        ensures
            self matches ReadbackError::ParseRejected { code, output } ==> r@ == rejection_message(
                *code,
                output@,
            ),
            self matches ReadbackError::Io(e) ==> exists|t: String|
                #[trigger] vstd::string::to_string_from_display_ensures::<std::io::Error>(&e, t) && r@
                    == "readback io error: "@ + t@,
    {
        let mut m: Vec<char> = Vec::new();
        match self {
            ReadbackError::ParseRejected { code, output } => {
                extend_str(&mut m, "topo --ast-dump rejected source (exit ");
                crate::text::push_int(&mut m, *code as i64);
                extend_str(&mut m, "):\n");
                extend_str(&mut m, output.as_str());
                assert(m@ =~= rejection_message(*code, output@));
            },
            ReadbackError::Io(e) => {
                proof {
                    reveal_strlit("readback io error: ");
                }
                extend_str(&mut m, "readback io error: ");
                let t = e.to_string();
                extend_str(&mut m, t.as_str());
                assert(m@ =~= "readback io error: "@ + t@);
            },
        }
        string_of(&m)
    }
}

/// The read-back outcome of one `topo --ast-dump` run: on failure the
/// exit code (`-1` without one) and stdout followed by stderr; on
/// success the graph the dump describes.
pub fn read_topo_output(success: bool, code: Option<i32>, stdout: &str, stderr: &str) -> (r: Result<
    Graph,
    ReadbackError,
>)
    requires
        success ==> dump_readable(stdout@),
    ensures
        success ==> (r matches Ok(g) && graph_state(g) == dump_state(stdout@)),
        !success ==> (r matches Err(ReadbackError::ParseRejected { code: c, output: o }) && c == (
        match code {
            Some(x) => x as int,
            None => -1int,
        }) && o@ == stdout@ + stderr@),
{
    if !success {
        let mut combined: Vec<char> = Vec::new();
        extend_str(&mut combined, stdout);
        extend_str(&mut combined, stderr);
        let c = match code {
            Some(x) => x,
            None => -1,
        };
        return Err(ReadbackError::ParseRejected { code: c, output: string_of(&combined) });
    }
    Ok(parse_ast_dump(stdout))
}

} // verus!
