//! The in-memory logic graph a topo-app program builds by registration:
//! a namespace, handlers with their In/Out types, and one flow of edges.
//! Its meaning is captured by an order-insensitive semantic key.
use vstd::prelude::*;
use vstd::relations::{total_ordering, sorted_by};
use crate::text::{
    owned, extend_str, string_of, lex_lt, lemma_lex_order, lemma_lex_trans, compare_str, Cmp,
    str_eq,
};
use crate::schema::{TypeRef, type_text};

verus! {

broadcast use vstd::seq_lib::group_to_multiset_ensures;

/// A registered logic unit; `in_type` is `None` for a source handler.
#[derive(Debug, PartialEq, Eq)]
pub struct Handler {
    pub name: String,
    pub in_type: Option<TypeRef>,
    pub out_type: TypeRef,
}

/// A flow edge; a `None` target is a terminal edge (`source -> void`).
#[derive(Debug, PartialEq, Eq)]
pub struct Edge {
    pub source: String,
    pub target: Option<String>,
}

/// A flow: a named set of handler edges.
#[derive(Debug, PartialEq, Eq)]
pub struct Flow {
    pub name: String,
    pub edges: Vec<Edge>,
}

/// The whole program: namespace, handlers, at most one flow.
#[derive(Debug, PartialEq, Eq)]
pub struct Graph {
    pub namespace: String,
    pub handlers: Vec<Handler>,
    pub flow: Option<Flow>,
}

/// The text of an optional string.
pub open spec fn opt_str(o: Option<String>) -> Option<Seq<char>> {
    match o {
        Some(s) => Some(s@),
        None => None,
    }
}

/// The spelling of an optional type.
pub open spec fn opt_type_text(t: Option<TypeRef>) -> Option<Seq<char>> {
    match t {
        Some(x) => Some(type_text(x@)),
        None => None,
    }
}

/// The `handler` declaration line of a handler: its input parameter is
/// named `in_`, and a source handler has none.
pub open spec fn signature_text(h: Handler) -> Seq<char> {
    let param = match h.in_type {
        Some(t) => type_text(t@) + " in_"@,
        None => Seq::empty(),
    };
    "handler "@ + h.name@ + "("@ + param + ") -> "@ + type_text(h.out_type@) + ";"@
}

impl Handler {
    /// The `handler name(Type in_) -> Out;` declaration line.
    pub fn signature(&self) -> (r: String)
        ensures
            r@ == signature_text(*self),
    {
        let mut out: Vec<char> = Vec::new();
        extend_str(&mut out, "handler ");
        extend_str(&mut out, self.name.as_str());
        extend_str(&mut out, "(");
        match &self.in_type {
            Some(t) => {
                let tt = t.topo();
                extend_str(&mut out, tt.as_str());
                extend_str(&mut out, " in_");
            },
            None => {},
        }
        extend_str(&mut out, ") -> ");
        let ot = self.out_type.topo();
        extend_str(&mut out, ot.as_str());
        extend_str(&mut out, ";");
        assert(out@ =~= signature_text(*self));
        string_of(&out)
    }
}

impl Edge {
    /// Whether this is a terminal (`-> void`) edge.
    pub fn is_terminal(&self) -> (r: bool)
        ensures
            r == self.target is None,
    {
        self.target.is_none()
    }
}

// --- the semantic key -------------------------------------------------------

/// A handler's meaning: name, input spelling, output spelling.
pub type HandlerKey = (Seq<char>, Option<Seq<char>>, Seq<char>);

/// An edge's meaning: source and (optional) target.
pub type EdgeKey = (Seq<char>, Option<Seq<char>>);

/// The meaning of a handler.
pub open spec fn handler_key(h: Handler) -> HandlerKey {
    (h.name@, opt_type_text(h.in_type), type_text(h.out_type@))
}

/// The meaning of an edge.
pub open spec fn edge_key(e: Edge) -> EdgeKey {
    (e.source@, opt_str(e.target))
}

/// The meanings of handlers, in order.
pub open spec fn handler_keys(hs: Seq<Handler>) -> Seq<HandlerKey> {
    hs.map_values(|h: Handler| handler_key(h))
}

/// The meanings of edges, in order.
pub open spec fn edge_keys(es: Seq<Edge>) -> Seq<EdgeKey> {
    es.map_values(|e: Edge| edge_key(e))
}

/// Order of optional texts: absent first, then by code points.
pub open spec fn opt_lt(a: Option<Seq<char>>, b: Option<Seq<char>>) -> bool {
    match (a, b) {
        (None, Some(_)) => true,
        (Some(x), Some(y)) => lex_lt(x, y),
        _ => false,
    }
}

/// Lexicographic order on handler meanings (the derived tuple order).
pub open spec fn handler_key_le(a: HandlerKey, b: HandlerKey) -> bool {
    ||| lex_lt(a.0, b.0)
    ||| a.0 == b.0 && opt_lt(a.1, b.1)
    ||| a.0 == b.0 && a.1 == b.1 && !lex_lt(b.2, a.2)
}

/// Lexicographic order on edge meanings (the derived tuple order).
pub open spec fn edge_key_le(a: EdgeKey, b: EdgeKey) -> bool {
    ||| lex_lt(a.0, b.0)
    ||| a.0 == b.0 && opt_lt(a.1, b.1)
    ||| a.0 == b.0 && a.1 == b.1
}

/// [`handler_key_le`] as a relation.
pub open spec fn handler_order() -> spec_fn(HandlerKey, HandlerKey) -> bool {
    |a: HandlerKey, b: HandlerKey| handler_key_le(a, b)
}

/// [`edge_key_le`] as a relation.
pub open spec fn edge_order() -> spec_fn(EdgeKey, EdgeKey) -> bool {
    |a: EdgeKey, b: EdgeKey| edge_key_le(a, b)
}

proof fn lemma_opt_lt(a: Option<Seq<char>>, b: Option<Seq<char>>, c: Option<Seq<char>>)
    ensures
        !opt_lt(a, a),
        !(opt_lt(a, b) && opt_lt(b, a)),
        a != b ==> opt_lt(a, b) || opt_lt(b, a),
        opt_lt(a, b) && opt_lt(b, c) ==> opt_lt(a, c),
{
    if a is Some {
        lemma_lex_order(a->0, a->0);
    }
    if a is Some && b is Some {
        lemma_lex_order(a->0, b->0);
    }
    if a is Some && b is Some && c is Some {
        if lex_lt(a->0, b->0) && lex_lt(b->0, c->0) {
            lemma_lex_trans(a->0, b->0, c->0);
        }
    }
}

proof fn lemma_text_order(a: Seq<char>, b: Seq<char>, c: Seq<char>)
    ensures
        !lex_lt(a, a),
        !(lex_lt(a, b) && lex_lt(b, a)),
        a != b ==> lex_lt(a, b) || lex_lt(b, a),
        lex_lt(a, b) && lex_lt(b, c) ==> lex_lt(a, c),
        !lex_lt(b, a) && !lex_lt(c, b) ==> !lex_lt(c, a),
{
    lemma_lex_order(a, a);
    lemma_lex_order(a, b);
    lemma_lex_order(b, c);
    lemma_lex_order(a, c);
    if lex_lt(a, b) && lex_lt(b, c) {
        lemma_lex_trans(a, b, c);
    }
}

/// The handler-meaning order is a total order.
pub proof fn lemma_handler_order_total()
    ensures
        total_ordering(handler_order()),
{
    let r = handler_order();
    assert forall|x: HandlerKey| #[trigger] r(x, x) by {
        lemma_text_order(x.2, x.2, x.2);
    }
    assert forall|x: HandlerKey, y: HandlerKey| #[trigger] r(x, y) && #[trigger] r(y, x) implies x == y by {
        lemma_text_order(x.0, y.0, y.0);
        lemma_opt_lt(x.1, y.1, y.1);
        lemma_text_order(x.2, y.2, y.2);
    }
    assert forall|x: HandlerKey, y: HandlerKey, z: HandlerKey| #[trigger] r(x, y) && #[trigger] r(y, z) implies r(x, z) by {
        lemma_text_order(x.0, y.0, z.0);
        lemma_opt_lt(x.1, y.1, z.1);
        lemma_text_order(x.2, y.2, z.2);
        lemma_text_order(x.0, z.0, z.0);
        lemma_opt_lt(x.1, z.1, z.1);
        lemma_text_order(y.0, z.0, z.0);
        lemma_opt_lt(y.1, z.1, z.1);
    }
    assert forall|x: HandlerKey, y: HandlerKey| #[trigger] r(x, y) || #[trigger] r(y, x) by {
        lemma_text_order(x.0, y.0, y.0);
        lemma_opt_lt(x.1, y.1, y.1);
        lemma_text_order(x.2, y.2, y.2);
    }
}

/// The edge-meaning order is a total order.
pub proof fn lemma_edge_order_total()
    ensures
        total_ordering(edge_order()),
{
    let r = edge_order();
    assert forall|x: EdgeKey| #[trigger] r(x, x) by {}
    assert forall|x: EdgeKey, y: EdgeKey| #[trigger] r(x, y) && #[trigger] r(y, x) implies x == y by {
        lemma_text_order(x.0, y.0, y.0);
        lemma_opt_lt(x.1, y.1, y.1);
    }
    assert forall|x: EdgeKey, y: EdgeKey, z: EdgeKey| #[trigger] r(x, y) && #[trigger] r(y, z) implies r(x, z) by {
        lemma_text_order(x.0, y.0, z.0);
        lemma_opt_lt(x.1, y.1, z.1);
        lemma_text_order(x.0, z.0, z.0);
        lemma_opt_lt(x.1, z.1, z.1);
        lemma_text_order(y.0, z.0, z.0);
        lemma_opt_lt(y.1, z.1, z.1);
    }
    assert forall|x: EdgeKey, y: EdgeKey| #[trigger] r(x, y) || #[trigger] r(y, x) by {
        lemma_text_order(x.0, y.0, y.0);
        lemma_opt_lt(x.1, y.1, y.1);
    }
}

/// Two sequences sorted by one total order with the same elements (with
/// multiplicity) are equal.
pub proof fn lemma_sorted_unique<T>(a: Seq<T>, b: Seq<T>, leq: spec_fn(T, T) -> bool)
    requires
        total_ordering(leq),
        sorted_by(a, leq),
        sorted_by(b, leq),
        a.to_multiset() == b.to_multiset(),
    ensures
        a == b,
    decreases a.len(),
{
    assert(a.len() == a.to_multiset().len());
    assert(b.len() == b.to_multiset().len());
    if a.len() == 0 {
        assert(a =~= b);
    } else {
        let x = a[0];
        let y = b[0];
        assert(a.contains(x));
        assert(a.to_multiset().count(x) > 0);
        assert(b.to_multiset().count(x) > 0);
        assert(b.contains(x));
        assert(b.contains(y));
        assert(b.to_multiset().count(y) > 0);
        assert(a.to_multiset().count(y) > 0);
        assert(a.contains(y));
        let j = choose|j: int| 0 <= j < b.len() && b[j] == x;
        let i = choose|i: int| 0 <= i < a.len() && a[i] == y;
        if j > 0 {
            assert(leq(b[0], b[j]));
        }
        if i > 0 {
            assert(leq(a[0], a[i]));
        }
        assert(leq(y, x));
        assert(leq(x, y));
        assert(x == y);
        let a1 = a.drop_first();
        let b1 = b.drop_first();
        assert(a1 =~= a.remove(0));
        assert(b1 =~= b.remove(0));
        assert(a1.to_multiset() == a.to_multiset().remove(x));
        assert(b1.to_multiset() == b.to_multiset().remove(y));
        assert forall|p: int, q: int| 0 <= p < q < a1.len() implies #[trigger] leq(a1[p], a1[q]) by {
            assert(leq(a[p + 1], a[q + 1]));
        }
        assert forall|p: int, q: int| 0 <= p < q < b1.len() implies #[trigger] leq(b1[p], b1[q]) by {
            assert(leq(b[p + 1], b[q + 1]));
        }
        lemma_sorted_unique(a1, b1, leq);
        assert(a =~= b) by {
            assert forall|k: int| 0 <= k < a.len() implies a[k] == b[k] by {
                if k > 0 {
                    assert(a[k] == a1[k - 1]);
                    assert(b[k] == b1[k - 1]);
                }
            }
        }
    }
}


// --- sorting by meaning ------------------------------------------------------

/// Executable values with a meaning and a total order on meanings.
pub trait KeyOrder: Sized {
    /// The meaning type.
    type Key;

    /// The value's meaning.
    spec fn key(self) -> Self::Key;

    /// The order on meanings.
    spec fn order() -> spec_fn(Self::Key, Self::Key) -> bool;

    /// Compares by meaning.
    fn key_leq(&self, other: &Self) -> (r: bool)
        ensures
            r == (Self::order())(self.key(), other.key()),
    ;
}

/// The meanings of a sequence of values, in order.
pub open spec fn keys_of<T: KeyOrder>(s: Seq<T>) -> Seq<T::Key> {
    s.map_values(|x: T| x.key())
}

/// A handler meaning as held in a semantic key.
pub type HandlerEntry = (String, Option<String>, String);

/// An edge meaning as held in a semantic key.
pub type EdgeEntry = (String, Option<String>);

fn opt_cmp(a: &Option<String>, b: &Option<String>) -> (r: Cmp)
    ensures
        r == Cmp::Less <==> opt_lt(opt_str(*a), opt_str(*b)),
        r == Cmp::Equal <==> opt_str(*a) == opt_str(*b),
        r == Cmp::Greater <==> opt_lt(opt_str(*b), opt_str(*a)),
{
    match (a, b) {
        (None, None) => Cmp::Equal,
        (None, Some(_)) => Cmp::Less,
        (Some(_), None) => Cmp::Greater,
        (Some(x), Some(y)) => compare_str(x.as_str(), y.as_str()),
    }
}

impl KeyOrder for HandlerEntry {
    type Key = HandlerKey;

    open spec fn key(self) -> HandlerKey {
        (self.0@, opt_str(self.1), self.2@)
    }

    open spec fn order() -> spec_fn(HandlerKey, HandlerKey) -> bool {
        handler_order()
    }

    fn key_leq(&self, other: &Self) -> (r: bool) {
        proof {
            lemma_text_order(self.0@, other.0@, other.0@);
            lemma_text_order(self.2@, other.2@, other.2@);
        }
        match compare_str(self.0.as_str(), other.0.as_str()) {
            Cmp::Less => true,
            Cmp::Greater => false,
            Cmp::Equal => match opt_cmp(&self.1, &other.1) {
                Cmp::Less => true,
                Cmp::Greater => false,
                Cmp::Equal => compare_str(other.2.as_str(), self.2.as_str()) != Cmp::Less,
            },
        }
    }
}

impl KeyOrder for EdgeEntry {
    type Key = EdgeKey;

    open spec fn key(self) -> EdgeKey {
        (self.0@, opt_str(self.1))
    }

    open spec fn order() -> spec_fn(EdgeKey, EdgeKey) -> bool {
        edge_order()
    }

    fn key_leq(&self, other: &Self) -> (r: bool) {
        proof {
            lemma_text_order(self.0@, other.0@, other.0@);
        }
        match compare_str(self.0.as_str(), other.0.as_str()) {
            Cmp::Less => true,
            Cmp::Greater => false,
            Cmp::Equal => opt_cmp(&self.1, &other.1) != Cmp::Greater,
        }
    }
}

/// The values reordered so their meanings are sorted (a stable ordering
/// of the same meanings, with multiplicity).
pub fn sort_by_key<T: KeyOrder>(v: Vec<T>) -> (r: Vec<T>)
    requires
        total_ordering(T::order()),
    ensures
        sorted_by(keys_of(r@), T::order()),
        keys_of(r@).to_multiset() == keys_of(v@).to_multiset(),
{
    let ghost orig = keys_of(v@);
    let ghost leq = T::order();
    let mut rest = v;
    let mut out: Vec<T> = Vec::new();
    assert(keys_of(out@) =~= Seq::<T::Key>::empty());
    assert(keys_of(out@).to_multiset().add(keys_of(rest@).to_multiset()) =~= orig.to_multiset());
    while rest.len() > 0
        invariant
            leq == T::order(),
            total_ordering(leq),
            keys_of(out@).to_multiset().add(keys_of(rest@).to_multiset()) == orig.to_multiset(),
            sorted_by(keys_of(out@), leq),
            forall|i: int, j: int|
                0 <= i < out@.len() && 0 <= j < rest@.len() ==> #[trigger] leq(
                    keys_of(out@)[i],
                    keys_of(rest@)[j],
                ),
        decreases rest@.len(),
    {
        let mut m: usize = 0;
        let mut k: usize = 1;
        while k < rest.len()
            invariant
                leq == T::order(),
                total_ordering(leq),
                m < rest@.len(),
                1 <= k <= rest@.len(),
                forall|j: int| 0 <= j < k ==> #[trigger] leq(keys_of(rest@)[m as int], keys_of(rest@)[j]),
            decreases rest@.len() - k,
        {
            if !rest[k].key_leq(&rest[m]) {
                assert(!leq(keys_of(rest@)[k as int], keys_of(rest@)[m as int]));
                assert(leq(keys_of(rest@)[m as int], keys_of(rest@)[k as int]));
            } else {
                let ghost old_m = m;
                assert(leq(keys_of(rest@)[k as int], keys_of(rest@)[m as int]));
                assert forall|j: int| 0 <= j < k + 1 implies #[trigger] leq(
                    keys_of(rest@)[k as int],
                    keys_of(rest@)[j],
                ) by {
                    if j < k {
                        assert(leq(keys_of(rest@)[old_m as int], keys_of(rest@)[j]));
                    }
                }
                m = k;
            }
            k += 1;
        }
        let ghost rk = keys_of(rest@);
        let ghost ok = keys_of(out@);
        let ghost xk = rk[m as int];
        let x = rest.remove(m);
        assert(keys_of(rest@) =~= rk.remove(m as int));
        assert(rk.remove(m as int).to_multiset() == rk.to_multiset().remove(xk));
        out.push(x);
        assert(keys_of(out@) =~= ok.push(xk));
        assert(ok.push(xk).to_multiset() == ok.to_multiset().insert(xk));
        assert(rk.to_multiset().count(xk) > 0) by {
            assert(rk.contains(xk));
        }
        assert(keys_of(out@).to_multiset().add(keys_of(rest@).to_multiset()) =~= orig.to_multiset());
        assert forall|i: int, j: int|
            0 <= i < out@.len() && 0 <= j < rest@.len() implies #[trigger] leq(
                keys_of(out@)[i],
                keys_of(rest@)[j],
            ) by {
            let jj = if j < m {
                j
            } else {
                j + 1
            };
            assert(keys_of(rest@)[j] == rk[jj]);
            if i < ok.len() {
                assert(keys_of(out@)[i] == ok[i]);
            } else {
                assert(leq(xk, rk[jj]));
            }
        }
        assert forall|i: int, j: int| 0 <= i < j < keys_of(out@).len() implies #[trigger] leq(
            keys_of(out@)[i],
            keys_of(out@)[j],
        ) by {
            if j < ok.len() {
                assert(leq(ok[i], ok[j]));
            } else {
                assert(keys_of(out@)[i] == ok[i]);
                assert(leq(ok[i], rk[m as int]));
            }
        }
    }
    assert(keys_of(rest@) =~= Seq::<T::Key>::empty());
    assert(keys_of(rest@).to_multiset() =~= vstd::multiset::Multiset::<T::Key>::empty());
    assert(keys_of(out@).to_multiset() =~= orig.to_multiset());
    out
}


// --- graph operations ----------------------------------------------------------

/// Opaque canonical key of a graph's meaning: namespace, flow name, and
/// the handler and edge meanings in sorted order.
#[derive(Debug, PartialEq, Eq)]
pub struct SemanticKey {
    namespace: String,
    flow_name: Option<String>,
    handlers: Vec<HandlerEntry>,
    edges: Vec<EdgeEntry>,
}

/// The content of a semantic key.
pub type SemanticView = (Seq<char>, Option<Seq<char>>, Seq<HandlerKey>, Seq<EdgeKey>);

impl SemanticKey {
    /// The key's content.
    pub closed spec fn view(self) -> SemanticView {
        (self.namespace@, opt_str(self.flow_name), keys_of(self.handlers@), keys_of(self.edges@))
    }
}

/// The edges of a graph's flow (none without a flow).
pub open spec fn graph_edges(g: Graph) -> Seq<Edge> {
    match g.flow {
        Some(f) => f.edges@,
        None => Seq::empty(),
    }
}

/// The flow name of a graph, if it has a flow.
pub open spec fn flow_name_of(g: Graph) -> Option<Seq<char>> {
    match g.flow {
        Some(f) => Some(f.name@),
        None => None,
    }
}

/// The meaning of a graph: its namespace and flow name, and its handler
/// and edge meanings sorted, so registration and edge order do not
/// matter.
pub open spec fn semantic_view(g: Graph) -> SemanticView {
    (
        g.namespace@,
        flow_name_of(g),
        handler_keys(g.handlers@).sort_by(handler_order()),
        edge_keys(graph_edges(g)).sort_by(edge_order()),
    )
}

/// Graphs with the same namespace, flow name, and the same handler and
/// edge meanings in any order (with multiplicity) have the same meaning.
pub proof fn lemma_semantic_view_order_insensitive(g1: Graph, g2: Graph)
    requires
        g1.namespace@ == g2.namespace@,
        flow_name_of(g1) == flow_name_of(g2),
        handler_keys(g1.handlers@).to_multiset() == handler_keys(g2.handlers@).to_multiset(),
        edge_keys(graph_edges(g1)).to_multiset() == edge_keys(graph_edges(g2)).to_multiset(),
    ensures
        semantic_view(g1) == semantic_view(g2),
{
    lemma_handler_order_total();
    lemma_edge_order_total();
    let h1 = handler_keys(g1.handlers@);
    let h2 = handler_keys(g2.handlers@);
    let e1 = edge_keys(graph_edges(g1));
    let e2 = edge_keys(graph_edges(g2));
    h1.lemma_sort_by_ensures(handler_order());
    h2.lemma_sort_by_ensures(handler_order());
    e1.lemma_sort_by_ensures(edge_order());
    e2.lemma_sort_by_ensures(edge_order());
    lemma_sorted_unique(h1.sort_by(handler_order()), h2.sort_by(handler_order()), handler_order());
    lemma_sorted_unique(e1.sort_by(edge_order()), e2.sort_by(edge_order()), edge_order());
}

/// Equivalent graphs have the same handlers by meaning: the same
/// namespace and flow name, and the same `(name, input spelling, output
/// spelling)` triples with the same multiplicity, where the input
/// spelling is `None` exactly for a source handler.
pub proof fn lemma_equivalent_graphs_agree_on_handlers(g1: Graph, g2: Graph)
    requires
        semantic_view(g1) == semantic_view(g2),
    ensures
        g1.namespace@ == g2.namespace@,
        flow_name_of(g1) == flow_name_of(g2),
        g1.handlers@.map_values(
            |h: Handler|
                (
                    h.name@,
                    match h.in_type {
                        Some(t) => Some(type_text(t@)),
                        None => None,
                    },
                    type_text(h.out_type@),
                ),
        ).to_multiset() == g2.handlers@.map_values(
            |h: Handler|
                (
                    h.name@,
                    match h.in_type {
                        Some(t) => Some(type_text(t@)),
                        None => None,
                    },
                    type_text(h.out_type@),
                ),
        ).to_multiset(),
{
    lemma_handler_order_total();
    let h1 = handler_keys(g1.handlers@);
    let h2 = handler_keys(g2.handlers@);
    h1.lemma_sort_by_ensures(handler_order());
    h2.lemma_sort_by_ensures(handler_order());
    assert(h1 =~= g1.handlers@.map_values(
        |h: Handler|
            (
                h.name@,
                match h.in_type {
                    Some(t) => Some(type_text(t@)),
                    None => None,
                },
                type_text(h.out_type@),
            ),
    ));
    assert(h2 =~= g2.handlers@.map_values(
        |h: Handler|
            (
                h.name@,
                match h.in_type {
                    Some(t) => Some(type_text(t@)),
                    None => None,
                },
                type_text(h.out_type@),
            ),
    ));
}

/// Two graphs that differ only in the input type of one handler, with
/// different spellings, are not equivalent.
pub proof fn lemma_input_type_matters(g1: Graph, g2: Graph, i: int, h: Handler)
    requires
        0 <= i < g1.handlers@.len(),
        g2.namespace == g1.namespace,
        g2.flow == g1.flow,
        g2.handlers@ == g1.handlers@.update(i, h),
        h.name@ == g1.handlers@[i].name@,
        type_text(h.out_type@) == type_text(g1.handlers@[i].out_type@),
        opt_type_text(h.in_type) != opt_type_text(g1.handlers@[i].in_type),
    ensures
        semantic_view(g1) != semantic_view(g2),
{
    let h1 = handler_keys(g1.handlers@);
    let h2 = handler_keys(g2.handlers@);
    let k1 = handler_key(g1.handlers@[i]);
    let k2 = handler_key(h);
    assert(k1 != k2);
    assert(h2 =~= h1.update(i, k2));
    vstd::seq_lib::to_multiset_update(h1, i, k2);
    assert(h1[i] == k1);
    vstd::seq_lib::to_multiset_contains(h1, k1);
    assert(h1.contains(k1));
    if semantic_view(g1) == semantic_view(g2) {
        lemma_equivalent_graphs_agree_on_handlers(g1, g2);
        assert(h1 =~= g1.handlers@.map_values(
            |h: Handler|
                (
                    h.name@,
                    match h.in_type {
                        Some(t) => Some(type_text(t@)),
                        None => None,
                    },
                    type_text(h.out_type@),
                ),
        ));
        assert(h2 =~= g2.handlers@.map_values(
            |h: Handler|
                (
                    h.name@,
                    match h.in_type {
                        Some(t) => Some(type_text(t@)),
                        None => None,
                    },
                    type_text(h.out_type@),
                ),
        ));
        assert(h1.to_multiset() == h2.to_multiset());
        assert(h2.to_multiset().count(k1) == h1.to_multiset().count(k1) - 1);
    }
}

fn copy_opt_str(o: &Option<String>) -> (r: Option<String>)
    ensures
        opt_str(r) == opt_str(*o),
{
    match o {
        Some(s) => Some(owned(s.as_str())),
        None => None,
    }
}

fn opt_str_eq(a: &Option<String>, b: &Option<String>) -> (r: bool)
    ensures
        r == (opt_str(*a) == opt_str(*b)),
{
    opt_cmp(a, b) == Cmp::Equal
}

impl Graph {
    /// An empty graph in `namespace`: no handlers, no flow.
    pub fn new(namespace: &str) -> (g: Graph)
        ensures
            g.namespace@ == namespace@,
            g.handlers@.len() == 0,
            g.flow is None,
    {
        Graph { namespace: owned(namespace), handlers: Vec::new(), flow: None }
    }

    /// The first handler registered under `name`, if any.
    pub fn handler(&self, name: &str) -> (r: Option<&Handler>)
        ensures
            r is None <==> forall|i: int| 0 <= i < self.handlers@.len() ==> (#[trigger] self.handlers@[i]).name@ != name@,
            r matches Some(h) ==> exists|i: int|
                0 <= i < self.handlers@.len() && self.handlers@[i] == *h && h.name@ == name@
                    && forall|j: int| 0 <= j < i ==> (#[trigger] self.handlers@[j]).name@ != name@,
    {
        let mut i: usize = 0;
        while i < self.handlers.len()
            invariant
                i <= self.handlers@.len(),
                forall|j: int| 0 <= j < i ==> (#[trigger] self.handlers@[j]).name@ != name@,
            decreases self.handlers.len() - i,
        {
            if str_eq(self.handlers[i].name.as_str(), name) {
                return Some(&self.handlers[i]);
            }
            i += 1;
        }
        None
    }

    /// The graph's canonical, order-insensitive key.
    pub fn semantic_key(&self) -> (k: SemanticKey)
        ensures
            k@ == semantic_view(*self),
    {
        proof {
            lemma_handler_order_total();
            lemma_edge_order_total();
        }
        let mut hs: Vec<HandlerEntry> = Vec::new();
        let mut i: usize = 0;
        while i < self.handlers.len()
            invariant
                i <= self.handlers@.len(),
                keys_of(hs@) == handler_keys(self.handlers@).take(i as int),
            decreases self.handlers.len() - i,
        {
            let h = &self.handlers[i];
            let in_text = match &h.in_type {
                Some(t) => Some(t.topo()),
                None => None,
            };
            let entry: HandlerEntry = (owned(h.name.as_str()), in_text, h.out_type.topo());
            assert(entry.key() == handler_key(*h));
            let ghost before = hs@;
            hs.push(entry);
            assert(keys_of(hs@) =~= keys_of(before).push(entry.key()));
            assert(keys_of(hs@) =~= handler_keys(self.handlers@).take(i + 1));
            i += 1;
        }
        assert(handler_keys(self.handlers@).take(self.handlers@.len() as int) =~= handler_keys(self.handlers@));
        let ghost hk = handler_keys(self.handlers@);
        let ghost es_spec = graph_edges(*self);
        let mut es: Vec<EdgeEntry> = Vec::new();
        let flow_name = match &self.flow {
            Some(f) => {
                let mut j: usize = 0;
                while j < f.edges.len()
                    invariant
                        j <= f.edges@.len(),
                        es_spec == f.edges@,
                        keys_of(es@) == edge_keys(f.edges@).take(j as int),
                    decreases f.edges.len() - j,
                {
                    let e = &f.edges[j];
                    let entry: EdgeEntry = (owned(e.source.as_str()), copy_opt_str(&e.target));
                    assert(entry.key() == edge_key(*e));
                    let ghost before = es@;
                    es.push(entry);
                    assert(keys_of(es@) =~= keys_of(before).push(entry.key()));
                    assert(keys_of(es@) =~= edge_keys(f.edges@).take(j + 1));
                    j += 1;
                }
                assert(edge_keys(f.edges@).take(f.edges@.len() as int) =~= edge_keys(f.edges@));
                Some(owned(f.name.as_str()))
            },
            None => {
                assert(keys_of(es@) =~= edge_keys(es_spec));
                None
            },
        };
        let ghost ek = edge_keys(es_spec);
        let hs = sort_by_key(hs);
        let es = sort_by_key(es);
        proof {
            hk.lemma_sort_by_ensures(handler_order());
            ek.lemma_sort_by_ensures(edge_order());
            lemma_sorted_unique(keys_of(hs@), hk.sort_by(handler_order()), handler_order());
            lemma_sorted_unique(keys_of(es@), ek.sort_by(edge_order()), edge_order());
        }
        SemanticKey { namespace: owned(self.namespace.as_str()), flow_name, handlers: hs, edges: es }
    }

    /// Whether two graphs mean the same (equal semantic keys).
    pub fn equivalent_to(&self, other: &Graph) -> (r: bool)
        ensures
            r == (semantic_view(*self) == semantic_view(*other)),
    {
        let a = self.semantic_key();
        let b = other.semantic_key();
        a.same_as(&b)
    }
}

impl SemanticKey {
    /// Whether two keys have the same content.
    pub fn same_as(&self, other: &SemanticKey) -> (r: bool)
        ensures
            r == (self@ == other@),
    {
        if !str_eq(self.namespace.as_str(), other.namespace.as_str()) {
            return false;
        }
        if !opt_str_eq(&self.flow_name, &other.flow_name) {
            return false;
        }
        if self.handlers.len() != other.handlers.len() || self.edges.len() != other.edges.len() {
            assert(keys_of(self.handlers@).len() == self.handlers@.len());
            assert(keys_of(other.handlers@).len() == other.handlers@.len());
            assert(keys_of(self.edges@).len() == self.edges@.len());
            assert(keys_of(other.edges@).len() == other.edges@.len());
            return false;
        }
        let mut i: usize = 0;
        while i < self.handlers.len()
            invariant
                i <= self.handlers@.len(),
                self.handlers@.len() == other.handlers@.len(),
                forall|j: int| 0 <= j < i ==> keys_of(self.handlers@)[j] == #[trigger] keys_of(other.handlers@)[j],
            decreases self.handlers.len() - i,
        {
            let x = &self.handlers[i];
            let y = &other.handlers[i];
            if !(str_eq(x.0.as_str(), y.0.as_str()) && opt_str_eq(&x.1, &y.1) && str_eq(x.2.as_str(), y.2.as_str())) {
                assert(keys_of(self.handlers@)[i as int] != keys_of(other.handlers@)[i as int]);
                return false;
            }
            i += 1;
        }
        let mut j: usize = 0;
        while j < self.edges.len()
            invariant
                j <= self.edges@.len(),
                self.edges@.len() == other.edges@.len(),
                forall|k: int| 0 <= k < j ==> keys_of(self.edges@)[k] == #[trigger] keys_of(other.edges@)[k],
            decreases self.edges.len() - j,
        {
            let x = &self.edges[j];
            let y = &other.edges[j];
            if !(str_eq(x.0.as_str(), y.0.as_str()) && opt_str_eq(&x.1, &y.1)) {
                assert(keys_of(self.edges@)[j as int] != keys_of(other.edges@)[j as int]);
                return false;
            }
            j += 1;
        }
        assert(keys_of(self.handlers@) =~= keys_of(other.handlers@));
        assert(keys_of(self.edges@) =~= keys_of(other.edges@));
        true
    }
}

} // verus!
