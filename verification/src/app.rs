//! topo-app registration: handlers are described (name, In/Out types)
//! and flows declared as stage chains; the result is a [`Graph`] and a
//! snapshot view of it.
use vstd::prelude::*;
use crate::text::{owned, views};
use crate::schema::{TypeRef, type_text};
use crate::graph::{Graph, Handler, Edge, Flow, EdgeKey, edge_keys, opt_type_text, opt_str};

verus! {

/// One position in a flow chain: a single handler, or independent
/// handlers that are same-stage parallel candidates.
pub enum Stage {
    One(String),
    Parallel(Vec<String>),
}

/// The handler names of a stage.
pub open spec fn stage_names(s: Stage) -> Seq<Seq<char>> {
    match s {
        Stage::One(n) => seq![n@],
        Stage::Parallel(ns) => views(ns@),
    }
}

/// The handler names of each stage, in order.
pub open spec fn stage_views(st: Seq<Stage>) -> Seq<Seq<Seq<char>>> {
    st.map_values(|s: Stage| stage_names(s))
}

/// Edges from `src` to each of `tgts`.
pub open spec fn fan(src: Seq<char>, tgts: Seq<Seq<char>>) -> Seq<EdgeKey> {
    tgts.map_values(|t: Seq<char>| (src, Some(t)))
}

/// Edges from every source to every target, sources in order.
pub open spec fn cross(srcs: Seq<Seq<char>>, tgts: Seq<Seq<char>>) -> Seq<EdgeKey>
    decreases srcs.len(),
{
    if srcs.len() == 0 {
        Seq::empty()
    } else {
        cross(srcs.drop_last(), tgts) + fan(srcs.last(), tgts)
    }
}

/// The edges joining each of the first `n` stages to the next.
pub open spec fn links(st: Seq<Seq<Seq<char>>>, n: int) -> Seq<EdgeKey>
    decreases n,
{
    if n <= 0 {
        Seq::empty()
    } else {
        links(st, n - 1) + cross(st[n - 1], st[n])
    }
}

/// Terminal edges (`-> void`) from each of `last`.
pub open spec fn terminals(last: Seq<Seq<char>>) -> Seq<EdgeKey> {
    last.map_values(|s: Seq<char>| (s, None::<Seq<char>>))
}

/// The edges of a flow over stages: every member of a stage to every
/// member of the next, then every member of the last stage to `void`.
pub open spec fn flow_edge_keys(st: Seq<Seq<Seq<char>>>) -> Seq<EdgeKey> {
    if st.len() == 0 {
        Seq::empty()
    } else {
        links(st, st.len() - 1) + terminals(st.last())
    }
}

proof fn lemma_cross_not_terminal(srcs: Seq<Seq<char>>, tgts: Seq<Seq<char>>)
    ensures
        forall|j: int| 0 <= j < cross(srcs, tgts).len() ==> (#[trigger] cross(srcs, tgts)[j]).1 is Some,
    decreases srcs.len(),
{
    if srcs.len() > 0 {
        lemma_cross_not_terminal(srcs.drop_last(), tgts);
        let a = cross(srcs.drop_last(), tgts);
        let b = fan(srcs.last(), tgts);
        assert forall|j: int| 0 <= j < cross(srcs, tgts).len() implies (#[trigger] cross(srcs, tgts)[j]).1 is Some by {
            if j < a.len() {
                assert(cross(srcs, tgts)[j] == a[j]);
            } else {
                assert(cross(srcs, tgts)[j] == b[j - a.len()]);
            }
        }
    }
}

proof fn lemma_links_not_terminal(st: Seq<Seq<Seq<char>>>, n: int)
    ensures
        forall|j: int| 0 <= j < links(st, n).len() ==> (#[trigger] links(st, n)[j]).1 is Some,
    decreases n,
{
    if n > 0 {
        lemma_links_not_terminal(st, n - 1);
        lemma_cross_not_terminal(st[n - 1], st[n]);
        let a = links(st, n - 1);
        let b = cross(st[n - 1], st[n]);
        assert forall|j: int| 0 <= j < links(st, n).len() implies (#[trigger] links(st, n)[j]).1 is Some by {
            if j < a.len() {
                assert(links(st, n)[j] == a[j]);
            } else {
                assert(links(st, n)[j] == b[j - a.len()]);
            }
        }
    }
}

/// A flow ends in one terminal (`-> void`) edge per member of its last
/// stage, in the stage's order, and no other edge is terminal: every
/// member of a final parallel stage gets its own terminal edge.
pub proof fn lemma_flow_terminal_edges(st: Seq<Seq<Seq<char>>>)
    requires
        st.len() > 0,
    ensures
        flow_edge_keys(st).len() >= st.last().len(),
        forall|i: int|
            0 <= i < st.last().len() ==> #[trigger] flow_edge_keys(st)[flow_edge_keys(st).len() - st.last().len() + i]
                == (st.last()[i], None::<Seq<char>>),
        forall|j: int|
            0 <= j < flow_edge_keys(st).len() - st.last().len() ==> (#[trigger] flow_edge_keys(st)[j]).1 is Some,
{
    let l = links(st, st.len() - 1);
    lemma_links_not_terminal(st, st.len() - 1);
    let e = flow_edge_keys(st);
    assert(e == l + terminals(st.last()));
    assert forall|i: int| 0 <= i < st.last().len() implies #[trigger] e[e.len() - st.last().len() + i] == (
        st.last()[i],
        None::<Seq<char>>,
    ) by {
        assert(e[e.len() - st.last().len() + i] == terminals(st.last())[i]);
    }
    assert forall|j: int| 0 <= j < e.len() - st.last().len() implies (#[trigger] e[j]).1 is Some by {
        assert(e[j] == l[j]);
    }
}

/// Single-handler stages, one per name.
pub open spec fn single_stages(names: Seq<Seq<char>>) -> Seq<Seq<Seq<char>>> {
    names.map_values(|n: Seq<char>| seq![n])
}

/// A linear chain: each name to the next, the last to `void`.
pub open spec fn chain_edges(names: Seq<Seq<char>>) -> Seq<EdgeKey> {
    if names.len() == 0 {
        Seq::empty()
    } else {
        Seq::new((names.len() - 1) as nat, |i: int| (names[i], Some(names[i + 1]))).push(
            (names.last(), None::<Seq<char>>),
        )
    }
}

proof fn lemma_chain_links(names: Seq<Seq<char>>, n: int)
    requires
        0 <= n < names.len(),
    ensures
        links(single_stages(names), n) == Seq::new(n as nat, |i: int| (names[i], Some(names[i + 1]))),
    decreases n,
{
    let st = single_stages(names);
    if n > 0 {
        lemma_chain_links(names, n - 1);
        let a = names[n - 1];
        let b = names[n];
        assert(st[n - 1] == seq![a]);
        assert(st[n] == seq![b]);
        assert(seq![a].drop_last() =~= Seq::<Seq<char>>::empty());
        assert(cross(Seq::<Seq<char>>::empty(), seq![b]) =~= Seq::<EdgeKey>::empty());
        assert(fan(a, seq![b]) =~= seq![(a, Some(b))]);
        assert(cross(seq![a], seq![b]) =~= seq![(a, Some(b))]);
        assert(links(st, n) =~= Seq::new(n as nat, |i: int| (names[i], Some(names[i + 1]))));
    } else {
        assert(links(st, 0) =~= Seq::new(0, |i: int| (names[i], Some(names[i + 1]))));
    }
}

/// A flow over single-handler stages is the linear chain: `[a, b, c]`
/// gives `a -> b`, `b -> c`, `c -> void`.
pub proof fn lemma_linear_chain(names: Seq<Seq<char>>)
    ensures
        flow_edge_keys(single_stages(names)) == chain_edges(names),
{
    let st = single_stages(names);
    if names.len() > 0 {
        lemma_chain_links(names, names.len() - 1);
        assert(st.last() == seq![names.last()]);
        assert(terminals(seq![names.last()]) =~= seq![(names.last(), None::<Seq<char>>)]);
        assert(flow_edge_keys(st) =~= chain_edges(names));
    } else {
        assert(flow_edge_keys(st) =~= chain_edges(names));
    }
}

impl Stage {
    /// The stage's handler names.
    fn names(&self) -> (r: Vec<String>)
        ensures
            views(r@) == stage_names(*self),
    {
        match self {
            Stage::One(n) => {
                let mut r: Vec<String> = Vec::new();
                r.push(owned(n.as_str()));
                assert(views(r@) =~= seq![n@]);
                r
            },
            Stage::Parallel(ns) => {
                let mut r: Vec<String> = Vec::new();
                let mut i: usize = 0;
                while i < ns.len()
                    invariant
                        i <= ns@.len(),
                        views(r@) == views(ns@).take(i as int),
                    decreases ns.len() - i,
                {
                    let ghost before = r@;
                    r.push(owned(ns[i].as_str()));
                    assert(views(r@) =~= views(before).push(ns@[i as int]@));
                    assert(views(r@) =~= views(ns@).take(i + 1));
                    i += 1;
                }
                assert(views(ns@).take(ns@.len() as int) =~= views(ns@));
                r
            },
        }
    }
}

impl From<String> for Stage {
    /// A single-handler stage.
    fn from(s: String) -> (r: Stage) {
        Stage::One(s)
    }
}

impl vstd::std_specs::convert::FromSpecImpl<String> for Stage {
    open spec fn obeys_from_spec() -> bool {
        true
    }

    open spec fn from_spec(v: String) -> Stage {
        Stage::One(v)
    }
}

impl<'a> From<&'a str> for Stage {
    /// A single-handler stage naming `s`.
    fn from(s: &'a str) -> (r: Stage)
        ensures
            r is One,
            stage_names(r) == seq![s@],
    {
        let n = owned(s);
        let r = Stage::One(n);
        assert(stage_names(r) =~= seq![s@]);
        r
    }
}

impl<'a> vstd::std_specs::convert::FromSpecImpl<&'a str> for Stage {
    /// A `String` is not fixed by its characters in specifications, so
    /// `from` states its result itself (a single stage naming the text).
    open spec fn obeys_from_spec() -> bool {
        false
    }

    open spec fn from_spec(v: &'a str) -> Stage {
        Stage::One(choose|n: String| n@ == v@)
    }
}

/// Independent handlers on the same input: one parallel stage.
pub fn parallel(members: &[&str]) -> (r: Stage)
    ensures
        stage_names(r) == members@.map_values(|m: &str| m@),
        r is Parallel,
{
    let mut ns: Vec<String> = Vec::new();
    let mut i: usize = 0;
    while i < members.len()
        invariant
            i <= members@.len(),
            views(ns@) == members@.map_values(|m: &str| m@).take(i as int),
        decreases members.len() - i,
    {
        let ghost before = ns@;
        ns.push(owned(members[i]));
        assert(views(ns@) =~= views(before).push(members@[i as int]@));
        assert(views(ns@) =~= members@.map_values(|m: &str| m@).take(i + 1));
        i += 1;
    }
    assert(members@.map_values(|m: &str| m@).take(members@.len() as int) =~= members@.map_values(
        |m: &str| m@,
    ));
    Stage::Parallel(ns)
}

/// A topo-app program: one namespace, its handlers and one flow.
pub struct App {
    graph: Graph,
}

impl App {
    /// The registered graph.
    pub closed spec fn model(self) -> Graph {
        self.graph
    }

    /// An empty program in `namespace`.
    pub fn new(namespace: &str) -> (a: App)
        ensures
            a.model().namespace@ == namespace@,
            a.model().handlers@.len() == 0,
            a.model().flow is None,
    {
        App { graph: Graph::new(namespace) }
    }

    /// Records a handler's contract (no input: a source handler). The
    /// function itself is not taken: it stays an ordinary function.
    pub fn register(&mut self, name: &str, in_type: Option<TypeRef>, out_type: TypeRef)
        ensures
            final(self).model().namespace == old(self).model().namespace,
            final(self).model().flow == old(self).model().flow,
            final(self).model().handlers@.len() == old(self).model().handlers@.len() + 1,
            forall|i: int| 0 <= i < old(self).model().handlers@.len() ==> #[trigger] final(self).model().handlers@[i]
                == old(self).model().handlers@[i],
            final(self).model().handlers@.last().name@ == name@,
            final(self).model().handlers@.last().in_type == in_type,
            final(self).model().handlers@.last().out_type == out_type,
    {
        self.graph.handlers.push(Handler { name: owned(name), in_type, out_type });
    }

    /// Declares the program's flow over `stages`: each member of a stage
    /// feeds each member of the next, and the last stage ends in `void`.
    pub fn flow(&mut self, name: &str, stages: Vec<Stage>)
        ensures
            final(self).model().namespace == old(self).model().namespace,
            final(self).model().handlers == old(self).model().handlers,
            final(self).model().flow matches Some(f) && f.name@ == name@ && edge_keys(f.edges@)
                == flow_edge_keys(stage_views(stages@)),
    {
        let ghost st = stage_views(stages@);
        let mut edges: Vec<Edge> = Vec::new();
        let n = stages.len();
        let pairs: usize = if n > 0 {
            n - 1
        } else {
            0
        };
        let mut i: usize = 0;
        while i < pairs
            invariant
                st == stage_views(stages@),
                n == stages@.len(),
                pairs == if n > 0 { n - 1 } else { 0 },
                i <= pairs,
                edge_keys(edges@) == links(st, i as int),
            decreases pairs - i,
        {
            let srcs = stages[i].names();
            let tgts = stages[i + 1].names();
            let ghost base = links(st, i as int);
            let mut a: usize = 0;
            while a < srcs.len()
                invariant
                    a <= srcs@.len(),
                    views(srcs@) == st[i as int],
                    views(tgts@) == st[i + 1],
                    edge_keys(edges@) == base + cross(views(srcs@).take(a as int), views(tgts@)),
                decreases srcs.len() - a,
            {
                let mut b: usize = 0;
                let ghost before_a = edge_keys(edges@);
                while b < tgts.len()
                    invariant
                        a < srcs@.len(),
                        b <= tgts@.len(),
                        edge_keys(edges@) == before_a + fan(srcs@[a as int]@, views(tgts@).take(b as int)),
                    decreases tgts.len() - b,
                {
                    let ghost prev = edges@;
                    edges.push(Edge { source: owned(srcs[a].as_str()), target: Some(owned(tgts[b].as_str())) });
                    assert(edge_keys(edges@) =~= edge_keys(prev).push((srcs@[a as int]@, Some(tgts@[b as int]@))));
                    assert(fan(srcs@[a as int]@, views(tgts@).take(b + 1)) =~= fan(srcs@[a as int]@, views(tgts@).take(b as int)).push((srcs@[a as int]@, Some(tgts@[b as int]@))));
                    b += 1;
                }
                assert(views(tgts@).take(tgts@.len() as int) =~= views(tgts@));
                assert(views(srcs@).take(a + 1).drop_last() =~= views(srcs@).take(a as int));
                assert(views(srcs@).take(a + 1).last() == srcs@[a as int]@);
                a += 1;
            }
            assert(views(srcs@).take(srcs@.len() as int) =~= views(srcs@));
            i += 1;
        }
        if n > 0 {
            let last = stages[n - 1].names();
            let ghost base = edge_keys(edges@);
            let mut c: usize = 0;
            while c < last.len()
                invariant
                    c <= last@.len(),
                    edge_keys(edges@) == base + terminals(views(last@).take(c as int)),
                decreases last.len() - c,
            {
                let ghost prev = edges@;
                edges.push(Edge { source: owned(last[c].as_str()), target: None });
                assert(edge_keys(edges@) =~= edge_keys(prev).push((last@[c as int]@, None::<Seq<char>>)));
                assert(terminals(views(last@).take(c + 1)) =~= terminals(views(last@).take(c as int)).push((last@[c as int]@, None::<Seq<char>>)));
                c += 1;
            }
            assert(views(last@).take(last@.len() as int) =~= views(last@));
            assert(st.last() == st[n - 1]);
        } else {
            assert(edge_keys(edges@) =~= flow_edge_keys(st));
        }
        self.graph.flow = Some(Flow { name: owned(name), edges });
    }

    /// The registered graph.
    pub fn graph(&self) -> (r: &Graph)
        ensures
            *r == self.model(),
    {
        &self.graph
    }

    /// The read-only snapshot view of the program.
    pub fn app_config(&self) -> (r: AppConfig<'_>)
        ensures
            r.app() == *self,
    {
        AppConfig { app: self }
    }
}

/// A read-only view of a program's whole graph.
pub struct AppConfig<'a> {
    app: &'a App,
}

/// The snapshot of one handler: name and In/Out spellings.
#[derive(Debug, Clone, PartialEq, Eq)]
pub struct HandlerSnapshot {
    pub name: String,
    pub in_type: Option<String>,
    pub out_type: String,
}

/// The snapshot of a flow: name and `(source, target)` pairs, a terminal
/// target spelled `void`.
#[derive(Debug, Clone, PartialEq, Eq)]
pub struct FlowSnapshot {
    pub name: String,
    pub edges: Vec<(String, String)>,
}

/// The whole graph as structured data.
#[derive(Debug, Clone, PartialEq, Eq)]
pub struct Snapshot {
    pub namespace: String,
    pub handlers: Vec<HandlerSnapshot>,
    pub flow: Option<FlowSnapshot>,
}

/// `s` shows handler `h`.
pub open spec fn shows_handler(s: HandlerSnapshot, h: Handler) -> bool {
    &&& s.name@ == h.name@
    &&& opt_str(s.in_type) == opt_type_text(h.in_type)
    &&& s.out_type@ == type_text(h.out_type@)
}

/// `p` shows edge `e` (a terminal target as `void`).
pub open spec fn shows_edge(p: (String, String), e: Edge) -> bool {
    &&& p.0@ == e.source@
    &&& p.1@ == match e.target {
        Some(t) => t@,
        None => "void"@,
    }
}

impl<'a> AppConfig<'a> {
    /// The program viewed.
    pub closed spec fn app(self) -> App {
        *self.app
    }

    /// The whole graph: namespace, each handler with its In/Out
    /// spellings, and the flow's edges.
    pub fn snapshot(&self) -> (r: Snapshot)
        ensures
            r.namespace@ == self.app().model().namespace@,
            r.handlers@.len() == self.app().model().handlers@.len(),
            forall|i: int| 0 <= i < r.handlers@.len() ==> shows_handler(
                #[trigger] r.handlers@[i],
                self.app().model().handlers@[i],
            ),
            r.flow is Some <==> self.app().model().flow is Some,
            r.flow matches Some(fs) ==> {
                let f = self.app().model().flow->0;
                &&& fs.name@ == f.name@
                &&& fs.edges@.len() == f.edges@.len()
                &&& forall|i: int| 0 <= i < fs.edges@.len() ==> shows_edge(#[trigger] fs.edges@[i], f.edges@[i])
            },
    {
        let g = self.app.graph();
        let mut hs: Vec<HandlerSnapshot> = Vec::new();
        let mut i: usize = 0;
        while i < g.handlers.len()
            invariant
                *g == self.app().model(),
                i <= g.handlers@.len(),
                hs@.len() == i,
                forall|j: int| 0 <= j < i ==> shows_handler(#[trigger] hs@[j], g.handlers@[j]),
            decreases g.handlers.len() - i,
        {
            let h = &g.handlers[i];
            let in_type = match &h.in_type {
                Some(t) => Some(t.topo()),
                None => None,
            };
            hs.push(HandlerSnapshot { name: owned(h.name.as_str()), in_type, out_type: h.out_type.topo() });
            i += 1;
        }
        let flow = match &g.flow {
            Some(f) => {
                let mut es: Vec<(String, String)> = Vec::new();
                let mut j: usize = 0;
                while j < f.edges.len()
                    invariant
                        j <= f.edges@.len(),
                        es@.len() == j,
                        forall|k: int| 0 <= k < j ==> shows_edge(#[trigger] es@[k], f.edges@[k]),
                    decreases f.edges.len() - j,
                {
                    let e = &f.edges[j];
                    let target = match &e.target {
                        Some(t) => owned(t.as_str()),
                        None => owned("void"),
                    };
                    es.push((owned(e.source.as_str()), target));
                    j += 1;
                }
                Some(FlowSnapshot { name: owned(f.name.as_str()), edges: es })
            },
            None => None,
        };
        Snapshot { namespace: owned(g.namespace.as_str()), handlers: hs, flow }
    }
}

} // verus!
