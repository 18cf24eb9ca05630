//! Registration builds an enumerable graph; the snapshot lists it; the
//! semantic key ignores registration and edge order; the AST dump reads
//! back into the same graph.

use topo::app::{parallel, App, Stage};
use topo::graph::{Edge, Flow, Graph, Handler};
use topo::readback::{dump_is_readable, parse_ast_dump, parse_type, read_topo_output, ReadbackError};
use topo::schema::{scalar, TypeRef};

fn f64_type() -> TypeRef {
    TypeRef::Scalar("f64".to_string())
}

fn order_rec() -> TypeRef {
    TypeRef::Record(vec![("id".to_string(), scalar::<i64>()), ("amount".to_string(), f64_type())])
}

fn build_app() -> App {
    let mut app = App::new("orders");
    fn parse(raw: String) -> (i64, f64) {
        (raw.len() as i64, 1.0)
    }
    let _ = parse;
    app.register("parse", Some(scalar::<String>()), order_rec());
    app.register("validate", Some(order_rec()), order_rec());
    app.register("persist", Some(order_rec()), scalar::<bool>());
    app.flow(
        "order_pipeline",
        vec!["parse".to_string().into(), "validate".to_string().into(), "persist".to_string().into()],
    );
    app
}

#[test]
fn t1_graph_enumerable() {
    let app = build_app();
    let g = app.graph();
    assert_eq!(g.namespace, "orders");
    assert_eq!(
        g.handlers.iter().map(|h| h.name.as_str()).collect::<Vec<_>>(),
        vec!["parse", "validate", "persist"]
    );
    assert_eq!(g.handler("parse").unwrap().in_type.as_ref().unwrap().topo(), "string");
    assert_eq!(g.handler("parse").unwrap().out_type.topo(), "record<id: i64, amount: f64>");
    assert_eq!(g.handler("persist").unwrap().out_type.topo(), "bool");
    let flow = g.flow.as_ref().expect("flow registered");
    assert_eq!(flow.edges.len(), 3);
}

#[test]
fn t1_source_handler_has_no_input() {
    let mut app = App::new("src");
    app.register("seed", None, scalar::<i64>());
    assert!(app.graph().handler("seed").unwrap().in_type.is_none());
}

#[test]
fn t1_handler_stays_independently_callable() {
    let mut app = App::new("x");
    fn double(n: i64) -> i64 {
        n * 2
    }
    app.register("double", Some(scalar::<i64>()), scalar::<i64>());
    assert_eq!(double(21), 42);
}

#[test]
fn t5_snapshot_lists_full_graph() {
    let app = build_app();
    let snap = app.app_config().snapshot();
    assert_eq!(snap.namespace, "orders");
    assert_eq!(snap.handlers.len(), 3);
    let flow = snap.flow.expect("flow present");
    assert_eq!(flow.name, "order_pipeline");
    assert_eq!(flow.edges.len(), 3);
}

#[test]
fn snapshot_spells_types_and_void() {
    let app = build_app();
    let snap = app.app_config().snapshot();
    assert_eq!(snap.handlers[0].name, "parse");
    assert_eq!(snap.handlers[0].in_type.as_deref(), Some("string"));
    assert_eq!(snap.handlers[0].out_type, "record<id: i64, amount: f64>");
    let flow = snap.flow.unwrap();
    assert_eq!(
        flow.edges,
        vec![
            ("parse".to_string(), "validate".to_string()),
            ("validate".to_string(), "persist".to_string()),
            ("persist".to_string(), "void".to_string()),
        ]
    );
}

fn edge_pairs(g: &Graph) -> Vec<(String, Option<String>)> {
    g.flow.as_ref().unwrap().edges.iter().map(|e| (e.source.clone(), e.target.clone())).collect()
}

#[test]
fn parallel_stage_fans_out_and_in() {
    let mut app = App::new("orders");
    app.flow(
        "pipeline",
        vec!["parse".to_string().into(), parallel(&["enrich", "audit"]), "total".to_string().into()],
    );
    let some = |s: &str| Some(s.to_string());
    assert_eq!(
        edge_pairs(app.graph()),
        vec![
            ("parse".to_string(), some("enrich")),
            ("parse".to_string(), some("audit")),
            ("enrich".to_string(), some("total")),
            ("audit".to_string(), some("total")),
            ("total".to_string(), None),
        ]
    );
    assert!(app.graph().flow.as_ref().unwrap().edges[4].is_terminal());
    assert!(!app.graph().flow.as_ref().unwrap().edges[0].is_terminal());
}

#[test]
fn flow_of_no_stages_has_no_edges() {
    let mut app = App::new("empty");
    app.flow("nothing", Vec::<Stage>::new());
    assert!(app.graph().flow.as_ref().unwrap().edges.is_empty());
}

#[test]
fn handler_signature_line() {
    let app = build_app();
    assert_eq!(
        app.graph().handler("parse").unwrap().signature(),
        "handler parse(string in_) -> record<id: i64, amount: f64>;"
    );
    let seed = Handler { name: "seed".to_string(), in_type: None, out_type: scalar::<i64>() };
    assert_eq!(seed.signature(), "handler seed() -> i64;");
}

#[test]
fn semantic_key_ignores_registration_and_edge_order() {
    let a = build_app();
    let mut b = App::new("orders");
    b.register("persist", Some(order_rec()), scalar::<bool>());
    b.register("parse", Some(scalar::<String>()), order_rec());
    b.register("validate", Some(order_rec()), order_rec());
    b.flow(
        "order_pipeline",
        vec!["parse".to_string().into(), "validate".to_string().into(), "persist".to_string().into()],
    );
    assert!(a.graph().equivalent_to(b.graph()));
    let mut c = Graph::new("orders");
    c.handlers = vec![
        Handler { name: "validate".to_string(), in_type: Some(order_rec()), out_type: order_rec() },
        Handler { name: "persist".to_string(), in_type: Some(order_rec()), out_type: scalar::<bool>() },
        Handler { name: "parse".to_string(), in_type: Some(scalar::<String>()), out_type: order_rec() },
    ];
    c.flow = Some(Flow {
        name: "order_pipeline".to_string(),
        edges: vec![
            Edge { source: "persist".to_string(), target: None },
            Edge { source: "validate".to_string(), target: Some("persist".to_string()) },
            Edge { source: "parse".to_string(), target: Some("validate".to_string()) },
        ],
    });
    assert!(a.graph().equivalent_to(&c));
    assert!(a.graph().semantic_key().same_as(&c.semantic_key()));
}

#[test]
fn semantic_key_sees_a_changed_type() {
    let a = build_app();
    let mut b = App::new("orders");
    b.register("parse", Some(scalar::<String>()), order_rec());
    b.register("validate", Some(order_rec()), order_rec());
    b.register("persist", Some(order_rec()), scalar::<i64>());
    b.flow(
        "order_pipeline",
        vec!["parse".to_string().into(), "validate".to_string().into(), "persist".to_string().into()],
    );
    assert!(!a.graph().equivalent_to(b.graph()));
}

const DUMP: &str = "TranslationUnit\n  NamespaceDecl 'orders'\n    HandlerDecl 'parse(string in_) -> record<id: i64, amount: f64>'\n    HandlerDecl 'validate(record<id: i64, amount: f64> in_) -> record<id: i64, amount: f64>'\n    HandlerDecl 'persist(record<id: i64, amount: f64> in_) -> bool'\n    FlowBlock 'order_pipeline'\n      Edge parse -> validate\n      Edge validate -> persist\n      Edge persist -> void [terminal]\n";

#[test]
fn ast_dump_reads_back_to_an_equivalent_graph() {
    assert!(dump_is_readable(DUMP));
    let g = parse_ast_dump(DUMP);
    assert_eq!(g.namespace, "orders");
    assert_eq!(g.handlers.len(), 3);
    assert_eq!(g.handlers[0].in_type.as_ref().unwrap().topo(), "string");
    assert_eq!(g.handlers[2].out_type.topo(), "bool");
    assert_eq!(
        edge_pairs(&g),
        vec![
            ("parse".to_string(), Some("validate".to_string())),
            ("validate".to_string(), Some("persist".to_string())),
            ("persist".to_string(), None),
        ]
    );
    assert!(build_app().graph().equivalent_to(&g));
}

#[test]
fn parse_type_reads_records_and_scalars() {
    assert_eq!(parse_type("  i64 "), TypeRef::Scalar("i64".to_string()));
    assert_eq!(
        parse_type("record<id: i64, amount: f64>"),
        TypeRef::Record(vec![
            ("id".to_string(), TypeRef::Scalar("i64".to_string())),
            ("amount".to_string(), TypeRef::Scalar("f64".to_string())),
        ])
    );
    assert_eq!(
        parse_type("record<flag>"),
        TypeRef::Record(vec![("flag".to_string(), TypeRef::Scalar(String::new()))])
    );
    assert_eq!(parse_type("record<"), TypeRef::Scalar("record<".to_string()));
}

#[test]
fn rejected_source_reports_code_and_output() {
    match read_topo_output(false, Some(2), "out\n", "err\n") {
        Err(ReadbackError::ParseRejected { code, output }) => {
            assert_eq!(code, 2);
            assert_eq!(output, "out\nerr\n");
        }
        _ => panic!("expected a rejection"),
    }
    match read_topo_output(false, None, "", "") {
        Err(e) => {
            assert_eq!(e.to_display_string(), "topo --ast-dump rejected source (exit -1):\n");
        }
        _ => panic!("expected a rejection"),
    }
    assert!(read_topo_output(true, Some(0), DUMP, "").unwrap().flow.is_some());
}

#[test]
fn edges_before_a_flow_and_odd_lines_are_ignored() {
    let g = parse_ast_dump("Edge a -> b\nNamespaceDecl ''\nHandlerDecl 'noarrow'\nFlowBlock 'f'\nEdge x y\nEdge x -> y\n");
    assert_eq!(g.namespace, "");
    assert!(g.handlers.is_empty());
    assert_eq!(edge_pairs(&g), vec![("x".to_string(), Some("y".to_string()))]);
}

#[test]
fn backwards_parameter_list_is_unreadable() {
    assert!(!dump_is_readable("HandlerDecl 'f)x( -> i64'\n"));
    assert!(dump_is_readable("HandlerDecl 'f(x) -> i64'\n"));
}

#[test]
fn io_failure_is_reported_as_io() {
    let e = ReadbackError::from(std::io::Error::new(std::io::ErrorKind::NotFound, "no topo"));
    assert!(matches!(e, ReadbackError::Io(_)));
    assert_eq!(e.to_display_string(), "readback io error: no topo");
}

#[test]
fn a_type_spelling_reads_back_as_the_type() {
    let rec = order_rec();
    assert_eq!(rec.topo(), "record<id: i64, amount: f64>");
    assert_eq!(parse_type(&rec.topo()), rec);
    assert_eq!(parse_type(&format!(" \t{}\n", rec.topo())), rec);
    let s = f64_type();
    assert_eq!(parse_type(&s.topo()), s);
    assert_eq!(parse_type(&format!("  {}  ", s.topo())), s);
}

#[test]
fn a_nested_record_spelling_does_not_read_back() {
    let nested = TypeRef::Record(vec![("inner".to_string(), order_rec())]);
    assert_ne!(parse_type(&nested.topo()), nested);
}

#[test]
fn a_stage_from_a_name_is_a_single_handler_stage() {
    match Stage::from("parse") {
        Stage::One(n) => assert_eq!(n, "parse"),
        Stage::Parallel(_) => panic!("expected a single stage"),
    }
    let owned: Stage = String::from("emit").into();
    assert!(matches!(owned, Stage::One(ref n) if n == "emit"));
}
