use dotgraph::attributes::Attributes;
use dotgraph::dot::{assemble, parse, AttributeType, EdgeInternal, GlobalAttribute, GraphInternal, Statement};
use dotgraph::grammar::graph;
use dotgraph::engine::EngineGraph;
use dotgraph::graph::{DotGraph, Edge, GraphType, Node};
use dotgraph::lexer::{doubleQuotedInner, doubleQuotedString, escaped, id, tokenize, ParseError, Token};

fn pairs(attrs: &Attributes) -> Vec<(String, String)> {
    let mut out = Vec::new();
    let mut i = 0;
    while let Some((k, v)) = attrs.entry(i) {
        out.push((k.clone(), v.clone()));
        i += 1;
    }
    out
}

fn p(k: &str, v: &str) -> (String, String) {
    (k.to_string(), v.to_string())
}

fn syntax_error(text: &str) -> bool {
    matches!(parse(text), Err(ParseError::Syntax))
}

fn ids(g: &DotGraph) -> Vec<String> {
    (0..g.node_count()).map(|i| g.node_weight(i).unwrap().id.clone()).collect()
}

fn ends(g: &DotGraph) -> Vec<(usize, usize)> {
    (0..g.edge_count()).map(|i| g.edge_endpoints(i).unwrap()).collect()
}

#[test]
fn escapes_are_only_quote_and_backslash() {
    assert!(matches!(escaped("\\n"), Err(ParseError::Syntax)));
    assert!(matches!(escaped("\\"), Err(ParseError::Syntax)));
    assert!(matches!(escaped(""), Err(ParseError::Syntax)));
    assert!(matches!(escaped("\\\"x"), Err(ParseError::Syntax)));
}

#[test]
fn other_backslashes_stand_for_themselves() {
    assert_eq!(doubleQuotedInner("a\\nb").unwrap(), "a\\nb");
    assert_eq!(doubleQuotedInner("tail\\").unwrap(), "tail\\");
    assert_eq!(doubleQuotedInner("").unwrap(), "");
    assert_eq!(doubleQuotedString("\"\"").unwrap(), "");
    assert_eq!(doubleQuotedString("\"a\\\\\"").unwrap(), "a\\");
    assert!(matches!(doubleQuotedString("\""), Err(ParseError::Syntax)));
    assert!(matches!(doubleQuotedString("\"a\\\""), Err(ParseError::Syntax)));
    assert!(matches!(doubleQuotedString("\"a\"b\""), Err(ParseError::Syntax)));
    assert!(matches!(doubleQuotedString("a"), Err(ParseError::Syntax)));
}

#[test]
fn ids_are_identifiers_numerals_or_quoted() {
    assert_eq!(id("_x9").unwrap(), "_x9");
    assert_eq!(id("-3").unwrap(), "-3");
    assert_eq!(id("-.5").unwrap(), "-.5");
    assert_eq!(id("5.").unwrap(), "5.");
    assert_eq!(id("\u{e9}t\u{e9}").unwrap(), "\u{e9}t\u{e9}");
    for bad in ["", "9a", "a.b", "1.2.3", ".", "-", "a b", "a-b", "-a"] {
        assert!(matches!(id(bad), Err(ParseError::Syntax)), "{:?}", bad);
    }
}

#[test]
fn tokenize_splits_words_and_signs() {
    let tokens = tokenize("a->b--\"c d\"[x=1;]{},").unwrap();
    let shown: Vec<String> = tokens.iter().map(|t| format!("{:?}", t)).collect();
    assert_eq!(
        shown,
        vec![
            "Word(\"a\")",
            "Arrow",
            "Word(\"b\")",
            "Line",
            "Quoted(\"c d\")",
            "LBracket",
            "Word(\"x\")",
            "Equals",
            "Word(\"1\")",
            "Semicolon",
            "RBracket",
            "LBrace",
            "RBrace",
            "Comma",
        ]
    );
    assert!(matches!(tokenize("a # b"), Err(ParseError::Syntax)));
    assert!(matches!(tokenize("\"open"), Err(ParseError::Syntax)));
    assert!(matches!(tokenize("  \t\r\n").unwrap().as_slice(), []));
    assert!(matches!(tokenize(" x ").unwrap().as_slice(), [Token::Word(_)]));
}

#[test]
fn grammar_reads_header_and_statements() {
    let g = graph("strict graph G { node [shape=box]; a; a -- b -- c [w=2] rankdir=LR }").unwrap();
    assert!(g.strict);
    assert_eq!(g._type, GraphType::Graph);
    assert_eq!(g.id, Some("G".to_string()));
    assert_eq!(g.statements.len(), 4);
    match &g.statements[0] {
        Statement::GlobalAttribute(a) => {
            assert_eq!(a._type, AttributeType::Node);
            assert_eq!(pairs(&a.attributes), vec![p("shape", "box")]);
        }
        _ => panic!("no default attributes"),
    }
    match &g.statements[1] {
        Statement::Node(n) => {
            assert_eq!(n.id, "a");
            assert!(n.attributes.is_empty());
        }
        _ => panic!("no node"),
    }
    match &g.statements[2] {
        Statement::Edge(e) => {
            assert_eq!(e.nodes, vec!["a".to_string(), "b".to_string(), "c".to_string()]);
            assert_eq!(pairs(&e.attributes), vec![p("w", "2")]);
        }
        _ => panic!("no edge"),
    }
    match &g.statements[3] {
        Statement::GlobalAttribute(a) => {
            assert_eq!(a._type, AttributeType::Graph);
            assert_eq!(pairs(&a.attributes), vec![p("rankdir", "LR")]);
        }
        _ => panic!("no graph attribute"),
    }
}

#[test]
fn implicit_node_creation() {
    let g = parse("digraph { \"x\" -> \"y\" }").unwrap();
    assert_eq!(g.node_count(), 2);
    assert_eq!(ids(&g), vec!["x".to_string(), "y".to_string()]);
    assert!(g.node_weight(0).unwrap().attributes.is_empty());
    assert!(g.node_weight(1).unwrap().attributes.is_empty());
    assert_eq!(g.edge_count(), 1);
    assert_eq!(ends(&g), vec![(0, 1)]);
}

#[test]
fn duplicate_node_ids_keep_the_first() {
    let g = parse("digraph { a [color=red]; a [color=blue, shape=box]; }").unwrap();
    assert_eq!(g.node_count(), 1);
    assert_eq!(pairs(&g.node_weight(0).unwrap().attributes), vec![p("color", "red")]);
}

#[test]
fn chains_split_into_pairs_with_the_same_attributes() {
    let g = parse("digraph { a -> b -> c [k=v] }").unwrap();
    assert_eq!(ids(&g), vec!["a".to_string(), "b".to_string(), "c".to_string()]);
    assert_eq!(ends(&g), vec![(0, 1), (1, 2)]);
    assert_eq!(pairs(&g.edge_weight(0).unwrap().attributes), vec![p("k", "v")]);
    assert_eq!(pairs(&g.edge_weight(1).unwrap().attributes), vec![p("k", "v")]);
}

#[test]
fn declared_nodes_come_before_implicit_ones() {
    let g = parse("digraph { z -> a; a [label=A]; b -> z }").unwrap();
    assert_eq!(ids(&g), vec!["a".to_string(), "z".to_string(), "b".to_string()]);
    assert_eq!(ends(&g), vec![(1, 0), (2, 1)]);
    assert_eq!(pairs(&g.node_weight(0).unwrap().attributes), vec![p("label", "A")]);
}

#[test]
fn default_attribute_blocks_merge_by_key() {
    let g = parse(
        "graph { graph [a=1, b=2] node [n=1] graph [b=3; c=4] edge [e=1] [f=2] node [n=2] b=5 }",
    )
    .unwrap();
    assert_eq!(pairs(&g.graph_attributes), vec![p("a", "1"), p("b", "5"), p("c", "4")]);
    assert_eq!(pairs(&g.node_attributes), vec![p("n", "2")]);
    assert_eq!(pairs(&g.edge_attributes), vec![p("e", "1"), p("f", "2")]);
    assert_eq!(g.node_count(), 0);
}

#[test]
fn header_forms() {
    let g = parse("graph{}").unwrap();
    assert!(!g.strict);
    assert_eq!(g._type, GraphType::Graph);
    assert_eq!(g.id, None);
    let g = parse("strict digraph \"my graph\" {\n}\n").unwrap();
    assert!(g.strict);
    assert_eq!(g._type, GraphType::Digraph);
    assert_eq!(g.id, Some("my graph".to_string()));
    let g = parse("digraph 7 { }").unwrap();
    assert_eq!(g.id, Some("7".to_string()));
}

#[test]
fn texts_that_are_no_graph() {
    for bad in [
        "",
        "digraph",
        "digraph {",
        "digraph { } x",
        "strict { }",
        "Digraph { }",
        "digraph { a -> }",
        "digraph { -> a }",
        "digraph { a [x] }",
        "digraph { a [x=] }",
        "digraph { a [x=1 }",
        "digraph { node }",
        "digraph { node -> a }",
        "digraph { subgraph }",
        "digraph { a = }",
        "digraph { a ; ; }",
        "digraph { a:b -> c }",
        "digraph { \"a }",
    ] {
        assert!(syntax_error(bad), "{:?}", bad);
    }
}

#[test]
fn assemble_takes_any_statements() {
    let mut attrs = Attributes::new();
    attrs.insert("k".to_string(), "v".to_string());
    let g = GraphInternal {
        strict: true,
        _type: GraphType::Digraph,
        id: None,
        statements: vec![
            Statement::Edge(EdgeInternal {
                attributes: attrs,
                nodes: vec!["a".to_string(), "a".to_string(), "b".to_string()],
            }),
            Statement::Edge(EdgeInternal {
                attributes: Attributes::new(),
                nodes: vec!["lonely".to_string()],
            }),
            Statement::Node(Node::new("b".to_string(), Attributes::new())),
            Statement::GlobalAttribute(GlobalAttribute::new(AttributeType::Edge, Attributes::new())),
        ],
    };
    let g = assemble(g).unwrap();
    assert!(g.strict);
    assert_eq!(ids(&g), vec!["b".to_string(), "a".to_string(), "lonely".to_string()]);
    assert_eq!(ends(&g), vec![(1, 1), (1, 0)]);
    assert_eq!(pairs(&g.edge_weight(1).unwrap().attributes), vec![p("k", "v")]);
}

#[test]
fn global_attribute_new_stores_its_parts() {
    let mut attrs = Attributes::new();
    attrs.insert("k".to_string(), "v".to_string());
    let a = GlobalAttribute::new(AttributeType::Node, attrs);
    assert_eq!(a._type, AttributeType::Node);
    assert_eq!(pairs(&a.attributes), vec![p("k", "v")]);
}

#[test]
fn round_trip_of_a_written_graph() {
    let text = "strict digraph \"g 1\" {\n  graph [ rankdir = LR ]\n  node [ \"font name\" = \"a \\\"b\\\" \\\\ c\" ]\n  iron [ label = \"Iron plate\" ]\n  gear -> iron [ amount = 2 ]\n  belt -> gear -> iron\n  belt -> iron [ \"node\" = 1 ]\n}\n";
    let first = parse(text).unwrap();
    let written = first.write();
    let second = parse(&written).unwrap();
    assert_eq!(second.write(), written);
    assert_eq!(second.strict, first.strict);
    assert_eq!(second._type, first._type);
    assert_eq!(second.id, first.id);
    assert_eq!(pairs(&second.graph_attributes), pairs(&first.graph_attributes));
    assert_eq!(pairs(&second.node_attributes), pairs(&first.node_attributes));
    assert_eq!(pairs(&second.node_attributes), vec![p("font name", "a \"b\" \\ c")]);
    assert_eq!(pairs(&second.edge_attributes), pairs(&first.edge_attributes));
    assert_eq!(ids(&second), ids(&first));
    assert_eq!(ids(&second), vec!["iron".to_string(), "gear".to_string(), "belt".to_string()]);
    assert_eq!(ends(&second), ends(&first));
    assert_eq!(ends(&second), vec![(1, 0), (2, 1), (1, 0), (2, 0)]);
    for i in 0..first.node_count() {
        assert_eq!(
            pairs(&second.node_weight(i).unwrap().attributes),
            pairs(&first.node_weight(i).unwrap().attributes)
        );
    }
    for i in 0..first.edge_count() {
        assert_eq!(
            pairs(&second.edge_weight(i).unwrap().attributes),
            pairs(&first.edge_weight(i).unwrap().attributes)
        );
    }
    assert_eq!(pairs(&second.edge_weight(3).unwrap().attributes), vec![p("node", "1")]);
}

#[test]
fn round_trip_of_an_undirected_graph() {
    let first = parse("graph { a -- b; b -- b }").unwrap();
    let second = parse(&first.write()).unwrap();
    assert_eq!(second._type, GraphType::Graph);
    assert_eq!(ids(&second), vec!["a".to_string(), "b".to_string()]);
    assert_eq!(ends(&second), vec![(0, 1), (1, 1)]);
}

#[test]
fn numerals_and_signs_are_told_apart() {
    let g = parse("digraph { a->-1; -1 -> .5 -> b--c }").unwrap();
    assert_eq!(
        ids(&g),
        vec!["a".to_string(), "-1".to_string(), ".5".to_string(), "b".to_string(), "c".to_string()]
    );
    assert_eq!(ends(&g), vec![(0, 1), (1, 2), (2, 3), (3, 4)]);
}

#[test]
fn round_trip_of_unusual_strings() {
    let mut ga = Attributes::new();
    ga.insert("".to_string(), "empty key".to_string());
    ga.insert("graph".to_string(), "kept word".to_string());
    ga.insert("two words".to_string(), "line\nbreak\tand tab".to_string());
    ga.insert("-7.25".to_string(), "\u{e9}\u{4e16}\u{754c}".to_string());
    ga.insert("a.b".to_string(), "ends with backslash\\".to_string());
    let mut first = DotGraph::new(
        false,
        GraphType::Digraph,
        Some("".to_string()),
        ga,
        Attributes::new(),
        Attributes::new(),
        EngineGraph::new(),
    );
    let mut na = Attributes::new();
    na.insert("label".to_string(), "\"quoted\" and \\\"escaped\\\"".to_string());
    first.add_node(Node::new("".to_string(), na));
    first.add_node(Node::new("\\".to_string(), Attributes::new()));
    first.add_node(Node::new("a\nb".to_string(), Attributes::new()));
    first.add_node(Node::new("node".to_string(), Attributes::new()));
    first.add_edge(0, 1, Edge::new(Attributes::new()));
    first.add_edge(3, 2, Edge::new(Attributes::new()));
    first.add_edge(3, 2, Edge::new(Attributes::new()));
    first.add_edge(1, 1, Edge::new(Attributes::new()));
    let text = first.write();
    let second = parse(&text).unwrap();
    assert_eq!(second.write(), text);
    assert_eq!(second.id, Some("".to_string()));
    assert_eq!(pairs(&second.graph_attributes), pairs(&first.graph_attributes));
    assert_eq!(ids(&second), ids(&first));
    assert_eq!(ends(&second), ends(&first));
    assert_eq!(
        pairs(&second.node_weight(0).unwrap().attributes),
        vec![p("label", "\"quoted\" and \\\"escaped\\\"")]
    );
}

#[test]
fn nodes_with_one_id_do_not_round_trip() {
    let mut first = DotGraph::new(
        false,
        GraphType::Graph,
        None,
        Attributes::new(),
        Attributes::new(),
        Attributes::new(),
        EngineGraph::new(),
    );
    first.add_node(Node::new("twin".to_string(), Attributes::new()));
    first.add_node(Node::new("twin".to_string(), Attributes::new()));
    let second = parse(&first.write()).unwrap();
    assert_eq!(first.node_count(), 2);
    assert_eq!(second.node_count(), 1);
}
