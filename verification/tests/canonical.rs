use graph_canon::{assert_graph_eq, canonicalize, Graph, GraphError, Relationship};

/// In-memory graph satisfying the capability interface, with nodes numbered
/// by position.
struct TestGraph {
    labels: Vec<Vec<String>>,
    properties: Vec<Vec<(String, String)>>,
    outgoing: Vec<Vec<Relationship>>,
    incoming: Vec<Vec<Relationship>>,
}

impl TestGraph {
    fn with_nodes(n: usize) -> TestGraph {
        TestGraph {
            labels: vec![Vec::new(); n],
            properties: vec![Vec::new(); n],
            outgoing: vec![Vec::new(); n],
            incoming: vec![Vec::new(); n],
        }
    }

    fn add_rel(&mut self, source: u64, target: u64, rel_type: &str, props: Vec<(String, String)>) {
        self.outgoing[source as usize].push(Relationship {
            other: target,
            rel_type: rel_type.to_string(),
            properties: props.clone(),
        });
        self.incoming[target as usize].push(Relationship {
            other: source,
            rel_type: rel_type.to_string(),
            properties: props,
        });
    }
}

impl Graph for TestGraph {
    fn nodes(&self) -> Vec<u64> {
        (0..self.labels.len() as u64).collect()
    }

    fn node_labels(&self, node_id: u64) -> Vec<String> {
        self.labels[node_id as usize].clone()
    }

    fn node_properties(&self, node_id: u64) -> Vec<(String, String)> {
        self.properties[node_id as usize].clone()
    }

    fn outgoing_relationships(&self, node_id: u64) -> Vec<Relationship> {
        self.outgoing[node_id as usize]
            .iter()
            .map(|r| Relationship {
                other: r.other,
                rel_type: r.rel_type.clone(),
                properties: r.properties.clone(),
            })
            .collect()
    }

    fn incoming_relationships(&self, node_id: u64) -> Vec<Relationship> {
        self.incoming[node_id as usize]
            .iter()
            .map(|r| Relationship {
                other: r.other,
                rel_type: r.rel_type.clone(),
                properties: r.properties.clone(),
            })
            .collect()
    }
}

/// Parses a GDL description and materializes it as a `TestGraph`.
fn from_gdl(gdl: &str) -> TestGraph {
    let parsed = gdl.parse::<gdl::Graph>().unwrap();
    let vars: Vec<String> = parsed.nodes().map(|n| n.variable().to_string()).collect();
    let index_of =
        |v: &str| vars.iter().position(|x| x == v).expect("relationship endpoint exists") as u64;
    let mut g = TestGraph::with_nodes(vars.len());
    for (i, v) in vars.iter().enumerate() {
        let node = parsed.get_node(v).unwrap();
        g.labels[i] = node.labels().map(|l| l.to_string()).collect();
        g.properties[i] = node
            .properties()
            .map(|(k, val)| (k.to_string(), format!("{}", val)))
            .collect();
    }
    for rel in parsed.relationships() {
        let s = index_of(rel.source());
        let t = index_of(rel.target());
        let props: Vec<(String, String)> = rel
            .properties()
            .map(|(k, val)| (k.to_string(), format!("{}", val)))
            .collect();
        g.add_rel(s, t, rel.rel_type().unwrap_or(""), props);
    }
    g
}

fn canonical(gdl: &str) -> String {
    canonicalize(&from_gdl(gdl)).unwrap()
}

#[test]
fn test_topology_equals() {
    let g1 = canonical("(a), (b), (a)-->(b)");
    let g2 = canonical("(a), (b), (a)-->(b)");
    assert_eq!(g1, g2)
}

#[test]
fn test_topology_not_equals() {
    let g1 = canonical("(a), (b), (a)-->(b)");
    let g2 = canonical("(a), (a)-->(a)");
    assert_ne!(g1, g2)
}

#[test]
fn test_topology_and_node_labels_equals() {
    let g1 = canonical("(a:A:B), (b:B), (a)-->(b)");
    let g2 = canonical("(a:A:B), (b:B), (a)-->(b)");
    assert_eq!(g1, g2)
}

#[test]
fn test_topology_and_node_labels_not_equals() {
    let g1 = canonical("(a:A:B), (b:B), (a)-->(b)");
    let g2 = canonical("(a:A:B), (b:C), (a)-->(b)");
    assert_ne!(g1, g2)
}

#[test]
fn test_topology_and_data_equals() {
    let g1 = canonical("(a {a:2, w:1.0}), (b {w:2, a:3, q:42.0}), (a)-->(b)");
    let g2 = canonical("(a {a:2, w:1.0}), (b {w:2, a:3, q:42.0}), (a)-->(b)");
    assert_eq!(g1, g2)
}

#[test]
fn test_parallel_edges() {
    let g1 = canonical("(a), (b), (a)-[{w:1}]->(b), (a)-[{w:2}]->(b)");
    let g2 = canonical("(a), (b), (a)-[{w:2}]->(b), (a)-[{w:1}]->(b)");
    assert_eq!(g1, g2)
}

#[test]
fn test_loop() {
    let g1 = canonical("(a), (b), (a)-[{w:1}]->(a), (a)-[{w:2}]->(b)");
    let g2 = canonical("(a), (b), (a)-[{w:2}]->(b), (a)-[{w:1}]->(a)");
    assert_eq!(g1, g2)
}

#[test]
fn test_cycle() {
    let g1 = canonical("(a {v:1}), (b {v:2}), (c {v:3}), (a)-->(b)-->(c)-->(a)");
    let g2 = canonical("(a {v:2}), (b {v:3}), (c {v:1}), (a)-->(b)-->(c)-->(a)");
    assert_eq!(g1, g2)
}

#[test]
fn test_complete_graph() {
    let g1 = canonical(
        "(a {v:1}), (b {v:2}), (c {v:3}), (b)<--(a)-->(c), (a)<--(b)-->(c), (a)<--(c)-->(b)",
    );
    let g2 = canonical(
        "(a {v:1}), (b {v:2}), (c {v:3}), (b)<--(a)-->(b), (a)<--(b)-->(c), (a)<--(c)-->(b)",
    );
    assert_ne!(g1, g2)
}

#[test]
fn test_complete_homogenic_graph() {
    let g1 = canonical(
        "(a {v:1}), (b {v:1}), (c {v:1}), (b)<--(a)-->(c), (a)<--(b)-->(c), (a)<--(c)-->(b)",
    );
    let g2 = canonical(
        "(a {v:1}), (b {v:1}), (c {v:1}), (b)<--(a)-->(b), (a)<--(b)-->(c), (a)<--(c)-->(b)",
    );
    assert_ne!(g1, g2)
}

#[test]
fn test_canonicalize() {
    let g = r#"
          (a:A { c: 42, b: 37, a: 13 })
        , (b:B { bar: 84 })
        , (c:C { baz: 19, boz: 84 })
        , (a)-[:REL { c: 42, b: 37, a: 13 }]->(b)
        , (b)-[:REL { c: 12 }]->(a)
        , (b)-[:REL { a: 23 }]->(c)
        "#;

    let expected = [
        "(:A { a: 13, b: 37, c: 42 }) => out: ()-[:REL { a: 13, b: 37, c: 42 }]->(:B { bar: 84 }) in: ()<-[:REL { c: 12 }]-(:B { bar: 84 })",
        "(:B { bar: 84 }) => out: ()-[:REL { a: 23 }]->(:C { baz: 19, boz: 84 }), ()-[:REL { c: 12 }]->(:A { a: 13, b: 37, c: 42 }) in: ()<-[:REL { a: 13, b: 37, c: 42 }]-(:A { a: 13, b: 37, c: 42 })",
        "(:C { baz: 19, boz: 84 }) => out:  in: ()<-[:REL { a: 23 }]-(:B { bar: 84 })",
    ].join("\n");

    assert_eq!(expected, canonical(g));
}

#[test]
fn renaming_invariance_scenario() {
    let g1 = canonical("(a:A {v:1}), (b:B), (a)-[:R {w:2}]->(b)");
    let g2 = canonical("(x:A {v:1}), (y:B), (x)-[:R {w:2}]->(y)");
    assert_eq!(g1, g2)
}

#[test]
fn node_order_invariance_scenario() {
    let g1 = canonical("(a:A), (b:B), (a)-->(b)");
    let g2 = canonical("(b:B), (a:A), (a)-->(b)");
    assert_eq!(g1, g2)
}

#[test]
fn label_order_invariance_scenario() {
    let g1 = canonical("(a:A:B:C)");
    let g2 = canonical("(a:C:A:B)");
    assert_eq!(g1, g2)
}

#[test]
fn property_order_invariance_scenario() {
    let g1 = canonical("(a {x:1, y:2})");
    let g2 = canonical("(a {y:2, x:1})");
    assert_eq!(g1, g2)
}

#[test]
fn sensitivity_to_property_value() {
    assert_ne!(canonical("(a {x:1})"), canonical("(a {x:2})"));
}

#[test]
fn sensitivity_to_relationship_type() {
    assert_ne!(
        canonical("(a), (b), (a)-[:R]->(b)"),
        canonical("(a), (b), (a)-[:S]->(b)")
    );
}

#[test]
fn self_loop_appears_in_both_buckets() {
    let form = canonical("(a)-[:R]->(a)");
    assert_eq!(form, "( ) => out: ()-[:R ]->( ) in: ()<-[:R ]-( )");
}

#[test]
fn absent_relationship_type_renders_empty() {
    let form = canonical("(a), (b), (a)-->(b)");
    let expected = [
        "( ) => out:  in: ()<-[: ]-( )",
        "( ) => out: ()-[: ]->( ) in: ",
    ]
    .join("\n");
    assert_eq!(form, expected);
}

#[test]
fn graph_equals_itself() {
    let g = from_gdl("(a:A {v:1}), (b:B), (a)-[:R {w:2}]->(b), (b)-->(b)");
    assert!(assert_graph_eq(&g, &g));
    assert_eq!(canonicalize(&g).unwrap(), canonicalize(&g).unwrap());
}

#[test]
fn graphs_of_different_representations_compare() {
    // The same content once parsed from GDL and once built by hand.
    let parsed = from_gdl("(a:A), (b), (a)-[:R]->(b)");
    let mut built = TestGraph::with_nodes(2);
    built.labels[1] = vec!["A".to_string()];
    built.add_rel(1, 0, "R", Vec::new());
    assert!(assert_graph_eq(&parsed, &built));
}

#[test]
fn incoming_is_transpose_of_outgoing() {
    let mut g = TestGraph::with_nodes(2);
    g.add_rel(0, 1, "R", vec![("w".to_string(), "1".to_string())]);
    g.add_rel(0, 1, "R", vec![("w".to_string(), "2".to_string())]);
    g.add_rel(1, 1, "S", Vec::new());
    let ins = g.incoming_relationships(1);
    assert_eq!(ins.len(), 3);
    assert_eq!(
        ins.iter().filter(|r| r.other == 0 && r.rel_type == "R").count(),
        2
    );
    assert!(ins.iter().any(|r| r.other == 1 && r.rel_type == "S"));
    let outs = g.outgoing_relationships(1);
    assert_eq!(outs.len(), 1);
    assert_eq!(outs[0].other, 1);
    assert_eq!(outs[0].rel_type, "S");
}

#[test]
fn empty_graph_has_empty_form() {
    let g = TestGraph::with_nodes(0);
    assert_eq!(canonicalize(&g).unwrap(), "");
}

#[test]
fn missing_endpoint_is_reported() {
    let mut g = TestGraph::with_nodes(1);
    g.outgoing[0].push(Relationship {
        other: 7,
        rel_type: "R".to_string(),
        properties: Vec::new(),
    });
    assert_eq!(canonicalize(&g), Err(GraphError::NodeNotFound));
}

#[test]
fn duplicate_labels_collapse() {
    let mut g = TestGraph::with_nodes(1);
    g.labels[0] = vec!["A".to_string(), "A".to_string()];
    assert_eq!(canonicalize(&g).unwrap(), "(:A ) => out:  in: ");
}

#[test]
fn canonical_properties_sorts_and_braces() {
    let props = vec![
        ("b".to_string(), "2".to_string()),
        ("a".to_string(), "1".to_string()),
    ];
    assert_eq!(graph_canon::canonical_properties(&props), "{ a: 1, b: 2 }");
    assert_eq!(graph_canon::canonical_properties(&Vec::new()), "");
}

#[test]
fn duplicate_rendered_properties_collapse() {
    let props = vec![
        ("a".to_string(), "1".to_string()),
        ("a".to_string(), "1".to_string()),
    ];
    assert_eq!(graph_canon::canonical_properties(&props), "{ a: 1 }");
}

#[test]
fn canonical_nodes_computes_signatures() {
    let mut g = TestGraph::with_nodes(2);
    g.labels[0] = vec!["B".to_string(), "A".to_string()];
    g.properties[1] = vec![("k".to_string(), "v".to_string())];
    let sigs = graph_canon::canonical_nodes(&g);
    assert_eq!(sigs, vec!["(:A:B )".to_string(), "( { k: v })".to_string()]);
}
