use graphael::{Graph, GraphError};

#[test]
fn json_io() {
    let mut g = Graph::new();
    let id1 = g.add_node();
    let id2 = g.add_node();
    let id3 = g.add_node();
    g.connect_nodes(id1, id2, "hello").unwrap();
    g.connect_nodes(id2, id1, "hi").unwrap();
    g.connect_nodes(id2, id3, "what's new").unwrap();

    let json_string = g.to_json_string();
    let expected_string = r#"{"edges":{"1":{"2":{"labels":["hello"]}},"2":{"1":{"labels":["hi"]},"3":{"labels":["what's new"]}}},"nodes":{"1":{"id":1,"props":{}},"2":{"id":2,"props":{}},"3":{"id":3,"props":{}}}}"#;
    assert!(json_string == expected_string);
    let g2 = Graph::from_json(expected_string).unwrap();
    assert!(g.eq(&g2));
}

#[test]
fn empty_graph_round_trip() {
    let g = Graph::new();
    let text = g.to_json_string();
    assert_eq!(text, r#"{"edges":{},"nodes":{}}"#);
    let g2 = Graph::from_json(&text).unwrap();
    assert!(g.eq(&g2));
}

#[test]
fn round_trip_with_props_and_attrs() {
    let mut g = Graph::new();
    let a = g.add_node_with_props(vec![
        ("name".to_string(), "ada".to_string()),
        ("note".to_string(), "line one\nline \"two\" \\ end\t".to_string()),
    ]);
    let b = g.add_node();
    g.connect_nodes(a, a, "tagged").unwrap();
    g.connect_nodes(a, b, "knows").unwrap();
    g.connect_nodes(b, a, "knows").unwrap();
    let text = g.to_json_string();
    let g2 = Graph::from_json(&text).unwrap();
    assert!(g.eq(&g2));
    // the reloaded graph answers queries the same way
    assert_eq!(g2.nodes_with_prop(&"name".to_string(), &"ada".to_string()), vec![a]);
    assert_eq!(g2.nodes_with_attr(&"tagged".to_string()).len(), 1);
    assert!(g2.are_connected(a, b).unwrap());
    // and the second save is byte-for-byte the first
    assert_eq!(g2.to_json_string(), text);
}

#[test]
fn malformed_text_is_parse_error() {
    assert_eq!(Graph::from_json("").unwrap_err(), GraphError::ParseError);
    assert_eq!(Graph::from_json("{").unwrap_err(), GraphError::ParseError);
    assert_eq!(Graph::from_json(r#"{"nodes":}"#).unwrap_err(), GraphError::ParseError);
    assert_eq!(Graph::from_json(r#"{"nodes":{}} trailing"#).unwrap_err(),
        GraphError::ParseError);
}

#[test]
fn wrong_shape_is_schema_error() {
    assert_eq!(Graph::from_json("[]").unwrap_err(), GraphError::SchemaError);
    assert_eq!(Graph::from_json(r#"{"nodes":{}}"#).unwrap_err(), GraphError::SchemaError);
    assert_eq!(Graph::from_json(r#"{"nodes":5,"edges":{}}"#).unwrap_err(),
        GraphError::SchemaError);
    assert_eq!(
        Graph::from_json(r#"{"edges":{},"nodes":{"x":{"id":1,"props":{}}}}"#).unwrap_err(),
        GraphError::SchemaError
    );
    assert_eq!(
        Graph::from_json(r#"{"edges":{},"nodes":{"2":{"id":1,"props":{}}}}"#).unwrap_err(),
        GraphError::SchemaError
    );
}

#[test]
fn edge_to_missing_node_is_unknown_node() {
    let text = r#"{"edges":{"1":{"2":{"labels":["x"]}}},"nodes":{"1":{"id":1,"props":{}}}}"#;
    assert_eq!(Graph::from_json(text).unwrap_err(), GraphError::UnknownNode(2));
}

#[test]
fn loaded_counter_does_not_reuse_ids() {
    let text = r#"{"edges":{},"nodes":{"3":{"id":3,"props":{}},"7":{"id":7,"props":{}}}}"#;
    let mut g = Graph::from_json(text).unwrap();
    let fresh = g.add_node();
    assert_eq!(fresh, 8);
}

#[test]
fn load_accepts_whitespace_and_any_member_order() {
    let text = "{ \"nodes\" : { \"1\" : { \"id\" : 1, \"props\" : { } } },\n  \"edges\" : { \"1\" : { \"1\" : { \"labels\" : [ \"loop\" ] } } } }";
    let g = Graph::from_json(text).unwrap();
    assert!(g.are_connected(1, 1).unwrap());
    assert_eq!(g.nodes_with_attr(&"loop".to_string()).len(), 1);
}

#[test]
fn load_unescapes_strings() {
    let text = r#"{"edges":{},"nodes":{"1":{"id":1,"props":{"note":"a\nb\t\"q\" \\ \u0007"}}}}"#;
    let g = Graph::from_json(text).unwrap();
    let expected = "a\nb\t\"q\" \\ \u{7}".to_string();
    assert_eq!(g.nodes_with_prop(&"note".to_string(), &expected), vec![1]);
}

#[test]
fn props_keys_are_sorted_in_saves() {
    let mut g = Graph::new();
    g.add_node_with_props(vec![
        ("beta".to_string(), "2".to_string()),
        ("alpha".to_string(), "1".to_string()),
    ]);
    let text = g.to_json_string();
    assert_eq!(
        text,
        r#"{"edges":{},"nodes":{"1":{"id":1,"props":{"alpha":"1","beta":"2"}}}}"#
    );
    let g2 = graphael::Graph::from_json(&text).unwrap();
    assert!(g.eq(&g2));
}
