use graphael::{Graph, GraphError};

#[test]
fn adding_nodes() {
    let mut g = Graph::new();
    let id1 = g.add_node();
    let id2 = g.add_node();
    {
        let n1 = g.get_node(id1).unwrap();
        assert!(n1.id == id1);
    }
    {
        let n2 = g.get_node_mut(id2).unwrap();
        assert!(n2.id == id2);
        n2.props.push(("hey".to_string(), "you".to_string()));
    }
}

#[test]
fn connecting_nodes() {
    let mut g = Graph::new();
    let id1 = g.add_node();
    let id2 = g.add_node();
    let id3 = g.add_node();
    g.connect_nodes(id1, id2, "hello").unwrap();
    assert!(g.are_connected(id1, id2).unwrap());
    assert!(!g.are_connected(id2, id1).unwrap());
    g.connect_nodes(id2, id1, "hi").unwrap();
    g.connect_nodes(id2, id3, "hello").unwrap();

    assert!(g.are_connected(id1, id2).unwrap());
    assert!(g.are_connected(id2, id1).unwrap());
    assert!(g.are_connected(id2, id3).unwrap());
    assert!(!g.are_connected(id3, id2).unwrap());

    g.connect_nodes(id1, id2, "second_label").unwrap();
    println!("{:?}", g.edges_with_label_from(id1, "second_label"));
    assert!(g.edges_with_label_from(id1, "second_label") == vec![id2]);
    assert!(g.edges_with_label_from(id1, "hello") == vec![id2]);
}

#[test]
fn removing_nodes() {
    let mut g = Graph::new();
    let id1 = g.add_node();
    let id2 = g.add_node();
    let id3 = g.add_node();
    g.connect_nodes(id1, id2, "hello").unwrap();
    assert!(g.are_connected(id1, id2).unwrap());
    assert!(!g.are_connected(id2, id1).unwrap());
    g.connect_nodes(id2, id1, "hi").unwrap();
    g.connect_nodes(id2, id3, "what's new").unwrap();

    assert!(g.are_connected(id1, id2).unwrap());
    assert!(g.are_connected(id2, id1).unwrap());
    assert!(g.are_connected(id2, id3).unwrap());
    assert!(!g.are_connected(id3, id2).unwrap());
    assert!(!g.are_connected(id3, id1).unwrap());
    assert!(!g.are_connected(id1, id3).unwrap());

    g.remove_node(id3).unwrap();
    assert!(g.are_connected(id1, id2).unwrap());
    assert!(g.are_connected(id2, id1).unwrap());
    assert!(g.get_node(id3).is_none());
}

#[test]
fn node_properties() {
    let mut g = Graph::new();
    let props1 = vec![
        ("prop1".to_string(), "val1".to_string()),
        ("prop2".to_string(), "val2".to_string()),
        ("prop3".to_string(), "val3".to_string()),
    ];
    let props2 = vec![
        ("prop2".to_string(), "val2".to_string()),
        ("prop3".to_string(), "val3".to_string()),
    ];
    let id1 = g.add_node_with_props(props1);
    let id2 = g.add_node_with_props(props2);

    let props_list = g.nodes_with_prop(&"prop2".to_string(), &"val2".to_string());
    assert!(props_list.len() == 2);
    assert!(props_list.contains(&id1));
    assert!(props_list.contains(&id2));

    let props_list2 = g.nodes_with_prop(&"prop1".to_string(), &"val1".to_string());
    assert!(props_list2.len() == 1);
    assert!(props_list2.contains(&id1));
}

#[test]
fn connect_establishes_edge_and_label() {
    let mut g = Graph::new();
    let a = g.add_node();
    let b = g.add_node();
    g.connect_nodes(a, b, "likes").unwrap();
    assert!(g.are_connected(a, b).unwrap());
    assert!(g.edges_with_label_from(a, "likes").contains(&b));
}

#[test]
fn connecting_twice_is_idempotent() {
    let mut g = Graph::new();
    let a = g.add_node();
    let b = g.add_node();
    g.connect_nodes(a, b, "likes").unwrap();
    let once = g.to_json_string();
    g.connect_nodes(a, b, "likes").unwrap();
    let twice = g.to_json_string();
    assert_eq!(once, twice);
}

#[test]
fn reverse_index_mirrors_edges() {
    let mut g = Graph::new();
    let a = g.add_node();
    let b = g.add_node();
    let c = g.add_node();
    g.connect_nodes(a, b, "x").unwrap();
    g.connect_nodes(b, a, "y").unwrap();
    g.connect_nodes(b, c, "z").unwrap();
    g.connect_nodes(c, c, "self").unwrap();
    g.remove_node(a).unwrap();
    // every forward pair is in the reverse index
    for (o, row) in &g.edges {
        for (d, _) in row {
            let set = &g.reverse_edges.iter().find(|p| p.0 == *d).unwrap().1;
            assert!(set.contains(o));
        }
    }
    // and every reverse pair is in the forward index
    for (d, set) in &g.reverse_edges {
        for o in set {
            let row = &g.edges.iter().find(|p| p.0 == *o).unwrap().1;
            assert!(row.iter().any(|p| p.0 == *d));
        }
    }
}

#[test]
fn removal_cascades() {
    let mut g = Graph::new();
    let a = g.add_node();
    let b = g.add_node();
    let c = g.add_node();
    g.connect_nodes(a, b, "x").unwrap();
    g.connect_nodes(b, a, "y").unwrap();
    g.connect_nodes(c, b, "z").unwrap();
    g.remove_node(b).unwrap();
    assert!(g.get_node(b).is_none());
    // asking about the dead node is an error naming it, and the
    // surviving nodes are no longer connected to anything
    assert_eq!(g.are_connected(a, b).unwrap_err(), GraphError::UnknownNode(b));
    assert_eq!(g.are_connected(b, a).unwrap_err(), GraphError::UnknownNode(b));
    assert!(g.edges_with_label_from(a, "x").is_empty());
    assert!(g.edges_with_label_from(c, "z").is_empty());
}

#[test]
fn connect_unknown_node_leaves_graph_unchanged() {
    let mut g = Graph::new();
    let a = g.add_node();
    let b = g.add_node();
    g.connect_nodes(a, b, "x").unwrap();
    let before = g.to_json_string();
    assert_eq!(g.connect_nodes(a, 77, "x").unwrap_err(), GraphError::UnknownNode(77));
    assert_eq!(g.connect_nodes(99, b, "x").unwrap_err(), GraphError::UnknownNode(99));
    let after = g.to_json_string();
    assert_eq!(before, after);
}

#[test]
fn remove_missing_node_is_not_found() {
    let mut g = Graph::new();
    let a = g.add_node();
    assert_eq!(g.remove_node(a + 1).unwrap_err(), GraphError::NotFound);
    assert_eq!(g.set_prop(a + 1, "k".to_string(), "v".to_string()).unwrap_err(),
        GraphError::NotFound);
}

#[test]
fn attributes_are_self_loops() {
    let mut g = Graph::new();
    let a = g.add_node();
    let b = g.add_node();
    g.connect_nodes(a, a, "tagged").unwrap();
    g.connect_nodes(a, b, "tagged").unwrap();
    let with_attr = g.nodes_with_attr(&"tagged".to_string());
    assert_eq!(with_attr.len(), 1);
    assert_eq!(with_attr[0].id, a);
}

#[test]
fn edges_with_label_filters_pairs() {
    let mut g = Graph::new();
    let a = g.add_node();
    let b = g.add_node();
    let c = g.add_node();
    g.connect_nodes(a, b, "x").unwrap();
    g.connect_nodes(a, c, "y").unwrap();
    g.connect_nodes(b, c, "x").unwrap();
    let found = g.edges_with_label(&"x".to_string());
    assert_eq!(found.len(), 2);
    assert_eq!(found[0].0, a);
    assert_eq!(found[0].1.len(), 1);
    assert_eq!(found[0].1[0].0, b);
    assert_eq!(found[1].0, b);
    assert_eq!(found[1].1[0].0, c);
    assert!(g.edges_with_label(&"zzz".to_string()).is_empty());
}

#[test]
fn set_prop_replaces_and_appends() {
    let mut g = Graph::new();
    let a = g.add_node();
    g.set_prop(a, "k".to_string(), "v1".to_string()).unwrap();
    g.set_prop(a, "k".to_string(), "v2".to_string()).unwrap();
    g.set_prop(a, "other".to_string(), "w".to_string()).unwrap();
    assert!(g.nodes_with_prop(&"k".to_string(), &"v1".to_string()).is_empty());
    assert_eq!(g.nodes_with_prop(&"k".to_string(), &"v2".to_string()), vec![a]);
    assert_eq!(g.nodes_with_prop(&"other".to_string(), &"w".to_string()), vec![a]);
}

#[test]
fn removed_ids_are_never_reused() {
    let mut g = Graph::new();
    let a = g.add_node();
    let b = g.add_node();
    g.remove_node(b).unwrap();
    let c = g.add_node();
    assert!(c != b && c != a);
    assert!(c > b);
}
