use std::collections::HashSet;

use rust_graph::graph::Graph;
use rust_graph::query::{GraphError, Query};
use rust_graph::value::Value;

fn name(s: &str) -> String {
    s.to_string()
}

fn as_set(r: Result<Vec<String>, GraphError<String>>) -> HashSet<String> {
    r.expect("expected an adjacency set").into_iter().collect()
}

#[test]
fn insert_reports_duplicates_and_keeps_first_value() {
    let mut graph: Graph<u64> = Graph::new();
    assert_eq!(true, graph.insert(7, Value::Unsigned64(1)));
    assert_eq!(false, graph.insert(7, Value::Unsigned64(2)));
    assert_eq!(Some(Value::Unsigned64(1)), graph.get(&7));
    assert_eq!(None, graph.get(&8));
}

#[test]
fn link_is_idempotent_and_directional() {
    let mut graph: Graph<String> = Graph::new();
    assert!(graph.insert(name("a"), Value::Unsigned64(0)));
    assert!(graph.insert(name("b"), Value::Unsigned64(1)));
    assert_eq!(Some(true), graph.link(&name("a"), &name("b")));
    assert_eq!(Some(false), graph.link(&name("a"), &name("b")));
    assert_eq!(
        Some(true),
        graph.existence_query(&Query::link_source_target(&name("a"), &name("b")))
    );
    assert_eq!(
        Some(false),
        graph.existence_query(&Query::link_source_target(&name("b"), &name("a")))
    );
    // The reverse direction is its own link.
    assert_eq!(Some(true), graph.link(&name("b"), &name("a")));
    assert_eq!(
        Some(true),
        graph.existence_query(&Query::link_source_target(&name("b"), &name("a")))
    );
}

#[test]
fn unknown_identifier_signals_everywhere() {
    let mut graph: Graph<String> = Graph::new();
    assert!(graph.insert(name("n"), Value::Unsigned64(0)));
    assert!(graph.insert(name("m"), Value::Unsigned64(1)));
    assert_eq!(Some(true), graph.link(&name("n"), &name("m")));
    // Deleting makes an identifier as unknown as one never inserted.
    assert_eq!(true, graph.delete(&name("n")));

    for ghost in [name("n"), name("never")] {
        assert_eq!(None, graph.link(&ghost, &name("m")));
        assert_eq!(None, graph.link(&name("m"), &ghost));
        assert_eq!(None, graph.unlink(&ghost, &name("m")));
        assert_eq!(None, graph.unlink(&name("m"), &ghost));
        assert_eq!(
            None,
            graph.existence_query(&Query::link_source_target(&ghost, &name("m")))
        );
        assert_eq!(
            None,
            graph.existence_query(&Query::link_source_target(&name("m"), &ghost))
        );
        assert_eq!(None, graph.existence_query(&Query::link_source(&ghost)));
        assert_eq!(None, graph.existence_query(&Query::link_target(&ghost)));
        assert_eq!(
            Err(GraphError::UnknownNode(ghost.clone())),
            graph.set_query(&Query::link_source(&ghost))
        );
        assert_eq!(
            Err(GraphError::UnknownNode(ghost.clone())),
            graph.set_query(&Query::link_target(&ghost))
        );
        // The bare node query reports absence instead of signalling it.
        assert_eq!(Some(false), graph.existence_query(&Query::node(&ghost)));
    }
}

#[test]
fn set_query_rejects_unsupported_shapes() {
    let mut graph: Graph<String> = Graph::new();
    assert!(graph.insert(name("a"), Value::Unsigned64(0)));
    assert_eq!(
        Err(GraphError::UnsupportedQuery(Query::Node(name("a")))),
        graph.set_query(&Query::node(&name("a")))
    );
    assert_eq!(
        Err(GraphError::UnsupportedQuery(Query::LinkSourceTarget(name("a"), name("a")))),
        graph.set_query(&Query::link_source_target(&name("a"), &name("a")))
    );
}

#[test]
fn linkless_node_yields_empty_set_not_error() {
    let mut graph: Graph<String> = Graph::new();
    assert!(graph.insert(name("lonely"), Value::Unsigned64(0)));
    assert_eq!(Ok(Vec::new()), graph.set_query(&Query::link_source(&name("lonely"))));
    assert_eq!(Ok(Vec::new()), graph.set_query(&Query::link_target(&name("lonely"))));
}

#[test]
fn delete_purges_both_sides_of_every_adjacency_set() {
    let mut graph: Graph<String> = Graph::new();
    for n in ["a", "b", "c"] {
        assert!(graph.insert(name(n), Value::Unsigned64(0)));
    }
    assert_eq!(Some(true), graph.link(&name("a"), &name("b")));
    assert_eq!(Some(true), graph.link(&name("b"), &name("a")));
    assert_eq!(Some(true), graph.link(&name("c"), &name("b")));
    assert_eq!(Some(true), graph.link(&name("b"), &name("c")));
    assert_eq!(Some(true), graph.link(&name("a"), &name("c")));

    assert_eq!(true, graph.delete(&name("b")));

    // b is gone from the node table...
    assert_eq!(Some(false), graph.existence_query(&Query::node(&name("b"))));
    assert_eq!(
        None,
        graph.existence_query(&Query::link_source_target(&name("a"), &name("b")))
    );
    assert_eq!(
        None,
        graph.existence_query(&Query::link_source_target(&name("b"), &name("a")))
    );
    // ...and from every adjacency set on both sides, while unrelated
    // links survive.
    assert_eq!(HashSet::from([name("c")]), as_set(graph.set_query(&Query::link_source(&name("a")))));
    assert_eq!(HashSet::new(), as_set(graph.set_query(&Query::link_target(&name("a")))));
    assert_eq!(HashSet::new(), as_set(graph.set_query(&Query::link_source(&name("c")))));
    assert_eq!(HashSet::from([name("a")]), as_set(graph.set_query(&Query::link_target(&name("c")))));
}

#[test]
fn self_links_are_permitted() {
    let mut graph: Graph<String> = Graph::new();
    assert!(graph.insert(name("loop"), Value::Unsigned64(0)));
    assert_eq!(Some(true), graph.link(&name("loop"), &name("loop")));
    assert_eq!(Some(false), graph.link(&name("loop"), &name("loop")));
    assert_eq!(
        Some(true),
        graph.existence_query(&Query::link_source_target(&name("loop"), &name("loop")))
    );
    assert_eq!(HashSet::from([name("loop")]), as_set(graph.set_query(&Query::link_source(&name("loop")))));
    assert_eq!(HashSet::from([name("loop")]), as_set(graph.set_query(&Query::link_target(&name("loop")))));
    assert_eq!(Some(true), graph.unlink(&name("loop"), &name("loop")));
    assert_eq!(Some(false), graph.unlink(&name("loop"), &name("loop")));
    assert_eq!(HashSet::new(), as_set(graph.set_query(&Query::link_source(&name("loop")))));
    assert_eq!(Some(true), graph.link(&name("loop"), &name("loop")));
    assert_eq!(true, graph.delete(&name("loop")));
    assert_eq!(Some(false), graph.existence_query(&Query::node(&name("loop"))));
}

#[test]
fn nested_values_are_stored_and_copied_deeply() {
    let payload = Value::List(vec![
        Value::Text(name("inner")),
        Value::Mapping(vec![
            (name("count"), Value::Unsigned64(3)),
            (name("offset"), Value::Signed64(-4)),
            (name("ratio"), Value::Float64((0.5f64).to_bits())),
        ]),
        Value::List(vec![]),
    ]);
    let copy = payload.duplicate();
    assert_eq!(payload, copy);

    let mut graph: Graph<String> = Graph::new();
    assert!(graph.insert(name("deep"), payload));
    let expected = Value::List(vec![
        Value::Text(name("inner")),
        Value::Mapping(vec![
            (name("count"), Value::Unsigned64(3)),
            (name("offset"), Value::Signed64(-4)),
            (name("ratio"), Value::Float64((0.5f64).to_bits())),
        ]),
        Value::List(vec![]),
    ]);
    assert_eq!(Some(expected), graph.get(&name("deep")));
}

#[test]
fn from_parts_rejects_bad_state() {
    let duplicate = vec![(name("a"), Value::Unsigned64(0)), (name("a"), Value::Unsigned64(1))];
    assert!(Graph::from_parts(&duplicate, &Vec::new()).is_none());

    let nodes = vec![(name("a"), Value::Unsigned64(0))];
    let dangling = vec![(name("a"), name("b"))];
    assert!(Graph::from_parts(&nodes, &dangling).is_none());

    let ok_links = vec![(name("a"), name("a")), (name("a"), name("a"))];
    let rebuilt = Graph::from_parts(&nodes, &ok_links).expect("valid parts");
    assert_eq!(
        Some(true),
        rebuilt.existence_query(&Query::link_source_target(&name("a"), &name("a")))
    );
}

#[test]
fn rebuild_from_lists_is_equivalent() {
    let mut graph: Graph<String> = Graph::new();
    assert!(graph.insert(name("a"), Value::Unsigned64(1)));
    assert!(graph.insert(name("b"), Value::Text(name("x"))));
    assert!(graph.insert(name("c"), Value::Signed64(-9)));
    assert_eq!(Some(true), graph.link(&name("a"), &name("b")));
    assert_eq!(Some(true), graph.link(&name("b"), &name("c")));
    assert_eq!(Some(true), graph.link(&name("c"), &name("c")));

    let rebuilt =
        Graph::from_parts(graph.nodes_list(), graph.links_list()).expect("a graph's own state");

    for n in ["a", "b", "c"] {
        assert_eq!(graph.get(&name(n)), rebuilt.get(&name(n)));
        assert_eq!(
            as_set(graph.set_query(&Query::link_source(&name(n)))),
            as_set(rebuilt.set_query(&Query::link_source(&name(n))))
        );
        assert_eq!(
            as_set(graph.set_query(&Query::link_target(&name(n)))),
            as_set(rebuilt.set_query(&Query::link_target(&name(n))))
        );
    }
    assert_eq!(
        Some(true),
        rebuilt.existence_query(&Query::link_source_target(&name("c"), &name("c")))
    );
}

#[test]
fn end_to_end_scenario() {
    let mut graph: Graph<String> = Graph::new();
    assert_eq!(true, graph.insert(name("cheese"), Value::Float64((64.0f64).to_bits())));
    assert_eq!(true, graph.insert(name("danish"), Value::Text(name("fancy"))));
    assert_eq!(true, graph.insert(name("banana"), Value::Unsigned64(7)));

    assert_eq!(Some(true), graph.link(&name("cheese"), &name("danish")));
    assert_eq!(Some(false), graph.link(&name("cheese"), &name("danish")));
    assert_eq!(None, graph.link(&name("cheese"), &name("potato")));

    assert_eq!(Some(true), graph.existence_query(&Query::link_source(&name("cheese"))));
    assert_eq!(
        HashSet::from([name("danish")]),
        as_set(graph.set_query(&Query::link_source(&name("cheese"))))
    );

    assert_eq!(Some(true), graph.unlink(&name("cheese"), &name("danish")));
    assert_eq!(Some(false), graph.unlink(&name("cheese"), &name("danish")));

    assert_eq!(Some(true), graph.link(&name("banana"), &name("danish")));
    assert_eq!(true, graph.delete(&name("banana")));
    assert_eq!(HashSet::new(), as_set(graph.set_query(&Query::link_target(&name("danish")))));
}
