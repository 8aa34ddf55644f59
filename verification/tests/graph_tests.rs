use std::collections::HashSet;

use rust_graph::graph::Graph;
use rust_graph::query::{GraphError, Query};
use rust_graph::value::Value;

fn cheese() -> String {
    "cheese".into()
}

fn danish() -> String {
    "danish".into()
}

fn banana() -> String {
    "banana".into()
}

fn potato() -> String {
    "potato".into()
}

fn get_graph() -> Graph<String> {
    let mut graph: Graph<String> = Graph::new();
    assert_eq!(true, graph.insert(cheese(), Value::Float64((64.0f64 / 0.99f64).to_bits())));
    assert_eq!(true, graph.insert(danish(), Value::from("fancy")));
    assert_eq!(true, graph.insert(banana(), Value::from(7u64)));

    assert_eq!(Some(true), graph.link(&cheese(), &danish()));
    assert_eq!(Some(false), graph.link(&cheese(), &danish()));
    assert_eq!(None, graph.link(&cheese(), &potato()));

    graph
}

/// The adjacency list as a set of names, with errors rendered the way
/// the textual surface reports them.
fn as_name_set(r: Result<Vec<String>, GraphError<String>>) -> Result<HashSet<String>, String> {
    match r {
        Ok(v) => Ok(v.into_iter().collect()),
        Err(GraphError::UnknownNode(n)) => Err(format!("Node '{:?}' does not exist", n)),
        Err(GraphError::UnsupportedQuery(q)) => Err(format!("Unknown query type [{:?}]", q)),
    }
}

/// Encodes a payload as a tagged textual value. Numbers travel as
/// decimal strings so that the round trip is exact whatever integer
/// width the parser picks.
fn value_to_ron(v: &Value) -> ron::Value {
    fn entry(tag: &str, inner: ron::Value) -> ron::Value {
        let mut m = ron::Map::new();
        m.insert(ron::Value::String(tag.to_string()), inner);
        ron::Value::Map(m)
    }
    match v {
        Value::Text(s) => entry("Text", ron::Value::String(s.clone())),
        Value::Unsigned64(u) => entry("Unsigned64", ron::Value::String(format!("{}", u))),
        Value::Signed64(s) => entry("Signed64", ron::Value::String(format!("{}", s))),
        Value::Float64(bits) => entry("Float64", ron::Value::String(format!("{}", bits))),
        Value::List(items) => entry("List", ron::Value::Seq(items.iter().map(value_to_ron).collect())),
        Value::Mapping(pairs) => entry("Mapping", {
            let mut m = ron::Map::new();
            for (k, inner) in pairs {
                m.insert(ron::Value::String(k.clone()), value_to_ron(inner));
            }
            ron::Value::Map(m)
        }),
    }
}

fn ron_to_value(v: &ron::Value) -> Value {
    let ron::Value::Map(m) = v else {
        panic!("expected a tagged value");
    };
    let (tag, inner) = m.iter().next().expect("expected one tag");
    let ron::Value::String(tag) = tag else {
        panic!("expected a string tag");
    };
    fn text_of(v: &ron::Value) -> &str {
        let ron::Value::String(s) = v else {
            panic!("expected a string");
        };
        s
    }
    match tag.as_str() {
        "Text" => Value::Text(text_of(inner).to_string()),
        "Unsigned64" => Value::Unsigned64(text_of(inner).parse().unwrap()),
        "Signed64" => Value::Signed64(text_of(inner).parse().unwrap()),
        "Float64" => Value::Float64(text_of(inner).parse().unwrap()),
        "List" => {
            let ron::Value::Seq(items) = inner else {
                panic!("expected a sequence");
            };
            Value::List(items.iter().map(ron_to_value).collect())
        }
        "Mapping" => {
            let ron::Value::Map(mm) = inner else {
                panic!("expected a map");
            };
            Value::Mapping(
                mm.iter()
                    .map(|(k, inner)| (text_of(k).to_string(), ron_to_value(inner)))
                    .collect(),
            )
        }
        other => panic!("unknown tag {}", other),
    }
}

/// The graph's state — node table and link set; the index is derived
/// and omitted — as a textual value.
fn graph_to_ron(graph: &Graph<String>) -> ron::Value {
    let mut nodes = ron::Map::new();
    for (k, v) in graph.nodes_list() {
        nodes.insert(ron::Value::String(k.clone()), value_to_ron(v));
    }
    let links: Vec<ron::Value> = graph
        .links_list()
        .iter()
        .map(|(s, t)| {
            ron::Value::Seq(vec![ron::Value::String(s.clone()), ron::Value::String(t.clone())])
        })
        .collect();
    let mut m = ron::Map::new();
    m.insert(ron::Value::String("nodes".to_string()), ron::Value::Map(nodes));
    m.insert(ron::Value::String("links".to_string()), ron::Value::Seq(links));
    ron::Value::Map(m)
}

/// Rebuilds a graph — index included — from its textual state.
fn graph_from_ron(v: &ron::Value) -> Graph<String> {
    let ron::Value::Map(m) = v else {
        panic!("expected a map");
    };
    let mut nodes: Vec<(String, Value)> = Vec::new();
    let mut links: Vec<(String, String)> = Vec::new();
    for (key, inner) in m.iter() {
        let ron::Value::String(section) = key else {
            panic!("expected a section name");
        };
        match section.as_str() {
            "nodes" => {
                let ron::Value::Map(entries) = inner else {
                    panic!("expected a node map");
                };
                for (name, value) in entries.iter() {
                    let ron::Value::String(name) = name else {
                        panic!("expected a node name");
                    };
                    nodes.push((name.clone(), ron_to_value(value)));
                }
            }
            "links" => {
                let ron::Value::Seq(pairs) = inner else {
                    panic!("expected a link list");
                };
                for pair in pairs {
                    let ron::Value::Seq(ends) = pair else {
                        panic!("expected a link pair");
                    };
                    let ron::Value::String(s) = &ends[0] else {
                        panic!("expected a source name");
                    };
                    let ron::Value::String(t) = &ends[1] else {
                        panic!("expected a target name");
                    };
                    links.push((s.clone(), t.clone()));
                }
            }
            other => panic!("unknown section {}", other),
        }
    }
    Graph::from_parts(&nodes, &links).expect("the stored state describes a graph")
}

fn print_graph(graph: &Graph<String>) {
    let pretty_config = ron::ser::PrettyConfig::new();

    println!(
        "serialized: {}",
        ron::ser::to_string_pretty(&graph_to_ron(graph), pretty_config).unwrap()
    );
}

#[test]
fn should_query_nodes() {
    let graph = get_graph();

    assert_eq!(Some(true), graph.query_node(&banana()).exists_query());
    assert_eq!(Some(true), graph.query_node(&cheese()).exists_query());
    assert_eq!(Some(true), graph.query_node(&danish()).exists_query());
    assert_eq!(Some(false), graph.query_node(&potato()).exists_query());
}

#[test]
fn should_exist_query_link_source_target() {
    let graph = get_graph();

    let cheese = cheese();
    let danish = danish();

    assert_eq!(Some(true), graph.query_link_source(&cheese).target(&danish).exists_query());
    assert_eq!(Some(true), graph.query_link_target(&danish).source(&cheese).exists_query());
    assert_eq!(Some(false), graph.query_link_source(&danish).target(&cheese).exists_query());
    assert_eq!(None, graph.query_link_target(&potato()).source(&cheese).exists_query());
}

#[test]
fn should_exist_query_link_source() {
    let graph = get_graph();

    assert_eq!(Some(true), graph.query_link_source(&cheese()).exists_query());
    assert_eq!(Some(false), graph.query_link_source(&danish()).exists_query());
    assert_eq!(None, graph.query_link_source(&potato()).exists_query());
}

#[test]
fn should_exist_query_link_target() {
    let graph = get_graph();

    assert_eq!(Some(true), graph.existence_query(&Query::link_target(&danish())));
    assert_eq!(Some(false), graph.existence_query(&Query::link_target(&cheese())));
    assert_eq!(None, graph.existence_query(&Query::link_target(&potato())));
}

#[test]
fn should_set_query_link_source() {
    let graph = get_graph();

    assert_eq!(
        Ok(HashSet::from([danish()])),
        as_name_set(graph.query_link_source(&cheese()).as_set())
    );
    assert_eq!(Ok(HashSet::new()), as_name_set(graph.query_link_source(&danish()).as_set()));
    assert_eq!(
        Err("Node '\"potato\"' does not exist".to_string()),
        as_name_set(graph.query_link_source(&potato()).as_set())
    );
}

#[test]
fn should_set_query_link_target() {
    let graph = get_graph();

    assert_eq!(Ok(HashSet::new()), as_name_set(graph.set_query(&Query::link_target(&cheese()))));
    assert_eq!(
        Ok(HashSet::from([cheese()])),
        as_name_set(graph.set_query(&Query::link_target(&danish())))
    );
    assert_eq!(
        Err("Node '\"potato\"' does not exist".to_string()),
        as_name_set(graph.set_query(&Query::link_target(&potato())))
    );
}

#[test]
fn should_do_test_grab_bag() {
    let mut graph = get_graph();

    print_graph(&graph);

    assert_eq!(Some(true), graph.unlink(&cheese(), &danish()));
    assert_eq!(Some(false), graph.unlink(&cheese(), &danish()));
    assert_eq!(None, graph.unlink(&cheese(), &potato()));

    assert_eq!(Some(false), graph.existence_query(&Query::link_source_target(&cheese(), &danish())));
    assert_eq!(Some(false), graph.existence_query(&Query::link_source_target(&danish(), &cheese())));
    assert_eq!(None, graph.existence_query(&Query::link_source_target(&cheese(), &potato())));

    // After the unlink, no link leaves cheese or arrives at danish any
    // more, so both single-endpoint existence queries report false: a
    // node with an empty adjacency set answers as one that never had
    // links.
    assert_eq!(Some(false), graph.existence_query(&Query::link_source(&cheese())));
    assert_eq!(Some(false), graph.existence_query(&Query::link_source(&danish())));
    assert_eq!(None, graph.existence_query(&Query::link_source(&potato())));
    assert_eq!(Some(false), graph.existence_query(&Query::link_target(&danish())));
    assert_eq!(Some(false), graph.existence_query(&Query::link_target(&cheese())));
    assert_eq!(None, graph.existence_query(&Query::link_target(&potato())));

    assert_eq!(Some(true), graph.link(&banana(), &danish()));

    print_graph(&graph);

    assert_eq!(true, graph.delete(&banana()));

    print_graph(&graph);
}

#[test]
fn round_trip_serialization() {
    let mut graph: Graph<String> = Graph::new();
    assert!(graph.insert("a".to_string(), Value::Unsigned64(1)));
    assert!(graph.insert("b".to_string(), Value::Text("x".to_string())));
    assert_eq!(Some(true), graph.link(&"a".to_string(), &"b".to_string()));

    let text = ron::to_string(&graph_to_ron(&graph)).unwrap();
    let parsed: ron::Value = ron::from_str(&text).unwrap();
    let restored = graph_from_ron(&parsed);

    assert_eq!(
        Some(true),
        restored.existence_query(&Query::link_source_target(&"a".to_string(), &"b".to_string()))
    );
    assert_eq!(Some(Value::Unsigned64(1)), restored.get(&"a".to_string()));
}
