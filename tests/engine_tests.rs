use data_mingler::connector::{pair_at, DocEvent, DocScanner, ReadError};
use data_mingler::datasource::{Catalog, Csv, Datasource};
use data_mingler::engine::{evaluate, join_steps, resolve_edge, step_values, visit_order, OutputRow};
use data_mingler::graph::MappingGraph;
use data_mingler::mapping::{Edge, MappingRecord};
use data_mingler::pipeline::{
    aggregate, apply_pipeline, filter_values, map_values, parse_condition, parse_int, Cmp, EvalError, Value,
};
use data_mingler::query::{DeserializedNode, Query};
use data_mingler::transform::{AggregationType, Transformation};
use data_mingler::tree::{build_tree, TreeNode};

fn node(name: &str, children: &[&str], transformations: Vec<Transformation>, output: bool) -> DeserializedNode {
    DeserializedNode {
        name: name.to_string(),
        label: name.to_string(),
        children: children.iter().map(|s| s.to_string()).collect(),
        transformations,
        theta: None,
        output,
    }
}

fn three_node_tree() -> TreeNode {
    build_tree(Query {
        root_node: "root".to_string(),
        nodes: vec![
            node("root", &["child1", "child2"], vec![], true),
            node("child1", &[], vec![], false),
            node("child2", &["child3"], vec![], true),
            node("child3", &[], vec![], true),
        ],
    })
    .unwrap()
}

fn texts(v: &[&str]) -> Vec<Value> {
    v.iter().map(|s| Value::Text(s.to_string())).collect()
}

fn csv_rows() -> Vec<Vec<String>> {
    vec![
        vec!["1".to_string(), "ann".to_string(), "10".to_string()],
        vec!["2".to_string(), "bob".to_string(), "20".to_string()],
    ]
}

#[test]
fn post_order_visit_and_outputs() {
    let tree = three_node_tree();
    assert_eq!(visit_order(&tree), vec!["child1", "child3", "child2", "root"]);
    let steps = join_steps(&tree);
    let pairs: Vec<(String, String)> = steps.iter().map(|s| (s.child_label.clone(), s.parent_label.clone())).collect();
    assert_eq!(
        pairs,
        vec![
            ("child1".to_string(), "root".to_string()),
            ("child3".to_string(), "child2".to_string()),
            ("child2".to_string(), "root".to_string()),
        ]
    );

    let mut graph = MappingGraph::new();
    for s in &steps {
        graph.ingest_record(&MappingRecord {
            head_name: s.child_name.clone(),
            head_description: String::new(),
            tail_name: s.parent_name.clone(),
            tail_description: String::new(),
            datasource: "small".to_string(),
            query: String::new(),
            key: "0".to_string(),
            value: "2".to_string(),
        });
    }
    let catalog = Catalog {
        entries: vec![Datasource::Csv(Csv {
            id: 1,
            name: "small".to_string(),
            filename: "small.csv".to_string(),
            path: "/data/small.csv".to_string(),
            delimiter: ',',
            has_headers: true,
        })],
    };
    let mut inputs = Vec::new();
    for s in &steps {
        let mut streams = Vec::new();
        for j in graph.lookup_join(&s.child_name, &s.parent_name) {
            let edge = Edge::from_fields(j.datasource.clone(), None, &j.key, &j.value).unwrap();
            assert!(resolve_edge(&catalog, &edge).is_ok());
            let pairs: Vec<(String, String)> = csv_rows()
                .iter()
                .map(|r| pair_at(r, edge.key_pos as usize, edge.value_pos as usize).unwrap())
                .collect();
            streams.push(pairs);
        }
        inputs.push(step_values(&streams));
    }
    let rows = evaluate(&tree, &inputs).unwrap();
    assert_eq!(
        rows,
        vec![
            OutputRow { label: "child3".to_string(), values: texts(&["10", "20"]) },
            OutputRow { label: "child2".to_string(), values: texts(&["10", "20"]) },
            OutputRow { label: "root".to_string(), values: texts(&["10", "20", "10", "20"]) },
        ]
    );
}

#[test]
fn sibling_subtrees_evaluate_independently() {
    let tree = three_node_tree();
    let inputs = vec![Some(texts(&["1"])), Some(texts(&["2", "3"])), Some(texts(&["4"]))];
    let whole = evaluate(&tree, &inputs).unwrap();
    let right = evaluate(&tree.children[1], &vec![inputs[1].clone()]).unwrap();
    let left = evaluate(&tree.children[0], &vec![]).unwrap();
    assert!(left.is_empty());
    assert_eq!(&whole[..right.len()], &right[..]);
    assert_eq!(whole.last().unwrap().label, "root");
    assert_eq!(whole.last().unwrap().values, texts(&["1", "4"]));
    assert_eq!(whole[0], OutputRow { label: "child3".to_string(), values: texts(&["2", "3"]) });
}

#[test]
fn a_child_without_join_edge_contributes_nothing() {
    let tree = build_tree(Query {
        root_node: "p".to_string(),
        nodes: vec![
            node("p", &["c", "d"], vec![], true),
            node("c", &[], vec![Transformation::Aggregate(AggregationType::Count)], true),
            node("d", &[], vec![Transformation::Aggregate(AggregationType::Sum)], false),
        ],
    })
    .unwrap();
    let rows = evaluate(&tree, &vec![None, None]).unwrap();
    assert_eq!(
        rows,
        vec![
            OutputRow { label: "c".to_string(), values: vec![] },
            OutputRow { label: "p".to_string(), values: vec![] },
        ]
    );
    let rows = evaluate(&tree, &vec![Some(vec![]), None]).unwrap();
    assert_eq!(
        rows,
        vec![
            OutputRow { label: "c".to_string(), values: vec![Value::Int(0)] },
            OutputRow { label: "p".to_string(), values: vec![Value::Int(0)] },
        ]
    );
    assert_eq!(step_values(&vec![]), None);
    assert_eq!(step_values(&vec![vec![]]), Some(vec![]));
}

#[test]
fn a_lone_output_root_has_an_empty_row() {
    let tree = build_tree(Query { root_node: "r".to_string(), nodes: vec![node("r", &[], vec![], true)] }).unwrap();
    assert_eq!(evaluate(&tree, &vec![]).unwrap(), vec![OutputRow { label: "r".to_string(), values: vec![] }]);
}

#[test]
fn pipelines_of_child_then_parent() {
    let tree = build_tree(Query {
        root_node: "p".to_string(),
        nodes: vec![
            node("p", &["c"], vec![Transformation::Aggregate(AggregationType::Sum)], true),
            node("c", &[], vec![Transformation::Filter("$c$ > 5".to_string())], false),
        ],
    })
    .unwrap();
    let rows = evaluate(&tree, &vec![Some(texts(&["3", "7", "x", "10"]))]).unwrap();
    assert_eq!(rows, vec![OutputRow { label: "p".to_string(), values: vec![Value::Int(17)] }]);
    assert_eq!(evaluate(&tree, &vec![]), Err(EvalError::MissingInput));
}

#[test]
fn unknown_datasource_is_reported() {
    let catalog = Catalog { entries: vec![] };
    let edge = Edge::from_fields("ghost".to_string(), None, "0", "1").unwrap();
    assert_eq!(resolve_edge(&catalog, &edge), Err(EvalError::UnknownDatasource("ghost".to_string())));
}

#[test]
fn filter_and_conditions() {
    assert_eq!(parse_condition("$X$ > 5"), Some((Cmp::Gt, 5)));
    assert_eq!(parse_condition("$X$>=-2"), Some((Cmp::Ge, -2)));
    assert_eq!(parse_condition("$X$ != 0"), Some((Cmp::Ne, 0)));
    assert_eq!(parse_condition("$X$ == 3"), Some((Cmp::Eq, 3)));
    assert_eq!(parse_condition("$X$ ! 3"), None);
    assert_eq!(parse_condition("$X$ > five"), None);
    assert_eq!(parse_condition("nothing"), None);
    let kept = filter_values(Cmp::Le, 7, &texts(&["3", "7", "x", "10", "-1"]));
    assert_eq!(kept, texts(&["3", "7", "-1"]));
    assert_eq!(
        apply_pipeline(&vec![Transformation::Filter("no comparison".to_string())], texts(&["1"])),
        Err(EvalError::InvalidExpression("no comparison".to_string()))
    );
}

#[test]
fn map_templates() {
    assert_eq!(map_values(&"<$v$>".to_string(), &texts(&["a", "b"])).unwrap(), texts(&["<a>", "<b>"]));
    assert_eq!(map_values(&"$x$-$y$".to_string(), &texts(&["q"])).unwrap(), texts(&["q-q"]));
    assert_eq!(map_values(&"plain".to_string(), &texts(&["q"])).unwrap(), texts(&["plain"]));
    assert_eq!(
        map_values(&"$open".to_string(), &texts(&["q"])),
        Err(EvalError::InvalidExpression("$open".to_string()))
    );
    assert_eq!(map_values(&"$v$".to_string(), &vec![Value::Int(1)]), Err(EvalError::MapOnNumber));
    assert_eq!(map_values(&"$open".to_string(), &vec![]).unwrap(), vec![]);
}

#[test]
fn aggregations() {
    let v = texts(&["4", "-7", "12"]);
    assert_eq!(aggregate(AggregationType::Sum, &v).unwrap(), vec![Value::Int(9)]);
    assert_eq!(aggregate(AggregationType::Min, &v).unwrap(), vec![Value::Int(-7)]);
    assert_eq!(aggregate(AggregationType::Max, &v).unwrap(), vec![Value::Int(12)]);
    assert_eq!(aggregate(AggregationType::Average, &v).unwrap(), vec![Value::Int(3)]);
    assert_eq!(aggregate(AggregationType::Average, &texts(&["-7", "0"])).unwrap(), vec![Value::Int(-3)]);
    assert_eq!(aggregate(AggregationType::Count, &v).unwrap(), vec![Value::Int(3)]);
    assert_eq!(aggregate(AggregationType::Any, &v).unwrap(), texts(&["4"]));
    assert_eq!(aggregate(AggregationType::Any, &vec![]).unwrap(), vec![]);
    assert_eq!(aggregate(AggregationType::Min, &vec![]).unwrap(), vec![]);
    assert_eq!(aggregate(AggregationType::Sum, &vec![]).unwrap(), vec![Value::Int(0)]);
    assert_eq!(aggregate(AggregationType::Count, &vec![]).unwrap(), vec![Value::Int(0)]);
    assert_eq!(
        aggregate(AggregationType::Sum, &texts(&["1", "two"])),
        Err(EvalError::NotNumeric("two".to_string()))
    );
    assert_eq!(
        aggregate(AggregationType::Sum, &texts(&["9223372036854775807", "1"])),
        Err(EvalError::Overflow)
    );
    assert_eq!(
        aggregate(AggregationType::Average, &texts(&["9223372036854775807", "9223372036854775807"])).unwrap(),
        vec![Value::Int(i64::MAX)]
    );
}

#[test]
fn integers_are_read() {
    assert_eq!(parse_int("42"), Some(42));
    assert_eq!(parse_int("+42"), Some(42));
    assert_eq!(parse_int("-9223372036854775808"), Some(i64::MIN));
    assert_eq!(parse_int("9223372036854775807"), Some(i64::MAX));
    assert_eq!(parse_int("9223372036854775808"), None);
    assert_eq!(parse_int("99999999999999999999"), None);
    assert_eq!(parse_int("-"), None);
    assert_eq!(parse_int(""), None);
    assert_eq!(parse_int("1 2"), None);
}

#[test]
fn csv_pairs_and_missing_positions() {
    let row = csv_rows()[0].clone();
    assert_eq!(pair_at(&row, 1, 2), Ok(("ann".to_string(), "10".to_string())));
    assert_eq!(pair_at(&row, 3, 0), Err(ReadError::MissingPosition(3)));
    assert_eq!(pair_at(&row, 0, 5), Err(ReadError::MissingPosition(5)));
}

#[test]
fn document_scanner_pairs() {
    let mut sc = DocScanner::new();
    let events = vec![
        DocEvent::Start("rows".to_string()),
        DocEvent::Start("row".to_string()),
        DocEvent::Start("int_id".to_string()),
        DocEvent::Text("1".to_string()),
        DocEvent::End,
        DocEvent::Start("name".to_string()),
        DocEvent::Text("ann".to_string()),
        DocEvent::End,
        DocEvent::End,
        DocEvent::End,
    ];
    let pairs: Vec<(String, String)> = events.into_iter().filter_map(|e| sc.step(e).unwrap()).collect();
    assert_eq!(
        pairs,
        vec![("int_id".to_string(), "1".to_string()), ("name".to_string(), "ann".to_string())]
    );
}

#[test]
fn document_text_references_are_resolved() {
    let mut sc = DocScanner::new();
    assert_eq!(sc.step(DocEvent::Start("name".to_string())), Ok(None));
    assert_eq!(sc.step(DocEvent::Text("&lt;ann&gt; &amp; &#66;ob".to_string())), Ok(None));
    assert_eq!(
        sc.step(DocEvent::End),
        Ok(Some(("name".to_string(), "<ann> & Bob".to_string())))
    );
    assert_eq!(
        sc.step(DocEvent::Text("&nope;".to_string())),
        Err(ReadError::InvalidEscape("&nope;".to_string()))
    );
    assert_eq!(
        sc.step(DocEvent::Text("a & b".to_string())),
        Err(ReadError::InvalidEscape("a & b".to_string()))
    );
}
