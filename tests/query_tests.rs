use data_mingler::document::{self, InitNode};
use data_mingler::error::ParseError;
use data_mingler::query::{
    load_query_xml, parse_children, parse_output, parse_theta, DeserializedNode, Query, QueryError,
};
use data_mingler::transform::{parse_transformations, AggregationType, Transformation};
use data_mingler::tree::{build_tree, TreeError};

fn init(
    name: &str,
    label: &str,
    children: Option<&str>,
    transformations: Option<&str>,
    theta: Option<&str>,
    output: Option<&str>,
) -> InitNode {
    InitNode {
        name: name.to_string(),
        label: label.to_string(),
        children: children.map(|s| s.to_string()),
        transformations: transformations.map(|s| s.to_string()),
        theta: theta.map(|s| s.to_string()),
        output: output.map(|s| s.to_string()),
    }
}

fn node(
    name: &str,
    label: &str,
    children: &[&str],
    transformations: Vec<Transformation>,
    output: bool,
) -> DeserializedNode {
    DeserializedNode {
        name: name.to_string(),
        label: label.to_string(),
        children: children.iter().map(|s| s.to_string()).collect(),
        transformations,
        theta: None,
        output,
    }
}

#[test]
fn query_test_load_query_xml() {
    let raw = document::Query {
        root_node: "X000".to_string(),
        node: vec![
            init("root_node", "X000", Some("X001"), Some(""), Some(""), Some("")),
            init("some_node", "X001", Some(""), Some("filter: $X001$ > 5;aggregate:sum"), Some(""), Some("yes")),
            init("some_other_node", "X002", None, None, None, None),
        ],
    };
    let expected_query = document::Query {
        root_node: "X000".to_string(),
        node: vec![
            init("root_node", "X000", Some("X001"), None, None, None),
            init("some_node", "X001", None, Some("filter: $X001$ > 5;aggregate:sum"), None, Some("yes")),
            init("some_other_node", "X002", None, None, None, None),
        ],
    };
    assert_eq!(document::load_query_xml(raw), expected_query)
}

#[test]
fn test_node_field_clearing() {
    let mut node = InitNode {
        label: "X001".to_string(),
        name: "some_node".to_string(),
        children: Some("".to_string()),
        transformations: Some("aggregate:sum".to_string()),
        theta: Some("".to_string()),
        output: Some("yes".to_string()),
    };
    node.clear_empty_strings();
    assert_eq!(
        node,
        InitNode {
            label: "X001".to_string(),
            name: "some_node".to_string(),
            children: None,
            transformations: Some("aggregate:sum".to_string()),
            theta: None,
            output: Some("yes".to_string()),
        }
    )
}

#[test]
fn deserialization_test_load_query_xml() {
    let raw = document::Query {
        root_node: "X000".to_string(),
        node: vec![
            init("root_node", "X000", Some("X001, X002"), Some(""), Some(""), Some("")),
            init("some_node", "X001", Some(""), Some("filter: $X001$ > 5;aggregate:sum"), Some(""), Some("yes")),
            init("some_other_node", "X002", None, None, None, None),
        ],
    };
    let expected_query = Query {
        root_node: "X000".to_string(),
        nodes: vec![
            node("root_node", "X000", &["X001", "X002"], vec![], false),
            node(
                "some_node",
                "X001",
                &[],
                vec![
                    Transformation::Filter("$X001$ > 5".to_string()),
                    Transformation::Aggregate(AggregationType::Sum),
                ],
                true,
            ),
            node("some_other_node", "X002", &[], vec![], false),
        ],
    };
    assert_eq!(Query::from_document(raw).unwrap(), expected_query)
}

#[test]
fn test_build_tree() {
    let query = Query {
        root_node: "X000".to_string(),
        nodes: vec![
            node("root", "X000", &["X001", "X002"], vec![Transformation::Aggregate(AggregationType::Min)], false),
            node("node1", "X001", &[], vec![], false),
            node("node2", "X002", &["X003"], vec![], false),
            node("node3", "X003", &[], vec![], true),
        ],
    };
    let tree = build_tree(query).unwrap();
    assert_eq!(tree.name, "root");
    assert_eq!(tree.label, "X000");
    assert_eq!(tree.children.len(), 2);
    assert_eq!(tree.transformations.len(), 1);
    assert_eq!(tree.theta, None);
    assert!(!tree.output);
    let node1 = tree.children.first().unwrap();
    assert_eq!(node1.name, "node1");
    assert_eq!(node1.label, "X001");
    assert_eq!(node1.children.len(), 0);
    assert_eq!(node1.transformations.len(), 0);
    assert_eq!(node1.theta, None);
    assert!(!node1.output);
    let node2 = tree.children.get(1).unwrap();
    assert_eq!(node2.name, "node2");
    assert_eq!(node2.label, "X002");
    assert_eq!(node2.children.len(), 1);
    assert_eq!(node2.transformations.len(), 0);
    assert_eq!(node2.theta, None);
    assert!(!node2.output);
    let node3 = node2.children.first().unwrap();
    assert_eq!(node3.name, "node3");
    assert_eq!(node3.label, "X003");
    assert_eq!(node3.children.len(), 0);
    assert_eq!(node3.transformations.len(), 0);
    assert_eq!(node3.theta, None);
    assert!(node3.output);
}

#[test]
fn child_label_reused_by_two_parents_is_not_found() {
    let query = Query {
        root_node: "R".to_string(),
        nodes: vec![
            node("root", "R", &["A", "B"], vec![], false),
            node("a", "A", &["C"], vec![], false),
            node("b", "B", &["C"], vec![], false),
            node("c", "C", &[], vec![], false),
        ],
    };
    match build_tree(query) {
        Err(TreeError::ChildNotFound(l)) => assert_eq!(l, "C"),
        other => panic!("unexpected result: {:?}", other.map(|t| t.label)),
    }
}

#[test]
fn cycle_is_not_found() {
    let query = Query {
        root_node: "R".to_string(),
        nodes: vec![node("root", "R", &["A"], vec![], false), node("a", "A", &["R"], vec![], false)],
    };
    match build_tree(query) {
        Err(TreeError::ChildNotFound(l)) => assert_eq!(l, "R"),
        other => panic!("unexpected result: {:?}", other.map(|t| t.label)),
    }
}

#[test]
fn root_label_mismatch() {
    let query = Query {
        root_node: "missing".to_string(),
        nodes: vec![node("root", "R", &[], vec![], false)],
    };
    match build_tree(query) {
        Err(TreeError::RootNotFound(l)) => assert_eq!(l, "missing"),
        other => panic!("unexpected result: {:?}", other.map(|t| t.label)),
    }
}

#[test]
fn unreachable_label_is_left_unused() {
    let query = Query {
        root_node: "R".to_string(),
        nodes: vec![
            node("root", "R", &["A"], vec![], false),
            node("a", "A", &[], vec![], false),
            node("lonely", "Z", &[], vec![], false),
        ],
    };
    let tree = build_tree(query).unwrap();
    assert_eq!(tree.children.len(), 1);
    assert_eq!(tree.children[0].label, "A");
}

#[test]
fn later_duplicate_label_wins() {
    let query = Query {
        root_node: "R".to_string(),
        nodes: vec![
            node("first", "R", &[], vec![], false),
            node("second", "R", &[], vec![], true),
        ],
    };
    let tree = build_tree(query).unwrap();
    assert_eq!(tree.name, "second");
    assert!(tree.output);
}

#[test]
fn empty_fields_normalize() {
    assert!(parse_children("").is_empty());
    assert_eq!(parse_transformations("").unwrap(), vec![]);
    assert_eq!(parse_theta(""), None);
    assert_eq!(parse_output(""), Ok(false));
    let parsed = DeserializedNode::from_init(init("n", "L", Some(""), Some(""), Some(""), Some(""))).unwrap();
    assert!(parsed.children.is_empty());
    assert!(parsed.transformations.is_empty());
    assert_eq!(parsed.theta, None);
    assert!(!parsed.output);
}

#[test]
fn children_are_split_and_trimmed() {
    assert_eq!(parse_children(" a , b,c "), vec!["a".to_string(), "b".to_string(), "c".to_string()]);
    assert_eq!(parse_children("a,,b"), vec!["a".to_string(), "".to_string(), "b".to_string()]);
    assert_eq!(parse_theta("x > 1"), Some("x > 1".to_string()));
}

#[test]
fn output_flag_parsing() {
    assert_eq!(parse_output("yes"), Ok(true));
    assert_eq!(parse_output("YES"), Ok(true));
    assert_eq!(parse_output("true"), Ok(true));
    assert_eq!(parse_output("True"), Ok(true));
    assert_eq!(parse_output(""), Ok(false));
    assert_eq!(parse_output("no"), Ok(false));
    assert_eq!(parse_output("false"), Ok(false));
    assert_eq!(parse_output("FALSE"), Ok(false));
    assert_eq!(parse_output("maybe"), Err(ParseError::InvalidOutput("maybe".to_string())));
    assert_eq!(parse_output("y"), Err(ParseError::InvalidOutput("y".to_string())));
}

#[test]
fn transformations_keep_document_order() {
    assert_eq!(
        parse_transformations("aggregate:sum;filter:$X$ > 5").unwrap(),
        vec![
            Transformation::Aggregate(AggregationType::Sum),
            Transformation::Filter("$X$ > 5".to_string()),
        ]
    );
    assert_eq!(
        parse_transformations("filter:$X$ > 5;aggregate:sum").unwrap(),
        vec![
            Transformation::Filter("$X$ > 5".to_string()),
            Transformation::Aggregate(AggregationType::Sum),
        ]
    );
    assert_eq!(
        parse_transformations("map: $X$-suffix ; aggregate : AVERAGE").unwrap(),
        vec![
            Transformation::MapValue("$X$-suffix".to_string()),
            Transformation::Aggregate(AggregationType::Average),
        ]
    );
}

#[test]
fn transformation_errors() {
    assert_eq!(
        parse_transformations("sort:x"),
        Err(ParseError::UnknownTransformation("sort".to_string()))
    );
    assert_eq!(
        parse_transformations("Filter:x > 1"),
        Err(ParseError::UnknownTransformation("Filter".to_string()))
    );
    assert_eq!(
        parse_transformations("aggregate:median"),
        Err(ParseError::UnknownAggregation("median".to_string()))
    );
    assert_eq!(
        parse_transformations("aggregate:sum;filter"),
        Err(ParseError::MissingSeparator("filter".to_string()))
    );
    assert_eq!(AggregationType::parse("CoUnT"), Some(AggregationType::Count));
    assert_eq!(AggregationType::default(), AggregationType::Any);
}

#[test]
fn load_query_compiles_a_document() {
    let raw = document::Query {
        root_node: "X000".to_string(),
        node: vec![
            init("root_node", "X000", Some("X001, X002"), None, None, None),
            init("some_node", "X001", None, Some("aggregate:count"), None, Some("yes")),
            init("some_other_node", "X002", None, None, Some("a = b"), None),
        ],
    };
    let tree = load_query_xml(raw).unwrap();
    assert_eq!(tree.children.len(), 2);
    assert_eq!(tree.children[0].transformations, vec![Transformation::Aggregate(AggregationType::Count)]);
    assert!(tree.children[0].output);
    assert_eq!(tree.children[1].theta, Some("a = b".to_string()));

    let bad = document::Query {
        root_node: "X000".to_string(),
        node: vec![init("root_node", "X000", None, None, None, Some("perhaps"))],
    };
    match load_query_xml(bad) {
        Err(QueryError::Parse(ParseError::InvalidOutput(s))) => assert_eq!(s, "perhaps"),
        other => panic!("unexpected result: {:?}", other.map(|t| t.label)),
    }
    let unrooted = document::Query {
        root_node: "nowhere".to_string(),
        node: vec![init("root_node", "X000", None, None, None, None)],
    };
    match load_query_xml(unrooted) {
        Err(QueryError::Tree(TreeError::RootNotFound(s))) => assert_eq!(s, "nowhere"),
        other => panic!("unexpected result: {:?}", other.map(|t| t.label)),
    }
}
