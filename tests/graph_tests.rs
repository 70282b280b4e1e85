use data_mingler::graph::{record_ops, MappingGraph, StoreError, StoreOp};
use data_mingler::mapping::{read_mapping, DvmError, DvmEvent, DvmReader, DvmStep, Edge, EdgeError, MappingRecord};

fn rec(head: &str, tail: &str, ds: &str) -> MappingRecord {
    MappingRecord {
        head_name: head.to_string(),
        head_description: format!("{} attribute", head),
        tail_name: tail.to_string(),
        tail_description: format!("{} attribute", tail),
        datasource: ds.to_string(),
        query: String::new(),
        key: "0".to_string(),
        value: "1".to_string(),
    }
}

fn document() -> Vec<MappingRecord> {
    vec![rec("a", "b", "ds1"), rec("a", "c", "ds1"), rec("b", "c", "ds2")]
}

fn s(x: &str) -> String {
    x.to_string()
}

#[test]
fn ingesting_twice_keeps_attribute_count() {
    let mut once = MappingGraph::new();
    once.ingest(&document());
    let mut twice = MappingGraph::new();
    twice.ingest(&document());
    twice.ingest(&document());
    assert_eq!(once.attributes().len(), 3);
    assert_eq!(twice.attributes().len(), once.attributes().len());
    assert_eq!(twice.edges().len(), once.edges().len());
    assert_eq!(twice.attributes(), once.attributes());
}

#[test]
fn primary_iff_more_than_one_outgoing_edge() {
    let mut g = MappingGraph::new();
    g.ingest(&document());
    for a in g.attributes() {
        let out = g.edges().iter().filter(|e| e.from == a.name).count();
        assert_eq!(a.primary, out > 1, "attribute {}", a.name);
    }
    let a = g.attributes().iter().find(|x| x.name == "a").unwrap();
    assert!(a.primary);
    let b = g.attributes().iter().find(|x| x.name == "b").unwrap();
    assert!(!b.primary);
}

#[test]
fn upsert_keeps_first_description() {
    let mut g = MappingGraph::new();
    g.upsert_attribute(&s("x"), &s("first"));
    g.upsert_attribute(&s("x"), &s("second"));
    assert_eq!(g.attributes().len(), 1);
    assert_eq!(g.attributes()[0].description, "first");
    assert!(g.attribute_exists(&s("x")));
    assert!(!g.attribute_exists(&s("y")));
}

#[test]
fn edge_needs_both_endpoints() {
    let mut g = MappingGraph::new();
    g.upsert_attribute(&s("x"), &s(""));
    assert_eq!(
        g.create_join_edge(&s("x"), &s("y"), &s("d"), &s(""), &s("0"), &s("1")),
        Err(StoreError::NotFound(s("y")))
    );
    assert_eq!(
        g.create_join_edge(&s("z"), &s("x"), &s("d"), &s(""), &s("0"), &s("1")),
        Err(StoreError::NotFound(s("z")))
    );
    assert!(g.edges().is_empty());
}

#[test]
fn parallel_edges_are_kept_in_store_order() {
    let mut g = MappingGraph::new();
    g.ingest(&vec![rec("a", "b", "ds1"), rec("a", "b", "ds2"), rec("a", "b", "ds1")]);
    let found = g.lookup_join(&s("a"), &s("b"));
    assert_eq!(found.len(), 2);
    assert_eq!(found[0].datasource, "ds1");
    assert_eq!(found[1].datasource, "ds2");
    assert!(!found[0].selected);
    assert!(g.lookup_join(&s("b"), &s("a")).is_empty());
    let a = g.attributes().iter().find(|x| x.name == "a").unwrap();
    assert!(a.primary);
    g.reset();
    assert!(g.attributes().is_empty());
    assert!(g.edges().is_empty());
}

#[test]
fn plan_of_one_record() {
    let ops = record_ops(&rec("h", "t", "d"));
    assert_eq!(ops.len(), 5);
    assert_eq!(ops[0], StoreOp::Upsert { name: s("h"), description: s("h attribute") });
    assert_eq!(ops[1], StoreOp::Upsert { name: s("t"), description: s("t attribute") });
    assert_eq!(
        ops[2],
        StoreOp::CreateEdge { from: s("h"), to: s("t"), datasource: s("d"), query: s(""), key: s("0"), value: s("1") }
    );
    assert_eq!(ops[3], StoreOp::RecomputePrimary { name: s("h") });
    assert_eq!(ops[4], StoreOp::RecomputePrimary { name: s("t") });
    let mut g = MappingGraph::new();
    for op in &ops {
        g.apply(op).unwrap();
    }
    let mut h = MappingGraph::new();
    h.ingest_record(&rec("h", "t", "d"));
    assert_eq!(g.attributes(), h.attributes());
    assert_eq!(g.edges(), h.edges());
}

fn start(t: &str) -> DvmEvent {
    DvmEvent::Start(t.to_string())
}

fn end(t: &str) -> DvmEvent {
    DvmEvent::End(t.to_string())
}

fn text(t: &str) -> DvmEvent {
    DvmEvent::Text(t.to_string())
}

fn edge_events() -> Vec<DvmEvent> {
    vec![
        start("edges"),
        start("edge"),
        start("headnode"),
        start("name"),
        text(" person "),
        end("name"),
        start("description"),
        text("A person"),
        end("description"),
        end("headnode"),
        text("\n  "),
        start("tailnode"),
        start("name"),
        text("age"),
        end("name"),
        start("description"),
        text("Age in years"),
        end("description"),
        end("tailnode"),
        start("datasource"),
        start("name"),
        text("people"),
        end("name"),
        end("datasource"),
        start("query"),
        start("extra"),
    ]
}

#[test]
fn mapping_reader_rejects_unknown_tags() {
    let events = edge_events();
    assert_eq!(read_mapping(events), Err(DvmError::UnexpectedStart("extra".to_string())));
    let mut r = DvmReader::new();
    assert_eq!(r.step(end("nope")), Err(DvmError::UnexpectedEnd("nope".to_string())));
    assert_eq!(r.step(text("stray")), Err(DvmError::UnexpectedText("stray".to_string())));
}

#[test]
fn mapping_reader_builds_records() {
    let events = vec![
        start("edges"),
        start("edge"),
        start("headnode"),
        start("name"),
        text(" person "),
        end("name"),
        start("description"),
        text("A person"),
        end("description"),
        end("headnode"),
        start("tailnode"),
        start("name"),
        text("age"),
        end("name"),
        end("tailnode"),
        start("datasource"),
        start("name"),
        text("people"),
        end("name"),
        end("datasource"),
        start("query"),
        text("q1"),
        end("query"),
        start("key"),
        text("0"),
        end("key"),
        start("value"),
        text("2"),
        end("value"),
        end("edge"),
        end("edges"),
        DvmEvent::Eof,
        start("ignored"),
    ];
    let records = read_mapping(events).unwrap();
    assert_eq!(
        records,
        vec![MappingRecord {
            head_name: s("person"),
            head_description: s("A person"),
            tail_name: s("age"),
            tail_description: s(""),
            datasource: s("people"),
            query: s("q1"),
            key: s("0"),
            value: s("2"),
        }]
    );
    let mut r = DvmReader::new();
    assert_eq!(r.step(DvmEvent::Eof), Ok(DvmStep::Finished));
}

#[test]
fn mapping_text_references_are_resolved() {
    let mut r = DvmReader::new();
    assert_eq!(r.step(start("headnode")), Ok(DvmStep::Continue));
    assert_eq!(r.step(text("  Q&amp;A  ")), Ok(DvmStep::Continue));
    assert_eq!(r.step(text("&quot;quoted&quot;")), Ok(DvmStep::Continue));
    assert_eq!(r.step(end("headnode")), Ok(DvmStep::Continue));
    match r.step(end("edge")) {
        Ok(DvmStep::Record(rec)) => {
            assert_eq!(rec.head_name, "Q&A");
            assert_eq!(rec.head_description, "\"quoted\"");
        }
        other => panic!("unexpected step: {:?}", other),
    }
    assert_eq!(r.step(text("&unknown;")), Err(DvmError::InvalidEscape("&unknown;".to_string())));
    assert_eq!(r.take_text("  ".to_string()), Ok(DvmStep::Continue));
    assert_eq!(r.take_text("loose".to_string()), Err(DvmError::UnexpectedText("loose".to_string())));
}

#[test]
fn edge_positions_are_read() {
    let e = Edge::from_fields(s("ds"), None, "3", "+12").unwrap();
    assert_eq!(e.key_pos, 3);
    assert_eq!(e.value_pos, 12);
    assert_eq!(Edge::from_fields(s("ds"), None, "x", "1"), Err(EdgeError::InvalidPosition(s("x"))));
    assert_eq!(Edge::from_fields(s("ds"), None, "1", "4294967296"), Err(EdgeError::InvalidPosition(s("4294967296"))));
    assert_eq!(Edge::from_fields(s("ds"), None, "4294967295", "0").unwrap().key_pos, 4294967295);
    assert_eq!(Edge::from_fields(s("ds"), None, "", "0"), Err(EdgeError::InvalidPosition(s(""))));
}
