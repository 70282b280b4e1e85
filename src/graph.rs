//! The mapping graph: attributes joined by directed edges, the operations
//! a store offers on it, and the ingestion of mapping records.

use vstd::prelude::*;

use crate::mapping::{record_views, MappingRecord, RecordView};

verus! {

/// A named concept of the mapping graph.
#[derive(Debug, Clone, PartialEq, Eq)]
pub struct Attribute {
    pub name: String,
    pub description: String,
    pub primary: bool,
}

/// A directed join relationship between two attributes.
#[derive(Debug, Clone, PartialEq, Eq)]
pub struct JoinEdge {
    pub from: String,
    pub to: String,
    pub datasource: String,
    pub query: String,
    pub key: String,
    pub value: String,
    pub selected: bool,
}

/// The mathematical value of an [`Attribute`].
pub struct AttrView {
    pub name: Seq<char>,
    pub description: Seq<char>,
    pub primary: bool,
}

/// The mathematical value of a [`JoinEdge`].
pub struct EdgeView {
    pub from: Seq<char>,
    pub to: Seq<char>,
    pub datasource: Seq<char>,
    pub query: Seq<char>,
    pub key: Seq<char>,
    pub value: Seq<char>,
    pub selected: bool,
}

impl View for Attribute {
    type V = AttrView;

    open spec fn view(&self) -> AttrView {
        AttrView { name: self.name@, description: self.description@, primary: self.primary }
    }
}

impl View for JoinEdge {
    type V = EdgeView;

    open spec fn view(&self) -> EdgeView {
        EdgeView {
            from: self.from@,
            to: self.to@,
            datasource: self.datasource@,
            query: self.query@,
            key: self.key@,
            value: self.value@,
            selected: self.selected,
        }
    }
}

/// The mathematical value of a [`MappingGraph`].
pub struct GraphView {
    pub attributes: Seq<AttrView>,
    pub edges: Seq<EdgeView>,
}

/// An in-memory mapping-graph store.
pub struct MappingGraph {
    attributes: Vec<Attribute>,
    edges: Vec<JoinEdge>,
}

impl View for MappingGraph {
    type V = GraphView;

    closed spec fn view(&self) -> GraphView {
        GraphView {
            attributes: self.attributes@.map_values(|a: Attribute| a@),
            edges: self.edges@.map_values(|e: JoinEdge| e@),
        }
    }
}

/// Position of the attribute named `n`, searching from the end.
pub open spec fn find_attr(s: Seq<AttrView>, n: Seq<char>) -> Option<int>
    decreases s.len(),
{
    if s.len() == 0 {
        None
    } else if s.last().name == n {
        Some(s.len() - 1)
    } else {
        find_attr(s.drop_last(), n)
    }
}

/// Whether the graph holds an attribute named `n`.
pub open spec fn has_attr(g: GraphView, n: Seq<char>) -> bool {
    find_attr(g.attributes, n) is Some
}

/// The number of edges that leave `n`.
pub open spec fn out_degree(edges: Seq<EdgeView>, n: Seq<char>) -> nat
    decreases edges.len(),
{
    if edges.len() == 0 {
        0
    } else {
        out_degree(edges.drop_last(), n) + if edges.last().from == n {
            1nat
        } else {
            0nat
        }
    }
}

/// The edges from `a` to `b`, in store order.
pub open spec fn edges_between(edges: Seq<EdgeView>, a: Seq<char>, b: Seq<char>) -> Seq<EdgeView>
    decreases edges.len(),
{
    if edges.len() == 0 {
        Seq::empty()
    } else {
        let rest = edges_between(edges.drop_last(), a, b);
        if edges.last().from == a && edges.last().to == b {
            rest.push(edges.last())
        } else {
            rest
        }
    }
}

/// Names are unique and every edge joins two attributes of the graph.
pub open spec fn wf(g: GraphView) -> bool {
    &&& forall|i: int, j: int|
        0 <= i < g.attributes.len() && 0 <= j < g.attributes.len() && i != j
            ==> #[trigger] g.attributes[i].name != #[trigger] g.attributes[j].name
    &&& forall|k: int|
        0 <= k < g.edges.len() ==> has_attr(g, (#[trigger] g.edges[k]).from) && has_attr(
            g,
            g.edges[k].to,
        )
}

/// Every attribute is primary exactly when more than one edge leaves it.
pub open spec fn primary_consistent(g: GraphView) -> bool {
    forall|i: int|
        0 <= i < g.attributes.len() ==> ((#[trigger] g.attributes[i]).primary <==> out_degree(
            g.edges,
            g.attributes[i].name,
        ) > 1)
}

/// A store that failed an operation.
#[derive(Debug, Clone, PartialEq, Eq)]
pub enum StoreError {
    /// The named attribute does not exist.
    NotFound(String),
}

/// One operation on the store.
#[derive(Debug, Clone, PartialEq, Eq)]
pub enum StoreOp {
    /// Creates the attribute if no attribute has this name.
    Upsert { name: String, description: String },
    /// Links two existing attributes.
    CreateEdge {
        from: String,
        to: String,
        datasource: String,
        query: String,
        key: String,
        value: String,
    },
    /// Flags the attribute as primary if more than one edge leaves it.
    RecomputePrimary { name: String },
}

/// The mathematical value of a [`StoreOp`].
pub enum OpView {
    Upsert { name: Seq<char>, description: Seq<char> },
    CreateEdge { edge: EdgeView },
    RecomputePrimary { name: Seq<char> },
}

impl View for StoreOp {
    type V = OpView;

    open spec fn view(&self) -> OpView {
        match self {
            StoreOp::Upsert { name, description } => OpView::Upsert {
                name: name@,
                description: description@,
            },
            StoreOp::CreateEdge { from, to, datasource, query, key, value } => OpView::CreateEdge {
                edge: EdgeView {
                    from: from@,
                    to: to@,
                    datasource: datasource@,
                    query: query@,
                    key: key@,
                    value: value@,
                    selected: false,
                },
            },
            StoreOp::RecomputePrimary { name } => OpView::RecomputePrimary { name: name@ },
        }
    }
}

/// Creates an attribute unless one of that name exists (first write wins).
pub open spec fn spec_upsert(g: GraphView, n: Seq<char>, d: Seq<char>) -> GraphView {
    if has_attr(g, n) {
        g
    } else {
        GraphView {
            attributes: g.attributes.push(AttrView { name: n, description: d, primary: false }),
            ..g
        }
    }
}

/// Adds an edge between existing attributes; an identical edge is not
/// added twice.
pub open spec fn spec_create_edge(g: GraphView, e: EdgeView) -> Result<GraphView, Seq<char>> {
    if !has_attr(g, e.from) {
        Err(e.from)
    } else if !has_attr(g, e.to) {
        Err(e.to)
    } else if g.edges.contains(e) {
        Ok(g)
    } else {
        Ok(GraphView { edges: g.edges.push(e), ..g })
    }
}

/// Flags `n` as primary if more than one edge leaves it.
pub open spec fn spec_recompute(g: GraphView, n: Seq<char>) -> GraphView {
    match find_attr(g.attributes, n) {
        Some(i) => if 0 <= i < g.attributes.len() && out_degree(g.edges, n) > 1 {
            GraphView {
                attributes: g.attributes.update(i, AttrView { primary: true, ..g.attributes[i] }),
                ..g
            }
        } else {
            g
        },
        None => g,
    }
}

/// The effect of one operation; the error names the missing attribute.
pub open spec fn spec_apply(g: GraphView, op: OpView) -> Result<GraphView, Seq<char>> {
    match op {
        OpView::Upsert { name, description } => Ok(spec_upsert(g, name, description)),
        OpView::CreateEdge { edge } => spec_create_edge(g, edge),
        OpView::RecomputePrimary { name } => Ok(spec_recompute(g, name)),
    }
}

/// The edge a mapping record describes.
pub open spec fn record_edge(r: RecordView) -> EdgeView {
    EdgeView {
        from: r.head_name,
        to: r.tail_name,
        datasource: r.datasource,
        query: r.query,
        key: r.key,
        value: r.value,
        selected: false,
    }
}

/// The operations that ingest one record: both endpoints upserted, the edge
/// created, then both primary flags recomputed.
pub open spec fn spec_record_ops(r: RecordView) -> Seq<OpView> {
    seq![
        OpView::Upsert { name: r.head_name, description: r.head_description },
        OpView::Upsert { name: r.tail_name, description: r.tail_description },
        OpView::CreateEdge { edge: record_edge(r) },
        OpView::RecomputePrimary { name: r.head_name },
        OpView::RecomputePrimary { name: r.tail_name },
    ]
}

/// The graph after ingesting one record.
pub open spec fn spec_ingest_record(g: GraphView, r: RecordView) -> GraphView {
    let g1 = spec_upsert(spec_upsert(g, r.head_name, r.head_description), r.tail_name, r.tail_description);
    let g2 = match spec_create_edge(g1, record_edge(r)) {
        Ok(h) => h,
        Err(_) => g1,
    };
    spec_recompute(spec_recompute(g2, r.head_name), r.tail_name)
}

/// The graph after ingesting records in order.
pub open spec fn spec_ingest(g: GraphView, recs: Seq<RecordView>) -> GraphView
    decreases recs.len(),
{
    if recs.len() == 0 {
        g
    } else {
        spec_ingest(spec_ingest_record(g, recs[0]), recs.drop_first())
    }
}

/// The empty graph.
pub open spec fn empty_graph() -> GraphView {
    GraphView { attributes: Seq::empty(), edges: Seq::empty() }
}

// ---------------------------------------------------------------------------
// Facts about the lookups.

proof fn lemma_find_attr(s: Seq<AttrView>, n: Seq<char>)
    ensures
        match find_attr(s, n) {
            Some(i) => 0 <= i < s.len() && s[i].name == n,
            None => forall|k: int| 0 <= k < s.len() ==> s[k].name != n,
        },
    decreases s.len(),
{
    if s.len() > 0 {
        lemma_find_attr(s.drop_last(), n);
        if find_attr(s, n) is None {
            assert forall|k: int| 0 <= k < s.len() implies s[k].name != n by {
                if k < s.len() - 1 {
                    assert(s[k] == s.drop_last()[k]);
                }
            }
        }
    }
}

proof fn lemma_find_attr_update(s: Seq<AttrView>, i: int, a: AttrView, n: Seq<char>)
    requires
        0 <= i < s.len(),
        a.name == s[i].name,
    ensures
        find_attr(s.update(i, a), n) == find_attr(s, n),
    decreases s.len(),
{
    let t = s.update(i, a);
    if i < s.len() - 1 {
        assert(t.drop_last() =~= s.drop_last().update(i, a));
        lemma_find_attr_update(s.drop_last(), i, a, n);
    } else {
        assert(t.drop_last() =~= s.drop_last());
    }
}

proof fn lemma_find_attr_push(s: Seq<AttrView>, a: AttrView, n: Seq<char>)
    ensures
        find_attr(s.push(a), n) == if a.name == n {
            Some(s.len() as int)
        } else {
            find_attr(s, n)
        },
{
    assert(s.push(a).drop_last() =~= s);
}

proof fn lemma_out_degree_push(edges: Seq<EdgeView>, e: EdgeView, n: Seq<char>)
    ensures
        out_degree(edges.push(e), n) == out_degree(edges, n) + if e.from == n {
            1nat
        } else {
            0nat
        },
{
    assert(edges.push(e).drop_last() =~= edges);
}

// ---------------------------------------------------------------------------
// Each step keeps the graph well formed and keeps what it held.

/// What `h` keeps of `g`: every attribute name and every edge.
pub open spec fn keeps(g: GraphView, h: GraphView) -> bool {
    &&& forall|n: Seq<char>| has_attr(g, n) ==> #[trigger] has_attr(h, n)
    &&& forall|e: EdgeView| g.edges.contains(e) ==> #[trigger] h.edges.contains(e)
}

proof fn lemma_upsert(g: GraphView, n: Seq<char>, d: Seq<char>)
    requires
        wf(g),
        primary_consistent(g),
    ensures
        wf(spec_upsert(g, n, d)),
        primary_consistent(spec_upsert(g, n, d)),
        has_attr(spec_upsert(g, n, d), n),
        keeps(g, spec_upsert(g, n, d)),
        spec_upsert(g, n, d).edges == g.edges,
{
    let h = spec_upsert(g, n, d);
    if !has_attr(g, n) {
        let a = AttrView { name: n, description: d, primary: false };
        lemma_find_attr(g.attributes, n);
        assert forall|m: Seq<char>| has_attr(g, m) implies #[trigger] has_attr(h, m) by {
            lemma_find_attr_push(g.attributes, a, m);
        }
        lemma_find_attr_push(g.attributes, a, n);
        assert forall|k: int| 0 <= k < h.edges.len() implies has_attr(h, (#[trigger] h.edges[k]).from)
            && has_attr(h, h.edges[k].to) by {
            assert(has_attr(g, g.edges[k].from));
            assert(has_attr(g, g.edges[k].to));
        }
        assert(out_degree(g.edges, n) == 0) by {
            lemma_no_edges_from_absent(g, n);
        }
    }
}

proof fn lemma_no_edges_from_absent(g: GraphView, n: Seq<char>)
    requires
        wf(g),
        !has_attr(g, n),
    ensures
        out_degree(g.edges, n) == 0,
{
    lemma_out_degree_zero(g.edges, n);
}

proof fn lemma_out_degree_zero(edges: Seq<EdgeView>, n: Seq<char>)
    requires
        forall|k: int| 0 <= k < edges.len() ==> (#[trigger] edges[k]).from != n,
    ensures
        out_degree(edges, n) == 0,
    decreases edges.len(),
{
    if edges.len() > 0 {
        assert(edges.last().from != n);
        lemma_out_degree_zero(edges.drop_last(), n);
    }
}

proof fn lemma_create_edge(g: GraphView, e: EdgeView)
    requires
        wf(g),
        has_attr(g, e.from),
        has_attr(g, e.to),
    ensures
        spec_create_edge(g, e) matches Ok(h) && wf(h) && keeps(g, h) && h.edges.contains(e)
            && h.attributes == g.attributes,
{
    let h = GraphView { edges: g.edges.push(e), ..g };
    if !g.edges.contains(e) {
        assert(h.edges[g.edges.len() as int] == e);
        assert forall|f: EdgeView| g.edges.contains(f) implies #[trigger] h.edges.contains(f) by {
            let k = choose|k: int| 0 <= k < g.edges.len() && g.edges[k] == f;
            assert(h.edges[k] == f);
        }
        assert forall|k: int| 0 <= k < h.edges.len() implies has_attr(h, (#[trigger] h.edges[k]).from)
            && has_attr(h, h.edges[k].to) by {
            if k < g.edges.len() {
                assert(h.edges[k] == g.edges[k]);
            }
        }
    }
}

proof fn lemma_recompute(g: GraphView, n: Seq<char>)
    requires
        wf(g),
    ensures
        wf(spec_recompute(g, n)),
        keeps(g, spec_recompute(g, n)),
        spec_recompute(g, n).edges == g.edges,
        forall|m: Seq<char>| #[trigger] find_attr(spec_recompute(g, n).attributes, m) == find_attr(g.attributes, m),
        spec_recompute(g, n).attributes.len() == g.attributes.len(),
        forall|i: int|
            0 <= i < g.attributes.len() ==> (#[trigger] spec_recompute(g, n).attributes[i]).name
                == g.attributes[i].name,
        forall|i: int|
            0 <= i < g.attributes.len() && g.attributes[i].name != n ==> #[trigger] spec_recompute(
                g,
                n,
            ).attributes[i] == g.attributes[i],
        forall|i: int|
            0 <= i < g.attributes.len() && g.attributes[i].name == n ==> (#[trigger] spec_recompute(
                g,
                n,
            ).attributes[i]).primary == (g.attributes[i].primary || out_degree(g.edges, n) > 1),
{
    lemma_find_attr(g.attributes, n);
    match find_attr(g.attributes, n) {
        Some(i) => {
            if out_degree(g.edges, n) > 1 {
                let a = AttrView { primary: true, ..g.attributes[i] };
                assert forall|m: Seq<char>| #[trigger] find_attr(spec_recompute(g, n).attributes, m)
                    == find_attr(g.attributes, m) by {
                    lemma_find_attr_update(g.attributes, i, a, m);
                }
                assert forall|j: int|
                    0 <= j < g.attributes.len() && g.attributes[j].name == n implies j == i by {
                    if j != i {
                        assert(g.attributes[j].name != g.attributes[i].name);
                    }
                }
            }
        },
        None => {},
    }
}

/// Ingesting a record keeps the graph well formed and the primary flags
/// right, keeps what the graph held, and adds the record's attributes and
/// edge.
pub proof fn lemma_ingest_record(g: GraphView, r: RecordView)
    requires
        wf(g),
        primary_consistent(g),
    ensures
        wf(spec_ingest_record(g, r)),
        primary_consistent(spec_ingest_record(g, r)),
        keeps(g, spec_ingest_record(g, r)),
        has_attr(spec_ingest_record(g, r), r.head_name),
        has_attr(spec_ingest_record(g, r), r.tail_name),
        spec_ingest_record(g, r).edges.contains(record_edge(r)),
{
    let e = record_edge(r);
    let ga = spec_upsert(g, r.head_name, r.head_description);
    lemma_upsert(g, r.head_name, r.head_description);
    let g1 = spec_upsert(ga, r.tail_name, r.tail_description);
    lemma_upsert(ga, r.tail_name, r.tail_description);
    lemma_create_edge(g1, e);
    let g2 = spec_create_edge(g1, e)->Ok_0;
    let g3 = spec_recompute(g2, r.head_name);
    lemma_recompute(g2, r.head_name);
    let g4 = spec_recompute(g3, r.tail_name);
    lemma_recompute(g3, r.tail_name);
    assert(has_attr(g4, r.head_name)) by {
        assert(has_attr(g1, r.head_name));
    }
    // Primary flags: only the head's degree may have grown, and it was
    // recomputed.
    assert forall|i: int| 0 <= i < g4.attributes.len() implies ((#[trigger] g4.attributes[i]).primary
        <==> out_degree(g4.edges, g4.attributes[i].name) > 1) by {
        let m = g1.attributes[i].name;
        assert(g4.attributes[i].name == m);
        assert(primary_consistent(g1));
        if g1.edges.contains(e) {
            assert(g2 == g1);
        } else {
            lemma_out_degree_push(g1.edges, e, m);
        }
        if m != r.head_name && m != r.tail_name {
            assert(g4.attributes[i] == g1.attributes[i]);
        } else if g1.edges.contains(e) {
            assert(g1.attributes[i].primary <==> out_degree(g1.edges, m) > 1);
        } else if m == r.head_name {
            assert(out_degree(g2.edges, m) == out_degree(g1.edges, m) + 1);
        } else {
            assert(out_degree(g2.edges, m) == out_degree(g1.edges, m));
        }
    }
    assert forall|n: Seq<char>| has_attr(g, n) implies #[trigger] has_attr(g4, n) by {
        assert(has_attr(ga, n));
        assert(has_attr(g1, n));
        assert(has_attr(g2, n));
        assert(has_attr(g3, n));
    }
    assert forall|f: EdgeView| g.edges.contains(f) implies #[trigger] g4.edges.contains(f) by {
        assert(g1.edges.contains(f));
    }
}

/// Ingesting a record whose attributes and edge are already in a well-formed
/// graph with right primary flags changes nothing.
pub proof fn lemma_ingest_record_again(g: GraphView, r: RecordView)
    requires
        wf(g),
        primary_consistent(g),
        has_attr(g, r.head_name),
        has_attr(g, r.tail_name),
        g.edges.contains(record_edge(r)),
    ensures
        spec_ingest_record(g, r) == g,
{
    lemma_recompute_noop(g, r.head_name);
    lemma_recompute_noop(g, r.tail_name);
}

proof fn lemma_recompute_noop(g: GraphView, n: Seq<char>)
    requires
        primary_consistent(g),
    ensures
        spec_recompute(g, n) == g,
{
    match find_attr(g.attributes, n) {
        Some(i) => {
            lemma_find_attr(g.attributes, n);
            if 0 <= i < g.attributes.len() && out_degree(g.edges, n) > 1 {
                assert(g.attributes.update(i, AttrView { primary: true, ..g.attributes[i] })
                    =~= g.attributes);
            }
        },
        None => {},
    }
}

/// Ingesting a sequence of records keeps the graph well formed and the
/// primary flags right, and leaves every record's attributes and edge in it.
pub proof fn lemma_ingest(g: GraphView, recs: Seq<RecordView>)
    requires
        wf(g),
        primary_consistent(g),
    ensures
        wf(spec_ingest(g, recs)),
        primary_consistent(spec_ingest(g, recs)),
        keeps(g, spec_ingest(g, recs)),
        forall|k: int|
            0 <= k < recs.len() ==> has_attr(spec_ingest(g, recs), (#[trigger] recs[k]).head_name)
                && has_attr(spec_ingest(g, recs), recs[k].tail_name) && spec_ingest(
                g,
                recs,
            ).edges.contains(record_edge(recs[k])),
    decreases recs.len(),
{
    if recs.len() > 0 {
        let g1 = spec_ingest_record(g, recs[0]);
        lemma_ingest_record(g, recs[0]);
        lemma_ingest(g1, recs.drop_first());
        let h = spec_ingest(g, recs);
        assert forall|k: int| 0 <= k < recs.len() implies has_attr(h, (#[trigger] recs[k]).head_name)
            && has_attr(h, recs[k].tail_name) && h.edges.contains(record_edge(recs[k])) by {
            if k > 0 {
                assert(recs[k] == recs.drop_first()[k - 1]);
            }
        }
    }
}

proof fn lemma_ingest_again(h: GraphView, recs: Seq<RecordView>)
    requires
        wf(h),
        primary_consistent(h),
        forall|k: int|
            0 <= k < recs.len() ==> has_attr(h, (#[trigger] recs[k]).head_name) && has_attr(
                h,
                recs[k].tail_name,
            ) && h.edges.contains(record_edge(recs[k])),
    ensures
        spec_ingest(h, recs) == h,
    decreases recs.len(),
{
    if recs.len() > 0 {
        lemma_ingest_record_again(h, recs[0]);
        assert forall|k: int| 0 <= k < recs.drop_first().len() implies has_attr(
            h,
            (#[trigger] recs.drop_first()[k]).head_name,
        ) && has_attr(h, recs.drop_first()[k].tail_name) && h.edges.contains(
            record_edge(recs.drop_first()[k]),
        ) by {
            assert(recs.drop_first()[k] == recs[k + 1]);
        }
        lemma_ingest_again(h, recs.drop_first());
    }
}

/// Ingestion is idempotent: ingesting the same records a second time changes
/// nothing, so in particular the number of attributes stays the same.
pub proof fn lemma_ingest_idempotent(g: GraphView, recs: Seq<RecordView>)
    requires
        wf(g),
        primary_consistent(g),
    ensures
        spec_ingest(spec_ingest(g, recs), recs) == spec_ingest(g, recs),
        spec_ingest(spec_ingest(g, recs), recs).attributes.len() == spec_ingest(
            g,
            recs,
        ).attributes.len(),
{
    lemma_ingest(g, recs);
    lemma_ingest_again(spec_ingest(g, recs), recs);
}

/// The names of the attributes, in store order.
pub open spec fn attr_names(g: GraphView) -> Seq<Seq<char>> {
    g.attributes.map_values(|a: AttrView| a.name)
}

/// The names of the endpoints of the records.
pub open spec fn endpoint_names(recs: Seq<RecordView>) -> Set<Seq<char>> {
    Set::new(
        |n: Seq<char>|
            exists|k: int| 0 <= k < recs.len() && ((#[trigger] recs[k]).head_name == n || recs[k].tail_name == n),
    )
}

proof fn lemma_has_attr_names(g: GraphView, n: Seq<char>)
    ensures
        has_attr(g, n) <==> attr_names(g).contains(n),
{
    lemma_find_attr(g.attributes, n);
    if has_attr(g, n) {
        let i = find_attr(g.attributes, n)->0;
        assert(attr_names(g)[i] == n);
    }
    if attr_names(g).contains(n) {
        let i = choose|i: int| 0 <= i < attr_names(g).len() && attr_names(g)[i] == n;
        assert(g.attributes[i].name == n);
    }
}

proof fn lemma_ingest_record_only_endpoints(g: GraphView, r: RecordView, n: Seq<char>)
    requires
        has_attr(spec_ingest_record(g, r), n),
    ensures
        has_attr(g, n) || n == r.head_name || n == r.tail_name,
{
    let ga = spec_upsert(g, r.head_name, r.head_description);
    let g1 = spec_upsert(ga, r.tail_name, r.tail_description);
    lemma_find_attr_push(g.attributes, AttrView { name: r.head_name, description: r.head_description, primary: false }, n);
    lemma_find_attr_push(ga.attributes, AttrView { name: r.tail_name, description: r.tail_description, primary: false }, n);
    let g2 = match spec_create_edge(g1, record_edge(r)) {
        Ok(h) => h,
        Err(_) => g1,
    };
    assert(g2.attributes == g1.attributes);
    lemma_recompute_names(g2, r.head_name, n);
    lemma_recompute_names(spec_recompute(g2, r.head_name), r.tail_name, n);
}

proof fn lemma_recompute_names(g: GraphView, m: Seq<char>, n: Seq<char>)
    ensures
        find_attr(spec_recompute(g, m).attributes, n) == find_attr(g.attributes, n),
{
    lemma_find_attr(g.attributes, m);
    if let Some(i) = find_attr(g.attributes, m) {
        if 0 <= i < g.attributes.len() && out_degree(g.edges, m) > 1 {
            lemma_find_attr_update(g.attributes, i, AttrView { primary: true, ..g.attributes[i] }, n);
        }
    }
}

proof fn lemma_ingest_only_endpoints(g: GraphView, recs: Seq<RecordView>, n: Seq<char>)
    requires
        has_attr(spec_ingest(g, recs), n),
    ensures
        has_attr(g, n) || endpoint_names(recs).contains(n),
    decreases recs.len(),
{
    if recs.len() > 0 {
        let g1 = spec_ingest_record(g, recs[0]);
        lemma_ingest_only_endpoints(g1, recs.drop_first(), n);
        if has_attr(g1, n) {
            lemma_ingest_record_only_endpoints(g, recs[0], n);
            if !has_attr(g, n) {
                assert(recs[0].head_name == n || recs[0].tail_name == n);
            }
        } else {
            let k = choose|k: int|
                0 <= k < recs.drop_first().len() && ((#[trigger] recs.drop_first()[k]).head_name == n
                    || recs.drop_first()[k].tail_name == n);
            assert(recs.drop_first()[k] == recs[k + 1]);
        }
    }
}

/// Ingesting records into a reset store leaves exactly one attribute per
/// distinct endpoint name: the names are unique and are the endpoint names,
/// so their number is the number of distinct endpoint names.
pub proof fn lemma_ingest_attribute_count(recs: Seq<RecordView>)
    ensures
        attr_names(spec_ingest(empty_graph(), recs)).no_duplicates(),
        attr_names(spec_ingest(empty_graph(), recs)).to_set() == endpoint_names(recs),
        spec_ingest(empty_graph(), recs).attributes.len() == endpoint_names(recs).len(),
{
    let h = spec_ingest(empty_graph(), recs);
    lemma_ingest(empty_graph(), recs);
    let names = attr_names(h);
    assert(names.no_duplicates()) by {
        assert forall|i: int, j: int| 0 <= i < names.len() && 0 <= j < names.len() && i != j implies names[i]
            != names[j] by {
            assert(h.attributes[i].name != h.attributes[j].name);
        }
    }
    assert forall|n: Seq<char>| names.to_set().contains(n) <==> endpoint_names(recs).contains(n) by {
        lemma_has_attr_names(h, n);
        if names.contains(n) {
            lemma_ingest_only_endpoints(empty_graph(), recs, n);
        }
        if endpoint_names(recs).contains(n) {
            let k = choose|k: int| 0 <= k < recs.len() && ((#[trigger] recs[k]).head_name == n || recs[k].tail_name == n);
            assert(has_attr(h, recs[k].head_name) && has_attr(h, recs[k].tail_name));
        }
    }
    assert(names.to_set() =~= endpoint_names(recs));
    names.unique_seq_to_set();
}

/// From a reset store, ingestion leaves every attribute primary exactly when
/// more than one edge leaves it, and attribute names unique.
pub proof fn lemma_primary_after_ingest(recs: Seq<RecordView>)
    ensures
        primary_consistent(spec_ingest(empty_graph(), recs)),
        wf(spec_ingest(empty_graph(), recs)),
{
    lemma_ingest(empty_graph(), recs);
}

// ---------------------------------------------------------------------------
// The store.

fn copy_string(s: &String) -> (r: String)
    ensures
        r@ == s@,
{
    s.clone()
}

fn copy_edge(e: &JoinEdge) -> (r: JoinEdge)
    ensures
        r@ == e@,
{
    JoinEdge {
        from: copy_string(&e.from),
        to: copy_string(&e.to),
        datasource: copy_string(&e.datasource),
        query: copy_string(&e.query),
        key: copy_string(&e.key),
        value: copy_string(&e.value),
        selected: e.selected,
    }
}

impl MappingGraph {
    /// An empty store.
    pub fn new() -> (r: MappingGraph)
        ensures
            r@ == empty_graph(),
            wf(r@),
            primary_consistent(r@),
    {
        let r = MappingGraph { attributes: Vec::new(), edges: Vec::new() };
        assert(r@.attributes =~= Seq::<AttrView>::empty());
        assert(r@.edges =~= Seq::<EdgeView>::empty());
        r
    }

    /// The attributes, in creation order.
    pub fn attributes(&self) -> (r: &Vec<Attribute>)
        ensures
            r@.map_values(|a: Attribute| a@) == self@.attributes,
    {
        &self.attributes
    }

    /// The edges, in creation order.
    pub fn edges(&self) -> (r: &Vec<JoinEdge>)
        ensures
            r@.map_values(|e: JoinEdge| e@) == self@.edges,
    {
        &self.edges
    }

    /// Deletes every attribute and edge.
    pub fn reset(&mut self)
        ensures
            final(self)@ == empty_graph(),
            wf(final(self)@),
            primary_consistent(final(self)@),
    {
        *self = MappingGraph::new();
    }

    fn attr_index(&self, name: &String) -> (r: Option<usize>)
        ensures
            match r {
                Some(i) => i < self@.attributes.len() && find_attr(self@.attributes, name@) == Some(
                    i as int,
                ),
                None => find_attr(self@.attributes, name@) is None,
            },
    {
        let ghost av = self@.attributes;
        let mut i = self.attributes.len();
        assert(av.subrange(0, i as int) =~= av);
        while i > 0
            invariant
                av == self@.attributes,
                i <= av.len(),
                find_attr(av, name@) == find_attr(av.subrange(0, i as int), name@),
            decreases i,
        {
            assert(av[i - 1] == self.attributes@[i - 1]@);
            if self.attributes[i - 1].name == *name {
                return Some(i - 1);
            }
            assert(av.subrange(0, i as int).drop_last() =~= av.subrange(0, i - 1));
            i = i - 1;
        }
        None
    }

    /// Whether an attribute of this name exists.
    pub fn attribute_exists(&self, name: &String) -> (r: bool)
        ensures
            r == has_attr(self@, name@),
    {
        self.attr_index(name).is_some()
    }

    /// Creates the attribute unless one of that name exists; an existing
    /// description is never overwritten.
    pub fn upsert_attribute(&mut self, name: &String, description: &String)
        ensures
            final(self)@ == spec_upsert(old(self)@, name@, description@),
            wf(old(self)@) && primary_consistent(old(self)@) ==> wf(final(self)@) && primary_consistent(
                final(self)@,
            ),
    {
        proof {
            if wf(self@) && primary_consistent(self@) {
                lemma_upsert(self@, name@, description@);
            }
        }
        if !self.attribute_exists(name) {
            let ghost before = self@;
            let a = Attribute { name: copy_string(name), description: copy_string(description), primary: false };
            self.attributes.push(a);
            assert(self@.attributes =~= before.attributes.push(a@));
        }
    }

    fn out_degree(&self, name: &String) -> (r: usize)
        ensures
            r == out_degree(self@.edges, name@),
    {
        let ghost ev = self@.edges;
        let mut count: usize = 0;
        let mut i: usize = 0;
        assert(ev.subrange(0, 0) =~= Seq::<EdgeView>::empty());
        while i < self.edges.len()
            invariant
                ev == self@.edges,
                i <= ev.len(),
                count <= i,
                count == out_degree(ev.subrange(0, i as int), name@),
            decreases ev.len() - i,
        {
            assert(ev.subrange(0, i + 1).drop_last() =~= ev.subrange(0, i as int));
            assert(ev[i as int] == self.edges@[i as int]@);
            if self.edges[i].from == *name {
                count = count + 1;
            }
            i = i + 1;
        }
        assert(ev.subrange(0, i as int) =~= ev);
        count
    }

    fn contains_edge(&self, e: &JoinEdge) -> (r: bool)
        ensures
            r == self@.edges.contains(e@),
    {
        let ghost ev = self@.edges;
        let mut i: usize = 0;
        while i < self.edges.len()
            invariant
                ev == self@.edges,
                i <= ev.len(),
                forall|k: int| 0 <= k < i ==> ev[k] != e@,
            decreases ev.len() - i,
        {
            let f = &self.edges[i];
            assert(ev[i as int] == f@);
            if f.from == e.from && f.to == e.to && f.datasource == e.datasource && f.query == e.query
                && f.key == e.key && f.value == e.value && f.selected == e.selected {
                assert(ev[i as int] == e@);
                return true;
            }
            i = i + 1;
        }
        false
    }

    /// Links two existing attributes; fails naming the first endpoint that
    /// does not exist. An identical edge is not added twice.
    pub fn create_join_edge(
        &mut self,
        from: &String,
        to: &String,
        datasource: &String,
        query: &String,
        key: &String,
        value: &String,
    ) -> (r: Result<(), StoreError>)
        ensures
            match spec_create_edge(
                old(self)@,
                EdgeView {
                    from: from@,
                    to: to@,
                    datasource: datasource@,
                    query: query@,
                    key: key@,
                    value: value@,
                    selected: false,
                },
            ) {
                Ok(h) => r is Ok && final(self)@ == h,
                Err(n) => r matches Err(StoreError::NotFound(s)) && s@ == n && final(self)@ == old(
                    self,
                )@,
            },
            wf(old(self)@) ==> wf(final(self)@),
    {
        proof {
            let e = EdgeView {
                from: from@,
                to: to@,
                datasource: datasource@,
                query: query@,
                key: key@,
                value: value@,
                selected: false,
            };
            if wf(self@) && has_attr(self@, from@) && has_attr(self@, to@) {
                lemma_create_edge(self@, e);
            }
        }
        if !self.attribute_exists(from) {
            return Err(StoreError::NotFound(copy_string(from)));
        }
        if !self.attribute_exists(to) {
            return Err(StoreError::NotFound(copy_string(to)));
        }
        let e = JoinEdge {
            from: copy_string(from),
            to: copy_string(to),
            datasource: copy_string(datasource),
            query: copy_string(query),
            key: copy_string(key),
            value: copy_string(value),
            selected: false,
        };
        if !self.contains_edge(&e) {
            let ghost before = self@;
            self.edges.push(e);
            assert(self@.edges =~= before.edges.push(e@));
        }
        Ok(())
    }

    /// Flags the attribute as primary if more than one edge leaves it.
    pub fn recompute_primary(&mut self, name: &String)
        ensures
            final(self)@ == spec_recompute(old(self)@, name@),
            wf(old(self)@) ==> wf(final(self)@),
    {
        proof {
            if wf(self@) {
                lemma_recompute(self@, name@);
            }
        }
        match self.attr_index(name) {
            Some(i) => {
                if self.out_degree(name) > 1 {
                    let ghost before = self@;
                    let a = Attribute {
                        name: copy_string(&self.attributes[i].name),
                        description: copy_string(&self.attributes[i].description),
                        primary: true,
                    };
                    self.attributes.set(i, a);
                    assert(self@.attributes =~= before.attributes.update(
                        i as int,
                        AttrView { primary: true, ..before.attributes[i as int] },
                    ));
                }
            },
            None => {},
        }
    }

    /// The edges from `a` to `b`, in store order.
    pub fn lookup_join(&self, a: &String, b: &String) -> (r: Vec<JoinEdge>)
        ensures
            r@.map_values(|e: JoinEdge| e@) == edges_between(self@.edges, a@, b@),
    {
        let ghost ev = self@.edges;
        let mut out: Vec<JoinEdge> = Vec::new();
        let mut i: usize = 0;
        assert(ev.subrange(0, 0) =~= Seq::<EdgeView>::empty());
        assert(out@.map_values(|e: JoinEdge| e@) =~= Seq::<EdgeView>::empty());
        while i < self.edges.len()
            invariant
                ev == self@.edges,
                i <= ev.len(),
                out@.map_values(|e: JoinEdge| e@) == edges_between(ev.subrange(0, i as int), a@, b@),
            decreases ev.len() - i,
        {
            assert(ev.subrange(0, i + 1).drop_last() =~= ev.subrange(0, i as int));
            assert(ev[i as int] == self.edges@[i as int]@);
            let f = &self.edges[i];
            if f.from == *a && f.to == *b {
                let ghost before = out@.map_values(|e: JoinEdge| e@);
                let c = copy_edge(f);
                out.push(c);
                assert(out@.map_values(|e: JoinEdge| e@) =~= before.push(c@));
            }
            i = i + 1;
        }
        assert(ev.subrange(0, i as int) =~= ev);
        out
    }

    /// Performs one operation.
    pub fn apply(&mut self, op: &StoreOp) -> (r: Result<(), StoreError>)
        ensures
            match spec_apply(old(self)@, op@) {
                Ok(h) => r is Ok && final(self)@ == h,
                Err(n) => r matches Err(StoreError::NotFound(s)) && s@ == n && final(self)@ == old(
                    self,
                )@,
            },
    {
        match op {
            StoreOp::Upsert { name, description } => {
                self.upsert_attribute(name, description);
                Ok(())
            },
            StoreOp::CreateEdge { from, to, datasource, query, key, value } => {
                self.create_join_edge(from, to, datasource, query, key, value)
            },
            StoreOp::RecomputePrimary { name } => {
                self.recompute_primary(name);
                Ok(())
            },
        }
    }

    /// Ingests one record: both endpoints upserted, the edge created, both
    /// primary flags recomputed.
    pub fn ingest_record(&mut self, r: &MappingRecord)
        ensures
            final(self)@ == spec_ingest_record(old(self)@, r@),
            wf(old(self)@) && primary_consistent(old(self)@) ==> wf(final(self)@) && primary_consistent(
                final(self)@,
            ),
    {
        proof {
            if wf(self@) && primary_consistent(self@) {
                lemma_ingest_record(self@, r@);
            }
        }
        self.upsert_attribute(&r.head_name, &r.head_description);
        self.upsert_attribute(&r.tail_name, &r.tail_description);
        let _ = self.create_join_edge(&r.head_name, &r.tail_name, &r.datasource, &r.query, &r.key, &r.value);
        self.recompute_primary(&r.head_name);
        self.recompute_primary(&r.tail_name);
    }

    /// Ingests records in order.
    pub fn ingest(&mut self, recs: &Vec<MappingRecord>)
        ensures
            final(self)@ == spec_ingest(old(self)@, record_views(recs@)),
            wf(old(self)@) && primary_consistent(old(self)@) ==> wf(final(self)@) && primary_consistent(
                final(self)@,
            ),
    {
        proof {
            if wf(self@) && primary_consistent(self@) {
                lemma_ingest(self@, record_views(recs@));
            }
        }
        let ghost rv = record_views(recs@);
        let mut i: usize = 0;
        assert(rv.subrange(0, rv.len() as int) =~= rv);
        while i < recs.len()
            invariant
                rv == record_views(recs@),
                i <= rv.len(),
                spec_ingest(old(self)@, rv) == spec_ingest(self@, rv.subrange(i as int, rv.len() as int)),
            decreases rv.len() - i,
        {
            let ghost tail = rv.subrange(i as int, rv.len() as int);
            assert(tail.drop_first() =~= rv.subrange(i + 1, rv.len() as int));
            assert(tail[0] == recs@[i as int]@);
            self.ingest_record(&recs[i]);
            i = i + 1;
        }
        assert(rv.subrange(i as int, rv.len() as int) =~= Seq::<RecordView>::empty());
    }
}

/// The operations that ingest one record, in the order they must complete.
pub fn record_ops(r: &MappingRecord) -> (ops: Vec<StoreOp>)
    ensures
        ops@.map_values(|o: StoreOp| o@) == spec_record_ops(r@),
{
    let ops = vec![
        StoreOp::Upsert { name: copy_string(&r.head_name), description: copy_string(&r.head_description) },
        StoreOp::Upsert { name: copy_string(&r.tail_name), description: copy_string(&r.tail_description) },
        StoreOp::CreateEdge {
            from: copy_string(&r.head_name),
            to: copy_string(&r.tail_name),
            datasource: copy_string(&r.datasource),
            query: copy_string(&r.query),
            key: copy_string(&r.key),
            value: copy_string(&r.value),
        },
        StoreOp::RecomputePrimary { name: copy_string(&r.head_name) },
        StoreOp::RecomputePrimary { name: copy_string(&r.tail_name) },
    ];
    assert(ops@.map_values(|o: StoreOp| o@) =~= spec_record_ops(r@));
    ops
}

} // verus!
