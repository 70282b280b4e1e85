//! Parsing the fields of a query document into typed nodes.

use vstd::prelude::*;
use vstd::string::*;

use crate::document::{self, InitNode};
use crate::error::{ParseError, ParseErrorView};
use crate::tree::{build_tree, spec_build_tree, tree_result_view, TreeError, TreeErrorView, TreeNode, TreeView};
use crate::text::{matches_token, matches_token_str, split_on, split_str, trim, trim_str, views};
use crate::transform::{
    parse_transformations, spec_transformations, transformation_views, Transformation,
    TransformationView,
};

verus! {

/// A query document with every node's fields parsed.
#[derive(Debug, Clone, PartialEq, Eq)]
pub struct Query {
    pub root_node: String,
    pub nodes: Vec<DeserializedNode>,
}

/// One node of a query document with its fields parsed.
#[derive(Debug, Clone, PartialEq, Eq)]
pub struct DeserializedNode {
    pub name: String,
    pub label: String,
    pub children: Vec<String>,
    pub transformations: Vec<Transformation>,
    pub theta: Option<String>,
    pub output: bool,
}

/// The mathematical value of a [`DeserializedNode`].
pub struct NodeView {
    pub name: Seq<char>,
    pub label: Seq<char>,
    pub children: Seq<Seq<char>>,
    pub transformations: Seq<TransformationView>,
    pub theta: Option<Seq<char>>,
    pub output: bool,
}

/// The view of an optional string.
pub open spec fn opt_view(o: Option<String>) -> Option<Seq<char>> {
    match o {
        Some(s) => Some(s@),
        None => None,
    }
}

impl View for DeserializedNode {
    type V = NodeView;

    open spec fn view(&self) -> NodeView {
        NodeView {
            name: self.name@,
            label: self.label@,
            children: views(self.children@),
            transformations: transformation_views(self.transformations@),
            theta: opt_view(self.theta),
            output: self.output,
        }
    }
}

/// The views of a sequence of nodes.
pub open spec fn node_views(v: Seq<DeserializedNode>) -> Seq<NodeView> {
    v.map_values(|n: DeserializedNode| n@)
}

/// A children field: empty means no child, otherwise the `,`-separated
/// labels, each trimmed.
pub open spec fn spec_children(s: Seq<char>) -> Seq<Seq<char>> {
    if s.len() == 0 {
        Seq::empty()
    } else {
        split_on(s, ',').map_values(|p: Seq<char>| trim(p))
    }
}

/// An output field: empty, `no` or `false` is false; `yes` or `true` is
/// true; ASCII case is ignored; anything else is an error.
pub open spec fn spec_output(s: Seq<char>) -> Result<bool, ParseErrorView> {
    if s.len() == 0 {
        Ok(false)
    } else if matches_token(s, "yes"@) || matches_token(s, "true"@) {
        Ok(true)
    } else if matches_token(s, "no"@) || matches_token(s, "false"@) {
        Ok(false)
    } else {
        Err(ParseErrorView::InvalidOutput(s))
    }
}

/// A theta field: empty means none.
pub open spec fn spec_theta(s: Seq<char>) -> Option<Seq<char>> {
    if s.len() == 0 {
        None
    } else {
        Some(s)
    }
}

/// A node with its fields parsed; an absent field takes its default. The
/// transformations are parsed before the output flag.
pub open spec fn spec_node(n: InitNode) -> Result<NodeView, ParseErrorView> {
    let children = match n.children {
        Some(s) => spec_children(s@),
        None => Seq::empty(),
    };
    let theta = match n.theta {
        Some(s) => spec_theta(s@),
        None => None,
    };
    let transformations = match n.transformations {
        Some(s) => spec_transformations(s@),
        None => Ok(Seq::empty()),
    };
    let output = match n.output {
        Some(s) => spec_output(s@),
        None => Ok(false),
    };
    match transformations {
        Err(e) => Err(e),
        Ok(ts) => match output {
            Err(e) => Err(e),
            Ok(out) => Ok(
                NodeView {
                    name: n.name@,
                    label: n.label@,
                    children,
                    transformations: ts,
                    theta,
                    output: out,
                },
            ),
        },
    }
}

/// Parses a children field into its labels.
pub fn parse_children(s: &str) -> (r: Vec<String>)
    ensures
        views(r@) == spec_children(s@),
{
    let mut out: Vec<String> = Vec::new();
    if s.unicode_len() == 0 {
        assert(views(out@) =~= Seq::<Seq<char>>::empty());
        return out;
    }
    let parts = split_str(s, ',');
    let ghost pv = views(parts@);
    let mut k: usize = 0;
    while k < parts.len()
        invariant
            pv == views(parts@),
            pv == split_on(s@, ','),
            k <= parts.len(),
            views(out@) =~= pv.subrange(0, k as int).map_values(|p: Seq<char>| trim(p)),
        decreases parts.len() - k,
    {
        let t = trim_str(parts[k].as_str());
        let ghost done = views(out@);
        out.push(t);
        assert(views(out@) =~= done.push(t@));
        assert(pv.subrange(0, k + 1).map_values(|p: Seq<char>| trim(p)) =~= pv.subrange(
            0,
            k as int,
        ).map_values(|p: Seq<char>| trim(p)).push(trim(pv[k as int])));
        k = k + 1;
    }
    assert(pv.subrange(0, parts.len() as int) =~= pv);
    out
}

/// Parses an output field.
pub fn parse_output(s: &str) -> (r: Result<bool, ParseError>)
    ensures
        match r {
            Ok(b) => spec_output(s@) == Ok::<bool, ParseErrorView>(b),
            Err(e) => spec_output(s@) == Err::<bool, ParseErrorView>(e@),
        },
{
    if s.unicode_len() == 0 {
        Ok(false)
    } else if matches_token_str(s, "yes") || matches_token_str(s, "true") {
        Ok(true)
    } else if matches_token_str(s, "no") || matches_token_str(s, "false") {
        Ok(false)
    } else {
        Err(ParseError::InvalidOutput(String::from_str(s)))
    }
}

/// Parses a theta field.
pub fn parse_theta(s: &str) -> (r: Option<String>)
    ensures
        opt_view(r) == spec_theta(s@),
{
    if s.unicode_len() == 0 {
        None
    } else {
        Some(String::from_str(s))
    }
}

impl DeserializedNode {
    /// Parses the fields of one node.
    pub fn from_init(n: InitNode) -> (r: Result<DeserializedNode, ParseError>)
        ensures
            match r {
                Ok(d) => spec_node(n) == Ok::<NodeView, ParseErrorView>(d@),
                Err(e) => spec_node(n) == Err::<NodeView, ParseErrorView>(e@),
            },
    {
        let children = match &n.children {
            Some(s) => parse_children(s.as_str()),
            None => {
                let v: Vec<String> = Vec::new();
                assert(views(v@) =~= Seq::<Seq<char>>::empty());
                v
            },
        };
        let theta = match &n.theta {
            Some(s) => parse_theta(s.as_str()),
            None => None,
        };
        let transformations = match &n.transformations {
            Some(s) => parse_transformations(s.as_str()),
            None => {
                let v: Vec<Transformation> = Vec::new();
                assert(transformation_views(v@) =~= Seq::<TransformationView>::empty());
                Ok(v)
            },
        };
        let transformations = match transformations {
            Ok(t) => t,
            Err(e) => return Err(e),
        };
        let output = match &n.output {
            Some(s) => parse_output(s.as_str()),
            None => Ok(false),
        };
        let output = match output {
            Ok(b) => b,
            Err(e) => return Err(e),
        };
        Ok(DeserializedNode { name: n.name, label: n.label, children, transformations, theta, output })
    }
}

/// The views of a document's nodes, parsed in order; the first malformed
/// node is the error.
pub open spec fn spec_nodes(nodes: Seq<InitNode>) -> Result<Seq<NodeView>, ParseErrorView>
    decreases nodes.len(),
{
    if nodes.len() == 0 {
        Ok(Seq::empty())
    } else {
        match spec_nodes(nodes.drop_last()) {
            Err(e) => Err(e),
            Ok(done) => match spec_node(nodes.last()) {
                Ok(n) => Ok(done.push(n)),
                Err(e) => Err(e),
            },
        }
    }
}

proof fn lemma_nodes_error_persists(nodes: Seq<InitNode>, k: int)
    requires
        0 <= k <= nodes.len(),
        spec_nodes(nodes.subrange(0, k)) is Err,
    ensures
        spec_nodes(nodes) == spec_nodes(nodes.subrange(0, k)),
    decreases nodes.len() - k,
{
    if k < nodes.len() {
        assert(nodes.subrange(0, k + 1).drop_last() =~= nodes.subrange(0, k));
        lemma_nodes_error_persists(nodes, k + 1);
    } else {
        assert(nodes.subrange(0, k) =~= nodes);
    }
}

impl Query {
    /// Parses every node of a document, keeping their order.
    pub fn from_document(doc: document::Query) -> (r: Result<Query, ParseError>)
        ensures
            match r {
                Ok(q) => {
                    &&& q.root_node == doc.root_node
                    &&& spec_nodes(doc.node@) == Ok::<Seq<NodeView>, ParseErrorView>(
                        node_views(q.nodes@),
                    )
                },
                Err(e) => spec_nodes(doc.node@) == Err::<Seq<NodeView>, ParseErrorView>(e@),
            },
    {
        let document::Query { root_node, node } = doc;
        let ghost orig = node@;
        assert(orig == doc.node@);
        let total = node.len();
        let mut rest = node;
        let mut out: Vec<DeserializedNode> = Vec::new();
        let mut k: usize = 0;
        assert(orig.subrange(0, 0) =~= Seq::<InitNode>::empty());
        assert(node_views(out@) =~= Seq::<NodeView>::empty());
        while rest.len() > 0
            invariant
                k + rest@.len() == orig.len(),
                orig.len() == total,
                orig == doc.node@,
                rest@ =~= orig.subrange(k as int, orig.len() as int),
                spec_nodes(orig.subrange(0, k as int)) == Ok::<Seq<NodeView>, ParseErrorView>(
                    node_views(out@),
                ),
            decreases rest@.len(),
        {
            let n = rest.remove(0);
            let ghost prefix = orig.subrange(0, k + 1);
            assert(prefix.drop_last() =~= orig.subrange(0, k as int));
            assert(prefix.last() == n);
            match DeserializedNode::from_init(n) {
                Ok(d) => {
                    let ghost done = node_views(out@);
                    out.push(d);
                    assert(node_views(out@) =~= done.push(d@));
                    assert(spec_nodes(prefix) == Ok::<Seq<NodeView>, ParseErrorView>(done.push(d@)));
                },
                Err(e) => {
                    assert(spec_nodes(prefix) == Err::<Seq<NodeView>, ParseErrorView>(e@));
                    proof {
                        lemma_nodes_error_persists(orig, k + 1);
                    }
                    assert(spec_nodes(orig) == Err::<Seq<NodeView>, ParseErrorView>(e@));
                    return Err(e);
                },
            }
            k = k + 1;
        }
        assert(orig.subrange(0, k as int) =~= orig);
        Ok(Query { root_node, nodes: out })
    }
}

/// Why a query document could not be compiled.
#[derive(Debug, Clone, PartialEq, Eq)]
pub enum QueryError {
    /// A field of a node is malformed.
    Parse(ParseError),
    /// The nodes do not form a tree from the root.
    Tree(TreeError),
}

/// The mathematical value of a [`QueryError`].
pub enum QueryErrorView {
    Parse(ParseErrorView),
    Tree(TreeErrorView),
}

impl View for QueryError {
    type V = QueryErrorView;

    open spec fn view(&self) -> QueryErrorView {
        match self {
            QueryError::Parse(e) => QueryErrorView::Parse(e@),
            QueryError::Tree(e) => QueryErrorView::Tree(e@),
        }
    }
}

/// Compiling a query document: every node parsed, then the tree assembled.
pub open spec fn spec_load_query(doc: document::Query) -> Result<TreeView, QueryErrorView> {
    match spec_nodes(doc.node@) {
        Err(e) => Err(QueryErrorView::Parse(e)),
        Ok(nodes) => match spec_build_tree(doc.root_node@, nodes) {
            Ok(t) => Ok(t),
            Err(e) => Err(QueryErrorView::Tree(e)),
        },
    }
}

/// Compiles a query document into its tree.
pub fn load_query_xml(doc: document::Query) -> (r: Result<TreeNode, QueryError>)
    ensures
        match r {
            Ok(t) => spec_load_query(doc) == Ok::<TreeView, QueryErrorView>(t@),
            Err(e) => spec_load_query(doc) == Err::<TreeView, QueryErrorView>(e@),
        },
{
    let ghost d = doc;
    match Query::from_document(doc) {
        Err(e) => Err(QueryError::Parse(e)),
        Ok(q) => {
            let r = build_tree(q);
            assert(tree_result_view(r) == spec_build_tree(d.root_node@, node_views(q.nodes@)));
            match r {
                Ok(t) => Ok(t),
                Err(e) => Err(QueryError::Tree(e)),
            }
        },
    }
}

} // verus!
