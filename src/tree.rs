//! Assembling the query tree: each label is taken from the pool of declared
//! nodes when it is first reached, so the result is a tree.

use vstd::prelude::*;

use crate::query::{node_views, opt_view, DeserializedNode, NodeView, Query};
use crate::text::views;
use crate::transform::{transformation_views, Transformation, TransformationView};

verus! {

/// A node of a compiled query tree; it owns its children.
#[derive(Debug)]
pub struct TreeNode {
    pub name: String,
    pub label: String,
    pub children: Vec<TreeNode>,
    pub transformations: Vec<Transformation>,
    pub theta: Option<String>,
    pub output: bool,
}

/// The mathematical value of a [`TreeNode`].
pub struct TreeView {
    pub name: Seq<char>,
    pub label: Seq<char>,
    pub children: Seq<TreeView>,
    pub transformations: Seq<TransformationView>,
    pub theta: Option<Seq<char>>,
    pub output: bool,
}

/// The view of a tree, children included.
pub open spec fn tree_view(t: TreeNode) -> TreeView
    decreases t,
{
    TreeView {
        name: t.name@,
        label: t.label@,
        children: Seq::new(
            t.children@.len(),
            |i: int|
                if 0 <= i < t.children@.len() {
                    tree_view(t.children@[i])
                } else {
                    TreeView {
                        name: Seq::empty(),
                        label: Seq::empty(),
                        children: Seq::empty(),
                        transformations: Seq::empty(),
                        theta: None,
                        output: false,
                    }
                },
        ),
        transformations: transformation_views(t.transformations@),
        theta: opt_view(t.theta),
        output: t.output,
    }
}

impl View for TreeNode {
    type V = TreeView;

    open spec fn view(&self) -> TreeView {
        tree_view(*self)
    }
}

/// The views of a sequence of trees.
pub open spec fn tree_views(v: Seq<TreeNode>) -> Seq<TreeView> {
    v.map_values(|t: TreeNode| t@)
}

/// Why a query document does not describe a tree.
#[derive(Debug, Clone, PartialEq, Eq)]
pub enum TreeError {
    /// No node carries the root label.
    RootNotFound(String),
    /// A child label names no node that is still unused.
    ChildNotFound(String),
}

/// The mathematical value of a [`TreeError`].
pub enum TreeErrorView {
    RootNotFound(Seq<char>),
    ChildNotFound(Seq<char>),
}

impl View for TreeError {
    type V = TreeErrorView;

    open spec fn view(&self) -> TreeErrorView {
        match self {
            TreeError::RootNotFound(s) => TreeErrorView::RootNotFound(s@),
            TreeError::ChildNotFound(s) => TreeErrorView::ChildNotFound(s@),
        }
    }
}

/// The view of a compilation outcome.
pub open spec fn tree_result_view(r: Result<TreeNode, TreeError>) -> Result<TreeView, TreeErrorView> {
    match r {
        Ok(t) => Ok(t@),
        Err(e) => Err(e@),
    }
}

/// Position of the first node labelled `l` in `pool`.
pub open spec fn find_label(pool: Seq<NodeView>, l: Seq<char>) -> Option<int>
    decreases pool.len(),
{
    if pool.len() == 0 {
        None
    } else if pool[0].label == l {
        Some(0)
    } else {
        match find_label(pool.drop_first(), l) {
            Some(i) => Some(i + 1),
            None => None,
        }
    }
}

/// The lookup of declared nodes by label; of two nodes with one label the
/// later one is kept, in the place of the earlier.
pub open spec fn spec_pool(nodes: Seq<NodeView>) -> Seq<NodeView>
    decreases nodes.len(),
{
    if nodes.len() == 0 {
        Seq::empty()
    } else {
        let p = spec_pool(nodes.drop_last());
        match find_label(p, nodes.last().label) {
            Some(j) => if 0 <= j < p.len() {
                p.update(j, nodes.last())
            } else {
                p
            },
            None => p.push(nodes.last()),
        }
    }
}

/// A tree node made of a declared node and its compiled children.
pub open spec fn node_tree(node: NodeView, kids: Seq<TreeView>) -> TreeView {
    TreeView {
        name: node.name,
        label: node.label,
        children: kids,
        transformations: node.transformations,
        theta: node.theta,
        output: node.output,
    }
}

/// Compiles `node` against the unused nodes `pool`; also yields what is left
/// of the pool.
pub open spec fn spec_build_node(node: NodeView, pool: Seq<NodeView>) -> (
    Result<TreeView, TreeErrorView>,
    Seq<NodeView>,
)
    decreases pool.len(), 1nat, 0nat,
{
    let (r, rest) = spec_build_children(node.children, pool, pool.len());
    match r {
        Ok(kids) => (Ok(node_tree(node, kids)), rest),
        Err(e) => (Err(e), rest),
    }
}

/// Compiles the children `labels` in order, each taken out of the pool
/// before it is compiled; the pool never grows past `cap`.
pub open spec fn spec_build_children(labels: Seq<Seq<char>>, pool: Seq<NodeView>, cap: nat) -> (
    Result<Seq<TreeView>, TreeErrorView>,
    Seq<NodeView>,
)
    decreases cap, 0nat, labels.len(),
{
    if labels.len() == 0 {
        (Ok(Seq::empty()), pool)
    } else {
        let (r, mid_pool) = spec_build_children(labels.drop_last(), pool, cap);
        match r {
            Err(e) => (Err(e), mid_pool),
            Ok(done) => match find_label(mid_pool, labels.last()) {
                Some(j) => if 0 <= j < mid_pool.len() <= cap {
                    let (c, rest_pool) = spec_build_node(mid_pool[j], mid_pool.remove(j));
                    match c {
                        Ok(t) => (Ok(done.push(t)), rest_pool),
                        Err(e) => (Err(e), rest_pool),
                    }
                } else {
                    (Err(TreeErrorView::ChildNotFound(labels.last())), mid_pool)
                },
                None => (Err(TreeErrorView::ChildNotFound(labels.last())), mid_pool),
            },
        }
    }
}

/// Compiles a parsed query document: the root is looked up by label, then
/// every node's children in turn.
pub open spec fn spec_build_tree(root: Seq<char>, nodes: Seq<NodeView>) -> Result<
    TreeView,
    TreeErrorView,
> {
    let pool = spec_pool(nodes);
    match find_label(pool, root) {
        Some(j) => if 0 <= j < pool.len() {
            spec_build_node(pool[j], pool.remove(j)).0
        } else {
            Err(TreeErrorView::RootNotFound(root))
        },
        None => Err(TreeErrorView::RootNotFound(root)),
    }
}

/// The labels of a tree in pre-order.
pub open spec fn tree_labels(t: TreeView) -> Seq<Seq<char>>
    decreases t,
{
    seq![t.label] + forest_labels(t.children)
}

/// The labels of a sequence of trees, tree after tree.
pub open spec fn forest_labels(kids: Seq<TreeView>) -> Seq<Seq<char>>
    decreases kids,
{
    if kids.len() == 0 {
        Seq::empty()
    } else {
        forest_labels(kids.subrange(0, kids.len() - 1)) + tree_labels(kids[kids.len() - 1])
    }
}

/// The labels of the nodes of a pool.
pub open spec fn pool_labels(p: Seq<NodeView>) -> Seq<Seq<char>> {
    p.map_values(|n: NodeView| n.label)
}

proof fn lemma_find_label_result(pool: Seq<NodeView>, l: Seq<char>)
    ensures
        match find_label(pool, l) {
            Some(j) => 0 <= j < pool.len() && pool[j].label == l,
            None => !pool_labels(pool).contains(l),
        },
    decreases pool.len(),
{
    if pool.len() > 0 {
        lemma_find_label_result(pool.drop_first(), l);
        if find_label(pool, l) is None {
            if pool_labels(pool).contains(l) {
                let i = choose|i: int| 0 <= i < pool_labels(pool).len() && pool_labels(pool)[i] == l;
                assert(i != 0);
                assert(pool_labels(pool.drop_first())[i - 1] == l);
            }
        }
    }
}

proof fn lemma_concat_no_duplicates(a: Seq<Seq<char>>, b: Seq<Seq<char>>)
    requires
        a.no_duplicates(),
        b.no_duplicates(),
        forall|i: int| 0 <= i < a.len() ==> !b.contains(#[trigger] a[i]),
    ensures
        (a + b).no_duplicates(),
{
    let c = a + b;
    assert forall|i: int, j: int| 0 <= i < c.len() && 0 <= j < c.len() && i != j implies c[i] != c[j] by {
        if i < a.len() && j >= a.len() {
            assert(b[j - a.len()] == c[j]);
        } else if j < a.len() && i >= a.len() {
            assert(b[i - a.len()] == c[i]);
        }
    }
}

proof fn lemma_remove_labels(p: Seq<NodeView>, j: int)
    requires
        0 <= j < p.len(),
        pool_labels(p).no_duplicates(),
    ensures
        pool_labels(p.remove(j)).no_duplicates(),
        !pool_labels(p.remove(j)).contains(p[j].label),
        pool_labels(p).contains(p[j].label),
        forall|l: Seq<char>| #[trigger] pool_labels(p.remove(j)).contains(l) ==> pool_labels(p).contains(l),
        p.remove(j).len() == p.len() - 1,
{
    let q = p.remove(j);
    assert(pool_labels(q) =~= pool_labels(p).remove(j));
    assert(pool_labels(p)[j] == p[j].label);
    assert forall|l: Seq<char>| #[trigger] pool_labels(q).contains(l) implies pool_labels(p).contains(l) by {
        let i = choose|i: int| 0 <= i < pool_labels(q).len() && pool_labels(q)[i] == l;
        if i < j {
            assert(pool_labels(p)[i] == l);
        } else {
            assert(pool_labels(p)[i + 1] == l);
        }
    }
    if pool_labels(q).contains(p[j].label) {
        let i = choose|i: int| 0 <= i < pool_labels(q).len() && pool_labels(q)[i] == p[j].label;
        if i < j {
            assert(pool_labels(p)[i] == pool_labels(p)[j]);
        } else {
            assert(pool_labels(p)[i + 1] == pool_labels(p)[j]);
        }
    }
}

/// The pool of a document holds each label once.
pub proof fn lemma_pool_distinct(nodes: Seq<NodeView>)
    ensures
        pool_labels(spec_pool(nodes)).no_duplicates(),
    decreases nodes.len(),
{
    if nodes.len() > 0 {
        let p = spec_pool(nodes.drop_last());
        lemma_pool_distinct(nodes.drop_last());
        lemma_find_label_result(p, nodes.last().label);
        match find_label(p, nodes.last().label) {
            Some(j) => {
                assert(pool_labels(p.update(j, nodes.last())) =~= pool_labels(p));
            },
            None => {
                assert(pool_labels(p.push(nodes.last())) =~= pool_labels(p).push(nodes.last().label));
                lemma_concat_no_duplicates(pool_labels(p), seq![nodes.last().label]);
                assert(pool_labels(p) + seq![nodes.last().label] =~= pool_labels(p).push(nodes.last().label));
            },
        }
    }
}

/// Compiling a node whose label is not in a pool of distinct labels yields a
/// tree without repeated labels, all taken from the node and the pool, and
/// leaves exactly the other labels of the pool.
pub proof fn lemma_build_node_shape(node: NodeView, pool: Seq<NodeView>)
    requires
        pool_labels(pool).no_duplicates(),
        !pool_labels(pool).contains(node.label),
    ensures
        ({
            let (r, rest) = spec_build_node(node, pool);
            &&& pool_labels(rest).no_duplicates()
            &&& forall|l: Seq<char>| #[trigger] pool_labels(rest).contains(l) ==> pool_labels(pool).contains(l)
            &&& r matches Ok(t) ==> {
                &&& tree_labels(t).no_duplicates()
                &&& tree_labels(t).len() + rest.len() == pool.len() + 1
                &&& forall|i: int|
                    0 <= i < tree_labels(t).len() ==> (#[trigger] tree_labels(t)[i] == node.label || (
                    pool_labels(pool).contains(tree_labels(t)[i]) && !pool_labels(rest).contains(
                    tree_labels(t)[i])))
            }
        }),
    decreases pool.len(), 1nat, 0nat,
{
    lemma_build_children_shape(node.children, pool, pool.len());
    let (r, rest) = spec_build_children(node.children, pool, pool.len());
    match r {
        Ok(kids) => {
            let fl = forest_labels(kids);
            let t = node_tree(node, kids);
            assert(tree_labels(t) == seq![node.label] + fl);
            assert forall|i: int| 0 <= i < seq![node.label].len() implies !fl.contains(
                #[trigger] seq![node.label][i],
            ) by {
                if fl.contains(node.label) {
                    let k = choose|k: int| 0 <= k < fl.len() && fl[k] == node.label;
                    assert(pool_labels(pool).contains(fl[k]));
                }
            }
            lemma_concat_no_duplicates(seq![node.label], fl);
            assert forall|i: int| 0 <= i < tree_labels(t).len() implies (#[trigger] tree_labels(t)[i]
                == node.label || (pool_labels(pool).contains(tree_labels(t)[i]) && !pool_labels(
                rest,
            ).contains(tree_labels(t)[i]))) by {
                if i > 0 {
                    assert(tree_labels(t)[i] == fl[i - 1]);
                }
            }
        },
        Err(_) => {},
    }
}

/// The children fold keeps the pool distinct and takes each label once.
pub proof fn lemma_build_children_shape(labels: Seq<Seq<char>>, pool: Seq<NodeView>, cap: nat)
    requires
        pool_labels(pool).no_duplicates(),
    ensures
        ({
            let (r, mid_pool) = spec_build_children(labels, pool, cap);
            &&& pool_labels(mid_pool).no_duplicates()
            &&& forall|l: Seq<char>| #[trigger] pool_labels(mid_pool).contains(l) ==> pool_labels(pool).contains(l)
            &&& r matches Ok(done) ==> {
                &&& forest_labels(done).no_duplicates()
                &&& forest_labels(done).len() + mid_pool.len() == pool.len()
                &&& forall|i: int|
                    0 <= i < forest_labels(done).len() ==> pool_labels(pool).contains(
                    #[trigger] forest_labels(done)[i]) && !pool_labels(mid_pool).contains(forest_labels(done)[i])
            }
        }),
    decreases cap, 0nat, labels.len(),
{
    if labels.len() > 0 {
        lemma_build_children_shape(labels.drop_last(), pool, cap);
        let (r, mid_pool) = spec_build_children(labels.drop_last(), pool, cap);
        match r {
            Ok(done) => {
                lemma_find_label_result(mid_pool, labels.last());
                match find_label(mid_pool, labels.last()) {
                    Some(j) => {
                        if 0 <= j < mid_pool.len() <= cap {
                            let q = mid_pool.remove(j);
                            lemma_remove_labels(mid_pool, j);
                            lemma_build_node_shape(mid_pool[j], q);
                            let (c, rest_pool) = spec_build_node(mid_pool[j], q);
                            match c {
                                Ok(t) => {
                                    let fd = forest_labels(done);
                                    let tl = tree_labels(t);
                                    let nd = done.push(t);
                                    assert(nd.subrange(0, nd.len() - 1) =~= done);
                                    assert(forest_labels(nd) == fd + tl);
                                    assert forall|i: int| 0 <= i < tl.len() implies pool_labels(mid_pool).contains(
                                        #[trigger] tl[i],
                                    ) && !pool_labels(rest_pool).contains(tl[i]) by {
                                        if tl[i] != mid_pool[j].label {
                                            assert(pool_labels(q).contains(tl[i]));
                                        } else {
                                            if pool_labels(rest_pool).contains(tl[i]) {
                                                assert(pool_labels(q).contains(tl[i]));
                                            }
                                        }
                                    }
                                    assert forall|i: int| 0 <= i < fd.len() implies !tl.contains(
                                        #[trigger] fd[i],
                                    ) by {
                                        if tl.contains(fd[i]) {
                                            let k = choose|k: int| 0 <= k < tl.len() && tl[k] == fd[i];
                                            assert(pool_labels(mid_pool).contains(tl[k]));
                                        }
                                    }
                                    lemma_concat_no_duplicates(fd, tl);
                                    assert forall|i: int| 0 <= i < forest_labels(nd).len() implies pool_labels(
                                        pool,
                                    ).contains(#[trigger] forest_labels(nd)[i]) && !pool_labels(rest_pool).contains(
                                        forest_labels(nd)[i],
                                    ) by {
                                        if i < fd.len() {
                                            assert(forest_labels(nd)[i] == fd[i]);
                                            if pool_labels(rest_pool).contains(fd[i]) {
                                                assert(pool_labels(q).contains(fd[i]));
                                            }
                                        } else {
                                            assert(forest_labels(nd)[i] == tl[i - fd.len()]);
                                        }
                                    }
                                },
                                Err(_) => {},
                            }
                        }
                    },
                    None => {},
                }
            },
            Err(_) => {},
        }
    } else {
        assert(forest_labels(Seq::<TreeView>::empty()) =~= Seq::<Seq<char>>::empty());
    }
}

/// A compiled node has exactly the children its declaration lists, in order.
pub proof fn lemma_children_follow_declaration(node: NodeView, pool: Seq<NodeView>)
    ensures
        spec_build_node(node, pool).0 matches Ok(t) ==> {
            &&& t.label == node.label
            &&& t.children.len() == node.children.len()
            &&& forall|i: int| 0 <= i < t.children.len() ==> (#[trigger] t.children[i]).label == node.children[i]
        },
{
    lemma_children_labels(node.children, pool, pool.len());
}

proof fn lemma_children_labels(labels: Seq<Seq<char>>, pool: Seq<NodeView>, cap: nat)
    ensures
        spec_build_children(labels, pool, cap).0 matches Ok(done) ==> {
            &&& done.len() == labels.len()
            &&& forall|i: int| 0 <= i < done.len() ==> (#[trigger] done[i]).label == labels[i]
        },
    decreases labels.len(),
{
    if labels.len() > 0 {
        lemma_children_labels(labels.drop_last(), pool, cap);
        let (r, mid_pool) = spec_build_children(labels.drop_last(), pool, cap);
        if let Ok(done) = r {
            lemma_find_label_result(mid_pool, labels.last());
            if let Some(j) = find_label(mid_pool, labels.last()) {
                if 0 <= j < mid_pool.len() <= cap {
                    let (c, rest_pool) = spec_build_node(mid_pool[j], mid_pool.remove(j));
                    if let Ok(t) = c {
                        assert(t.label == mid_pool[j].label);
                        let nd = done.push(t);
                        assert forall|i: int| 0 <= i < nd.len() implies (#[trigger] nd[i]).label
                            == labels[i] by {
                            if i < done.len() {
                                assert(labels.drop_last()[i] == labels[i]);
                            }
                        }
                    }
                }
            }
        }
    }
}

/// After the root is found, every failure of compilation is a child label
/// that names no unused node.
pub proof fn lemma_failure_is_child_not_found(node: NodeView, pool: Seq<NodeView>)
    ensures
        spec_build_node(node, pool).0 matches Err(e) ==> e is ChildNotFound,
    decreases pool.len(), 1nat, 0nat,
{
    lemma_children_failure(node.children, pool, pool.len());
}

proof fn lemma_children_failure(labels: Seq<Seq<char>>, pool: Seq<NodeView>, cap: nat)
    ensures
        spec_build_children(labels, pool, cap).0 matches Err(e) ==> e is ChildNotFound,
    decreases cap, 0nat, labels.len(),
{
    if labels.len() > 0 {
        lemma_children_failure(labels.drop_last(), pool, cap);
        let (r, mid_pool) = spec_build_children(labels.drop_last(), pool, cap);
        if let Ok(done) = r {
            if let Some(j) = find_label(mid_pool, labels.last()) {
                if 0 <= j < mid_pool.len() <= cap {
                    lemma_failure_is_child_not_found(mid_pool[j], mid_pool.remove(j));
                }
            }
        }
    }
}

/// A document fails to compile with a root error exactly when no node
/// carries the root label; any other failure is a child label that names no
/// unused node, such as a label already taken by another parent.
pub proof fn lemma_compile_failures(root: Seq<char>, nodes: Seq<NodeView>)
    ensures
        !pool_labels(spec_pool(nodes)).contains(root) ==> spec_build_tree(root, nodes) == Err::<
            TreeView,
            TreeErrorView,
        >(TreeErrorView::RootNotFound(root)),
        pool_labels(spec_pool(nodes)).contains(root) ==> (spec_build_tree(root, nodes) matches Err(e)
            ==> e is ChildNotFound),
{
    let pool = spec_pool(nodes);
    lemma_find_label_result(pool, root);
    if let Some(j) = find_label(pool, root) {
        assert(pool_labels(pool)[j] == root);
        lemma_failure_is_child_not_found(pool[j], pool.remove(j));
    }
}

/// The labels reached from `l` in the pool `doc`, depth first: `l`, then the
/// labels reached from each of its declared children in turn. `None` if a
/// reached label is not declared or the walk goes deeper than `fuel`.
pub open spec fn walk(l: Seq<char>, doc: Seq<NodeView>, fuel: nat) -> Option<Seq<Seq<char>>>
    decreases fuel, 0nat, 0nat,
{
    if fuel == 0 {
        None
    } else {
        match find_label(doc, l) {
            Some(k) => if 0 <= k < doc.len() {
                match walk_list(doc[k].children, doc, (fuel - 1) as nat) {
                    Some(ls) => Some(seq![l] + ls),
                    None => None,
                }
            } else {
                None
            },
            None => None,
        }
    }
}

/// The labels reached from each of `ls` in turn.
pub open spec fn walk_list(ls: Seq<Seq<char>>, doc: Seq<NodeView>, fuel: nat) -> Option<Seq<Seq<char>>>
    decreases fuel, 1nat, ls.len(),
{
    if ls.len() == 0 {
        Some(Seq::empty())
    } else {
        match (walk_list(ls.drop_last(), doc, fuel), walk(ls.last(), doc, fuel)) {
            (Some(a), Some(b)) => Some(a + b),
            _ => None,
        }
    }
}

/// Every node of `q` is the node that `doc` declares for its label.
pub open spec fn sub_pool(q: Seq<NodeView>, doc: Seq<NodeView>) -> bool {
    forall|i: int|
        0 <= i < q.len() ==> (find_label(doc, (#[trigger] q[i]).label) matches Some(k) && 0 <= k
            < doc.len() && doc[k] == q[i])
}

proof fn lemma_walk_declared(l: Seq<char>, doc: Seq<NodeView>, fuel: nat)
    ensures
        walk(l, doc, fuel) matches Some(w) ==> forall|i: int|
            0 <= i < w.len() ==> pool_labels(doc).contains(#[trigger] w[i]),
    decreases fuel, 0nat, 0nat,
{
    if fuel > 0 {
        lemma_find_label_result(doc, l);
        if let Some(k) = find_label(doc, l) {
            if 0 <= k < doc.len() {
                lemma_walk_list_declared(doc[k].children, doc, (fuel - 1) as nat);
                assert(pool_labels(doc)[k] == l);
                if let Some(ls) = walk_list(doc[k].children, doc, (fuel - 1) as nat) {
                    let w = seq![l] + ls;
                    assert forall|i: int| 0 <= i < w.len() implies pool_labels(doc).contains(#[trigger] w[i]) by {
                        if i > 0 {
                            assert(w[i] == ls[i - 1]);
                        }
                    }
                }
            }
        }
    }
}

proof fn lemma_walk_list_declared(ls: Seq<Seq<char>>, doc: Seq<NodeView>, fuel: nat)
    ensures
        walk_list(ls, doc, fuel) matches Some(w) ==> forall|i: int|
            0 <= i < w.len() ==> pool_labels(doc).contains(#[trigger] w[i]),
    decreases fuel, 1nat, ls.len(),
{
    if ls.len() > 0 {
        lemma_walk_list_declared(ls.drop_last(), doc, fuel);
        lemma_walk_declared(ls.last(), doc, fuel);
        if let (Some(a), Some(b)) = (walk_list(ls.drop_last(), doc, fuel), walk(ls.last(), doc, fuel)) {
            let w = a + b;
            assert forall|i: int| 0 <= i < w.len() implies pool_labels(doc).contains(#[trigger] w[i]) by {
                if i < a.len() {
                    assert(w[i] == a[i]);
                } else {
                    assert(w[i] == b[i - a.len()]);
                }
            }
        }
    }
}

proof fn lemma_remove_contains(p: Seq<NodeView>, j: int, l: Seq<char>)
    requires
        0 <= j < p.len(),
        pool_labels(p).no_duplicates(),
    ensures
        pool_labels(p.remove(j)).contains(l) <==> (pool_labels(p).contains(l) && l != p[j].label),
{
    lemma_remove_labels(p, j);
    let q = p.remove(j);
    if pool_labels(p).contains(l) && l != p[j].label {
        let i = choose|i: int| 0 <= i < pool_labels(p).len() && pool_labels(p)[i] == l;
        if i < j {
            assert(pool_labels(q)[i] == l);
        } else {
            assert(i != j);
            assert(pool_labels(q)[i - 1] == l);
        }
    }
}

proof fn lemma_no_dup_split(a: Seq<Seq<char>>, b: Seq<Seq<char>>)
    requires
        (a + b).no_duplicates(),
    ensures
        a.no_duplicates(),
        b.no_duplicates(),
        forall|i: int| 0 <= i < a.len() ==> !b.contains(#[trigger] a[i]),
{
    let w = a + b;
    assert forall|i: int, k: int| 0 <= i < a.len() && 0 <= k < a.len() && i != k implies a[i] != a[k] by {
        assert(w[i] == a[i] && w[k] == a[k]);
    }
    assert forall|i: int, k: int| 0 <= i < b.len() && 0 <= k < b.len() && i != k implies b[i] != b[k] by {
        assert(w[a.len() + i] == b[i] && w[a.len() + k] == b[k]);
    }
    assert forall|i: int| 0 <= i < a.len() implies !b.contains(#[trigger] a[i]) by {
        if b.contains(a[i]) {
            let k = choose|k: int| 0 <= k < b.len() && b[k] == a[i];
            assert(w[i] == w[a.len() + k]);
        }
    }
}

/// Compiling a node whose children walk reaches each label once, all of
/// them in the pool, succeeds: the tree's labels are the node's label then
/// the walk, and exactly the walked labels leave the pool.
proof fn lemma_build_follows_walk(node: NodeView, q: Seq<NodeView>, doc: Seq<NodeView>, fuel: nat, w: Seq<Seq<char>>)
    requires
        sub_pool(q, doc),
        pool_labels(q).no_duplicates(),
        walk_list(node.children, doc, fuel) == Some(w),
        w.no_duplicates(),
        forall|i: int| 0 <= i < w.len() ==> pool_labels(q).contains(#[trigger] w[i]),
    ensures
        ({
            let (r, rest) = spec_build_node(node, q);
            &&& r matches Ok(t) && tree_labels(t) == seq![node.label] + w
            &&& sub_pool(rest, doc)
            &&& pool_labels(rest).no_duplicates()
            &&& rest.len() + w.len() == q.len()
            &&& forall|l: Seq<char>| #[trigger] pool_labels(rest).contains(l) <==> (pool_labels(q).contains(l) && !w.contains(l))
        }),
    decreases q.len(), 1nat, 0nat,
{
    lemma_children_follow_walk(node.children, q, q.len(), doc, fuel, w);
}

proof fn lemma_children_follow_walk(
    labels: Seq<Seq<char>>,
    q: Seq<NodeView>,
    cap: nat,
    doc: Seq<NodeView>,
    fuel: nat,
    w: Seq<Seq<char>>,
)
    requires
        sub_pool(q, doc),
        pool_labels(q).no_duplicates(),
        q.len() <= cap,
        walk_list(labels, doc, fuel) == Some(w),
        w.no_duplicates(),
        forall|i: int| 0 <= i < w.len() ==> pool_labels(q).contains(#[trigger] w[i]),
    ensures
        ({
            let (r, rest) = spec_build_children(labels, q, cap);
            &&& r matches Ok(done) && forest_labels(done) == w
            &&& sub_pool(rest, doc)
            &&& pool_labels(rest).no_duplicates()
            &&& rest.len() + w.len() == q.len()
            &&& forall|l: Seq<char>| #[trigger] pool_labels(rest).contains(l) <==> (pool_labels(q).contains(l) && !w.contains(l))
        }),
    decreases cap, 0nat, labels.len(),
{
    if labels.len() == 0 {
        assert(w =~= Seq::<Seq<char>>::empty());
        assert(forest_labels(Seq::<TreeView>::empty()) =~= Seq::<Seq<char>>::empty());
    } else {
        let pre = labels.drop_last();
        let last = labels.last();
        let a = walk_list(pre, doc, fuel)->0;
        let b = walk(last, doc, fuel)->0;
        assert(w == a + b);
        lemma_no_dup_split(a, b);
        assert forall|i: int| 0 <= i < a.len() implies pool_labels(q).contains(#[trigger] a[i]) by {
            assert(w[i] == a[i]);
        }
        lemma_children_follow_walk(pre, q, cap, doc, fuel, a);
        let (r, mid) = spec_build_children(pre, q, cap);
        let done = r->Ok_0;
        // The walk from the last label: the label, then its children's walk.
        lemma_find_label_result(doc, last);
        let k = find_label(doc, last)->0;
        let c = walk_list(doc[k].children, doc, (fuel - 1) as nat)->0;
        assert(b == seq![last] + c);
        lemma_no_dup_split(seq![last], c);
        assert(w[a.len() as int] == last);
        assert(pool_labels(q).contains(last));
        assert(!a.contains(last)) by {
            assert(b[0] == last);
            if a.contains(last) {
                let i = choose|i: int| 0 <= i < a.len() && a[i] == last;
                assert(!b.contains(a[i]));
            }
        }
        assert(pool_labels(mid).contains(last));
        lemma_find_label_result(mid, last);
        let j = find_label(mid, last)->0;
        assert(mid[j].label == last);
        assert(mid[j] == doc[k]) by {
            assert(find_label(doc, mid[j].label) matches Some(kk) && doc[kk] == mid[j]);
        }
        let q2 = mid.remove(j);
        lemma_remove_labels(mid, j);
        assert(sub_pool(q2, doc)) by {
            assert forall|i: int| 0 <= i < q2.len() implies (find_label(doc, (#[trigger] q2[i]).label) matches Some(kk)
                && 0 <= kk < doc.len() && doc[kk] == q2[i]) by {
                if i < j {
                    assert(q2[i] == mid[i]);
                } else {
                    assert(q2[i] == mid[i + 1]);
                }
            }
        }
        assert forall|i: int| 0 <= i < c.len() implies pool_labels(q2).contains(#[trigger] c[i]) by {
            assert(b[i + 1] == c[i]);
            assert(w[a.len() + 1 + i] == c[i]);
            lemma_remove_contains(mid, j, c[i]);
            assert(c[i] != last) by {
                assert(!c.contains(seq![last][0]));
            }
            assert(!a.contains(c[i])) by {
                if a.contains(c[i]) {
                    let ii = choose|ii: int| 0 <= ii < a.len() && a[ii] == c[i];
                    assert(!b.contains(a[ii]));
                }
            }
        }
        lemma_build_follows_walk(doc[k], q2, doc, (fuel - 1) as nat, c);
        let (cr, rest) = spec_build_node(doc[k], q2);
        let t = cr->Ok_0;
        let nd = done.push(t);
        assert(nd.subrange(0, nd.len() - 1) =~= done);
        assert(forest_labels(nd) == forest_labels(done) + tree_labels(t));
        assert(tree_labels(t) == b);
        assert forall|l: Seq<char>| #[trigger] pool_labels(rest).contains(l) <==> (pool_labels(q).contains(l)
            && !w.contains(l)) by {
            lemma_remove_contains(mid, j, l);
            if w.contains(l) {
                let i = choose|i: int| 0 <= i < w.len() && w[i] == l;
                if i < a.len() {
                    assert(a[i] == l);
                } else if i == a.len() {
                    assert(l == last);
                } else {
                    assert(c[i - a.len() - 1] == l);
                }
            }
            if c.contains(l) {
                let i = choose|i: int| 0 <= i < c.len() && c[i] == l;
                assert(w[a.len() + 1 + i] == l);
            }
            if a.contains(l) {
                let i = choose|i: int| 0 <= i < a.len() && a[i] == l;
                assert(w[i] == l);
            }
        }
    }
}

/// When the depth-first walk of declared children from the root reaches
/// every label at most once, compilation succeeds, and the tree holds exactly
/// the walked labels: as many nodes as labels reachable from the root, none
/// twice, so no cycle.
pub proof fn lemma_compile_reachable(root: Seq<char>, nodes: Seq<NodeView>, fuel: nat)
    requires
        walk(root, spec_pool(nodes), fuel) matches Some(w) && w.no_duplicates(),
    ensures
        spec_build_tree(root, nodes) matches Ok(t) && tree_labels(t) == walk(root, spec_pool(nodes), fuel)->0
            && tree_labels(t).no_duplicates(),
{
    let doc = spec_pool(nodes);
    let w = walk(root, doc, fuel)->0;
    lemma_pool_distinct(nodes);
    lemma_find_label_result(doc, root);
    let j = find_label(doc, root)->0;
    let c = walk_list(doc[j].children, doc, (fuel - 1) as nat)->0;
    assert(w == seq![root] + c);
    lemma_no_dup_split(seq![root], c);
    lemma_walk_declared(root, doc, fuel);
    let q = doc.remove(j);
    lemma_remove_labels(doc, j);
    assert(sub_pool(q, doc)) by {
        assert forall|i: int| 0 <= i < q.len() implies (find_label(doc, (#[trigger] q[i]).label) matches Some(kk)
            && 0 <= kk < doc.len() && doc[kk] == q[i]) by {
            let ii = if i < j { i } else { i + 1 };
            assert(q[i] == doc[ii]);
            assert(pool_labels(doc)[ii] == doc[ii].label);
            lemma_find_label_result(doc, doc[ii].label);
            let kk = find_label(doc, doc[ii].label)->0;
            assert(pool_labels(doc)[kk] == pool_labels(doc)[ii]);
        }
    }
    assert forall|i: int| 0 <= i < c.len() implies pool_labels(q).contains(#[trigger] c[i]) by {
        assert(w[i + 1] == c[i]);
        lemma_remove_contains(doc, j, c[i]);
        assert(c[i] != root) by {
            assert(!c.contains(seq![root][0]));
        }
    }
    lemma_build_follows_walk(doc[j], q, doc, (fuel - 1) as nat, c);
}

/// A document whose labels are distinct is its own pool.
proof fn lemma_pool_of_distinct(nodes: Seq<NodeView>)
    requires
        pool_labels(nodes).no_duplicates(),
    ensures
        spec_pool(nodes) == nodes,
    decreases nodes.len(),
{
    if nodes.len() > 0 {
        let p = nodes.drop_last();
        assert(pool_labels(p) =~= pool_labels(nodes).drop_last());
        lemma_pool_of_distinct(p);
        lemma_find_label_result(p, nodes.last().label);
        if let Some(j) = find_label(p, nodes.last().label) {
            assert(pool_labels(nodes)[j] == pool_labels(nodes)[nodes.len() - 1]);
        }
        assert(p.push(nodes.last()) =~= nodes);
    }
}

/// For a document whose labels are distinct and whose every label the walk
/// from the root reaches exactly once, compilation succeeds with one tree
/// node per declared node: the tree's labels are the declared labels, and
/// their number is `nodes.len()`.
pub proof fn lemma_compile_every_label(root: Seq<char>, nodes: Seq<NodeView>, fuel: nat)
    requires
        pool_labels(nodes).no_duplicates(),
        walk(root, spec_pool(nodes), fuel) matches Some(w) && w.no_duplicates(),
        forall|i: int|
            0 <= i < nodes.len() ==> walk(root, spec_pool(nodes), fuel)->0.contains(
                (#[trigger] nodes[i]).label,
            ),
    ensures
        spec_build_tree(root, nodes) matches Ok(t) && tree_labels(t).len() == nodes.len()
            && tree_labels(t).no_duplicates(),
        spec_build_tree(root, nodes) matches Ok(t) ==> forall|l: Seq<char>|
            tree_labels(t).contains(l) <==> #[trigger] pool_labels(nodes).contains(l),
{
    lemma_pool_of_distinct(nodes);
    lemma_compile_reachable(root, nodes, fuel);
    lemma_compiled_tree_shape(root, nodes);
    let w = walk(root, nodes, fuel)->0;
    let t = spec_build_tree(root, nodes)->Ok_0;
    let unused = unused_nodes(root, nodes);
    if unused.len() > 0 {
        assert(pool_labels(unused)[0] == unused[0].label);
        assert(pool_labels(unused).contains(unused[0].label));
        let l = unused[0].label;
        assert(pool_labels(nodes).contains(l));
        let i = choose|i: int| 0 <= i < pool_labels(nodes).len() && pool_labels(nodes)[i] == l;
        assert(w.contains(nodes[i].label));
    }
    assert forall|l: Seq<char>| tree_labels(t).contains(l) <==> #[trigger] pool_labels(nodes).contains(l) by {
        if pool_labels(nodes).contains(l) {
            let i = choose|i: int| 0 <= i < pool_labels(nodes).len() && pool_labels(nodes)[i] == l;
            assert(w.contains(nodes[i].label));
        }
        if tree_labels(t).contains(l) {
            let i = choose|i: int| 0 <= i < tree_labels(t).len() && tree_labels(t)[i] == l;
        }
    }
}

proof fn lemma_sub_pool_remove(p: Seq<NodeView>, j: int, doc: Seq<NodeView>)
    requires
        sub_pool(p, doc),
        0 <= j < p.len(),
    ensures
        sub_pool(p.remove(j), doc),
{
    let q = p.remove(j);
    assert forall|i: int| 0 <= i < q.len() implies (find_label(doc, (#[trigger] q[i]).label) matches Some(kk)
        && 0 <= kk < doc.len() && doc[kk] == q[i]) by {
        if i < j {
            assert(q[i] == p[i]);
        } else {
            assert(q[i] == p[i + 1]);
        }
    }
}

proof fn lemma_sub_pool_self(pool: Seq<NodeView>)
    requires
        pool_labels(pool).no_duplicates(),
    ensures
        sub_pool(pool, pool),
{
    assert forall|i: int| 0 <= i < pool.len() implies (find_label(pool, (#[trigger] pool[i]).label) matches Some(kk)
        && 0 <= kk < pool.len() && pool[kk] == pool[i]) by {
        lemma_find_label_result(pool, pool[i].label);
        let kk = find_label(pool, pool[i].label)->0;
        assert(pool_labels(pool)[kk] == pool_labels(pool)[i]);
    }
}

proof fn lemma_walk_fuel(l: Seq<char>, doc: Seq<NodeView>, f: nat, g: nat)
    requires
        f <= g,
        walk(l, doc, f) is Some,
    ensures
        walk(l, doc, g) == walk(l, doc, f),
    decreases f, 0nat, 0nat,
{
    let k = find_label(doc, l)->0;
    lemma_walk_list_fuel(doc[k].children, doc, (f - 1) as nat, (g - 1) as nat);
}

proof fn lemma_walk_list_fuel(ls: Seq<Seq<char>>, doc: Seq<NodeView>, f: nat, g: nat)
    requires
        f <= g,
        walk_list(ls, doc, f) is Some,
    ensures
        walk_list(ls, doc, g) == walk_list(ls, doc, f),
    decreases f, 1nat, ls.len(),
{
    if ls.len() > 0 {
        lemma_walk_list_fuel(ls.drop_last(), doc, f, g);
        lemma_walk_fuel(ls.last(), doc, f, g);
    }
}

/// A successful compilation of `node` against a pool of declared nodes
/// follows the walk of its children; what is left is still declared.
proof fn lemma_walk_follows_build(node: NodeView, q: Seq<NodeView>, doc: Seq<NodeView>, f: nat)
    requires
        sub_pool(q, doc),
        pool_labels(q).no_duplicates(),
        q.len() <= f,
    ensures
        ({
            let (r, rest) = spec_build_node(node, q);
            &&& sub_pool(rest, doc)
            &&& r matches Ok(t) ==> walk_list(node.children, doc, f) == Some(forest_labels(t.children))
        }),
    decreases q.len(), 1nat, 0nat,
{
    lemma_children_walk(node.children, q, q.len(), doc, f);
}

proof fn lemma_children_walk(labels: Seq<Seq<char>>, q: Seq<NodeView>, cap: nat, doc: Seq<NodeView>, f: nat)
    requires
        sub_pool(q, doc),
        pool_labels(q).no_duplicates(),
        q.len() <= f,
    ensures
        ({
            let (r, rest) = spec_build_children(labels, q, cap);
            &&& sub_pool(rest, doc)
            &&& r matches Ok(done) ==> walk_list(labels, doc, f) == Some(forest_labels(done))
        }),
    decreases cap, 0nat, labels.len(),
{
    if labels.len() == 0 {
        assert(forest_labels(Seq::<TreeView>::empty()) =~= Seq::<Seq<char>>::empty());
    } else {
        let pre = labels.drop_last();
        let last = labels.last();
        lemma_children_walk(pre, q, cap, doc, f);
        lemma_build_children_shape(pre, q, cap);
        let (r, mid) = spec_build_children(pre, q, cap);
        if let Ok(done) = r {
            lemma_find_label_result(mid, last);
            if let Some(j) = find_label(mid, last) {
                if 0 <= j < mid.len() <= cap {
                    let q2 = mid.remove(j);
                    lemma_remove_labels(mid, j);
                    lemma_sub_pool_remove(mid, j, doc);
                    assert(find_label(doc, mid[j].label) matches Some(kk) && 0 <= kk < doc.len() && doc[kk]
                        == mid[j]);
                    lemma_walk_follows_build(mid[j], q2, doc, (f - 1) as nat);
                    let (c, rest) = spec_build_node(mid[j], q2);
                    if let Ok(t) = c {
                        let nd = done.push(t);
                        assert(nd.subrange(0, nd.len() - 1) =~= done);
                        assert(forest_labels(nd) == forest_labels(done) + tree_labels(t));
                        assert(walk(last, doc, f) == Some(tree_labels(t)));
                    }
                }
            }
        }
    }
}

/// A successful compilation follows the walk from the root.
pub proof fn lemma_compiled_tree_is_walk(root: Seq<char>, nodes: Seq<NodeView>)
    ensures
        spec_build_tree(root, nodes) matches Ok(t) ==> walk(root, spec_pool(nodes), spec_pool(nodes).len())
            == Some(tree_labels(t)),
{
    let pool = spec_pool(nodes);
    lemma_pool_distinct(nodes);
    lemma_sub_pool_self(pool);
    lemma_find_label_result(pool, root);
    if let Some(j) = find_label(pool, root) {
        let q = pool.remove(j);
        lemma_remove_labels(pool, j);
        lemma_sub_pool_remove(pool, j, pool);
        lemma_walk_follows_build(pool[j], q, pool, (pool.len() - 1) as nat);
    }
}

/// A document in which the walk from the root reaches some label twice,
/// as when two reached nodes both list it as a child, does not compile: the
/// second request for that label finds it already taken, and the failure is
/// a child label that is not found.
pub proof fn lemma_reused_label_fails(root: Seq<char>, nodes: Seq<NodeView>, fuel: nat)
    requires
        walk(root, spec_pool(nodes), fuel) matches Some(w) && !w.no_duplicates(),
    ensures
        spec_build_tree(root, nodes) matches Err(e) && e is ChildNotFound,
{
    let pool = spec_pool(nodes);
    lemma_find_label_result(pool, root);
    let j = find_label(pool, root)->0;
    assert(pool_labels(pool)[j] == root);
    lemma_compile_failures(root, nodes);
    lemma_compiled_tree_is_walk(root, nodes);
    lemma_compiled_tree_shape(root, nodes);
    if spec_build_tree(root, nodes) is Ok {
        let big = if fuel >= pool.len() { fuel } else { pool.len() };
        lemma_walk_fuel(root, pool, fuel, big);
        lemma_walk_fuel(root, pool, pool.len(), big);
    }
}

/// The declared nodes that compiling a document leaves unused.
pub open spec fn unused_nodes(root: Seq<char>, nodes: Seq<NodeView>) -> Seq<NodeView> {
    let pool = spec_pool(nodes);
    match find_label(pool, root) {
        Some(j) => if 0 <= j < pool.len() {
            spec_build_node(pool[j], pool.remove(j)).1
        } else {
            pool
        },
        None => pool,
    }
}

/// Compiling a document yields a tree: no label occurs twice in it (so no
/// node is reached twice and there is no cycle), each of its labels is a
/// declared label, and its node count plus the number of declared labels it
/// leaves unused is the number of distinct declared labels.
pub proof fn lemma_compiled_tree_shape(root: Seq<char>, nodes: Seq<NodeView>)
    ensures
        spec_build_tree(root, nodes) matches Ok(t) ==> {
            &&& tree_labels(t).no_duplicates()
            &&& forall|i: int|
                0 <= i < tree_labels(t).len() ==> pool_labels(spec_pool(nodes)).contains(
                #[trigger] tree_labels(t)[i])
            &&& tree_labels(t).len() + unused_nodes(root, nodes).len() == spec_pool(nodes).len()
            &&& forall|l: Seq<char>|
                #[trigger] pool_labels(unused_nodes(root, nodes)).contains(l) ==> pool_labels(
                    spec_pool(nodes),
                ).contains(l) && !tree_labels(t).contains(l)
        },
{
    let pool = spec_pool(nodes);
    lemma_pool_distinct(nodes);
    lemma_find_label_result(pool, root);
    match find_label(pool, root) {
        Some(j) => {
            let q = pool.remove(j);
            lemma_remove_labels(pool, j);
            lemma_build_node_shape(pool[j], q);
            let (r, rest) = spec_build_node(pool[j], q);
            match r {
                Ok(t) => {
                    let tl = tree_labels(t);
                    assert forall|i: int| 0 <= i < tl.len() implies pool_labels(pool).contains(
                        #[trigger] tl[i],
                    ) by {
                        if tl[i] != pool[j].label {
                            assert(pool_labels(q).contains(tl[i]));
                        }
                    }
                    assert forall|l: Seq<char>| #[trigger] pool_labels(rest).contains(l) implies pool_labels(
                        pool,
                    ).contains(l) && !tl.contains(l) by {
                        assert(pool_labels(q).contains(l));
                        if tl.contains(l) {
                            let k = choose|k: int| 0 <= k < tl.len() && tl[k] == l;
                            assert(tl[k] == pool[j].label || !pool_labels(rest).contains(tl[k]));
                        }
                    }
                    assert(tl.len() + rest.len() == pool.len());
                },
                Err(_) => {},
            }
        },
        None => {},
    }
}

proof fn lemma_find_label(pool: Seq<NodeView>, l: Seq<char>, i: int)
    requires
        0 <= i < pool.len(),
        pool[i].label == l,
        forall|k: int| 0 <= k < i ==> pool[k].label != l,
    ensures
        find_label(pool, l) == Some(i),
    decreases pool.len(),
{
    if i > 0 {
        lemma_find_label(pool.drop_first(), l, i - 1);
    }
}

proof fn lemma_find_label_none(pool: Seq<NodeView>, l: Seq<char>)
    requires
        forall|k: int| 0 <= k < pool.len() ==> pool[k].label != l,
    ensures
        find_label(pool, l) is None,
    decreases pool.len(),
{
    if pool.len() > 0 {
        lemma_find_label_none(pool.drop_first(), l);
    }
}

fn label_index(pool: &Vec<DeserializedNode>, label: &String) -> (r: Option<usize>)
    ensures
        match r {
            Some(j) => {
                &&& j < pool@.len()
                &&& find_label(node_views(pool@), label@) == Some(j as int)
            },
            None => find_label(node_views(pool@), label@) is None,
        },
{
    let ghost pv = node_views(pool@);
    let mut i: usize = 0;
    while i < pool.len()
        invariant
            pv == node_views(pool@),
            i <= pool@.len(),
            forall|k: int| 0 <= k < i ==> pv[k].label != label@,
        decreases pool@.len() - i,
    {
        if pool[i].label == *label {
            proof {
                lemma_find_label(pv, label@, i as int);
            }
            return Some(i);
        }
        i = i + 1;
    }
    proof {
        lemma_find_label_none(pv, label@);
    }
    None
}

impl TreeNode {
    /// A node with the given fields.
    fn new(
        name: String,
        label: String,
        children: Vec<TreeNode>,
        transformations: Vec<Transformation>,
        theta: Option<String>,
        output: bool,
    ) -> (r: Self)
        ensures
            r.name == name,
            r.label == label,
            r.children == children,
            r.transformations == transformations,
            r.theta == theta,
            r.output == output,
    {
        TreeNode { name, label, children, transformations, theta, output }
    }
}

proof fn lemma_children_error_persists(labels: Seq<Seq<char>>, pool: Seq<NodeView>, cap: nat, k: int)
    requires
        0 <= k <= labels.len(),
        spec_build_children(labels.subrange(0, k), pool, cap).0 is Err,
    ensures
        spec_build_children(labels, pool, cap) == spec_build_children(labels.subrange(0, k), pool, cap),
    decreases labels.len() - k,
{
    if k < labels.len() {
        assert(labels.subrange(0, k + 1).drop_last() =~= labels.subrange(0, k));
        lemma_children_error_persists(labels, pool, cap, k + 1);
    } else {
        assert(labels.subrange(0, k) =~= labels);
    }
}

fn build_node(node: DeserializedNode, pool: &mut Vec<DeserializedNode>) -> (r: Result<TreeNode, TreeError>)
    ensures
        final(pool)@.len() <= old(pool)@.len(),
        spec_build_node(node@, node_views(old(pool)@)) == (
            tree_result_view(r),
            node_views(final(pool)@),
        ),
    decreases old(pool)@.len(),
{
    let ghost pool0 = node_views(pool@);
    let ghost cap = pool@.len();
    let ghost nv = node@;
    let DeserializedNode { name, label, children, transformations, theta, output } = node;
    let ghost labels = views(children@);
    let mut kids: Vec<TreeNode> = Vec::new();
    let mut k: usize = 0;
    assert(labels.subrange(0, 0) =~= Seq::<Seq<char>>::empty());
    assert(tree_views(kids@) =~= Seq::<TreeView>::empty());
    while k < children.len()
        invariant
            labels == views(children@),
            labels == nv.children,
            nv == node@,
            pool0 == node_views(old(pool)@),
            cap == old(pool)@.len(),
            pool0.len() == cap,
            pool@.len() <= cap,
            k <= children@.len(),
            spec_build_children(labels.subrange(0, k as int), pool0, cap) == (
                Ok::<Seq<TreeView>, TreeErrorView>(tree_views(kids@)),
                node_views(pool@),
            ),
        decreases children@.len() - k,
    {
        let ghost mid_pool = node_views(pool@);
        let ghost prefix = labels.subrange(0, k + 1);
        assert(prefix.drop_last() =~= labels.subrange(0, k as int));
        assert(prefix.last() == children@[k as int]@);
        match label_index(pool, &children[k]) {
            None => {
                let e = TreeError::ChildNotFound(children[k].clone());
                assert(spec_build_children(prefix, pool0, cap).0 == Err::<
                    Seq<TreeView>,
                    TreeErrorView,
                >(e@));
                proof {
                    lemma_children_error_persists(labels, pool0, cap, k + 1);
                }
                return Err(e);
            },
            Some(j) => {
                let child = pool.remove(j);
                assert(node_views(pool@) =~= mid_pool.remove(j as int));
                let c = build_node(child, pool);
                match c {
                    Ok(t) => {
                        let ghost done = tree_views(kids@);
                        kids.push(t);
                        assert(tree_views(kids@) =~= done.push(t@));
                    },
                    Err(e) => {
                        assert(spec_build_children(prefix, pool0, cap).0 == Err::<
                            Seq<TreeView>,
                            TreeErrorView,
                        >(e@));
                        proof {
                            lemma_children_error_persists(labels, pool0, cap, k + 1);
                        }
                        return Err(e);
                    },
                }
            },
        }
        k = k + 1;
    }
    assert(labels.subrange(0, children@.len() as int) =~= labels);
    let t = TreeNode::new(name, label, kids, transformations, theta, output);
    assert(t@.children =~= tree_views(t.children@));
    Ok(t)
}

/// Compiles a parsed query document into its tree.
pub fn build_tree(query: Query) -> (r: Result<TreeNode, TreeError>)
    ensures
        tree_result_view(r) == spec_build_tree(query.root_node@, node_views(query.nodes@)),
{
    let Query { root_node, nodes } = query;
    let ghost orig = node_views(nodes@);
    let total = nodes.len();
    let mut rest = nodes;
    let mut pool: Vec<DeserializedNode> = Vec::new();
    let mut k: usize = 0;
    assert(orig.subrange(0, 0) =~= Seq::<NodeView>::empty());
    assert(node_views(pool@) =~= Seq::<NodeView>::empty());
    while rest.len() > 0
        invariant
            k + rest@.len() == orig.len(),
            orig.len() == total,
            node_views(rest@) =~= orig.subrange(k as int, orig.len() as int),
            node_views(pool@) == spec_pool(orig.subrange(0, k as int)),
        decreases rest@.len(),
    {
        let ghost before = node_views(rest@);
        let n = rest.remove(0);
        assert(node_views(rest@) =~= before.drop_first());
        assert(before[0] == n@);
        let ghost prefix = orig.subrange(0, k + 1);
        let ghost pv = node_views(pool@);
        assert(prefix.drop_last() =~= orig.subrange(0, k as int));
        assert(prefix.last() == n@);
        match label_index(&pool, &n.label) {
            Some(j) => {
                pool.set(j, n);
                assert(node_views(pool@) =~= pv.update(j as int, n@));
            },
            None => {
                pool.push(n);
                assert(node_views(pool@) =~= pv.push(n@));
            },
        }
        k = k + 1;
    }
    assert(orig.subrange(0, k as int) =~= orig);
    match label_index(&pool, &root_node) {
        None => Err(TreeError::RootNotFound(root_node)),
        Some(j) => {
            let ghost pv = node_views(pool@);
            let root = pool.remove(j);
            assert(node_views(pool@) =~= pv.remove(j as int));
            build_node(root, &mut pool)
        },
    }
}

} // verus!
