//! Depth-first evaluation of a compiled query tree: for every child, its
//! subtree first, then the values joined along the child→parent edge, run
//! through the child's and then the parent's pipeline.

use vstd::prelude::*;

use crate::datasource::{find_ds, Catalog, Datasource};
use crate::mapping::Edge;
use crate::pipeline::{
    apply_pipeline, copy_value, spec_pipeline, value_views, EvalError, EvalErrorView, Value,
    ValueView,
};
use crate::tree::{TreeNode, TreeView};

verus! {

/// A child→parent edge of the query tree, whose joins are looked up.
#[derive(Debug, Clone, PartialEq, Eq)]
pub struct JoinStep {
    pub child_name: String,
    pub child_label: String,
    pub parent_name: String,
    pub parent_label: String,
}

/// The mathematical value of a [`JoinStep`].
pub struct StepView {
    pub child_name: Seq<char>,
    pub child_label: Seq<char>,
    pub parent_name: Seq<char>,
    pub parent_label: Seq<char>,
}

impl View for JoinStep {
    type V = StepView;

    open spec fn view(&self) -> StepView {
        StepView {
            child_name: self.child_name@,
            child_label: self.child_label@,
            parent_name: self.parent_name@,
            parent_label: self.parent_label@,
        }
    }
}

/// The views of a sequence of steps.
pub open spec fn step_views(v: Seq<JoinStep>) -> Seq<StepView> {
    v.map_values(|s: JoinStep| s@)
}

/// The step along the edge from `c` up to `p`.
pub open spec fn step_of(c: TreeView, p: TreeView) -> StepView {
    StepView { child_name: c.name, child_label: c.label, parent_name: p.name, parent_label: p.label }
}

/// The steps of a tree in evaluation order: for each child in turn, the
/// steps of its subtree, then its edge to the parent.
pub open spec fn spec_steps(t: TreeView) -> Seq<StepView>
    decreases t, t.children.len() + 1,
{
    steps_from(t, 0)
}

/// The steps of the children of `t` from the `k`-th on.
pub open spec fn steps_from(t: TreeView, k: int) -> Seq<StepView>
    decreases t, t.children.len() - k,
{
    if k < 0 || k >= t.children.len() {
        Seq::empty()
    } else {
        spec_steps(t.children[k]).push(step_of(t.children[k], t)) + steps_from(t, k + 1)
    }
}

/// The labels of a tree in post-order: every child's subtree, then the node.
pub open spec fn post_order(t: TreeView) -> Seq<Seq<char>>
    decreases t, t.children.len() + 1,
{
    order_from(t, 0).push(t.label)
}

/// The post-order labels of the children of `t` from the `k`-th on.
pub open spec fn order_from(t: TreeView, k: int) -> Seq<Seq<char>>
    decreases t, t.children.len() - k,
{
    if k < 0 || k >= t.children.len() {
        Seq::empty()
    } else {
        post_order(t.children[k]) + order_from(t, k + 1)
    }
}

/// The values of one node that is flagged as output.
#[derive(Debug, Clone, PartialEq, Eq)]
pub struct OutputRow {
    pub label: String,
    pub values: Vec<Value>,
}

/// The mathematical value of an [`OutputRow`].
pub struct OutputView {
    pub label: Seq<char>,
    pub values: Seq<ValueView>,
}

impl View for OutputRow {
    type V = OutputView;

    open spec fn view(&self) -> OutputView {
        OutputView { label: self.label@, values: value_views(self.values@) }
    }
}

/// The views of a sequence of output rows.
pub open spec fn output_views(v: Seq<OutputRow>) -> Seq<OutputView> {
    v.map_values(|o: OutputRow| o@)
}

/// The view of one step's input: `None` when the store found no join edge.
pub open spec fn step_input_view(s: Option<Vec<Value>>) -> Option<Seq<ValueView>> {
    match s {
        Some(v) => Some(value_views(v@)),
        None => None,
    }
}

/// The views of the step inputs.
pub open spec fn input_views(v: Seq<Option<Vec<Value>>>) -> Seq<Option<Seq<ValueView>>> {
    v.map_values(|s: Option<Vec<Value>>| step_input_view(s))
}

/// What child `c` passes up along its edge: the joined values after its own
/// pipeline, or `None` when the store found no join edge for the step.
pub open spec fn own_values(c: TreeView, s: Option<Seq<ValueView>>) -> Result<
    Option<Seq<ValueView>>,
    EvalErrorView,
> {
    match s {
        None => Ok(None),
        Some(v) => match spec_pipeline(c.transformations, v) {
            Ok(w) => Ok(Some(w)),
            Err(e) => Err(e),
        },
    }
}

/// What a child's edge adds to the values of its parent `t`: the child's
/// values after the parent's pipeline; nothing when there is no join edge.
pub open spec fn parent_values(t: TreeView, own: Option<Seq<ValueView>>) -> Result<
    Seq<ValueView>,
    EvalErrorView,
> {
    match own {
        None => Ok(Seq::empty()),
        Some(w) => spec_pipeline(t.transformations, w),
    }
}

/// The row of a leaf `c` flagged as output: its own joined values after its
/// own pipeline (none without a join edge).
pub open spec fn leaf_row(c: TreeView, own: Option<Seq<ValueView>>) -> Seq<OutputView> {
    if c.output && c.children.len() == 0 {
        seq![
            OutputView {
                label: c.label,
                values: match own {
                    Some(w) => w,
                    None => Seq::empty(),
                },
            },
        ]
    } else {
        Seq::empty()
    }
}

/// Evaluates the subtree `t` whose first step reads `inputs[at]`: yields
/// the output rows of the subtree in post-order and the index of the next
/// unread input. The row of a leaf is produced by its parent, which reads
/// the leaf's edge.
pub open spec fn eval_node(t: TreeView, inputs: Seq<Option<Seq<ValueView>>>, at: int) -> Result<
    (Seq<OutputView>, int),
    EvalErrorView,
>
    decreases t, t.children.len() + 1,
{
    eval_from(t, 0, inputs, at, Seq::empty(), Seq::empty())
}

/// Evaluates the children of `t` from the `k`-th on, given the values `vals`
/// that `t` has gathered and the rows `outs` produced so far: each child's
/// subtree, then its edge (its own pipeline, then that of `t`), then the
/// child's row if it is an output leaf. The row of `t`, if `t` has children
/// and is flagged as output, comes last.
pub open spec fn eval_from(
    t: TreeView,
    k: int,
    inputs: Seq<Option<Seq<ValueView>>>,
    at: int,
    vals: Seq<ValueView>,
    outs: Seq<OutputView>,
) -> Result<(Seq<OutputView>, int), EvalErrorView>
    decreases t, t.children.len() - k,
{
    if k < 0 || k >= t.children.len() {
        Ok(
            (
                if t.output && t.children.len() > 0 {
                    outs.push(OutputView { label: t.label, values: vals })
                } else {
                    outs
                },
                at,
            ),
        )
    } else {
        let c = t.children[k];
        match eval_node(c, inputs, at) {
            Err(e) => Err(e),
            Ok((couts, at1)) => if 0 <= at1 < inputs.len() {
                match own_values(c, inputs[at1]) {
                    Err(e) => Err(e),
                    Ok(own) => match parent_values(t, own) {
                        Err(e) => Err(e),
                        Ok(x) => eval_from(
                            t,
                            k + 1,
                            inputs,
                            at1 + 1,
                            vals + x,
                            outs + couts + leaf_row(c, own),
                        ),
                    },
                }
            } else {
                Err(EvalErrorView::MissingInput)
            },
        }
    }
}

/// The rows of a whole evaluation: a root without children has no edge, so
/// its row, if it is an output, holds no values.
pub open spec fn spec_evaluate(t: TreeView, inputs: Seq<Option<Seq<ValueView>>>) -> Result<
    Seq<OutputView>,
    EvalErrorView,
> {
    match eval_node(t, inputs, 0) {
        Ok((outs, _)) => Ok(
            if t.output && t.children.len() == 0 {
                outs.push(OutputView { label: t.label, values: Seq::empty() })
            } else {
                outs
            },
        ),
        Err(e) => Err(e),
    }
}

/// A step for which the store found no join edge adds nothing to the
/// parent's values and is no error: evaluation goes on with the gathered
/// values unchanged.
pub proof fn lemma_no_edge_adds_nothing(
    t: TreeView,
    k: int,
    inputs: Seq<Option<Seq<ValueView>>>,
    at: int,
    vals: Seq<ValueView>,
    outs: Seq<OutputView>,
)
    requires
        0 <= k < t.children.len(),
        eval_node(t.children[k], inputs, at) is Ok,
        0 <= eval_node(t.children[k], inputs, at)->Ok_0.1 < inputs.len(),
        inputs[eval_node(t.children[k], inputs, at)->Ok_0.1] is None,
    ensures
        ({
            let (couts, at1) = eval_node(t.children[k], inputs, at)->Ok_0;
            eval_from(t, k, inputs, at, vals, outs) == eval_from(
                t,
                k + 1,
                inputs,
                at1 + 1,
                vals,
                outs + couts + leaf_row(t.children[k], None),
            )
        }),
{
    assert(vals + Seq::<ValueView>::empty() =~= vals);
}

/// The labels of a sequence of rows.
pub open spec fn row_labels(rows: Seq<OutputView>) -> Seq<Seq<char>> {
    rows.map_values(|r: OutputView| r.label)
}

/// The label of `t` if it is flagged as output.
pub open spec fn own_label(t: TreeView) -> Seq<Seq<char>> {
    if t.output {
        seq![t.label]
    } else {
        Seq::empty()
    }
}

/// The labels of the output nodes of a tree in post-order.
pub open spec fn output_order(t: TreeView) -> Seq<Seq<char>>
    decreases t, t.children.len() + 1,
{
    outputs_from(t, 0) + own_label(t)
}

/// The post-order output labels of the children of `t` from the `k`-th on.
pub open spec fn outputs_from(t: TreeView, k: int) -> Seq<Seq<char>>
    decreases t, t.children.len() - k,
{
    if k < 0 || k >= t.children.len() {
        Seq::empty()
    } else {
        output_order(t.children[k]) + outputs_from(t, k + 1)
    }
}

proof fn lemma_eval_node_labels(t: TreeView, inputs: Seq<Option<Seq<ValueView>>>, at: int)
    ensures
        eval_node(t, inputs, at) matches Ok((outs, _)) ==> row_labels(outs) == if t.children.len() == 0 {
            Seq::<Seq<char>>::empty()
        } else {
            output_order(t)
        },
    decreases t, t.children.len() + 1,
{
    lemma_eval_from_labels(t, 0, inputs, at, Seq::empty(), Seq::empty());
    assert(row_labels(Seq::<OutputView>::empty()) =~= Seq::<Seq<char>>::empty());
    if t.children.len() == 0 {
        assert(outputs_from(t, 0) =~= Seq::<Seq<char>>::empty());
    }
}

proof fn lemma_eval_from_labels(
    t: TreeView,
    k: int,
    inputs: Seq<Option<Seq<ValueView>>>,
    at: int,
    vals: Seq<ValueView>,
    outs0: Seq<OutputView>,
)
    requires
        0 <= k,
    ensures
        eval_from(t, k, inputs, at, vals, outs0) matches Ok((outs, _)) ==> row_labels(outs) == row_labels(
            outs0,
        ) + outputs_from(t, k) + if t.children.len() > 0 {
            own_label(t)
        } else {
            Seq::<Seq<char>>::empty()
        },
    decreases t, t.children.len() - k,
{
    if k >= t.children.len() {
        if t.output && t.children.len() > 0 {
            assert(row_labels(outs0.push(OutputView { label: t.label, values: vals })) =~= row_labels(outs0)
                + own_label(t));
        }
        assert(row_labels(outs0) + Seq::<Seq<char>>::empty() + Seq::<Seq<char>>::empty() =~= row_labels(outs0));
        assert(row_labels(outs0) + Seq::<Seq<char>>::empty() + own_label(t) =~= row_labels(outs0) + own_label(t));
    } else {
        let c = t.children[k];
        lemma_eval_node_labels(c, inputs, at);
        if let Ok((couts, at1)) = eval_node(c, inputs, at) {
            if 0 <= at1 < inputs.len() {
                if let Ok(own) = own_values(c, inputs[at1]) {
                    if let Ok(x) = parent_values(t, own) {
                        let o2 = outs0 + couts + leaf_row(c, own);
                        lemma_eval_from_labels(t, k + 1, inputs, at1 + 1, vals + x, o2);
                        if c.children.len() == 0 {
                            assert(outputs_from(c, 0) =~= Seq::<Seq<char>>::empty());
                        }
                        assert(row_labels(leaf_row(c, own)) =~= if c.children.len() == 0 {
                            own_label(c)
                        } else {
                            Seq::<Seq<char>>::empty()
                        });
                        assert(row_labels(o2) =~= row_labels(outs0) + row_labels(couts) + row_labels(
                            leaf_row(c, own),
                        ));
                        assert(row_labels(couts) + row_labels(leaf_row(c, own)) =~= output_order(c));
                        let tail = if t.children.len() > 0 {
                            own_label(t)
                        } else {
                            Seq::<Seq<char>>::empty()
                        };
                        assert(row_labels(o2) + outputs_from(t, k + 1) + tail =~= row_labels(outs0)
                            + outputs_from(t, k) + tail);
                    }
                }
            }
        }
    }
}

/// Rows come in post-order, one per node flagged as output: their labels
/// are the output nodes' labels in post-order (each subtree's rows before
/// its parent's, siblings left to right).
pub proof fn lemma_rows_in_post_order(t: TreeView, inputs: Seq<Option<Seq<ValueView>>>)
    ensures
        spec_evaluate(t, inputs) matches Ok(rows) ==> row_labels(rows) == output_order(t),
{
    lemma_eval_node_labels(t, inputs, 0);
    if let Ok((outs, _)) = eval_node(t, inputs, 0) {
        if t.children.len() == 0 {
            assert(outputs_from(t, 0) =~= Seq::<Seq<char>>::empty());
            if t.output {
                assert(row_labels(outs.push(OutputView { label: t.label, values: Seq::empty() })) =~= row_labels(
                    outs,
                ).push(t.label));
            }
            assert(row_labels(outs) + own_label(t) =~= output_order(t));
        }
    }
}

/// An evaluation outcome with its next-input index moved by `d`.
pub open spec fn shifted(r: Result<(Seq<OutputView>, int), EvalErrorView>, d: int) -> Result<
    (Seq<OutputView>, int),
    EvalErrorView,
> {
    match r {
        Ok((o, next)) => Ok((o, next + d)),
        Err(e) => Err(e),
    }
}

/// Whether `a` from `i` and `b` from `j` hold the same `n` inputs.
pub open spec fn same_inputs(a: Seq<Option<Seq<ValueView>>>, i: int, b: Seq<Option<Seq<ValueView>>>, j: int, n: int) -> bool {
    &&& 0 <= i
    &&& 0 <= j
    &&& 0 <= n
    &&& i + n <= a.len()
    &&& j + n <= b.len()
    &&& forall|k: int| i <= k < i + n ==> #[trigger] a[k] == b[k + (j - i)]
}

proof fn lemma_steps_from_len(t: TreeView, k: int)
    requires
        0 <= k < t.children.len(),
    ensures
        steps_from(t, k).len() == spec_steps(t.children[k]).len() + 1 + steps_from(t, k + 1).len(),
{
}

/// A subtree that evaluates reads exactly one input per step.
pub proof fn lemma_eval_consumes(t: TreeView, inputs: Seq<Option<Seq<ValueView>>>, at: int)
    ensures
        eval_node(t, inputs, at) matches Ok((_, next)) ==> next == at + spec_steps(t).len(),
    decreases t, t.children.len() + 1,
{
    lemma_eval_from_consumes(t, 0, inputs, at, Seq::empty(), Seq::empty());
}

proof fn lemma_eval_from_consumes(
    t: TreeView,
    k: int,
    inputs: Seq<Option<Seq<ValueView>>>,
    at: int,
    vals: Seq<ValueView>,
    outs: Seq<OutputView>,
)
    requires
        0 <= k,
    ensures
        eval_from(t, k, inputs, at, vals, outs) matches Ok((_, next)) ==> next == at + steps_from(
            t,
            k,
        ).len(),
    decreases t, t.children.len() - k,
{
    if k < t.children.len() {
        let c = t.children[k];
        lemma_steps_from_len(t, k);
        lemma_eval_consumes(c, inputs, at);
        match eval_node(c, inputs, at) {
            Ok((couts, at1)) => {
                if 0 <= at1 < inputs.len() {
                    match own_values(c, inputs[at1]) {
                        Ok(own) => match parent_values(t, own) {
                            Ok(x) => {
                                lemma_eval_from_consumes(
                                    t,
                                    k + 1,
                                    inputs,
                                    at1 + 1,
                                    vals + x,
                                    outs + couts + leaf_row(c, own),
                                );
                            },
                            Err(_) => {},
                        },
                        Err(_) => {},
                    }
                }
            },
            Err(_) => {},
        }
    }
}

/// Evaluating a subtree depends only on the inputs of its own steps: on two
/// input sequences that hold the same inputs for those steps, it yields the
/// same rows or the same error. Sibling subtrees therefore evaluate
/// independently of one another, in either order or at once, and the
/// evaluation of a node concatenates their rows in child order.
pub proof fn lemma_subtree_independent(
    t: TreeView,
    in1: Seq<Option<Seq<ValueView>>>,
    at1: int,
    in2: Seq<Option<Seq<ValueView>>>,
    at2: int,
)
    requires
        same_inputs(in1, at1, in2, at2, spec_steps(t).len() as int),
    ensures
        shifted(eval_node(t, in1, at1), at2 - at1) == eval_node(t, in2, at2),
    decreases t, t.children.len() + 1,
{
    lemma_eval_from_independent(t, 0, in1, at1, in2, at2, Seq::empty(), Seq::empty());
}

proof fn lemma_eval_from_independent(
    t: TreeView,
    k: int,
    in1: Seq<Option<Seq<ValueView>>>,
    at1: int,
    in2: Seq<Option<Seq<ValueView>>>,
    at2: int,
    vals: Seq<ValueView>,
    outs: Seq<OutputView>,
)
    requires
        0 <= k,
        same_inputs(in1, at1, in2, at2, steps_from(t, k).len() as int),
    ensures
        shifted(eval_from(t, k, in1, at1, vals, outs), at2 - at1) == eval_from(
            t,
            k,
            in2,
            at2,
            vals,
            outs,
        ),
    decreases t, t.children.len() - k,
{
    if k < t.children.len() {
        let c = t.children[k];
        let nc = spec_steps(c).len() as int;
        lemma_steps_from_len(t, k);
        assert(same_inputs(in1, at1, in2, at2, nc)) by {
            assert forall|q: int| at1 <= q < at1 + nc implies #[trigger] in1[q] == in2[q + (at2
                - at1)] by {
                assert(at1 <= q < at1 + steps_from(t, k).len());
            }
        }
        lemma_subtree_independent(c, in1, at1, in2, at2);
        lemma_eval_consumes(c, in1, at1);
        lemma_eval_consumes(c, in2, at2);
        match eval_node(c, in1, at1) {
            Ok((couts, a1)) => {
                let a2 = a1 + (at2 - at1);
                assert(in1[at1 + nc] == in2[at1 + nc + (at2 - at1)]) by {
                    assert(at1 <= at1 + nc < at1 + steps_from(t, k).len());
                }
                match own_values(c, in1[a1]) {
                    Ok(own) => match parent_values(t, own) {
                        Ok(x) => {
                            let rest = steps_from(t, k + 1).len() as int;
                            assert(same_inputs(in1, a1 + 1, in2, a2 + 1, rest)) by {
                                assert forall|q: int|
                                    a1 + 1 <= q < a1 + 1 + rest implies #[trigger] in1[q] == in2[q
                                    + (at2 - at1)] by {
                                    assert(at1 <= q < at1 + steps_from(t, k).len());
                                }
                            }
                            lemma_eval_from_independent(
                                t,
                                k + 1,
                                in1,
                                a1 + 1,
                                in2,
                                a2 + 1,
                                vals + x,
                                outs + couts + leaf_row(c, own),
                            );
                        },
                        Err(_) => {},
                    },
                    Err(_) => {},
                }
            },
            Err(_) => {},
        }
    }
}

fn copy_string(s: &String) -> (r: String)
    ensures
        r@ == s@,
{
    s.clone()
}

fn collect_steps(t: &TreeNode, out: &mut Vec<JoinStep>)
    ensures
        step_views(final(out)@) == step_views(old(out)@) + spec_steps(t@),
    decreases t,
{
    let ghost tv = t@;
    let ghost start = step_views(out@);
    let mut k: usize = 0;
    assert(steps_from(tv, 0) == spec_steps(tv));
    while k < t.children.len()
        invariant
            tv == t@,
            k <= t.children@.len(),
            tv.children.len() == t.children@.len(),
            step_views(out@) + steps_from(tv, k as int) == start + spec_steps(tv),
        decreases t.children@.len() - k,
    {
        let c = &t.children[k];
        assert(tv.children[k as int] == c@);
        let ghost before = step_views(out@);
        collect_steps(c, out);
        let s = JoinStep {
            child_name: copy_string(&c.name),
            child_label: copy_string(&c.label),
            parent_name: copy_string(&t.name),
            parent_label: copy_string(&t.label),
        };
        let ghost mid = step_views(out@);
        out.push(s);
        assert(step_views(out@) =~= mid.push(s@));
        assert(s@ == step_of(c@, tv));
        assert(step_views(out@) + steps_from(tv, k + 1) =~= before + steps_from(tv, k as int));
        k = k + 1;
    }
    assert(steps_from(tv, k as int) =~= Seq::<StepView>::empty());
    assert(step_views(out@) =~= step_views(out@) + steps_from(tv, k as int));
}

/// The join steps of a tree, in the order evaluation needs their inputs.
pub fn join_steps(tree: &TreeNode) -> (r: Vec<JoinStep>)
    ensures
        step_views(r@) == spec_steps(tree@),
{
    let mut out: Vec<JoinStep> = Vec::new();
    assert(step_views(out@) =~= Seq::<StepView>::empty());
    collect_steps(tree, &mut out);
    assert(step_views(out@) =~= Seq::<StepView>::empty() + spec_steps(tree@));
    out
}

fn collect_order(t: &TreeNode, out: &mut Vec<String>)
    ensures
        final(out)@.map_values(|s: String| s@) == old(out)@.map_values(|s: String| s@) + post_order(t@),
    decreases t,
{
    let ghost tv = t@;
    let ghost start = out@.map_values(|s: String| s@);
    let mut k: usize = 0;
    while k < t.children.len()
        invariant
            tv == t@,
            k <= t.children@.len(),
            tv.children.len() == t.children@.len(),
            out@.map_values(|s: String| s@) + order_from(tv, k as int) == start + order_from(tv, 0),
        decreases t.children@.len() - k,
    {
        let c = &t.children[k];
        assert(tv.children[k as int] == c@);
        let ghost before = out@.map_values(|s: String| s@);
        collect_order(c, out);
        assert(out@.map_values(|s: String| s@) + order_from(tv, k + 1) =~= before + order_from(
            tv,
            k as int,
        ));
        k = k + 1;
    }
    let ghost mid = out@.map_values(|s: String| s@);
    let l = copy_string(&t.label);
    out.push(l);
    assert(order_from(tv, k as int) =~= Seq::<Seq<char>>::empty());
    assert(out@.map_values(|s: String| s@) =~= mid.push(l@));
    assert(mid =~= start + order_from(tv, 0));
    assert(out@.map_values(|s: String| s@) =~= start + post_order(tv));
}

/// The labels of a tree in the order its nodes are evaluated (post-order).
pub fn visit_order(tree: &TreeNode) -> (r: Vec<String>)
    ensures
        r@.map_values(|s: String| s@) == post_order(tree@),
{
    let mut out: Vec<String> = Vec::new();
    assert(out@.map_values(|s: String| s@) =~= Seq::<Seq<char>>::empty());
    collect_order(tree, &mut out);
    assert(out@.map_values(|s: String| s@) =~= Seq::<Seq<char>>::empty() + post_order(tree@));
    out
}

/// The datasource a join edge reads, looked up by name in the catalog.
pub fn resolve_edge<'a>(catalog: &'a Catalog, edge: &Edge) -> (r: Result<&'a Datasource, EvalError>)
    ensures
        match find_ds(catalog.entries@, edge.datasource_name@) {
            Some(j) => r == Ok::<&Datasource, EvalError>(&catalog.entries@[j]),
            None => r matches Err(EvalError::UnknownDatasource(s)) && s@ == edge.datasource_name@,
        },
{
    match catalog.get(&edge.datasource_name) {
        Some(d) => Ok(d),
        None => Err(EvalError::UnknownDatasource(copy_string(&edge.datasource_name))),
    }
}

fn copy_values(v: &Vec<Value>) -> (r: Vec<Value>)
    ensures
        value_views(r@) == value_views(v@),
{
    let mut out: Vec<Value> = Vec::new();
    let mut i: usize = 0;
    while i < v.len()
        invariant
            i <= v@.len(),
            value_views(out@) =~= value_views(v@).subrange(0, i as int),
        decreases v@.len() - i,
    {
        let x = copy_value(&v[i]);
        let ghost before = value_views(out@);
        out.push(x);
        assert(value_views(out@) =~= before.push(x@));
        assert(value_views(v@).subrange(0, i + 1) =~= value_views(v@).subrange(0, i as int).push(
            v@[i as int]@,
        ));
        i = i + 1;
    }
    assert(value_views(v@).subrange(0, i as int) =~= value_views(v@));
    out
}

fn eval_tree(t: &TreeNode, inputs: &Vec<Option<Vec<Value>>>, at: usize) -> (r: Result<(Vec<OutputRow>, usize), EvalError>)
    ensures
        match r {
            Ok((outs, next)) => eval_node(t@, input_views(inputs@), at as int) == Ok::<
                (Seq<OutputView>, int),
                EvalErrorView,
            >((output_views(outs@), next as int)),
            Err(e) => eval_node(t@, input_views(inputs@), at as int) == Err::<
                (Seq<OutputView>, int),
                EvalErrorView,
            >(e@),
        },
    decreases t,
{
    let ghost tv = t@;
    let ghost iv = input_views(inputs@);
    let mut vals: Vec<Value> = Vec::new();
    let mut outs: Vec<OutputRow> = Vec::new();
    let mut pos = at;
    let mut k: usize = 0;
    assert(value_views(vals@) =~= Seq::<ValueView>::empty());
    assert(output_views(outs@) =~= Seq::<OutputView>::empty());
    while k < t.children.len()
        invariant
            tv == t@,
            iv == input_views(inputs@),
            k <= t.children@.len(),
            tv.children.len() == t.children@.len(),
            eval_node(tv, iv, at as int) == eval_from(
                tv,
                k as int,
                iv,
                pos as int,
                value_views(vals@),
                output_views(outs@),
            ),
        decreases t.children@.len() - k,
    {
        let c = &t.children[k];
        assert(tv.children[k as int] == c@);
        match eval_tree(c, inputs, pos) {
            Err(e) => {
                return Err(e);
            },
            Ok((mut couts, next)) => {
                if next >= inputs.len() {
                    return Err(EvalError::MissingInput);
                }
                assert(iv[next as int] == step_input_view(inputs@[next as int]));
                let own: Option<Vec<Value>> = match &inputs[next] {
                    None => None,
                    Some(stream) => match apply_pipeline(&c.transformations, copy_values(stream)) {
                        Ok(w) => Some(w),
                        Err(e) => return Err(e),
                    },
                };
                let ghost ownv = step_input_view(own);
                assert(own_values(c@, iv[next as int]) == Ok::<
                    Option<Seq<ValueView>>,
                    EvalErrorView,
                >(ownv));
                let mut x = match &own {
                    None => {
                        let e: Vec<Value> = Vec::new();
                        assert(value_views(e@) =~= Seq::<ValueView>::empty());
                        e
                    },
                    Some(w) => match apply_pipeline(&t.transformations, copy_values(w)) {
                        Ok(x) => x,
                        Err(e) => return Err(e),
                    },
                };
                let ghost vb = value_views(vals@);
                let ghost ob = output_views(outs@);
                let ghost xv = value_views(x@);
                let ghost cv = output_views(couts@);
                vals.append(&mut x);
                outs.append(&mut couts);
                assert(value_views(vals@) =~= vb + xv);
                assert(output_views(outs@) =~= ob + cv);
                if c.output && c.children.len() == 0 {
                    let values = match own {
                        Some(w) => w,
                        None => {
                            let e: Vec<Value> = Vec::new();
                            assert(value_views(e@) =~= Seq::<ValueView>::empty());
                            e
                        },
                    };
                    let row = OutputRow { label: copy_string(&c.label), values };
                    let ghost ob2 = output_views(outs@);
                    outs.push(row);
                    assert(output_views(outs@) =~= ob2.push(row@));
                    assert(leaf_row(c@, ownv) =~= seq![row@]);
                    assert(output_views(outs@) =~= ob + cv + leaf_row(c@, ownv));
                } else {
                    assert(leaf_row(c@, ownv) =~= Seq::<OutputView>::empty());
                    assert(output_views(outs@) =~= ob + cv + leaf_row(c@, ownv));
                }
                pos = next + 1;
            },
        }
        k = k + 1;
    }
    if t.output && t.children.len() > 0 {
        let ghost ob = output_views(outs@);
        let row = OutputRow { label: copy_string(&t.label), values: vals };
        outs.push(row);
        assert(output_views(outs@) =~= ob.push(row@));
    }
    Ok((outs, pos))
}

/// Evaluates a compiled tree. `inputs[i]` holds the values joined along the
/// `i`-th step of `join_steps(tree)`, every edge of that step in store
/// order, or `None` when the store found no join edge for it. Yields the
/// rows of the output nodes in post-order.
pub fn evaluate(tree: &TreeNode, inputs: &Vec<Option<Vec<Value>>>) -> (r: Result<Vec<OutputRow>, EvalError>)
    ensures
        match spec_evaluate(tree@, input_views(inputs@)) {
            Ok(outs) => r matches Ok(v) && output_views(v@) == outs,
            Err(e) => r matches Err(f) && f@ == e,
        },
{
    match eval_tree(tree, inputs, 0) {
        Ok((mut outs, _)) => {
            if tree.output && tree.children.len() == 0 {
                let ghost ob = output_views(outs@);
                let e: Vec<Value> = Vec::new();
                let row = OutputRow { label: copy_string(&tree.label), values: e };
                outs.push(row);
                assert(value_views(e@) =~= Seq::<ValueView>::empty());
                assert(output_views(outs@) =~= ob.push(row@));
            }
            Ok(outs)
        },
        Err(e) => Err(e),
    }
}

/// The input of one step: `None` when the store found no join edge,
/// otherwise the value column of every edge's pairs, edges in store order.
pub fn step_values(streams: &Vec<Vec<(String, String)>>) -> (r: Option<Vec<Value>>)
    ensures
        streams@.len() == 0 ==> r is None,
        streams@.len() > 0 ==> (r matches Some(v) && value_views(v@) == streams@.map_values(
            |s: Vec<(String, String)>| s@.map_values(|p: (String, String)| ValueView::Text(p.1@)),
        ).flatten()),
{
    if streams.len() == 0 {
        return None;
    }
    let ghost sv = streams@.map_values(
        |s: Vec<(String, String)>| s@.map_values(|p: (String, String)| ValueView::Text(p.1@)),
    );
    let mut out: Vec<Value> = Vec::new();
    let mut i: usize = 0;
    assert(sv.subrange(0, 0) =~= Seq::<Seq<ValueView>>::empty());
    assert(value_views(out@) =~= Seq::<ValueView>::empty());
    while i < streams.len()
        invariant
            i <= streams@.len(),
            sv.len() == streams@.len(),
            sv == streams@.map_values(
                |s: Vec<(String, String)>| s@.map_values(|p: (String, String)| ValueView::Text(p.1@)),
            ),
            value_views(out@) == sv.subrange(0, i as int).flatten(),
        decreases streams@.len() - i,
    {
        let s = &streams[i];
        let ghost base = value_views(out@);
        let mut j: usize = 0;
        while j < s.len()
            invariant
                j <= s@.len(),
                i < streams@.len(),
                sv.len() == streams@.len(),
                s == streams@[i as int],
                value_views(out@) =~= base + sv[i as int].subrange(0, j as int),
                sv[i as int] == s@.map_values(|p: (String, String)| ValueView::Text(p.1@)),
            decreases s@.len() - j,
        {
            let ghost before = value_views(out@);
            let x = Value::Text(copy_string(&s[j].1));
            out.push(x);
            assert(value_views(out@) =~= before.push(x@));
            assert(sv[i as int].subrange(0, j + 1) =~= sv[i as int].subrange(0, j as int).push(x@));
            j = j + 1;
        }
        assert(sv[i as int].subrange(0, j as int) =~= sv[i as int]);
        proof {
            sv.subrange(0, i as int).lemma_flatten_push(sv[i as int]);
            assert(sv.subrange(0, i + 1) =~= sv.subrange(0, i as int).push(sv[i as int]));
        }
        i = i + 1;
    }
    assert(sv.subrange(0, i as int) =~= sv);
    Some(out)
}

} // verus!
