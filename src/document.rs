//! A query document as it is read, every optional field still a string.

use vstd::prelude::*;

verus! {

/// One `node` element of a query document, before its fields are parsed.
#[derive(Debug, Clone, PartialEq, Eq)]
pub struct InitNode {
    pub name: String,
    pub label: String,
    pub children: Option<String>,
    pub transformations: Option<String>,
    pub theta: Option<String>,
    pub output: Option<String>,
}

/// A query document: the root label and the declared nodes.
#[derive(Debug, Clone, PartialEq, Eq)]
pub struct Query {
    pub root_node: String,
    pub node: Vec<InitNode>,
}

/// An optional field with an empty string read as absent.
pub open spec fn cleared(o: Option<String>) -> Option<String> {
    match o {
        Some(s) => if s@.len() == 0 {
            None
        } else {
            Some(s)
        },
        None => None,
    }
}

/// A node with every empty optional field read as absent.
pub open spec fn cleared_node(n: InitNode) -> InitNode {
    InitNode {
        name: n.name,
        label: n.label,
        children: cleared(n.children),
        transformations: cleared(n.transformations),
        theta: cleared(n.theta),
        output: cleared(n.output),
    }
}

fn clear_field(o: &mut Option<String>)
    ensures
        *final(o) == cleared(*old(o)),
{
    let empty = match o {
        Some(s) => s.unicode_len() == 0,
        None => false,
    };
    if empty {
        *o = None;
    }
}

impl InitNode {
    /// Turns each present but empty optional field into an absent one.
    pub fn clear_empty_strings(&mut self)
        ensures
            *final(self) == cleared_node(*old(self)),
    {
        clear_field(&mut self.children);
        clear_field(&mut self.transformations);
        clear_field(&mut self.theta);
        clear_field(&mut self.output);
    }
}

/// The document with every node's empty optional fields read as absent.
pub fn load_query_xml(query: Query) -> (r: Query)
    ensures
        r.root_node == query.root_node,
        r.node@.len() == query.node@.len(),
        forall|i: int| 0 <= i < r.node@.len() ==> r.node@[i] == cleared_node(#[trigger] query.node@[i]),
{
    let Query { root_node, node } = query;
    let mut nodes = node;
    let ghost orig = nodes@;
    let mut i: usize = 0;
    while i < nodes.len()
        invariant
            nodes@.len() == orig.len(),
            i <= nodes@.len(),
            forall|k: int| 0 <= k < i ==> nodes@[k] == cleared_node(#[trigger] orig[k]),
            forall|k: int| i <= k < nodes@.len() ==> nodes@[k] == orig[k],
        decreases nodes@.len() - i,
    {
        let mut n = nodes.remove(i);
        n.clear_empty_strings();
        nodes.insert(i, n);
        i = i + 1;
    }
    Query { root_node, node: nodes }
}

} // verus!
