//! The LAAST node type and its mathematical model.
use vstd::prelude::*;

verus! {

broadcast use vstd::seq::group_seq_axioms;

/// Mathematical model of an ordered, labelled tree.
pub struct OrderedTree {
    pub label: Seq<char>,
    pub children: Seq<OrderedTree>,
}

/// The forest `f` without its first tree.
pub open spec fn rest(f: Seq<OrderedTree>) -> Seq<OrderedTree> {
    f.subrange(1, f.len() as int)
}

/// Number of nodes in a forest.
pub open spec fn forest_size(f: Seq<OrderedTree>) -> nat
    decreases f,
{
    if f.len() == 0 {
        0
    } else {
        1 + forest_size(f[0].children) + forest_size(rest(f))
    }
}

/// Number of nodes in a tree.
pub open spec fn tree_size(t: OrderedTree) -> nat {
    1 + forest_size(t.children)
}

} // verus!

verus! {

/// Sizes add up over concatenated forests.
pub proof fn lemma_forest_size_concat(a: Seq<OrderedTree>, b: Seq<OrderedTree>)
    ensures
        forest_size(a + b) == forest_size(a) + forest_size(b),
    decreases a.len(),
{
    if a.len() == 0 {
        assert(a + b =~= b);
    } else {
        assert((a + b)[0] == a[0]);
        assert(rest(a + b) =~= rest(a) + b);
        lemma_forest_size_concat(rest(a), b);
    }
}

/// Removing the first root of a forest leaves its children in front of the
/// remaining trees, one node fewer.
pub proof fn lemma_forest_size_expand(f: Seq<OrderedTree>)
    requires
        f.len() > 0,
    ensures
        forest_size(f[0].children + rest(f)) + 1 == forest_size(f),
{
    lemma_forest_size_concat(f[0].children, rest(f));
}

/// One node of a language-agnostic syntax tree.
pub struct Node {
    /// Canonical kind of the node.
    pub ty: String,
    /// Children in source order.
    pub children: Vec<Node>,
}

/// Model of a sequence of nodes.
pub open spec fn forest_of(s: Seq<Node>) -> Seq<OrderedTree>
    decreases s,
{
    if s.len() == 0 {
        Seq::empty()
    } else {
        seq![s[0]@] + forest_of(s.subrange(1, s.len() as int))
    }
}

impl View for Node {
    type V = OrderedTree;

    open spec fn view(&self) -> OrderedTree
        decreases self,
    {
        OrderedTree { label: self.ty@, children: forest_of(self.children@) }
    }
}

} // verus!
