//! Ordered tree edit distance with unit costs.
use vstd::prelude::*;
use crate::flat::{MAX_NODES, flatten, encoded_distance, lemma_forest_size_single, lemma_encodes_nested, lemma_flat_distance_matches};
use crate::tree::{Node, OrderedTree, rest, forest_size, tree_size, lemma_forest_size_concat, lemma_forest_size_expand};

verus! {

broadcast use vstd::seq::group_seq_axioms;

/// Cost of turning a node labelled `a` into one labelled `b`.
pub open spec fn relabel_cost(a: Seq<char>, b: Seq<char>) -> nat {
    if a == b { 0 } else { 1 }
}

pub open spec fn min3(a: nat, b: nat, c: nat) -> nat {
    if a <= b && a <= c { a } else if b <= c { b } else { c }
}

/// Least total cost of insertions, deletions (1 each) and relabellings that
/// turn forest `f` into forest `g`, decomposing both at their leftmost roots:
/// delete the first root of `f`, insert the first root of `g`, or map the one
/// onto the other (their subtrees onto each other, the rest onto the rest).
pub open spec fn forest_distance(f: Seq<OrderedTree>, g: Seq<OrderedTree>) -> nat
    decreases forest_size(f) + forest_size(g),
    via forest_distance_decreases
{
    if f.len() == 0 {
        forest_size(g)
    } else if g.len() == 0 {
        forest_size(f)
    } else {
        min3(
            1 + forest_distance(f[0].children + rest(f), g),
            1 + forest_distance(f, g[0].children + rest(g)),
            relabel_cost(f[0].label, g[0].label)
                + forest_distance(f[0].children, g[0].children)
                + forest_distance(rest(f), rest(g)),
        )
    }
}

#[via_fn]
proof fn forest_distance_decreases(f: Seq<OrderedTree>, g: Seq<OrderedTree>) {
    if f.len() != 0 && g.len() != 0 {
        lemma_forest_size_expand(f);
        lemma_forest_size_expand(g);
        lemma_forest_size_concat(f[0].children, rest(f));
        lemma_forest_size_concat(g[0].children, rest(g));
    }
}

/// Edit distance between two trees.
pub open spec fn tree_distance(a: OrderedTree, b: OrderedTree) -> nat {
    forest_distance(seq![a], seq![b])
}

/// A forest is at distance zero from itself.
pub proof fn lemma_forest_distance_self(f: Seq<OrderedTree>)
    ensures
        forest_distance(f, f) == 0,
    decreases forest_size(f),
{
    if f.len() != 0 {
        lemma_forest_size_expand(f);
        lemma_forest_size_concat(f[0].children, rest(f));
        lemma_forest_distance_self(f[0].children);
        lemma_forest_distance_self(rest(f));
    }
}

/// The distance does not depend on the direction of the comparison.
pub proof fn lemma_forest_distance_symmetric(f: Seq<OrderedTree>, g: Seq<OrderedTree>)
    ensures
        forest_distance(f, g) == forest_distance(g, f),
    decreases forest_size(f) + forest_size(g),
{
    if f.len() != 0 && g.len() != 0 {
        lemma_forest_size_expand(f);
        lemma_forest_size_expand(g);
        lemma_forest_size_concat(f[0].children, rest(f));
        lemma_forest_size_concat(g[0].children, rest(g));
        lemma_forest_distance_symmetric(f[0].children + rest(f), g);
        lemma_forest_distance_symmetric(f, g[0].children + rest(g));
        lemma_forest_distance_symmetric(f[0].children, g[0].children);
        lemma_forest_distance_symmetric(rest(f), rest(g));
    }
}

/// The distance is at least the difference in node counts.
pub proof fn lemma_forest_distance_size_gap(f: Seq<OrderedTree>, g: Seq<OrderedTree>)
    ensures
        forest_distance(f, g) >= forest_size(g) - forest_size(f),
        forest_distance(f, g) >= forest_size(f) - forest_size(g),
    decreases forest_size(f) + forest_size(g),
{
    if f.len() != 0 && g.len() != 0 {
        lemma_forest_size_expand(f);
        lemma_forest_size_expand(g);
        lemma_forest_size_concat(f[0].children, rest(f));
        lemma_forest_size_concat(g[0].children, rest(g));
        lemma_forest_distance_size_gap(f[0].children + rest(f), g);
        lemma_forest_distance_size_gap(f, g[0].children + rest(g));
        lemma_forest_distance_size_gap(f[0].children, g[0].children);
        lemma_forest_distance_size_gap(rest(f), rest(g));
    }
}

/// A tree is at distance zero from itself, and the distance between two trees
/// is the same in both directions.
pub proof fn law_tree_distance_identity_and_symmetry(a: OrderedTree, b: OrderedTree)
    ensures
        tree_distance(a, a) == 0,
        tree_distance(a, b) == tree_distance(b, a),
{
    lemma_forest_distance_self(seq![a]);
    lemma_forest_distance_symmetric(seq![a], seq![b]);
}

/// Two single-node trees are at distance 0 when their labels agree and 1
/// otherwise.
pub proof fn law_single_nodes(a: OrderedTree, b: OrderedTree)
    requires
        a.children.len() == 0,
        b.children.len() == 0,
    ensures
        tree_distance(a, b) == relabel_cost(a.label, b.label),
        a.label == b.label ==> tree_distance(a, b) == 0,
        a.label != b.label ==> tree_distance(a, b) == 1,
{
    let f = seq![a];
    let g = seq![b];
    lemma_forest_size_expand(f);
    lemma_forest_size_expand(g);
    assert(rest(f) =~= Seq::<OrderedTree>::empty());
    assert(rest(g) =~= Seq::<OrderedTree>::empty());
    assert(a.children + rest(f) =~= Seq::<OrderedTree>::empty());
    assert(b.children + rest(g) =~= Seq::<OrderedTree>::empty());
    assert(forest_size(f) == 1);
    assert(forest_size(g) == 1);
    assert(forest_distance(a.children + rest(f), g) == 1);
    assert(forest_distance(f, b.children + rest(g)) == 1);
    assert(forest_distance(a.children, b.children) == 0);
    assert(forest_distance(rest(f), rest(g)) == 0);
}

} // verus!

verus! {

/// A tree with no children.
pub open spec fn leaf(label: Seq<char>) -> OrderedTree {
    OrderedTree { label, children: Seq::empty() }
}

/// Whether `path` names a place in `f` where a leaf can be inserted: every
/// index but the last picks a tree, whose children the rest of the path walks
/// into; the last is a position among siblings, `0..=len`.
pub open spec fn valid_path(f: Seq<OrderedTree>, path: Seq<int>) -> bool
    decreases path.len(),
{
    if path.len() == 0 {
        false
    } else if path.len() == 1 {
        0 <= path[0] <= f.len()
    } else {
        0 <= path[0] < f.len() && valid_path(f[path[0]].children, path.drop_first())
    }
}

/// `f` with a leaf labelled `label` inserted at `path`.
pub open spec fn insert_leaf(f: Seq<OrderedTree>, path: Seq<int>, label: Seq<char>) -> Seq<OrderedTree>
    decreases path.len(),
{
    if path.len() <= 1 {
        let p = if path.len() == 0 { 0 } else { path[0] };
        f.take(p) + seq![leaf(label)] + f.skip(p)
    } else {
        let i = path[0];
        f.update(
            i,
            OrderedTree { label: f[i].label, children: insert_leaf(f[i].children, path.drop_first(), label) },
        )
    }
}

proof fn lemma_size_update(f: Seq<OrderedTree>, i: int, t: OrderedTree)
    requires
        0 <= i < f.len(),
    ensures
        forest_size(f.update(i, t)) + tree_size(f[i]) == forest_size(f) + tree_size(t),
    decreases f.len(),
{
    let g = f.update(i, t);
    if i > 0 {
        assert(rest(g) =~= rest(f).update(i - 1, t));
        lemma_size_update(rest(f), i - 1, t);
    } else {
        assert(rest(g) =~= rest(f));
    }
}

proof fn lemma_distance_update(f: Seq<OrderedTree>, i: int, t: OrderedTree)
    requires
        0 <= i < f.len(),
        t.label == f[i].label,
        forest_distance(f[i].children, t.children) <= 1,
    ensures
        forest_distance(f, f.update(i, t)) <= 1,
    decreases f.len(),
{
    let g = f.update(i, t);
    lemma_forest_size_expand(f);
    lemma_forest_size_expand(g);
    if i > 0 {
        assert(rest(g) =~= rest(f).update(i - 1, t));
        lemma_distance_update(rest(f), i - 1, t);
        lemma_forest_distance_self(f[0].children);
    } else {
        assert(rest(g) =~= rest(f));
        lemma_forest_distance_self(rest(f));
    }
}

proof fn lemma_distance_insert_top(f: Seq<OrderedTree>, p: int, label: Seq<char>)
    requires
        0 <= p <= f.len(),
    ensures
        forest_distance(f, f.take(p) + seq![leaf(label)] + f.skip(p)) <= 1,
        forest_size(f.take(p) + seq![leaf(label)] + f.skip(p)) == forest_size(f) + 1,
    decreases f.len(),
{
    let g = f.take(p) + seq![leaf(label)] + f.skip(p);
    assert(g.len() > 0);
    lemma_forest_size_expand(g);
    if p == 0 {
        assert(g[0] == leaf(label));
        assert(rest(g) =~= f);
        assert(g[0].children + rest(g) =~= f);
        lemma_forest_distance_self(f);
    } else {
        lemma_forest_size_expand(f);
        assert(g[0] == f[0]);
        let r = rest(f);
        assert(rest(g) =~= r.take(p - 1) + seq![leaf(label)] + r.skip(p - 1));
        lemma_distance_insert_top(r, p - 1, label);
        lemma_forest_distance_self(f[0].children);
    }
}

proof fn lemma_distance_insert(f: Seq<OrderedTree>, path: Seq<int>, label: Seq<char>)
    requires
        valid_path(f, path),
    ensures
        forest_distance(f, insert_leaf(f, path, label)) <= 1,
        forest_size(insert_leaf(f, path, label)) == forest_size(f) + 1,
    decreases path.len(),
{
    if path.len() == 1 {
        lemma_distance_insert_top(f, path[0], label);
    } else {
        let i = path[0];
        let c = insert_leaf(f[i].children, path.drop_first(), label);
        lemma_distance_insert(f[i].children, path.drop_first(), label);
        let t = OrderedTree { label: f[i].label, children: c };
        lemma_distance_update(f, i, t);
        lemma_size_update(f, i, t);
    }
}

/// Inserting one leaf anywhere in a forest gives a forest at distance exactly
/// one from it.
pub proof fn law_insert_leaf_forest(f: Seq<OrderedTree>, path: Seq<int>, label: Seq<char>)
    requires
        valid_path(f, path),
    ensures
        forest_distance(f, insert_leaf(f, path, label)) == 1,
{
    lemma_distance_insert(f, path, label);
    lemma_forest_distance_size_gap(f, insert_leaf(f, path, label));
}

/// Inserting one leaf anywhere below the root of a tree gives a tree at
/// distance exactly one from it.
pub proof fn law_insert_leaf(a: OrderedTree, path: Seq<int>, label: Seq<char>)
    requires
        valid_path(a.children, path),
    ensures
        tree_distance(a, OrderedTree { label: a.label, children: insert_leaf(a.children, path, label) })
            == 1,
{
    let b = OrderedTree { label: a.label, children: insert_leaf(a.children, path, label) };
    lemma_distance_insert(a.children, path, label);
    lemma_distance_update(seq![a], 0, b);
    assert(seq![a].update(0, b) =~= seq![b]);
    lemma_forest_size_expand(seq![a]);
    lemma_forest_size_expand(seq![b]);
    assert(rest(seq![a]) =~= Seq::<OrderedTree>::empty());
    assert(rest(seq![b]) =~= Seq::<OrderedTree>::empty());
    lemma_forest_distance_size_gap(seq![a], seq![b]);
}

} // verus!

verus! {

/// Edit distance between two trees: relabelling costs 0 between equal kinds
/// and 1 otherwise, each insertion or deletion costs 1.
pub fn distance(a: &Node, b: &Node) -> (d: usize)
    requires
        tree_size(a@) <= MAX_NODES,
        tree_size(b@) <= MAX_NODES,
    ensures
        d == tree_distance(a@, b@),
{
    let (la, ea) = flatten(a);
    let (lb, eb) = flatten(b);
    proof {
        lemma_forest_size_single(a@);
        lemma_forest_size_single(b@);
        lemma_encodes_nested(la@, ea@, 0, seq![a@]);
        lemma_encodes_nested(lb@, eb@, 0, seq![b@]);
        lemma_flat_distance_matches(la@, ea@, lb@, eb@, 0, 0, seq![a@], seq![b@]);
    }
    encoded_distance(&la, &ea, &lb, &eb)
}

} // verus!

verus! {

/// Distance of concatenations is at most the sum of the distances of the
/// parts.
pub proof fn lemma_concat_subadditive(a: Seq<OrderedTree>, b: Seq<OrderedTree>, c: Seq<OrderedTree>, d: Seq<OrderedTree>)
    ensures
        forest_distance(a + b, c + d) <= forest_distance(a, c) + forest_distance(b, d),
    decreases forest_size(a) + forest_size(c),
{
    let ab = a + b;
    let cd = c + d;
    lemma_forest_size_concat(a, b);
    lemma_forest_size_concat(c, d);
    if a.len() == 0 && c.len() == 0 {
        assert(ab =~= b);
        assert(cd =~= d);
    } else if a.len() == 0 {
        assert(ab =~= b);
        assert(cd[0] == c[0]);
        assert(rest(cd) =~= rest(c) + d);
        let c1 = c[0].children + rest(c);
        assert(cd[0].children + rest(cd) =~= c1 + d);
        lemma_forest_size_expand(c);
        lemma_concat_subadditive(a, b, c1, d);
        assert(forest_distance(a, c1) == forest_size(c1));
        assert(forest_distance(a, c) == forest_size(c));
        if b.len() == 0 {
            assert(forest_distance(ab, cd) == forest_size(cd));
            assert(forest_distance(b, d) == forest_size(d));
        } else {
            assert(forest_distance(ab, cd) <= 1 + forest_distance(ab, cd[0].children + rest(cd)));
        }
    } else if c.len() == 0 {
        assert(cd =~= d);
        assert(ab[0] == a[0]);
        assert(rest(ab) =~= rest(a) + b);
        let a1 = a[0].children + rest(a);
        assert(ab[0].children + rest(ab) =~= a1 + b);
        lemma_forest_size_expand(a);
        lemma_concat_subadditive(a1, b, c, d);
        assert(forest_distance(a1, c) == forest_size(a1));
        assert(forest_distance(a, c) == forest_size(a));
        if d.len() == 0 {
            assert(forest_distance(ab, cd) == forest_size(ab));
            assert(forest_distance(b, d) == forest_size(b));
        } else {
            assert(forest_distance(ab, cd) <= 1 + forest_distance(ab[0].children + rest(ab), cd));
        }
    } else {
        assert(ab[0] == a[0]);
        assert(cd[0] == c[0]);
        assert(rest(ab) =~= rest(a) + b);
        assert(rest(cd) =~= rest(c) + d);
        let a1 = a[0].children + rest(a);
        let c1 = c[0].children + rest(c);
        assert(ab[0].children + rest(ab) =~= a1 + b);
        assert(cd[0].children + rest(cd) =~= c1 + d);
        lemma_forest_size_expand(a);
        lemma_forest_size_expand(c);
        lemma_forest_size_concat(a[0].children, rest(a));
        lemma_forest_size_concat(c[0].children, rest(c));
        let del = 1 + forest_distance(a1, c);
        let ins = 1 + forest_distance(a, c1);
        let sub = relabel_cost(a[0].label, c[0].label) + forest_distance(a[0].children, c[0].children)
            + forest_distance(rest(a), rest(c));
        if forest_distance(a, c) == del {
            lemma_concat_subadditive(a1, b, c, d);
        } else if forest_distance(a, c) == ins {
            lemma_concat_subadditive(a, b, c1, d);
        } else {
            assert(forest_distance(a, c) == sub);
            lemma_concat_subadditive(rest(a), b, rest(c), d);
        }
    }
}

/// Going through a third forest is never shorter.
pub proof fn lemma_forest_triangle(f: Seq<OrderedTree>, g: Seq<OrderedTree>, h: Seq<OrderedTree>)
    ensures
        forest_distance(f, h) <= forest_distance(f, g) + forest_distance(g, h),
    decreases forest_size(f) + forest_size(g) + forest_size(h),
{
    lemma_forest_distance_size_gap(f, h);
    lemma_forest_distance_size_gap(f, g);
    lemma_forest_distance_size_gap(g, h);
    if f.len() == 0 || h.len() == 0 {
        // The distance to an empty forest is the size of the other.
        if f.len() == 0 && h.len() == 0 {
        } else if f.len() == 0 {
            assert(forest_distance(f, h) == forest_size(h));
            assert(forest_distance(f, g) == forest_size(g));
        } else {
            assert(forest_distance(f, h) == forest_size(f));
            assert(forest_distance(g, h) == forest_size(g));
        }
    } else if g.len() == 0 {
        assert(forest_distance(f, g) == forest_size(f));
        assert(forest_distance(g, h) == forest_size(h));
        lemma_forest_distance_bounded(f, h);
    } else {
        lemma_forest_size_expand(f);
        lemma_forest_size_expand(g);
        lemma_forest_size_expand(h);
        lemma_forest_size_concat(f[0].children, rest(f));
        lemma_forest_size_concat(g[0].children, rest(g));
        lemma_forest_size_concat(h[0].children, rest(h));
        let f1 = f[0].children + rest(f);
        let g1 = g[0].children + rest(g);
        let h1 = h[0].children + rest(h);
        let fg_del = 1 + forest_distance(f1, g);
        let fg_ins = 1 + forest_distance(f, g1);
        let gh_del = 1 + forest_distance(g1, h);
        let gh_ins = 1 + forest_distance(g, h1);
        let fg = forest_distance(f, g);
        let gh = forest_distance(g, h);
        if fg == fg_del {
            lemma_forest_triangle(f1, g, h);
        } else if gh == gh_ins {
            lemma_forest_triangle(f, g, h1);
        } else if fg == fg_ins && gh == gh_del {
            lemma_forest_triangle(f, g1, h);
        } else if fg == fg_ins {
            // g is matched onto h.
            lemma_forest_triangle(f, g1, h);
            lemma_concat_subadditive(g[0].children, rest(g), h[0].children, rest(h));
        } else if gh == gh_del {
            // f is matched onto g.
            lemma_forest_triangle(f, g1, h);
            lemma_concat_subadditive(f[0].children, rest(f), g[0].children, rest(g));
        } else {
            lemma_forest_triangle(f[0].children, g[0].children, h[0].children);
            lemma_forest_triangle(rest(f), rest(g), rest(h));
        }
    }
}

/// The distance is at most the two sizes together.
pub proof fn lemma_forest_distance_bounded(f: Seq<OrderedTree>, g: Seq<OrderedTree>)
    ensures
        forest_distance(f, g) <= forest_size(f) + forest_size(g),
    decreases forest_size(f) + forest_size(g),
{
    if f.len() > 0 && g.len() > 0 {
        lemma_forest_size_expand(f);
        lemma_forest_size_concat(f[0].children, rest(f));
        lemma_forest_distance_bounded(f[0].children + rest(f), g);
    }
}

/// Tree edit distance is a metric: zero from a tree to itself, symmetric,
/// and never shortened by going through a third tree.
pub proof fn law_tree_distance_metric(a: OrderedTree, b: OrderedTree, c: OrderedTree)
    ensures
        tree_distance(a, a) == 0,
        tree_distance(a, b) == tree_distance(b, a),
        tree_distance(a, b) <= tree_distance(a, c) + tree_distance(c, b),
{
    law_tree_distance_identity_and_symmetry(a, b);
    lemma_forest_triangle(seq![a], seq![c], seq![b]);
}

} // verus!
