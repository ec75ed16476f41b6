//! Preorder encoding of trees, on which the edit distance is computed.
use vstd::prelude::*;
use crate::tree::{Node, OrderedTree, rest, forest_size, tree_size, forest_of, lemma_forest_size_concat, lemma_forest_size_expand};
use crate::ted::{forest_distance, relabel_cost, min3};

verus! {

broadcast use vstd::seq::group_seq_axioms;

/// `labels` and `ends`, from index `o` on, hold the forest `f` in preorder:
/// each node's label, and the index just past its subtree.
pub open spec fn encodes(labels: Seq<String>, ends: Seq<usize>, o: int, f: Seq<OrderedTree>) -> bool
    decreases f,
{
    if f.len() == 0 {
        true
    } else {
        &&& 0 <= o < labels.len()
        &&& o < ends.len()
        &&& labels[o]@ == f[0].label
        &&& ends[o] == o + tree_size(f[0])
        &&& encodes(labels, ends, o + 1, f[0].children)
        &&& encodes(labels, ends, o + tree_size(f[0]), rest(f))
    }
}

/// Edit distance between the encoded forests `[i, e)` of `a` and `[k, f)` of
/// `b`, decomposed at their leftmost roots as `forest_distance` is.
pub open spec fn flat_distance(
    la: Seq<String>,
    ea: Seq<usize>,
    lb: Seq<String>,
    eb: Seq<usize>,
    i: int,
    e: int,
    k: int,
    f: int,
) -> nat
    decreases (if e > i { e - i } else { 0 }) + (if f > k { f - k } else { 0 }),
{
    if i >= e && k >= f {
        0
    } else if i >= e {
        (f - k) as nat
    } else if k >= f {
        (e - i) as nat
    } else if !(0 <= i < ea.len() && i < ea[i] <= e && 0 <= k < eb.len() && k < eb[k] <= f) {
        0
    } else {
        min3(
            1 + flat_distance(la, ea, lb, eb, i + 1, e, k, f),
            1 + flat_distance(la, ea, lb, eb, i, e, k + 1, f),
            relabel_cost(la[i]@, lb[k]@)
                + flat_distance(la, ea, lb, eb, i + 1, ea[i] as int, k + 1, eb[k] as int)
                + flat_distance(la, ea, lb, eb, ea[i] as int, e, eb[k] as int, f),
        )
    }
}

pub proof fn lemma_flat_distance_bound(
    la: Seq<String>,
    ea: Seq<usize>,
    lb: Seq<String>,
    eb: Seq<usize>,
    i: int,
    e: int,
    k: int,
    f: int,
)
    requires
        i <= e,
        k <= f,
    ensures
        flat_distance(la, ea, lb, eb, i, e, k, f) <= (e - i) + (f - k),
    decreases (e - i) + (f - k),
{
    if i < e && k < f && 0 <= i < ea.len() && i < ea[i] <= e && 0 <= k < eb.len() && k < eb[k] <= f {
        lemma_flat_distance_bound(la, ea, lb, eb, i + 1, e, k, f);
    }
}

pub proof fn lemma_forest_size_single(t: OrderedTree)
    ensures
        forest_size(seq![t]) == tree_size(t),
{
    let f = seq![t];
    assert(rest(f) =~= Seq::<OrderedTree>::empty());
    assert(f[0] == t);
    lemma_forest_size_positive(rest(f));
}

pub proof fn lemma_forest_size_positive(f: Seq<OrderedTree>)
    ensures
        f.len() > 0 ==> forest_size(f) >= tree_size(f[0]) >= 1,
        f.len() == 0 ==> forest_size(f) == 0,
{
}

pub proof fn lemma_encodes_concat(la: Seq<String>, ea: Seq<usize>, o: int, a: Seq<OrderedTree>, b: Seq<OrderedTree>)
    requires
        encodes(la, ea, o, a),
        encodes(la, ea, o + forest_size(a), b),
    ensures
        encodes(la, ea, o, a + b),
    decreases a.len(),
{
    if a.len() == 0 {
        assert(a + b =~= b);
    } else {
        assert((a + b)[0] == a[0]);
        assert(rest(a + b) =~= rest(a) + b);
        lemma_encodes_concat(la, ea, o + tree_size(a[0]), rest(a), b);
    }
}

/// Both pairs of sequences hold the same entries at `j`.
pub open spec fn agree_at(la: Seq<String>, ea: Seq<usize>, la2: Seq<String>, ea2: Seq<usize>, j: int) -> bool {
    j < la.len() && j < ea.len() && j < la2.len() && j < ea2.len() && la2[j] == la[j] && ea2[j] == ea[j]
}

pub proof fn lemma_encodes_frame(
    la: Seq<String>,
    ea: Seq<usize>,
    la2: Seq<String>,
    ea2: Seq<usize>,
    o: int,
    f: Seq<OrderedTree>,
)
    requires
        encodes(la, ea, o, f),
        forall|j: int| o <= j < o + forest_size(f) ==> #[trigger] agree_at(la, ea, la2, ea2, j),
    ensures
        encodes(la2, ea2, o, f),
    decreases f,
{
    if f.len() > 0 {
        lemma_forest_size_positive(f);
        let c = f[0].children;
        let t = tree_size(f[0]);
        assert(forest_size(f) == t + forest_size(rest(f)));
        assert(t == 1 + forest_size(c));
        assert forall|j: int| o + 1 <= j < o + 1 + forest_size(c) implies #[trigger] agree_at(la, ea, la2, ea2, j) by {
            assert(o <= j < o + forest_size(f));
        }
        assert forall|j: int| o + t <= j < o + t + forest_size(rest(f)) implies #[trigger] agree_at(la, ea, la2, ea2, j) by {
            assert(o <= j < o + forest_size(f));
        }
        assert(agree_at(la, ea, la2, ea2, o));
        lemma_encodes_frame(la, ea, la2, ea2, o + 1, f[0].children);
        lemma_encodes_frame(la, ea, la2, ea2, o + tree_size(f[0]), rest(f));
    }
}

/// The subtree extent recorded at `j` lies inside `[j, bound]`, and every
/// extent recorded inside it lies inside it in turn.
pub open spec fn nested_at(la: Seq<String>, ea: Seq<usize>, j: int, bound: int) -> bool {
    &&& 0 <= j < ea.len()
    &&& j < la.len()
    &&& j < ea[j] <= bound
    &&& forall|q: int| j < q < ea[j] ==> #[trigger] ea[q] <= ea[j]
}

/// Every extent recorded in `[lo, hi)` nests inside `[lo, hi]`.
pub open spec fn nested_range(la: Seq<String>, ea: Seq<usize>, lo: int, hi: int) -> bool {
    forall|j: int| lo <= j < hi ==> #[trigger] nested_at(la, ea, j, hi)
}

proof fn lemma_encodes_nested_at(la: Seq<String>, ea: Seq<usize>, o: int, f: Seq<OrderedTree>, j: int)
    requires
        encodes(la, ea, o, f),
        o <= j < o + forest_size(f),
    ensures
        nested_at(la, ea, j, o + forest_size(f)),
    decreases f,
{
    lemma_forest_size_positive(f);
    let t = tree_size(f[0]);
    let c = f[0].children;
    assert(forest_size(f) == t + forest_size(rest(f)));
    if j == o {
        assert forall|q: int| j < q < ea[j] implies #[trigger] ea[q] <= ea[j] by {
            lemma_encodes_nested_at(la, ea, o + 1, c, q);
        }
    } else if j < o + t {
        lemma_encodes_nested_at(la, ea, o + 1, c, j);
    } else {
        lemma_encodes_nested_at(la, ea, o + t, rest(f), j);
    }
}

/// Subtree extents of an encoding lie inside the forest and nest.
pub proof fn lemma_encodes_nested(la: Seq<String>, ea: Seq<usize>, o: int, f: Seq<OrderedTree>)
    requires
        encodes(la, ea, o, f),
    ensures
        nested_range(la, ea, o, o + forest_size(f)),
{
    assert forall|j: int| o <= j < o + forest_size(f) implies #[trigger] nested_at(la, ea, j, o + forest_size(f)) by {
        lemma_encodes_nested_at(la, ea, o, f, j);
    }
}

/// The encoded distance agrees with the distance of the forests encoded.
pub proof fn lemma_flat_distance_matches(
    la: Seq<String>,
    ea: Seq<usize>,
    lb: Seq<String>,
    eb: Seq<usize>,
    i: int,
    k: int,
    f: Seq<OrderedTree>,
    g: Seq<OrderedTree>,
)
    requires
        encodes(la, ea, i, f),
        encodes(lb, eb, k, g),
    ensures
        flat_distance(la, ea, lb, eb, i, i + forest_size(f), k, k + forest_size(g))
            == forest_distance(f, g),
    decreases forest_size(f) + forest_size(g),
{
    lemma_forest_size_positive(f);
    lemma_forest_size_positive(g);
    if f.len() > 0 && g.len() > 0 {
        lemma_forest_size_expand(f);
        lemma_forest_size_expand(g);
        let f1 = f[0].children + rest(f);
        let g1 = g[0].children + rest(g);
        lemma_encodes_concat(la, ea, i + 1, f[0].children, rest(f));
        lemma_encodes_concat(lb, eb, k + 1, g[0].children, rest(g));
        lemma_forest_size_concat(f[0].children, rest(f));
        lemma_forest_size_concat(g[0].children, rest(g));
        lemma_flat_distance_matches(la, ea, lb, eb, i + 1, k, f1, g);
        lemma_flat_distance_matches(la, ea, lb, eb, i, k + 1, f, g1);
        lemma_flat_distance_matches(la, ea, lb, eb, i + 1, k + 1, f[0].children, g[0].children);
        lemma_flat_distance_matches(la, ea, lb, eb, i + tree_size(f[0]), k + tree_size(g[0]), rest(f), rest(g));
    }
}

} // verus!

verus! {

/// Largest number of nodes in a tree whose distance is computed.
pub const MAX_NODES: usize = 0x3fff_ffff;

pub proof fn lemma_forest_of(s: Seq<Node>)
    ensures
        forest_of(s).len() == s.len(),
        forall|j: int| 0 <= j < s.len() ==> #[trigger] forest_of(s)[j] == s[j]@,
    decreases s.len(),
{
    if s.len() > 0 {
        let tail = s.subrange(1, s.len() as int);
        lemma_forest_of(tail);
        assert(forest_of(s) == seq![s[0]@] + forest_of(tail));
        assert forall|j: int| 0 <= j < s.len() implies #[trigger] forest_of(s)[j] == s[j]@ by {
            if j > 0 {
                assert(forest_of(s)[j] == forest_of(tail)[j - 1]);
                assert(tail[j - 1] == s[j]);
            }
        }
    }
}

/// Appends the preorder encoding of `n` to `labels` and `ends`.
fn flatten_into(n: &Node, labels: &mut Vec<String>, ends: &mut Vec<usize>)
    requires
        old(labels)@.len() == old(ends)@.len(),
    ensures
        final(labels)@.len() == final(ends)@.len(),
        final(labels)@.len() == old(labels)@.len() + tree_size(n@),
        forall|j: int| 0 <= j < old(labels)@.len() ==> #[trigger] agree_at(old(labels)@, old(ends)@, final(labels)@, final(ends)@, j),
        encodes(final(labels)@, final(ends)@, old(labels)@.len() as int, seq![n@]),
    decreases n,
{
    let ghost l_in = labels@;
    let ghost e_in = ends@;
    let o = labels.len();
    labels.push(n.ty.clone());
    ends.push(0);
    let ghost kids = forest_of(n.children@);
    proof {
        lemma_forest_of(n.children@);
        assert(kids.take(0) =~= Seq::<OrderedTree>::empty());
    }
    let mut j: usize = 0;
    while j < n.children.len()
        invariant
            0 <= j <= n.children.len(),
            o == l_in.len(),
            kids == forest_of(n.children@),
            kids.len() == n.children@.len(),
            forall|q: int| 0 <= q < n.children@.len() ==> #[trigger] kids[q] == n.children@[q]@,
            labels@.len() == ends@.len(),
            labels@.len() == o + 1 + forest_size(kids.take(j as int)),
            forall|q: int| 0 <= q < o ==> #[trigger] agree_at(l_in, e_in, labels@, ends@, q),
            labels@[o as int]@ == n.ty@,
            encodes(labels@, ends@, o + 1, kids.take(j as int)),
        decreases n.children.len() - j,
    {
        let ghost l0 = labels@;
        let ghost e0 = ends@;
        flatten_into(&n.children[j], labels, ends);
        proof {
            let before = kids.take(j as int);
            assert forall|q: int| o + 1 <= q < o + 1 + forest_size(before) implies #[trigger] agree_at(l0, e0, labels@, ends@, q) by {}
            lemma_encodes_frame(l0, e0, labels@, ends@, o + 1, before);
            assert(seq![n.children@[j as int]@] =~= seq![kids[j as int]]);
            lemma_forest_size_single(kids[j as int]);
            lemma_encodes_concat(labels@, ends@, o + 1, before, seq![kids[j as int]]);
            assert(kids.take(j + 1) =~= before + seq![kids[j as int]]);
            lemma_forest_size_concat(before, seq![kids[j as int]]);
            assert forall|q: int| 0 <= q < o implies #[trigger] agree_at(l_in, e_in, labels@, ends@, q) by {
                assert(agree_at(l_in, e_in, l0, e0, q));
                assert(agree_at(l0, e0, labels@, ends@, q));
            }
            assert(agree_at(l0, e0, labels@, ends@, o as int));
        }
        j = j + 1;
    }
    let ghost l1 = labels@;
    let ghost e1 = ends@;
    let end = labels.len();
    ends.set(o, end);
    proof {
        assert(kids.take(j as int) =~= kids);
        assert forall|q: int| o + 1 <= q < o + 1 + forest_size(kids) implies #[trigger] agree_at(l1, e1, labels@, ends@, q) by {}
        lemma_encodes_frame(l1, e1, labels@, ends@, o + 1, kids);
        let t = seq![n@];
        assert(t[0] == n@);
        assert(rest(t) =~= Seq::<OrderedTree>::empty());
        assert(n@.children == kids);
        assert(labels@[o as int]@ == t[0].label);
        assert(ends@[o as int] == o + tree_size(t[0]));
        assert(encodes(labels@, ends@, o + 1, t[0].children));
        assert(encodes(labels@, ends@, o + tree_size(t[0]), rest(t)));
        assert forall|q: int| 0 <= q < o implies #[trigger] agree_at(l_in, e_in, labels@, ends@, q) by {
            assert(agree_at(l_in, e_in, l1, e1, q));
        }
    }
}

} // verus!

verus! {

/// Distance table of the encoded forests `[i0, e)` of `a` and `[k0, f)` of
/// `b`: entry `[e - i][f - k]` is the distance between `[i, e)` and `[k, f)`.
/// `cd` holds, at `[n - 1 - i][m - 1 - k]`, the distance between the
/// children of node `i` of `a` and those of node `k` of `b`.
#[verifier::loop_isolation(false)]
fn forest_table(
    la: &Vec<String>,
    ea: &Vec<usize>,
    lb: &Vec<String>,
    eb: &Vec<usize>,
    cd: &Vec<Vec<usize>>,
    i0: usize,
    e: usize,
    k0: usize,
    f: usize,
) -> (t: Vec<Vec<usize>>)
    requires
        la@.len() == ea@.len() <= MAX_NODES,
        lb@.len() == eb@.len() <= MAX_NODES,
        i0 <= e <= la@.len(),
        k0 <= f <= lb@.len(),
        forall|i: int| i0 <= i < e ==> i < #[trigger] ea@[i] <= e,
        forall|k: int| k0 <= k < f ==> k < #[trigger] eb@[k] <= f,
        cd@.len() >= la@.len() - i0,
        forall|r: int| 0 <= r < cd@.len() ==> #[trigger] cd@[r]@.len() == lb@.len(),
        forall|i: int, k: int| i0 <= i < e && k0 <= k < f ==>
            #[trigger] cd@[la@.len() - 1 - i]@[lb@.len() - 1 - k] == flat_distance(
                la@, ea@, lb@, eb@, i + 1, ea@[i] as int, k + 1, eb@[k] as int),
    ensures
        t@.len() == e - i0 + 1,
        forall|r: int| 0 <= r < t@.len() ==> #[trigger] t@[r]@.len() == f - k0 + 1,
        forall|i: int, k: int| i0 <= i <= e && k0 <= k <= f ==>
            #[trigger] t@[e - i]@[f - k] == flat_distance(la@, ea@, lb@, eb@, i, e as int, k, f as int),
{
    let n = la.len();
    let m = lb.len();
    let mut t: Vec<Vec<usize>> = Vec::new();
    let mut r: usize = 0;
    while r <= e - i0
        invariant
            n == la@.len(),
            m == lb@.len(),
            r <= e - i0 + 1,
            t@.len() == r,
            forall|q: int| 0 <= q < r ==> #[trigger] t@[q]@.len() == f - k0 + 1,
            forall|i: int, k: int| e - r < i <= e && k0 <= k <= f ==>
                #[trigger] t@[e - i]@[f - k] == flat_distance(la@, ea@, lb@, eb@, i, e as int, k, f as int),
        decreases e - i0 + 1 - r,
    {
        let i = e - r;
        let mut row: Vec<usize> = Vec::new();
        let mut c: usize = 0;
        while c <= f - k0
            invariant
                n == la@.len(),
                m == lb@.len(),
                i == e - r,
                i0 <= i <= e,
                t@.len() == r,
                forall|q: int| 0 <= q < r ==> #[trigger] t@[q]@.len() == f - k0 + 1,
                forall|i2: int, k: int| e - r < i2 <= e && k0 <= k <= f ==>
                    #[trigger] t@[e - i2]@[f - k] == flat_distance(la@, ea@, lb@, eb@, i2, e as int, k, f as int),
                c <= f - k0 + 1,
                row@.len() == c,
                forall|k: int| f - c < k <= f ==>
                    #[trigger] row@[f - k] == flat_distance(la@, ea@, lb@, eb@, i as int, e as int, k, f as int),
            decreases f - k0 + 1 - c,
        {
            let k = f - c;
            let v: usize;
            if i == e {
                v = f - k;
            } else if k == f {
                v = e - i;
            } else {
                let ei = ea[i];
                let ek = eb[k];
                proof {
                    lemma_flat_distance_bound(la@, ea@, lb@, eb@, i as int + 1, e as int, k as int, f as int);
                    lemma_flat_distance_bound(la@, ea@, lb@, eb@, i as int, e as int, k as int + 1, f as int);
                    lemma_flat_distance_bound(la@, ea@, lb@, eb@, i as int + 1, ei as int, k as int + 1, ek as int);
                    lemma_flat_distance_bound(la@, ea@, lb@, eb@, ei as int, e as int, ek as int, f as int);
                    assert(t@[e - (i + 1)]@[f - k] == flat_distance(la@, ea@, lb@, eb@, i + 1, e as int, k as int, f as int));
                    assert(t@[e - ei]@[f - ek] == flat_distance(la@, ea@, lb@, eb@, ei as int, e as int, ek as int, f as int));
                    assert(row@[f - (k + 1)] == flat_distance(la@, ea@, lb@, eb@, i as int, e as int, k + 1, f as int));
                    assert(cd@[n - 1 - i]@[m - 1 - k] == flat_distance(la@, ea@, lb@, eb@, i + 1, ei as int, k + 1, ek as int));
                }
                let del = t[r - 1][c] + 1;
                let ins = row[c - 1] + 1;
                let cost: usize = if la[i] == lb[k] { 0 } else { 1 };
                let sub = cost + cd[n - 1 - i][m - 1 - k] + t[e - ei][f - ek];
                v = if del <= ins && del <= sub { del } else if ins <= sub { ins } else { sub };
            }
            row.push(v);
            c = c + 1;
        }
        t.push(row);
        r = r + 1;
    }
    t
}

} // verus!

verus! {

/// Edit distance between two encoded trees.
#[verifier::loop_isolation(false)]
pub fn encoded_distance(la: &Vec<String>, ea: &Vec<usize>, lb: &Vec<String>, eb: &Vec<usize>) -> (d: usize)
    requires
        la@.len() == ea@.len() <= MAX_NODES,
        lb@.len() == eb@.len() <= MAX_NODES,
        nested_range(la@, ea@, 0, la@.len() as int),
        nested_range(lb@, eb@, 0, lb@.len() as int),
    ensures
        d == flat_distance(la@, ea@, lb@, eb@, 0, la@.len() as int, 0, lb@.len() as int),
{
    let n = la.len();
    let m = lb.len();
    let mut cd: Vec<Vec<usize>> = Vec::new();
    let mut r: usize = 0;
    while r < n
        invariant
            r <= n,
            cd@.len() == r,
            forall|q: int| 0 <= q < r ==> #[trigger] cd@[q]@.len() == m,
            forall|i: int, k: int| n - r <= i < n && 0 <= k < m ==>
                #[trigger] cd@[n - 1 - i]@[m - 1 - k] == flat_distance(
                    la@, ea@, lb@, eb@, i + 1, ea@[i] as int, k + 1, eb@[k] as int),
        decreases n - r,
    {
        let i = n - 1 - r;
        let mut row: Vec<usize> = Vec::new();
        let mut c: usize = 0;
        proof {
            assert(nested_at(la@, ea@, i as int, n as int));
        }
        while c < m
            invariant
                i == n - 1 - r,
                cd@.len() == r,
                forall|q: int| 0 <= q < r ==> #[trigger] cd@[q]@.len() == m,
                forall|i2: int, k: int| n - r <= i2 < n && 0 <= k < m ==>
                    #[trigger] cd@[n - 1 - i2]@[m - 1 - k] == flat_distance(
                        la@, ea@, lb@, eb@, i2 + 1, ea@[i2] as int, k + 1, eb@[k] as int),
                c <= m,
                row@.len() == c,
                forall|k: int| m - c <= k < m ==>
                    #[trigger] row@[m - 1 - k] == flat_distance(
                        la@, ea@, lb@, eb@, i + 1, ea@[i as int] as int, k + 1, eb@[k] as int),
            decreases m - c,
        {
            let k = m - 1 - c;
            let ei = ea[i];
            let ek = eb[k];
            proof {
                assert(nested_at(lb@, eb@, k as int, m as int));
                assert forall|i2: int| i + 1 <= i2 < ei implies i2 < #[trigger] ea@[i2] <= ei by {
                    assert(nested_at(la@, ea@, i2, n as int));
                }
                assert forall|k2: int| k + 1 <= k2 < ek implies k2 < #[trigger] eb@[k2] <= ek by {
                    assert(nested_at(lb@, eb@, k2, m as int));
                }
            }
            let t = forest_table(la, ea, lb, eb, &cd, i + 1, ei, k + 1, ek);
            let v = t[ei - (i + 1)][ek - (k + 1)];
            row.push(v);
            c = c + 1;
        }
        cd.push(row);
        proof {
            assert forall|i2: int, k: int| n - (r + 1) <= i2 < n && 0 <= k < m implies
                #[trigger] cd@[n - 1 - i2]@[m - 1 - k] == flat_distance(
                    la@, ea@, lb@, eb@, i2 + 1, ea@[i2] as int, k + 1, eb@[k] as int) by {
                if i2 == i {
                    assert(cd@[n - 1 - i2] == row);
                }
            }
        }
        r = r + 1;
    }
    proof {
        assert forall|i: int| 0 <= i < n implies i < #[trigger] ea@[i] <= n by {
            assert(nested_at(la@, ea@, i, n as int));
        }
        assert forall|k: int| 0 <= k < m implies k < #[trigger] eb@[k] <= m by {
            assert(nested_at(lb@, eb@, k, m as int));
        }
    }
    let t = forest_table(la, ea, lb, eb, &cd, 0, n, 0, m);
    proof {
        assert(t@[n - 0]@[m - 0] == flat_distance(la@, ea@, lb@, eb@, 0, n as int, 0, m as int));
    }
    t[n][m]
}

/// The preorder encoding of a tree: labels, and the index just past each
/// node's subtree.
pub fn flatten(n: &Node) -> (r: (Vec<String>, Vec<usize>))
    ensures
        r.0@.len() == r.1@.len() == tree_size(n@),
        encodes(r.0@, r.1@, 0, seq![n@]),
{
    let mut labels: Vec<String> = Vec::new();
    let mut ends: Vec<usize> = Vec::new();
    flatten_into(n, &mut labels, &mut ends);
    (labels, ends)
}

} // verus!
