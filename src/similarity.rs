//! Pairwise edit distances over a batch of trees, and their summary.
use vstd::prelude::*;
use crate::Laast;
use crate::flat::{MAX_NODES, flatten, encoded_distance, encodes, lemma_forest_size_single, lemma_encodes_nested, lemma_flat_distance_matches};
use crate::ted::tree_distance;
use crate::tree::{OrderedTree, tree_size};

verus! {

/// Minimum, maximum and average (rounded down) of the pairwise distances.
pub struct MinMaxAverage {
    pub min: u32,
    pub max: u32,
    pub avg: u32,
}

/// Similarity of a batch of trees.
pub struct Similarity {
    pub edit_distance: MinMaxAverage,
}

/// Why no similarity could be computed.
#[derive(Clone, Copy, Debug, PartialEq, Eq, Structural)]
pub enum SimilarityError {
    /// Fewer than two trees were given.
    InsufficientInput,
    /// A tree has more than `MAX_NODES` nodes.
    TooLarge,
}

pub open spec fn seq_min(s: Seq<nat>) -> nat
    decreases s.len(),
{
    if s.len() <= 1 {
        if s.len() == 0 { 0 } else { s[0] }
    } else {
        let m = seq_min(s.drop_last());
        if s.last() < m { s.last() } else { m }
    }
}

pub open spec fn seq_max(s: Seq<nat>) -> nat
    decreases s.len(),
{
    if s.len() == 0 {
        0
    } else {
        let m = seq_max(s.drop_last());
        if s.last() > m { s.last() } else { m }
    }
}

pub open spec fn seq_sum(s: Seq<nat>) -> nat
    decreases s.len(),
{
    if s.len() == 0 { 0 } else { seq_sum(s.drop_last()) + s.last() }
}

/// Distances from tree `i` to each later tree, in order.
pub open spec fn row_distances(ts: Seq<OrderedTree>, i: int) -> Seq<nat> {
    Seq::new((ts.len() - i - 1) as nat, |j: int| tree_distance(ts[i], ts[i + 1 + j]))
}

/// Distances of all pairs `(i, j)` with `i < j` and `i` below `upto`, by `i`
/// then `j`.
pub open spec fn pairs_before(ts: Seq<OrderedTree>, upto: int) -> Seq<nat>
    decreases upto,
{
    if upto <= 0 { Seq::empty() } else { pairs_before(ts, upto - 1) + row_distances(ts, upto - 1) }
}

/// Distances of all unordered pairs of a batch.
pub open spec fn pair_distances(ts: Seq<OrderedTree>) -> Seq<nat> {
    pairs_before(ts, ts.len() as int)
}

/// Models of the trees of a batch.
pub open spec fn trees_of(laasts: Seq<Laast>) -> Seq<OrderedTree> {
    laasts.map_values(|l: Laast| l.tree())
}

} // verus!

verus! {

pub open spec fn as_nats(s: Seq<u32>) -> Seq<nat> {
    s.map_values(|x: u32| x as nat)
}

/// Summary of a non-empty list of distances.
pub fn summarize(ds: &Vec<u32>) -> (r: MinMaxAverage)
    requires
        ds@.len() >= 1,
    ensures
        r.min as nat == seq_min(as_nats(ds@)),
        r.max as nat == seq_max(as_nats(ds@)),
        r.avg as nat == seq_sum(as_nats(ds@)) / (ds@.len() as nat),
{
    let mut min: u32 = ds[0];
    let mut max: u32 = ds[0];
    let mut sum: u128 = ds[0] as u128;
    let mut i: usize = 1;
    proof {
        let s1 = as_nats(ds@).take(1);
        assert(s1.drop_last() =~= Seq::<nat>::empty());
        assert(seq_max(s1.drop_last()) == 0);
        assert(seq_sum(s1.drop_last()) == 0);
        assert(s1.last() == ds@[0] as nat);
    }
    while i < ds.len()
        invariant
            1 <= i <= ds@.len(),
            min as nat == seq_min(as_nats(ds@).take(i as int)),
            max as nat == seq_max(as_nats(ds@).take(i as int)),
            sum as nat == seq_sum(as_nats(ds@).take(i as int)),
            sum <= i * 0xffff_ffffu128,
        decreases ds@.len() - i,
    {
        let x = ds[i];
        proof {
            let s = as_nats(ds@).take(i + 1);
            assert(s.drop_last() =~= as_nats(ds@).take(i as int));
            assert(s.last() == x as nat);
            assert(sum + x <= (i + 1) * 0xffff_ffffu128) by (nonlinear_arith)
                requires sum <= i * 0xffff_ffffu128, x <= 0xffff_ffffu32;
        }
        if x < min {
            min = x;
        }
        if x > max {
            max = x;
        }
        sum = sum + x as u128;
        i = i + 1;
    }
    proof {
        assert(as_nats(ds@).take(i as int) =~= as_nats(ds@));
    }
    let count = ds.len() as u128;
    let avg = sum / count;
    proof {
        assert(avg <= 0xffff_ffffu128) by (nonlinear_arith)
            requires sum <= count * 0xffff_ffffu128, count >= 1, avg == sum / count;
    }
    MinMaxAverage { min, max, avg: avg as u32 }
}

/// In a batch whose pairwise distances all equal `k`, the minimum, the
/// maximum and the average all equal `k`.
pub proof fn law_uniform_summary(s: Seq<nat>, k: nat)
    requires
        s.len() >= 1,
        forall|i: int| 0 <= i < s.len() ==> s[i] == k,
    ensures
        seq_min(s) == k,
        seq_max(s) == k,
        seq_sum(s) / s.len() == k,
    decreases s.len(),
{
    lemma_uniform_sum(s, k);
    let n = s.len();
    assert((n * k) / n == k) by (nonlinear_arith)
        requires n >= 1;
    if s.len() > 1 {
        law_uniform_summary(s.drop_last(), k);
    }
}

proof fn lemma_uniform_sum(s: Seq<nat>, k: nat)
    requires
        forall|i: int| 0 <= i < s.len() ==> s[i] == k,
    ensures
        seq_sum(s) == s.len() * k,
    decreases s.len(),
{
    if s.len() > 0 {
        lemma_uniform_sum(s.drop_last(), k);
        assert(seq_sum(s) == (s.len() - 1) * k + k);
        assert((s.len() - 1) * k + k == s.len() * k) by (nonlinear_arith);
    }
}

} // verus!

verus! {

/// Entry `q` of `labels` and `ends` encodes tree `q` of `ts`.
pub open spec fn encoded_at(labels: Seq<Vec<String>>, ends: Seq<Vec<usize>>, ts: Seq<OrderedTree>, q: int) -> bool {
    &&& labels[q]@.len() == tree_size(ts[q])
    &&& ends[q]@.len() == tree_size(ts[q])
    &&& encodes(labels[q]@, ends[q]@, 0, seq![ts[q]])
}

/// Each entry of `labels` and `ends` encodes the tree of `ts` at its index.
pub open spec fn encoded_batch(labels: Seq<Vec<String>>, ends: Seq<Vec<usize>>, ts: Seq<OrderedTree>) -> bool {
    &&& labels.len() == ts.len()
    &&& ends.len() == ts.len()
    &&& forall|q: int| 0 <= q < ts.len() ==> #[trigger] encoded_at(labels, ends, ts, q)
}

/// Whether every tree of the batch has at most `MAX_NODES` nodes.
pub open spec fn within_limit(ts: Seq<OrderedTree>) -> bool {
    forall|i: int| 0 <= i < ts.len() ==> tree_size(#[trigger] ts[i]) <= MAX_NODES
}

/// Edit-distance summary over every unordered pair of the batch.
#[verifier::loop_isolation(false)]
pub fn calculate(laasts: &[Laast]) -> (r: Result<Similarity, SimilarityError>)
    ensures
        laasts@.len() < 2 ==> r == Err::<Similarity, SimilarityError>(SimilarityError::InsufficientInput),
        laasts@.len() >= 2 && !within_limit(trees_of(laasts@)) ==> r == Err::<Similarity, SimilarityError>(SimilarityError::TooLarge),
        laasts@.len() >= 2 && within_limit(trees_of(laasts@)) ==> match r {
            Ok(s) => {
                &&& s.edit_distance.min as nat == seq_min(pair_distances(trees_of(laasts@)))
                &&& s.edit_distance.max as nat == seq_max(pair_distances(trees_of(laasts@)))
                &&& s.edit_distance.avg as nat == seq_sum(pair_distances(trees_of(laasts@)))
                    / pair_distances(trees_of(laasts@)).len()
            },
            Err(_) => false,
        },
{
    let n = laasts.len();
    if n < 2 {
        return Err(SimilarityError::InsufficientInput);
    }
    let ghost ts = trees_of(laasts@);
    let mut labels: Vec<Vec<String>> = Vec::new();
    let mut ends: Vec<Vec<usize>> = Vec::new();
    let mut i: usize = 0;
    while i < n
        invariant
            i <= n,
            ts == trees_of(laasts@),
            ts.len() == n,
            labels@.len() == i,
            ends@.len() == i,
            forall|q: int| 0 <= q < i ==> tree_size(#[trigger] ts[q]) <= MAX_NODES,
            forall|q: int| 0 <= q < i ==> #[trigger] encoded_at(labels@, ends@, ts, q),
        decreases n - i,
    {
        let ghost old_labels = labels@;
        let ghost old_ends = ends@;
        let (l, e) = flatten(laasts[i].root());
        if l.len() > MAX_NODES {
            proof {
                assert(ts[i as int] == laasts@[i as int].tree());
                assert(!within_limit(ts));
            }
            return Err(SimilarityError::TooLarge);
        }
        labels.push(l);
        ends.push(e);
        proof {
            assert(ts[i as int] == laasts@[i as int].tree());
            assert forall|q: int| 0 <= q <= i implies #[trigger] encoded_at(labels@, ends@, ts, q) by {
                if q < i {
                    assert(encoded_at(old_labels, old_ends, ts, q));
                }
            }
        }
        i = i + 1;
    }
    let mut ds: Vec<u32> = Vec::new();
    let mut a: usize = 0;
    proof {
        assert(as_nats(ds@) =~= pairs_before(ts, 0));
    }
    while a < n
        invariant
            a <= n,
            ts.len() == n,
            labels@.len() == n,
            ends@.len() == n,
            as_nats(ds@) =~= pairs_before(ts, a as int),
            forall|q: int| 0 <= q < n ==> tree_size(#[trigger] ts[q]) <= MAX_NODES,
            encoded_batch(labels@, ends@, ts),
        decreases n - a,
    {
        let mut b: usize = a + 1;
        proof {
            assert(row_distances(ts, a as int).take(0) =~= Seq::<nat>::empty());
            assert(as_nats(ds@) =~= pairs_before(ts, a as int) + row_distances(ts, a as int).take(0));
        }
        while b < n
            invariant
                a < n,
                a + 1 <= b <= n,
                ts.len() == n,
                labels@.len() == n,
                ends@.len() == n,
                as_nats(ds@) =~= pairs_before(ts, a as int) + row_distances(ts, a as int).take(b - a - 1),
                forall|q: int| 0 <= q < n ==> tree_size(#[trigger] ts[q]) <= MAX_NODES,
                encoded_batch(labels@, ends@, ts),
            decreases n - b,
        {
            let ghost ta = ts[a as int];
            let ghost tb = ts[b as int];
            proof {
                assert(encoded_at(labels@, ends@, ts, a as int));
                assert(encoded_at(labels@, ends@, ts, b as int));
                assert(labels@[a as int]@.len() == tree_size(ta));
                assert(labels@[b as int]@.len() == tree_size(tb));
                lemma_forest_size_single(ta);
                lemma_forest_size_single(tb);
                lemma_encodes_nested(labels@[a as int]@, ends@[a as int]@, 0, seq![ta]);
                lemma_encodes_nested(labels@[b as int]@, ends@[b as int]@, 0, seq![tb]);
                lemma_flat_distance_matches(
                    labels@[a as int]@, ends@[a as int]@, labels@[b as int]@, ends@[b as int]@,
                    0, 0, seq![ta], seq![tb]);
                crate::flat::lemma_flat_distance_bound(
                    labels@[a as int]@, ends@[a as int]@, labels@[b as int]@, ends@[b as int]@,
                    0, tree_size(ta) as int, 0, tree_size(tb) as int);
            }
            let d = encoded_distance(&labels[a], &ends[a], &labels[b], &ends[b]);
            let ghost before = as_nats(ds@);
            ds.push(d as u32);
            proof {
                let row = row_distances(ts, a as int);
                assert(row[b - a - 1] == tree_distance(ta, tb));
                assert(row.take(b - a) =~= row.take(b - a - 1).push(row[b - a - 1]));
                assert(as_nats(ds@) =~= before.push(d as nat));
            }
            b = b + 1;
        }
        proof {
            let row = row_distances(ts, a as int);
            assert(row.take(b - a - 1) =~= row);
            assert(pairs_before(ts, a + 1) == pairs_before(ts, a as int) + row);
        }
        a = a + 1;
    }
    proof {
        assert(pair_distances(ts) =~= pairs_before(ts, n as int));
        assert(row_distances(ts, 0).len() == n - 1);
        lemma_pairs_len(ts, n as int);
    }
    Ok(Similarity { edit_distance: summarize(&ds) })
}

proof fn lemma_pairs_len(ts: Seq<OrderedTree>, upto: int)
    requires
        1 <= upto <= ts.len(),
    ensures
        pairs_before(ts, upto).len() >= ts.len() - 1,
    decreases upto,
{
    if upto > 1 {
        lemma_pairs_len(ts, upto - 1);
    } else {
        assert(pairs_before(ts, 0) =~= Seq::<nat>::empty());
    }
}

} // verus!

verus! {

/// For a batch of two trees, the minimum, the maximum and the average are
/// all the distance between them; together with the metric and
/// leaf-insertion laws of the distance, these carry over to `calculate`.
pub proof fn law_two_tree_batch(a: OrderedTree, b: OrderedTree)
    ensures
        pair_distances(seq![a, b]) == seq![tree_distance(a, b)],
        seq_min(pair_distances(seq![a, b])) == tree_distance(a, b),
        seq_max(pair_distances(seq![a, b])) == tree_distance(a, b),
        seq_sum(pair_distances(seq![a, b])) / pair_distances(seq![a, b]).len() == tree_distance(a, b),
{
    let ts = seq![a, b];
    assert(pairs_before(ts, 0) =~= Seq::<nat>::empty());
    assert(row_distances(ts, 0) =~= seq![tree_distance(a, b)]);
    assert(row_distances(ts, 1) =~= Seq::<nat>::empty());
    assert(pairs_before(ts, 1) =~= seq![tree_distance(a, b)]);
    assert(pairs_before(ts, 2) =~= seq![tree_distance(a, b)]);
    law_uniform_summary(seq![tree_distance(a, b)], tree_distance(a, b));
}

proof fn lemma_pairs_uniform(ts: Seq<OrderedTree>, upto: int, k: nat)
    requires
        0 <= upto <= ts.len(),
        forall|i: int, j: int| 0 <= i < j < ts.len() ==> #[trigger] tree_distance(ts[i], ts[j]) == k,
    ensures
        forall|q: int| 0 <= q < pairs_before(ts, upto).len() ==> #[trigger] pairs_before(ts, upto)[q] == k,
    decreases upto,
{
    if upto > 0 {
        lemma_pairs_uniform(ts, upto - 1, k);
        let prev = pairs_before(ts, upto - 1);
        let row = row_distances(ts, upto - 1);
        assert forall|q: int| 0 <= q < pairs_before(ts, upto).len() implies #[trigger] pairs_before(ts, upto)[q] == k by {
            if q >= prev.len() {
                assert(pairs_before(ts, upto)[q] == row[q - prev.len()]);
                assert(row[q - prev.len()] == tree_distance(ts[upto - 1], ts[upto + (q - prev.len())]));
            }
        }
    }
}

/// A batch of at least two trees whose pairwise distances all equal `k` has
/// minimum, maximum and average `k`.
pub proof fn law_uniform_batch(ts: Seq<OrderedTree>, k: nat)
    requires
        ts.len() >= 2,
        forall|i: int, j: int| 0 <= i < j < ts.len() ==> #[trigger] tree_distance(ts[i], ts[j]) == k,
    ensures
        seq_min(pair_distances(ts)) == k,
        seq_max(pair_distances(ts)) == k,
        seq_sum(pair_distances(ts)) / pair_distances(ts).len() == k,
{
    lemma_pairs_uniform(ts, ts.len() as int, k);
    lemma_pairs_len(ts, ts.len() as int);
    law_uniform_summary(pair_distances(ts), k);
}

} // verus!
