//! A deterministic min-priority queue of tree nodes, and Huffman's merge.
//!
//! Ties on weight are broken by insertion order: the earliest-inserted node
//! among those of least weight leaves first. A fixed tie-break keeps tree
//! construction reproducible across runs, which the round trip and any
//! future canonical-code work depend on.

use vstd::prelude::*;

use crate::histogram::sum_counts;
use crate::node::{Node, num_leaves, wf};
use crate::HufError;

verus! {

/// The set of byte values at the leaves of a tree.
pub open spec fn leaf_vals(n: Node) -> Set<u8>
    decreases n,
{
    match n.value {
        Some(v) => Set::empty().insert(v),
        None => match (n.left, n.right) {
            (Some(l), Some(r)) => leaf_vals(*l).union(leaf_vals(*r)),
            _ => Set::empty(),
        },
    }
}

/// The set of byte values at the leaves of any tree in the sequence.
pub open spec fn seq_leaf_vals(s: Seq<Node>) -> Set<u8>
    decreases s.len(),
{
    if s.len() == 0 {
        Set::empty()
    } else {
        seq_leaf_vals(s.drop_last()).union(leaf_vals(s.last()))
    }
}

/// The total number of leaves over the sequence.
pub open spec fn seq_num_leaves(s: Seq<Node>) -> nat
    decreases s.len(),
{
    if s.len() == 0 {
        0
    } else {
        seq_num_leaves(s.drop_last()) + num_leaves(s.last())
    }
}

/// The total weight over the sequence.
pub open spec fn sum_weights(s: Seq<Node>) -> int
    decreases s.len(),
{
    if s.len() == 0 {
        0
    } else {
        sum_weights(s.drop_last()) + s.last().weight
    }
}

/// The index of the first node of least weight: the node the queue hands
/// out next.
pub open spec fn min_idx(s: Seq<Node>) -> int
    recommends
        s.len() > 0,
    decreases s.len(),
{
    if s.len() <= 1 {
        0
    } else {
        let m = min_idx(s.drop_last());
        if s.last().weight < s[m].weight {
            s.len() - 1
        } else {
            m
        }
    }
}

/// `min_idx` points at a least-weight node, and at the first one: every
/// earlier node is strictly heavier.
pub proof fn lemma_min_idx(s: Seq<Node>)
    requires
        s.len() > 0,
    ensures
        0 <= min_idx(s) < s.len(),
        forall|j: int| 0 <= j < s.len() ==> s[min_idx(s)].weight <= (#[trigger] s[j]).weight,
        forall|j: int| 0 <= j < min_idx(s) ==> (#[trigger] s[j]).weight > s[min_idx(s)].weight,
    decreases s.len(),
{
    if s.len() > 1 {
        let d = s.drop_last();
        lemma_min_idx(d);
        let m = min_idx(d);
        assert(forall|j: int| 0 <= j < d.len() ==> #[trigger] s[j] == d[j]);
        assert(s.last() == s[s.len() - 1]);
        if s.last().weight < s[m].weight {
            assert(min_idx(s) == s.len() - 1);
        } else {
            assert(min_idx(s) == m);
        }
    }
}

/// Removing a node takes exactly its weight out of the total.
pub proof fn lemma_sum_weights_remove(s: Seq<Node>, i: int)
    requires
        0 <= i < s.len(),
    ensures
        sum_weights(s.remove(i)) == sum_weights(s) - s[i].weight,
    decreases s.len(),
{
    if i == s.len() - 1 {
        assert(s.remove(i) =~= s.drop_last());
    } else {
        assert(s.remove(i).drop_last() =~= s.drop_last().remove(i));
        lemma_sum_weights_remove(s.drop_last(), i);
    }
}

/// No weight is negative, so no partial sum is.
pub proof fn lemma_sum_weights_nonneg(s: Seq<Node>)
    ensures
        sum_weights(s) >= 0,
    decreases s.len(),
{
    if s.len() > 0 {
        lemma_sum_weights_nonneg(s.drop_last());
    }
}

/// Removing a node takes exactly its leaves out of the total.
pub proof fn lemma_seq_num_leaves_remove(s: Seq<Node>, i: int)
    requires
        0 <= i < s.len(),
    ensures
        seq_num_leaves(s.remove(i)) + num_leaves(s[i]) == seq_num_leaves(s),
    decreases s.len(),
{
    if i == s.len() - 1 {
        assert(s.remove(i) =~= s.drop_last());
    } else {
        assert(s.remove(i).drop_last() =~= s.drop_last().remove(i));
        lemma_seq_num_leaves_remove(s.drop_last(), i);
    }
}

/// Removing a node leaves all the other leaf values in place.
pub proof fn lemma_seq_leaf_vals_remove(s: Seq<Node>, i: int)
    requires
        0 <= i < s.len(),
    ensures
        seq_leaf_vals(s.remove(i)).union(leaf_vals(s[i])) =~= seq_leaf_vals(s),
    decreases s.len(),
{
    if i == s.len() - 1 {
        assert(s.remove(i) =~= s.drop_last());
    } else {
        assert(s.remove(i).drop_last() =~= s.drop_last().remove(i));
        lemma_seq_leaf_vals_remove(s.drop_last(), i);
    }
}

/// The internal node that merges the two least nodes of a queue step.
pub open spec fn merge2(a: Node, b: Node) -> Node {
    Node {
        value: None,
        weight: (a.weight + b.weight) as usize,
        left: Some(Box::new(a)),
        right: Some(Box::new(b)),
    }
}

/// Huffman's algorithm over a queue snapshot: repeatedly merge the two
/// least-weight nodes, the earlier-inserted first on ties and becoming the
/// left child, until one tree remains. `None` on an empty queue.
pub open spec fn spec_merge(s: Seq<Node>) -> Option<Node>
    decreases s.len(),
{
    if s.len() == 0 {
        None
    } else if s.len() == 1 {
        Some(s[0])
    } else {
        let i = min_idx(s);
        if 0 <= i < s.len() {
            let a = s[i];
            let s1 = s.remove(i);
            let j = min_idx(s1);
            if 0 <= j < s1.len() {
                let b = s1[j];
                let s2 = s1.remove(j);
                spec_merge(s2.push(merge2(a, b)))
            } else {
                None
            }
        } else {
            None
        }
    }
}

/// Merging well-formed trees yields a well-formed tree that keeps every
/// leaf: the leaf values and the leaf count carry over unchanged, and the
/// merge succeeds exactly when the queue is not empty.
pub proof fn lemma_merge_props(s: Seq<Node>)
    requires
        forall|k: int| 0 <= k < s.len() ==> wf(#[trigger] s[k]),
    ensures
        spec_merge(s) is Some <==> s.len() > 0,
        s.len() > 0 ==> wf(spec_merge(s).unwrap()),
        s.len() > 0 ==> leaf_vals(spec_merge(s).unwrap()) =~= seq_leaf_vals(s),
        s.len() > 0 ==> num_leaves(spec_merge(s).unwrap()) == seq_num_leaves(s),
    decreases s.len(),
{
    if s.len() == 0 {
    } else if s.len() == 1 {
        assert(s.drop_last() =~= Seq::<Node>::empty());
        assert(seq_leaf_vals(s.drop_last()) =~= Set::<u8>::empty());
        assert(s.last() == s[0]);
        assert(seq_leaf_vals(s) =~= leaf_vals(s[0]));
        assert(seq_num_leaves(s.drop_last()) == 0);
        assert(seq_num_leaves(s) == num_leaves(s[0]));
    } else {
        let i = min_idx(s);
        lemma_min_idx(s);
        let a = s[i];
        let s1 = s.remove(i);
        let j = min_idx(s1);
        lemma_min_idx(s1);
        let b = s1[j];
        let s2 = s1.remove(j);
        let m = merge2(a, b);
        let s3 = s2.push(m);
        assert(wf(m));
        assert(leaf_vals(m) =~= leaf_vals(a).union(leaf_vals(b)));
        assert(num_leaves(m) == num_leaves(a) + num_leaves(b));
        assert(forall|k: int| 0 <= k < s3.len() ==> wf(#[trigger] s3[k]));
        lemma_merge_props(s3);
        assert(s3.drop_last() =~= s2);
        assert(s3.last() == m);
        lemma_seq_leaf_vals_remove(s, i);
        lemma_seq_leaf_vals_remove(s1, j);
        lemma_seq_num_leaves_remove(s, i);
        lemma_seq_num_leaves_remove(s1, j);
        assert(seq_leaf_vals(s3) =~= seq_leaf_vals(s));
        assert(seq_num_leaves(s3) == seq_num_leaves(s));
    }
}

/// A min-priority queue of tree nodes that keeps insertion order, so that
/// weight ties resolve to the earliest-inserted node.
pub struct MinQueue {
    nodes: Vec<Node>,
}

impl View for MinQueue {
    type V = Seq<Node>;

    closed spec fn view(&self) -> Seq<Node> {
        self.nodes@
    }
}

impl MinQueue {
    /// An empty queue.
    pub fn new() -> (q: Self)
        ensures
            q@ == Seq::<Node>::empty(),
    {
        MinQueue { nodes: Vec::new() }
    }

    /// How many nodes wait in the queue.
    pub fn len(&self) -> (n: usize)
        ensures
            n == self@.len(),
    {
        self.nodes.len()
    }

    /// Insert a node behind every node already present.
    pub fn push(&mut self, n: Node)
        ensures
            final(self)@ == old(self)@.push(n),
    {
        self.nodes.push(n);
    }

    /// Remove and return the first node of least weight, or `None` when the
    /// queue is empty.
    pub fn pop_min(&mut self) -> (r: Option<Node>)
        ensures
            old(self)@.len() == 0 ==> r is None && final(self)@ == old(self)@,
            old(self)@.len() > 0 ==> {
                &&& r == Some(old(self)@[min_idx(old(self)@)])
                &&& final(self)@ == old(self)@.remove(min_idx(old(self)@))
            },
    {
        if self.nodes.len() == 0 {
            return None;
        }
        let ghost s = self@;
        let mut best: usize = 0;
        let mut j: usize = 1;
        while j < self.nodes.len()
            invariant
                self@ == s,
                1 <= j <= s.len(),
                best < j,
                best as int == min_idx(s.take(j as int)),
            decreases s.len() - j,
        {
            proof {
                assert(s.take(j as int + 1).drop_last() =~= s.take(j as int));
                assert(s.take(j as int + 1).last() == s[j as int]);
                lemma_min_idx(s.take(j as int));
            }
            if self.nodes[j].weight < self.nodes[best].weight {
                best = j;
            }
            j = j + 1;
        }
        proof {
            assert(s.take(s.len() as int) =~= s);
        }
        let node = self.nodes.remove(best);
        Some(node)
    }
}

/// A leaf for byte value `v` occurring `w` times.
pub open spec fn leaf_node(v: u8, w: usize) -> Node {
    Node { value: Some(v), weight: w, left: None, right: None }
}

/// The leaves a compression run seeds the queue with: one per byte value
/// with a positive count, in increasing byte order. Byte order is the
/// insertion order, which fixes how weight ties break.
pub open spec fn leaves_of_counts(counts: Seq<usize>, upto: int) -> Seq<Node>
    decreases upto,
{
    if upto <= 0 {
        Seq::empty()
    } else {
        let prefix = leaves_of_counts(counts, upto - 1);
        if counts[upto - 1] > 0 {
            prefix.push(leaf_node((upto - 1) as u8, counts[upto - 1]))
        } else {
            prefix
        }
    }
}

/// The seeded queue holds well-formed single-leaf trees, at most one per
/// byte value, whose total weight is the total of the counts, and a leaf
/// for every byte value with a positive count.
pub proof fn lemma_leaves_of_counts(counts: Seq<usize>, upto: int)
    requires
        counts.len() == 256,
        0 <= upto <= 256,
    ensures
        forall|k: int|
            0 <= k < leaves_of_counts(counts, upto).len() ==> wf(
                #[trigger] leaves_of_counts(counts, upto)[k],
            ),
        seq_num_leaves(leaves_of_counts(counts, upto)) <= upto,
        sum_weights(leaves_of_counts(counts, upto)) == sum_counts(counts.take(upto)),
        forall|v: u8|
            v < upto && counts[v as int] > 0 ==> seq_leaf_vals(
                leaves_of_counts(counts, upto),
            ).contains(v),
        (exists|j: int| 0 <= j < upto && counts[j] > 0) ==> leaves_of_counts(
            counts,
            upto,
        ).len() > 0,
    decreases upto,
{
    if upto <= 0 {
        assert(counts.take(0) =~= Seq::<usize>::empty());
    } else {
        lemma_leaves_of_counts(counts, upto - 1);
        let prefix = leaves_of_counts(counts, upto - 1);
        assert(counts.take(upto).drop_last() =~= counts.take(upto - 1));
        assert(counts.take(upto).last() == counts[upto - 1]);
        if counts[upto - 1] > 0 {
            let leaf = leaf_node((upto - 1) as u8, counts[upto - 1]);
            let s = prefix.push(leaf);
            assert(s.drop_last() =~= prefix);
            assert(s.last() == leaf);
            assert(wf(leaf));
            assert(leaf_vals(leaf) =~= Set::<u8>::empty().insert((upto - 1) as u8));
            assert forall|v: u8| v < upto && counts[v as int] > 0 implies seq_leaf_vals(
                s,
            ).contains(v) by {
                if v < upto - 1 {
                    assert(seq_leaf_vals(prefix).contains(v));
                } else {
                    assert(leaf_vals(leaf).contains(v));
                }
            }
        }
    }
}

/// Seed a queue from the byte counts: one leaf per byte value with a
/// positive count, inserted in increasing byte order.
pub fn counts_to_heap(counts: Vec<usize>) -> (q: MinQueue)
    requires
        counts@.len() == 256,
    ensures
        q@ == leaves_of_counts(counts@, 256),
{
    let mut q = MinQueue::new();
    let mut idx: usize = 0;
    while idx < 256
        invariant
            counts@.len() == 256,
            idx <= 256,
            q@ == leaves_of_counts(counts@, idx as int),
        decreases 256 - idx,
    {
        let count = counts[idx];
        if count > 0 {
            q.push(Node { value: Some(idx as u8), weight: count, left: None, right: None });
        }
        idx = idx + 1;
    }
    q
}

/// Build the Huffman tree: repeatedly merge the two least-weight nodes,
/// the first popped becoming the left child, until one tree remains. Fails
/// only on an empty queue, when there is nothing to encode.
pub fn heap_to_tree(heap: MinQueue) -> (r: Result<Node, HufError>)
    requires
        sum_weights(heap@) <= usize::MAX,
    ensures
        match spec_merge(heap@) {
            Some(t) => r == Ok::<Node, HufError>(t),
            None => r == Err::<Node, HufError>(HufError::EmptyInput),
        },
        heap@.len() == 0 <==> r is Err,
{
    let ghost orig = heap@;
    let mut q = heap;
    while q.len() > 1
        invariant
            spec_merge(q@) == spec_merge(orig),
            sum_weights(q@) == sum_weights(orig),
            sum_weights(orig) <= usize::MAX,
            q@.len() == 0 <==> orig.len() == 0,
        decreases q@.len(),
    {
        let ghost s = q@;
        proof {
            lemma_min_idx(s);
        }
        let a = q.pop_min().unwrap();
        let ghost s1 = q@;
        proof {
            lemma_min_idx(s1);
            lemma_sum_weights_remove(s, min_idx(s));
        }
        let b = q.pop_min().unwrap();
        let ghost s2 = q@;
        proof {
            lemma_sum_weights_remove(s1, min_idx(s1));
            lemma_sum_weights_nonneg(s2);
        }
        let node = Node {
            value: None,
            weight: a.weight + b.weight,
            left: Some(Box::new(a)),
            right: Some(Box::new(b)),
        };
        q.push(node);
        proof {
            assert(node == merge2(s[min_idx(s)], s1[min_idx(s1)]));
            assert(q@ == s2.push(merge2(s[min_idx(s)], s1[min_idx(s1)])));
            assert(spec_merge(s) == spec_merge(q@));
            assert(q@.drop_last() =~= s2);
            assert(sum_weights(q@) == sum_weights(orig));
        }
    }
    let ghost fin = q@;
    match q.pop_min() {
        Some(head) => {
            proof {
                assert(fin.len() == 1);
                assert(spec_merge(fin) == Some(fin[0]));
            }
            Ok(head)
        },
        None => Err(HufError::EmptyInput),
    }
}

} // verus!
