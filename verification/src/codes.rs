//! The code table: each byte value's bit-code, read off the tree.
//!
//! A byte's code is its root-to-leaf path, `false` for a left turn and
//! `true` for a right one. A tree whose root is a lone leaf has no such
//! path, so that one byte gets the one-bit code `false` instead.

use vstd::prelude::*;
use vstd::std_specs::hash::group_hash_axioms;
use std::collections::HashMap;

use crate::bits::{spec_bits, bv_new, bv_push, bv_clone};
use crate::node::{Node, num_leaves, wf, is_leaf, is_internal};
use crate::queue::leaf_vals;

verus! {

broadcast use group_hash_axioms;

/// The root-to-leaf path of `b` in `t`: `false` descends left, `true`
/// descends right. When both subtrees hold a leaf for `b`, the path through
/// the right subtree is the byte's code, since a table built by traversal
/// records the right occurrence last.
pub open spec fn code_of(t: Node, b: u8) -> Seq<bool>
    recommends
        leaf_vals(t).contains(b),
    decreases t,
{
    match t.value {
        Some(_) => Seq::empty(),
        None => match (t.left, t.right) {
            (Some(l), Some(r)) => if leaf_vals(*r).contains(b) {
                seq![true] + code_of(*r, b)
            } else {
                seq![false] + code_of(*l, b)
            },
            _ => Seq::empty(),
        },
    }
}

/// The code the table assigns to `b`: the root-to-leaf path, except that
/// the lone leaf of a single-leaf tree gets the one-bit code `false`.
pub open spec fn table_code(t: Node, b: u8) -> Seq<bool>
    recommends
        leaf_vals(t).contains(b),
{
    if is_leaf(t) {
        seq![false]
    } else {
        code_of(t, b)
    }
}

/// `a` is a prefix of `b`.
pub open spec fn is_prefix(a: Seq<bool>, b: Seq<bool>) -> bool {
    a.len() <= b.len() && a == b.subrange(0, a.len() as int)
}

/// A code is shorter than the leaf count: no path revisits a subtree.
pub proof fn lemma_code_len(t: Node, b: u8)
    requires
        wf(t),
        leaf_vals(t).contains(b),
    ensures
        code_of(t, b).len() < num_leaves(t),
    decreases t,
{
    if t.value is Some {
    } else {
        match (t.left, t.right) {
            (Some(l), Some(r)) => {
                crate::node::lemma_export_len(*l);
                crate::node::lemma_export_len(*r);
                if leaf_vals(*r).contains(b) {
                    lemma_code_len(*r, b);
                } else {
                    lemma_code_len(*l, b);
                }
            },
            _ => {},
        }
    }
}

/// Prefix-free codes: in any tree with at least two leaves, no byte's code
/// is a prefix of another byte's code.
pub proof fn lemma_prefix_free(t: Node, b1: u8, b2: u8)
    requires
        wf(t),
        is_internal(t),
        leaf_vals(t).contains(b1),
        leaf_vals(t).contains(b2),
        b1 != b2,
    ensures
        !is_prefix(code_of(t, b1), code_of(t, b2)),
    decreases t,
{
    match (t.left, t.right) {
        (Some(l), Some(r)) => {
            let c1 = code_of(t, b1);
            let c2 = code_of(t, b2);
            let in_r1 = leaf_vals(*r).contains(b1);
            let in_r2 = leaf_vals(*r).contains(b2);
            if in_r1 != in_r2 {
                assert(c1[0] != c2[0]);
                assert(!is_prefix(c1, c2)) by {
                    if is_prefix(c1, c2) {
                        assert(c1[0] == c2.subrange(0, c1.len() as int)[0]);
                    }
                }
            } else {
                let child = if in_r1 {
                    *r
                } else {
                    *l
                };
                let d1 = code_of(child, b1);
                let d2 = code_of(child, b2);
                assert(c1 == seq![in_r1] + d1);
                assert(c2 == seq![in_r1] + d2);
                if is_leaf(child) {
                    assert(leaf_vals(child) =~= Set::<u8>::empty().insert(
                        child.value.unwrap(),
                    ));
                    assert(false);
                } else {
                    assert(wf(*l) && wf(*r));
                    assert(wf(child));
                    assert(child.value is None);
                    assert(is_internal(child));
                    lemma_prefix_free(child, b1, b2);
                    assert(!is_prefix(c1, c2)) by {
                        if is_prefix(c1, c2) {
                            assert(d1 =~= d2.subrange(0, d1.len() as int)) by {
                                assert forall|k: int| 0 <= k < d1.len() implies d1[k] == d2[k] by {
                                    assert(c1[k + 1] == c2.subrange(0, c1.len() as int)[k + 1]);
                                }
                            }
                            assert(is_prefix(d1, d2));
                        }
                    }
                }
            }
        },
        _ => {},
    }
}

/// Record into `map`, under the path `prefix`, the code of every leaf of
/// the subtree `node`; entries for other bytes stay untouched. Where both
/// subtrees hold a leaf for a byte, the right subtree's path, recorded
/// last, wins.
fn collect_codes(node: &Node, prefix: bit_vec::BitVec, map: &mut HashMap<u8, bit_vec::BitVec>)
    requires
        wf(*node),
        spec_bits(prefix).len() + num_leaves(*node) <= usize::MAX,
    ensures
        forall|b: u8| #[trigger]
            leaf_vals(*node).contains(b) ==> final(map)@.contains_key(b) && spec_bits(
                final(map)@[b],
            ) == spec_bits(prefix) + code_of(*node, b),
        forall|b: u8|
            !leaf_vals(*node).contains(b) ==> ((#[trigger] final(map)@.contains_key(b)) == old(
                map,
            )@.contains_key(b) && (old(map)@.contains_key(b) ==> final(map)@[b] == old(map)@[b])),
    decreases *node,
{
    let ghost p = spec_bits(prefix);
    match node.value {
        Some(v) => {
            proof {
                assert(leaf_vals(*node) =~= Set::<u8>::empty().insert(v));
                assert(p + code_of(*node, v) =~= p);
            }
            map.insert(v, prefix);
        },
        None => {
            match (&node.left, &node.right) {
                (Some(l), Some(r)) => {
                    proof {
                        crate::node::lemma_export_len(**l);
                        crate::node::lemma_export_len(**r);
                    }
                    let mut lp = bv_clone(&prefix);
                    bv_push(&mut lp, false);
                    collect_codes(l, lp, map);
                    let ghost mid = map@;
                    let mut rp = prefix;
                    bv_push(&mut rp, true);
                    collect_codes(r, rp, map);
                    proof {
                        assert forall|b: u8| #[trigger]
                            leaf_vals(*node).contains(b) implies map@.contains_key(b) && spec_bits(
                            map@[b],
                        ) == p + code_of(*node, b) by {
                            if leaf_vals(**r).contains(b) {
                                assert(spec_bits(map@[b]) == p.push(true) + code_of(**r, b));
                                assert(p.push(true) + code_of(**r, b) =~= p + (seq![true]
                                    + code_of(**r, b)));
                            } else {
                                assert(leaf_vals(**l).contains(b));
                                assert(mid.contains_key(b) && spec_bits(mid[b]) == p.push(false)
                                    + code_of(**l, b));
                                assert(!leaf_vals(**r).contains(b));
                                assert(map@.contains_key(b) == mid.contains_key(b));
                                assert(map@[b] == mid[b]);
                                assert(p.push(false) + code_of(**l, b) =~= p + (seq![false]
                                    + code_of(**l, b)));
                            }
                        }
                        assert forall|b: u8|
                            !leaf_vals(*node).contains(b) implies ((#[trigger] map@.contains_key(b))
                            == old(map)@.contains_key(b) && (old(map)@.contains_key(b)
                            ==> map@[b] == old(map)@[b])) by {
                            assert(!leaf_vals(**l).contains(b) && !leaf_vals(**r).contains(b));
                        }
                    }
                },
                _ => {
                    proof {
                        assert(false);
                    }
                },
            }
        },
    }
}

/// Derive the code table from a tree: each leaf byte value mapped to its
/// bit-code. The lone leaf of a single-leaf tree gets the one-bit code
/// `false`, since a lone root has no root-to-leaf path.
pub fn tree_to_bit_hash_map(head: Node) -> (m: HashMap<u8, bit_vec::BitVec>)
    requires
        wf(head),
        num_leaves(head) <= 256,
    ensures
        forall|b: u8| #[trigger]
            leaf_vals(head).contains(b) ==> m@.contains_key(b) && spec_bits(m@[b]) == table_code(
                head,
                b,
            ),
        forall|b: u8| !leaf_vals(head).contains(b) ==> !(#[trigger] m@.contains_key(b)),
{
    let mut map: HashMap<u8, bit_vec::BitVec> = HashMap::new();
    match head.value {
        Some(v) => {
            let mut code = bv_new();
            bv_push(&mut code, false);
            proof {
                assert(leaf_vals(head) =~= Set::<u8>::empty().insert(v));
                assert(Seq::<bool>::empty().push(false) =~= seq![false]);
            }
            map.insert(v, code);
        },
        None => {
            let prefix = bv_new();
            collect_codes(&head, prefix, &mut map);
            proof {
                assert forall|b: u8| #[trigger] leaf_vals(head).contains(b) implies spec_bits(
                    map@[b],
                ) == table_code(head, b) by {
                    assert(Seq::<bool>::empty() + code_of(head, b) =~= code_of(head, b));
                }
            }
        },
    }
    map
}

/// Walk the tree from `t`, one bit per step from position `pos`, until a
/// leaf: the decoded byte and the position after the bits consumed, or
/// `None` when the bits run out mid-walk.
pub open spec fn spec_walk(t: Node, bits: Seq<bool>, pos: int) -> Option<(u8, int)>
    decreases t,
{
    match t.value {
        Some(v) => Some((v, pos)),
        None => match (t.left, t.right) {
            (Some(l), Some(r)) => if 0 <= pos < bits.len() {
                if bits[pos] {
                    spec_walk(*r, bits, pos + 1)
                } else {
                    spec_walk(*l, bits, pos + 1)
                }
            } else {
                None
            },
            _ => None,
        },
    }
}

/// A successful walk never passes the end of the bits, and from an internal
/// node it consumes at least one bit.
pub proof fn lemma_walk_bounds(t: Node, bits: Seq<bool>, pos: int)
    requires
        wf(t),
        0 <= pos <= bits.len(),
        spec_walk(t, bits, pos) is Some,
    ensures
        ({
            let (b, p2) = spec_walk(t, bits, pos).unwrap();
            &&& pos <= p2 <= bits.len()
            &&& (is_internal(t) ==> pos < p2)
            &&& leaf_vals(t).contains(b)
        }),
    decreases t,
{
    match t.value {
        Some(v) => {
            assert(leaf_vals(t) =~= Set::<u8>::empty().insert(v));
        },
        None => {
            match (t.left, t.right) {
                (Some(l), Some(r)) => {
                    if bits[pos] {
                        lemma_walk_bounds(*r, bits, pos + 1);
                    } else {
                        lemma_walk_bounds(*l, bits, pos + 1);
                    }
                },
                _ => {},
            }
        },
    }
}

/// A walk starved of bits fails: where the bits up to their end spell only
/// a strict prefix of a byte's code, the walk never reaches a leaf.
pub proof fn lemma_walk_partial(t: Node, b: u8, bits: Seq<bool>, pos: int)
    requires
        wf(t),
        leaf_vals(t).contains(b),
        0 <= pos <= bits.len(),
        bits.len() - pos < code_of(t, b).len(),
        forall|k: int| 0 <= k < bits.len() - pos ==> bits[pos + k] == code_of(t, b)[k],
    ensures
        spec_walk(t, bits, pos) is None,
    decreases t,
{
    match (t.left, t.right) {
        (Some(l), Some(r)) => {
            if pos < bits.len() {
                let c = code_of(t, b);
                let child = if leaf_vals(*r).contains(b) {
                    *r
                } else {
                    *l
                };
                let d = code_of(child, b);
                assert(c == seq![leaf_vals(*r).contains(b)] + d);
                assert(bits[pos] == c[0]);
                assert(d.len() >= 1);
                assert(!is_leaf(child));
                assert(wf(child));
                assert(leaf_vals(*l).contains(b) || leaf_vals(*r).contains(b));
                assert forall|k: int| 0 <= k < bits.len() - (pos + 1) implies bits[pos + 1 + k]
                    == d[k] by {
                    assert(bits[pos + (k + 1)] == c[k + 1]);
                }
                lemma_walk_partial(child, b, bits, pos + 1);
            }
        },
        _ => {},
    }
}

/// Dropping the weights changes no leaf value and no code.
pub proof fn lemma_strip_codes(t: Node)
    requires
        wf(t),
    ensures
        leaf_vals(crate::node::strip(t)) =~= leaf_vals(t),
        is_leaf(crate::node::strip(t)) == is_leaf(t),
        is_internal(crate::node::strip(t)) == is_internal(t),
        forall|b: u8|
            leaf_vals(t).contains(b) ==> #[trigger] code_of(crate::node::strip(t), b) == code_of(
                t,
                b,
            ),
    decreases t,
{
    let st = crate::node::strip(t);
    match (t.left, t.right) {
        (Some(l), Some(r)) => {
            lemma_strip_codes(*l);
            lemma_strip_codes(*r);
            assert forall|b: u8| leaf_vals(t).contains(b) implies #[trigger] code_of(st, b)
                == code_of(t, b) by {
                if leaf_vals(*r).contains(b) {
                    assert(code_of(st, b) == seq![true] + code_of(crate::node::strip(*r), b));
                } else {
                    assert(code_of(st, b) == seq![false] + code_of(crate::node::strip(*l), b));
                }
            }
        },
        _ => {},
    }
}

/// Decoding inverts encoding one symbol at a time: where the bits at `pos`
/// spell the code of `b`, the walk reaches the leaf for `b` and consumes
/// exactly the code.
pub proof fn lemma_walk_code(t: Node, b: u8, bits: Seq<bool>, pos: int)
    requires
        wf(t),
        leaf_vals(t).contains(b),
        0 <= pos,
        pos + code_of(t, b).len() <= bits.len(),
        bits.subrange(pos, pos + code_of(t, b).len()) == code_of(t, b),
    ensures
        spec_walk(t, bits, pos) == Some((b, pos + code_of(t, b).len())),
    decreases t,
{
    match t.value {
        Some(v) => {
            assert(leaf_vals(t) =~= Set::<u8>::empty().insert(v));
        },
        None => {
            match (t.left, t.right) {
                (Some(l), Some(r)) => {
                    let c = code_of(t, b);
                    let child = if leaf_vals(*r).contains(b) {
                        *r
                    } else {
                        *l
                    };
                    let d = code_of(child, b);
                    assert(c == seq![leaf_vals(*r).contains(b)] + d);
                    assert(bits[pos] == c[0]);
                    assert(bits.subrange(pos + 1, pos + 1 + d.len()) =~= d) by {
                        assert forall|k: int| 0 <= k < d.len() implies bits.subrange(
                            pos + 1,
                            pos + 1 + d.len(),
                        )[k] == d[k] by {
                            assert(bits.subrange(pos, pos + c.len())[k + 1] == c[k + 1]);
                        }
                    }
                    assert(leaf_vals(*l).contains(b) || leaf_vals(*r).contains(b));
                    lemma_walk_code(child, b, bits, pos + 1);
                },
                _ => {},
            }
        },
    }
}

} // verus!
