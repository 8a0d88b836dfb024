//! The Huffman tree and its self-delimiting serialized form.
//!
//! A tree is serialized in pre-order: a leaf is the bit `1` followed by the
//! leaf's eight-bit value, an internal node is the bit `0` followed by the
//! serialized left subtree and then the serialized right subtree. The grammar
//! needs no length prefix: a reader consumes exactly one well-formed tree.
//! Weights are deliberately not serialized; a decoder never needs them.

use vstd::prelude::*;

use crate::bits::{byte_to_bits, bits_to_byte, spec_bits, bv_new, bv_push, bv_get, bv_len};
use crate::HufError;

verus! {

/// One node of a Huffman tree. A leaf holds `Some` byte value and no
/// children; an internal node holds `None` and both children.
#[derive(Debug, PartialEq, Eq)]
pub struct Node {
    pub value: Option<u8>,
    pub weight: usize,
    pub left: Option<Box<Node>>,
    pub right: Option<Box<Node>>,
}

/// A leaf: a byte value and no children.
pub open spec fn is_leaf(n: Node) -> bool {
    n.value is Some && n.left is None && n.right is None
}

/// An internal node: no value of its own, both children present.
pub open spec fn is_internal(n: Node) -> bool {
    n.value is None && n.left is Some && n.right is Some
}

/// Well-formed tree: every node is either a leaf or an internal node with
/// two well-formed subtrees.
pub open spec fn wf(n: Node) -> bool
    decreases n,
{
    if n.value is Some {
        n.left is None && n.right is None
    } else {
        match (n.left, n.right) {
            (Some(l), Some(r)) => wf(*l) && wf(*r),
            _ => false,
        }
    }
}

/// The number of leaves of a tree.
pub open spec fn num_leaves(n: Node) -> nat
    decreases n,
{
    match n.value {
        Some(_) => 1,
        None => match (n.left, n.right) {
            (Some(l), Some(r)) => num_leaves(*l) + num_leaves(*r),
            _ => 0,
        },
    }
}

/// The pre-order serialization of a tree: `1` and eight value bits for a
/// leaf, `0` and both serialized subtrees for an internal node.
pub open spec fn export_bits(n: Node) -> Seq<bool>
    decreases n,
{
    match n.value {
        Some(v) => seq![true] + byte_to_bits(v),
        None => match (n.left, n.right) {
            (Some(l), Some(r)) => seq![false] + export_bits(*l) + export_bits(*r),
            _ => Seq::empty(),
        },
    }
}

/// The same tree with every weight set to zero: what deserialization can
/// reconstruct, since weights are not serialized.
pub open spec fn strip(n: Node) -> Node
    decreases n,
{
    Node {
        value: n.value,
        weight: 0,
        left: match n.left {
            Some(l) => Some(Box::new(strip(*l))),
            None => None,
        },
        right: match n.right {
            Some(r) => Some(Box::new(strip(*r))),
            None => None,
        },
    }
}

/// Two trees have the same shape and the same values at matching positions;
/// weights may differ.
pub open spec fn same_shape(a: Node, b: Node) -> bool
    decreases a,
{
    &&& a.value == b.value
    &&& match (a.left, b.left) {
        (None, None) => true,
        (Some(x), Some(y)) => same_shape(*x, *y),
        _ => false,
    }
    &&& match (a.right, b.right) {
        (None, None) => true,
        (Some(x), Some(y)) => same_shape(*x, *y),
        _ => false,
    }
}

/// The unique parse of the serialization grammar starting at bit `pos`:
/// `Some` well-formed zero-weight tree and the position one past its last
/// bit, or `None` when the bits do not hold a complete tree.
pub open spec fn spec_import(bits: Seq<bool>, pos: int) -> Option<(Node, int)>
    decreases bits.len() - pos,
{
    if pos < 0 || pos >= bits.len() {
        None
    } else if bits[pos] {
        if pos + 9 <= bits.len() {
            Some(
                (
                    Node {
                        value: Some(bits_to_byte(bits.subrange(pos + 1, pos + 9))),
                        weight: 0,
                        left: None,
                        right: None,
                    },
                    pos + 9,
                ),
            )
        } else {
            None
        }
    } else {
        match spec_import(bits, pos + 1) {
            Some((l, p1)) => if pos + 1 < p1 && p1 <= bits.len() {
                match spec_import(bits, p1) {
                    Some((r, p2)) => Some(
                        (
                            Node {
                                value: None,
                                weight: 0,
                                left: Some(Box::new(l)),
                                right: Some(Box::new(r)),
                            },
                            p2,
                        ),
                    ),
                    None => None,
                }
            } else {
                None
            },
            None => None,
        }
    }
}

/// A well-formed tree has at least one leaf, and its serialization holds
/// ten bits per leaf save the one bit no internal node needs.
pub proof fn lemma_export_len(t: Node)
    requires
        wf(t),
    ensures
        num_leaves(t) >= 1,
        export_bits(t).len() == 10 * num_leaves(t) - 1,
    decreases t,
{
    if t.value is Some {
    } else {
        match (t.left, t.right) {
            (Some(l), Some(r)) => {
                lemma_export_len(*l);
                lemma_export_len(*r);
            },
            _ => {},
        }
    }
}

/// Stripping the weights keeps the shape and the leaf values.
pub proof fn lemma_strip_shape(t: Node)
    ensures
        same_shape(strip(t), t),
    decreases t,
{
    match t.left {
        Some(l) => lemma_strip_shape(*l),
        None => {},
    }
    match t.right {
        Some(r) => lemma_strip_shape(*r),
        None => {},
    }
}

/// Stripping preserves well-formedness and the leaf count.
pub proof fn lemma_strip_wf(t: Node)
    requires
        wf(t),
    ensures
        wf(strip(t)),
        num_leaves(strip(t)) == num_leaves(t),
        export_bits(strip(t)) == export_bits(t),
    decreases t,
{
    if t.value is Some {
    } else {
        match (t.left, t.right) {
            (Some(l), Some(r)) => {
                lemma_strip_wf(*l);
                lemma_strip_wf(*r);
            },
            _ => {},
        }
    }
}

impl Node {
    /// Export the node and all its children into a bit vector that can be
    /// imported later. The weight is excluded, as it is never needed after
    /// being imported; importing is only done when decoding.
    pub fn export(&self) -> (r: bit_vec::BitVec)
        requires
            wf(*self),
            num_leaves(*self) <= 256,
        ensures
            spec_bits(r) == export_bits(*self),
    {
        let mut out = bv_new();
        proof {
            lemma_export_len(*self);
        }
        self.export_into(&mut out);
        out
    }

    /// Append this subtree's serialization to `out`.
    fn export_into(&self, out: &mut bit_vec::BitVec)
        requires
            wf(*self),
            spec_bits(*old(out)).len() + export_bits(*self).len() <= usize::MAX,
        ensures
            spec_bits(*final(out)) == spec_bits(*old(out)) + export_bits(*self),
        decreases *self,
    {
        proof {
            lemma_export_len(*self);
        }
        match self.value {
            Some(v) => {
                bv_push(out, true);
                let ghost base = spec_bits(*out);
                let mut k: usize = 0;
                while k < 8
                    invariant
                        k <= 8,
                        base.len() + 8 <= usize::MAX,
                        spec_bits(*out) == base + byte_to_bits(v).take(k as int),
                    decreases 8 - k,
                {
                    let sh: u8 = (7 - k) as u8;
                    let bit = ((v >> sh) & 1) == 1;
                    proof {
                        assert(bit == byte_to_bits(v)[k as int]);
                        assert((base + byte_to_bits(v).take(k as int)).push(bit) =~= base
                            + byte_to_bits(v).take(k as int + 1));
                    }
                    bv_push(out, bit);
                    k = k + 1;
                }
                proof {
                    assert(byte_to_bits(v).take(8) =~= byte_to_bits(v));
                    assert(spec_bits(*out) =~= spec_bits(*old(out)) + export_bits(*self));
                }
            },
            None => {
                bv_push(out, false);
                match (&self.left, &self.right) {
                    (Some(l), Some(r)) => {
                        proof {
                            lemma_export_len(**l);
                            lemma_export_len(**r);
                        }
                        l.export_into(out);
                        r.export_into(out);
                        proof {
                            assert(spec_bits(*out) =~= spec_bits(*old(out)) + export_bits(*self));
                        }
                    },
                    _ => {
                        proof {
                            assert(false);
                        }
                    },
                }
            },
        }
    }

    /// Parse one serialized tree from the front of `bits`. On success the
    /// result holds the tree, its weights zero, and the number of bits the
    /// tree's serialization occupied.
    pub fn import(bits: &bit_vec::BitVec) -> (r: Result<(Node, usize), HufError>)
        ensures
            match spec_import(spec_bits(*bits), 0) {
                Some((n, end)) => r == Ok::<(Node, usize), HufError>((n, end as usize)),
                None => r == Err::<(Node, usize), HufError>(HufError::TruncatedTree),
            },
    {
        import_at(bits, 0)
    }
}

/// Read the eight bits at `pos` as one byte, most significant bit first.
fn read_byte(bits: &bit_vec::BitVec, pos: usize) -> (v: u8)
    requires
        pos + 8 <= spec_bits(*bits).len(),
        pos + 8 <= usize::MAX,
    ensures
        v == bits_to_byte(spec_bits(*bits).subrange(pos as int, pos as int + 8)),
{
    let b0 = bv_get(bits, pos).unwrap();
    let b1 = bv_get(bits, pos + 1).unwrap();
    let b2 = bv_get(bits, pos + 2).unwrap();
    let b3 = bv_get(bits, pos + 3).unwrap();
    let b4 = bv_get(bits, pos + 4).unwrap();
    let b5 = bv_get(bits, pos + 5).unwrap();
    let b6 = bv_get(bits, pos + 6).unwrap();
    let b7 = bv_get(bits, pos + 7).unwrap();
    let v: u8 = (if b0 {
        128
    } else {
        0
    }) + (if b1 {
        64
    } else {
        0
    }) + (if b2 {
        32
    } else {
        0
    }) + (if b3 {
        16
    } else {
        0
    }) + (if b4 {
        8
    } else {
        0
    }) + (if b5 {
        4
    } else {
        0
    }) + (if b6 {
        2
    } else {
        0
    }) + (if b7 {
        1
    } else {
        0
    });
    v
}

/// Parse one serialized tree starting at bit `pos`, as `spec_import` does.
fn import_at(bits: &bit_vec::BitVec, pos: usize) -> (r: Result<(Node, usize), HufError>)
    ensures
        match spec_import(spec_bits(*bits), pos as int) {
            Some((n, end)) => r == Ok::<(Node, usize), HufError>((n, end as usize)),
            None => r == Err::<(Node, usize), HufError>(HufError::TruncatedTree),
        },
    decreases spec_bits(*bits).len() - pos,
{
    let n = bv_len(bits);
    if pos >= n {
        return Err(HufError::TruncatedTree);
    }
    let first = bv_get(bits, pos).unwrap();
    if first {
        if n - pos >= 9 {
            let v = read_byte(bits, pos + 1);
            Ok((Node { value: Some(v), weight: 0, left: None, right: None }, pos + 9))
        } else {
            Err(HufError::TruncatedTree)
        }
    } else {
        match import_at(bits, pos + 1) {
            Err(e) => Err(e),
            Ok((l, p1)) => {
                proof {
                    lemma_spec_import_sound(spec_bits(*bits), pos as int + 1);
                }
                match import_at(bits, p1) {
                    Err(e) => Err(e),
                    Ok((r, p2)) => Ok(
                        (
                            Node {
                                value: None,
                                weight: 0,
                                left: Some(Box::new(l)),
                                right: Some(Box::new(r)),
                            },
                            p2,
                        ),
                    ),
                }
            },
        }
    }
}

/// Soundness of the parse: a successful parse consumes at least one whole
/// leaf, stays inside the bits, and yields a well-formed zero-weight tree
/// whose serialization is exactly the consumed range.
pub proof fn lemma_spec_import_sound(bits: Seq<bool>, pos: int)
    requires
        spec_import(bits, pos) is Some,
    ensures
        ({
            let (n, end) = spec_import(bits, pos).unwrap();
            &&& pos + 9 <= end <= bits.len()
            &&& wf(n)
            &&& strip(n) == n
            &&& export_bits(n) == bits.subrange(pos, end)
        }),
    decreases bits.len() - pos,
{
    let (n, end) = spec_import(bits, pos).unwrap();
    if bits[pos] {
        let chunk = bits.subrange(pos + 1, pos + 9);
        crate::bits::lemma_bits_roundtrip8(chunk);
        assert(export_bits(n) == seq![true] + chunk);
        assert(export_bits(n) =~= bits.subrange(pos, pos + 9));
    } else {
        let (l, p1) = spec_import(bits, pos + 1).unwrap();
        lemma_spec_import_sound(bits, pos + 1);
        let (r, p2) = spec_import(bits, p1).unwrap();
        lemma_spec_import_sound(bits, p1);
        assert(export_bits(n) == seq![false] + export_bits(l) + export_bits(r));
        assert(export_bits(n) =~= bits.subrange(pos, p2));
    }
}

/// Completeness of the parse: wherever the bits hold the serialization of a
/// well-formed tree, the parse succeeds and returns that tree, weights
/// dropped, having consumed exactly the serialization.
pub proof fn lemma_import_export(t: Node, bits: Seq<bool>, pos: int)
    requires
        wf(t),
        0 <= pos,
        pos + export_bits(t).len() <= bits.len(),
        bits.subrange(pos, pos + export_bits(t).len()) == export_bits(t),
    ensures
        spec_import(bits, pos) == Some((strip(t), pos + export_bits(t).len())),
    decreases t,
{
    lemma_export_len(t);
    let len = export_bits(t).len() as int;
    match t.value {
        Some(v) => {
            assert(bits[pos] == export_bits(t)[0]);
            assert(bits[pos]);
            let chunk = bits.subrange(pos + 1, pos + 9);
            assert(chunk =~= byte_to_bits(v)) by {
                assert forall|k: int| 0 <= k < 8 implies chunk[k] == byte_to_bits(v)[k] by {
                    assert(chunk[k] == bits.subrange(pos, pos + 9)[k + 1]);
                }
            }
            crate::bits::lemma_byte_to_bits_to_byte(v);
        },
        None => {
            let (l, r) = match (t.left, t.right) {
                (Some(l), Some(r)) => (*l, *r),
                _ => arbitrary(),
            };
            lemma_export_len(l);
            lemma_export_len(r);
            let ll = export_bits(l).len() as int;
            let rl = export_bits(r).len() as int;
            assert(bits[pos] == export_bits(t)[0]);
            assert(!bits[pos]);
            assert(bits.subrange(pos + 1, pos + 1 + ll) =~= export_bits(l)) by {
                assert forall|k: int| 0 <= k < ll implies bits.subrange(pos + 1, pos + 1 + ll)[k]
                    == export_bits(l)[k] by {
                    assert(bits.subrange(pos, pos + len)[k + 1] == export_bits(t)[k + 1]);
                }
            }
            lemma_import_export(l, bits, pos + 1);
            let p1 = pos + 1 + ll;
            assert(bits.subrange(p1, p1 + rl) =~= export_bits(r)) by {
                assert forall|k: int| 0 <= k < rl implies bits.subrange(p1, p1 + rl)[k]
                    == export_bits(r)[k] by {
                    assert(bits.subrange(pos, pos + len)[k + 1 + ll] == export_bits(t)[k + 1 + ll]);
                }
            }
            lemma_import_export(r, bits, p1);
            assert(spec_import(bits, pos) == Some((strip(t), pos + len)));
        },
    }
}

/// Tree serialization round trip: parsing the serialization of any
/// well-formed tree, whatever follows it, yields a tree of identical shape
/// and leaf values, the weights dropped, and consumes exactly the
/// serialization.
pub proof fn lemma_tree_round_trip(t: Node, rest: Seq<bool>)
    requires
        wf(t),
    ensures
        spec_import(export_bits(t) + rest, 0) == Some(
            (strip(t), export_bits(t).len() as int),
        ),
        same_shape(strip(t), t),
{
    let bits = export_bits(t) + rest;
    assert(bits.subrange(0, export_bits(t).len() as int) =~= export_bits(t));
    lemma_import_export(t, bits, 0);
    lemma_strip_shape(t);
}

} // verus!
