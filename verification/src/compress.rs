//! The encoder and decoder over whole byte streams.
//!
//! A compressed stream is laid out as: an eight-byte big-endian count of the
//! original bytes; the serialized tree, zero-padded to a byte boundary; the
//! packed per-byte codes, zero-padded to a byte boundary. An empty input
//! encodes to the bare header with count zero, and decodes back to the empty
//! stream, so the round trip covers the empty case too; the tree builder
//! alone treats an all-zero histogram as an error.

use vstd::prelude::*;

use crate::bits::{
    bytes_to_bits, pack_bits, pad_to_byte, bytes_for_bits, spec_bits, bv_new, bv_extend,
    bv_to_bytes, bv_from_bytes, bv_get, lemma_unpack_pack,
};
use crate::codes::{
    table_code, code_of, spec_walk, tree_to_bit_hash_map, lemma_walk_code, lemma_strip_codes,
};
use crate::histogram::{count_byte, get_counts, lemma_count_contains};
use crate::node::{
    Node, wf, is_leaf, is_internal, num_leaves, export_bits, strip, spec_import, lemma_export_len,
    lemma_import_export, lemma_strip_wf,
};
use crate::queue::{
    leaf_vals, leaves_of_counts, lemma_leaves_of_counts, spec_merge, lemma_merge_props,
    counts_to_heap, heap_to_tree, seq_num_leaves,
};
use crate::HufError;

verus! {

broadcast use vstd::std_specs::hash::group_hash_axioms;

/// The eight bytes of `n`, most significant first.
pub open spec fn be_bytes(n: u64) -> Seq<u8> {
    Seq::new(8, |i: int| ((n >> (8 * (7 - i)) as u64) & 0xff) as u8)
}

/// The value whose eight bytes, most significant first, are `s`.
pub open spec fn be_val(s: Seq<u8>) -> u64
    recommends
        s.len() == 8,
{
    (((s[0] as u64) << 56u64) | ((s[1] as u64) << 48u64) | ((s[2] as u64) << 40u64) | ((
    s[3] as u64) << 32u64) | ((s[4] as u64) << 24u64) | ((s[5] as u64) << 16u64) | ((
    s[6] as u64) << 8u64) | (s[7] as u64)) as u64
}

/// Reading back the eight bytes of `n` gives `n`.
pub proof fn lemma_be_round_trip(n: u64)
    ensures
        be_val(be_bytes(n)) == n,
{
    assert(((((n >> 56u64) & 0xff) << 56u64) | (((n >> 48u64) & 0xff) << 48u64) | (((n >> 40u64)
        & 0xff) << 40u64) | (((n >> 32u64) & 0xff) << 32u64) | (((n >> 24u64) & 0xff) << 24u64) | ((
    (n >> 16u64) & 0xff) << 16u64) | (((n >> 8u64) & 0xff) << 8u64) | ((n >> 0u64) & 0xff)) == n)
        by (bit_vector);
    assert(((n >> 56u64) & 0xff) <= 0xff && ((n >> 48u64) & 0xff) <= 0xff && ((n >> 40u64) & 0xff)
        <= 0xff && ((n >> 32u64) & 0xff) <= 0xff && ((n >> 24u64) & 0xff) <= 0xff && ((n >> 16u64)
        & 0xff) <= 0xff && ((n >> 8u64) & 0xff) <= 0xff && ((n >> 0u64) & 0xff) <= 0xff)
        by (bit_vector);
    assert(be_bytes(n)[0] as u64 == (n >> 56u64) & 0xff);
    assert(be_bytes(n)[1] as u64 == (n >> 48u64) & 0xff);
    assert(be_bytes(n)[2] as u64 == (n >> 40u64) & 0xff);
    assert(be_bytes(n)[3] as u64 == (n >> 32u64) & 0xff);
    assert(be_bytes(n)[4] as u64 == (n >> 24u64) & 0xff);
    assert(be_bytes(n)[5] as u64 == (n >> 16u64) & 0xff);
    assert(be_bytes(n)[6] as u64 == (n >> 8u64) & 0xff);
    assert(be_bytes(n)[7] as u64 == (n >> 0u64) & 0xff);
}

/// Append the eight bytes of `n`, most significant first.
fn push_be_u64(out: &mut Vec<u8>, n: u64)
    requires
        old(out)@.len() + 8 <= usize::MAX,
    ensures
        final(out)@ == old(out)@ + be_bytes(n),
{
    out.push(((n >> 56u64) & 0xff) as u8);
    out.push(((n >> 48u64) & 0xff) as u8);
    out.push(((n >> 40u64) & 0xff) as u8);
    out.push(((n >> 32u64) & 0xff) as u8);
    out.push(((n >> 24u64) & 0xff) as u8);
    out.push(((n >> 16u64) & 0xff) as u8);
    out.push(((n >> 8u64) & 0xff) as u8);
    out.push((n & 0xff) as u8);
    proof {
        assert((n >> 0u64) == n) by (bit_vector);
        assert(out@ =~= old(out)@ + be_bytes(n));
    }
}

/// Read the first eight bytes as one big-endian value.
fn read_be_u64(s: &Vec<u8>) -> (r: u64)
    requires
        s@.len() >= 8,
    ensures
        r == be_val(s@.subrange(0, 8)),
{
    ((s[0] as u64) << 56u64) | ((s[1] as u64) << 48u64) | ((s[2] as u64) << 40u64) | ((
    s[3] as u64) << 32u64) | ((s[4] as u64) << 24u64) | ((s[5] as u64) << 16u64) | ((
    s[6] as u64) << 8u64) | (s[7] as u64)
}

/// The packed-codes section as bits: each input byte's code, in input order.
pub open spec fn payload_bits(t: Node, input: Seq<u8>) -> Seq<bool>
    decreases input.len(),
{
    if input.len() == 0 {
        Seq::empty()
    } else {
        table_code(t, input[0]) + payload_bits(t, input.drop_first())
    }
}

/// The tree a compression run builds for `input`: the merge of one leaf per
/// occurring byte value, seeded in byte order.
pub open spec fn counts_of(input: Seq<u8>) -> Seq<usize> {
    Seq::new(256, |v: int| count_byte(input, v as u8) as usize)
}

/// The Huffman tree of `input`, or `None` for an empty input.
pub open spec fn spec_tree(input: Seq<u8>) -> Option<Node> {
    spec_merge(leaves_of_counts(counts_of(input), 256))
}

/// The whole compressed stream for `input`: header, tree section, codes
/// section. An empty input yields the bare header.
pub open spec fn spec_encode(input: Seq<u8>) -> Seq<u8> {
    if input.len() == 0 {
        be_bytes(0)
    } else {
        let t = spec_tree(input).unwrap();
        be_bytes(input.len() as u64) + pack_bits(export_bits(t)) + pack_bits(
            payload_bits(t, input),
        )
    }
}

/// Compress `input` into a stream that `decode` inverts exactly. The length
/// bound keeps the total bit count of the packed sections inside `usize`,
/// which the bit vectors demand.
pub fn encode(input: &Vec<u8>) -> (out: Vec<u8>)
    requires
        256 * input@.len() + 2568 <= usize::MAX,
    ensures
        out@ == spec_encode(input@),
{
    let n = input.len();
    let mut out: Vec<u8> = Vec::new();
    push_be_u64(&mut out, n as u64);
    if n == 0 {
        proof {
            assert(out@ =~= be_bytes(0));
        }
        return out;
    }
    let counts = get_counts(input);
    proof {
        assert(counts@ =~= counts_of(input@));
        lemma_leaves_of_counts(counts@, 256);
        assert(counts@.take(256) =~= counts@);
        lemma_count_contains(input@, 0);
        assert(counts@[input@[0] as int] > 0);
        assert(exists|j: int| 0 <= j < 256 && counts@[j] > 0);
    }
    let ghost leaves = leaves_of_counts(counts@, 256);
    let heap = counts_to_heap(counts);
    proof {
        lemma_merge_props(leaves);
    }
    let tree = match heap_to_tree(heap) {
        Ok(t) => t,
        Err(_) => {
            proof {
                assert(false);
            }
            return out;
        },
    };
    let ghost gt = tree;
    proof {
        assert(wf(gt));
        assert(num_leaves(gt) == seq_num_leaves(leaves));
        assert(num_leaves(gt) <= 256);
        assert forall|k: int| 0 <= k < input@.len() implies leaf_vals(gt).contains(
            #[trigger] input@[k],
        ) by {
            lemma_count_contains(input@, k);
            assert(counts_of(input@)[input@[k] as int] > 0);
        }
    }
    let tree_bits = tree.export();
    let mut tree_bytes = bv_to_bytes(&tree_bits);
    out.append(&mut tree_bytes);
    let table = tree_to_bit_hash_map(tree);
    let mut payload = bv_new();
    proof {
        assert(input@.skip(0) =~= input@);
        assert(Seq::<bool>::empty() + payload_bits(gt, input@) =~= payload_bits(gt, input@));
    }
    let mut i: usize = 0;
    while i < n
        invariant
            n == input@.len(),
            256 * n + 2568 <= usize::MAX,
            i <= n,
            wf(gt),
            num_leaves(gt) <= 256,
            forall|k: int| 0 <= k < input@.len() ==> leaf_vals(gt).contains(#[trigger] input@[k]),
            forall|b: u8| #[trigger]
                leaf_vals(gt).contains(b) ==> table@.contains_key(b) && spec_bits(table@[b])
                    == table_code(gt, b),
            spec_bits(payload) + payload_bits(gt, input@.skip(i as int)) == payload_bits(
                gt,
                input@,
            ),
            spec_bits(payload).len() <= 256 * i,
        decreases n - i,
    {
        let b = input[i];
        proof {
            crate::codes::lemma_code_len(gt, b);
            assert(input@.skip(i as int)[0] == b);
            assert(input@.skip(i as int).drop_first() =~= input@.skip(i as int + 1));
        }
        match table.get(&b) {
            Some(code) => {
                bv_extend(&mut payload, code);
            },
            None => {
                proof {
                    assert(false);
                }
            },
        }
        i = i + 1;
    }
    proof {
        assert(input@.skip(n as int) =~= Seq::<u8>::empty());
        assert(spec_bits(payload) + Seq::<bool>::empty() =~= spec_bits(payload));
        assert(spec_bits(payload) == payload_bits(gt, input@));
    }
    let mut payload_bytes = bv_to_bytes(&payload);
    out.append(&mut payload_bytes);
    proof {
        assert(spec_tree(input@) == spec_merge(leaves));
        assert(out@ =~= spec_encode(input@));
    }
    out
}

/// Decode `n` symbols, walking the tree from bit `pos` for each: the
/// decoded bytes, or `None` when the bits run out first.
pub open spec fn spec_decode_symbols(t: Node, bits: Seq<bool>, pos: int, n: nat) -> Option<
    Seq<u8>,
>
    decreases n,
{
    if n == 0 {
        Some(Seq::empty())
    } else {
        match spec_walk(t, bits, pos) {
            None => None,
            Some((b, p2)) => match spec_decode_symbols(t, bits, p2, (n - 1) as nat) {
                None => None,
                Some(rest) => Some(seq![b] + rest),
            },
        }
    }
}

/// What a compressed stream decodes to: the original bytes, or the error
/// naming what is malformed. A count of zero decodes to the empty stream.
/// A single-leaf tree repeats its one byte value for the whole count,
/// consuming no packed bits.
pub open spec fn spec_decode(s: Seq<u8>) -> Result<Seq<u8>, HufError> {
    if s.len() < 8 {
        Err(HufError::CorruptHeader)
    } else {
        let n = be_val(s.subrange(0, 8));
        if n > usize::MAX as u64 {
            Err(HufError::CorruptHeader)
        } else if n == 0 {
            Ok(Seq::empty())
        } else {
            let bits = bytes_to_bits(s.subrange(8, s.len() as int));
            match spec_import(bits, 0) {
                None => Err(HufError::TruncatedTree),
                Some((t, end)) => {
                    let start = bytes_for_bits(end) * 8;
                    if is_leaf(t) {
                        Ok(Seq::new(n as nat, |i: int| t.value.unwrap()))
                    } else {
                        match spec_decode_symbols(t, bits, start, n as nat) {
                            None => Err(HufError::CorruptStream),
                            Some(out) => Ok(out),
                        }
                    }
                },
            }
        }
    }
}

/// Walk the tree one bit at a time from `pos` until a leaf, as `spec_walk`
/// does; the bits running out mid-walk is a truncation of the codes section.
fn walk_tree(node: &Node, bits: &bit_vec::BitVec, pos: usize) -> (r: Result<
    (u8, usize),
    HufError,
>)
    requires
        wf(*node),
        spec_bits(*bits).len() <= usize::MAX,
    ensures
        match spec_walk(*node, spec_bits(*bits), pos as int) {
            Some((b, p)) => r == Ok::<(u8, usize), HufError>((b, p as usize)),
            None => r == Err::<(u8, usize), HufError>(HufError::CorruptStream),
        },
    decreases *node,
{
    match node.value {
        Some(v) => Ok((v, pos)),
        None => match (&node.left, &node.right) {
            (Some(l), Some(r)) => {
                match bv_get(bits, pos) {
                    None => Err(HufError::CorruptStream),
                    Some(bit) => {
                        if bit {
                            walk_tree(r, bits, pos + 1)
                        } else {
                            walk_tree(l, bits, pos + 1)
                        }
                    },
                }
            },
            _ => Err(HufError::CorruptStream),
        },
    }
}

/// Decompress a stream that `encode` produced, or report how it is
/// malformed. The length bound keeps the stream's bit count inside `usize`,
/// which the bit reader demands.
pub fn decode(stream: &Vec<u8>) -> (r: Result<Vec<u8>, HufError>)
    requires
        8 * stream@.len() <= usize::MAX,
    ensures
        match spec_decode(stream@) {
            Ok(out) => r is Ok && r->Ok_0@ == out,
            Err(e) => r is Err && r->Err_0 == e,
        },
{
    if stream.len() < 8 {
        return Err(HufError::CorruptHeader);
    }
    let n64 = read_be_u64(stream);
    if n64 > usize::MAX as u64 {
        return Err(HufError::CorruptHeader);
    }
    let n = n64 as usize;
    if n == 0 {
        return Ok(Vec::new());
    }
    let mut tail: Vec<u8> = Vec::new();
    let mut i: usize = 8;
    while i < stream.len()
        invariant
            8 <= i <= stream@.len(),
            8 * stream@.len() <= usize::MAX,
            tail@ == stream@.subrange(8, i as int),
        decreases stream@.len() - i,
    {
        tail.push(stream[i]);
        proof {
            assert(tail@ =~= stream@.subrange(8, i as int + 1));
        }
        i = i + 1;
    }
    let bits = bv_from_bytes(&tail);
    let ghost gbits = spec_bits(bits);
    proof {
        assert(tail@ =~= stream@.subrange(8, stream@.len() as int));
        assert(gbits == bytes_to_bits(stream@.subrange(8, stream@.len() as int)));
        assert(gbits.len() == 8 * tail@.len());
    }
    let (tree, used) = match Node::import(&bits) {
        Ok(x) => x,
        Err(e) => {
            return Err(e);
        },
    };
    proof {
        crate::node::lemma_spec_import_sound(gbits, 0);
    }
    let q = used / 8;
    let r8 = used % 8;
    let ub = if r8 == 0 {
        q
    } else {
        q + 1
    };
    proof {
        assert(used == 8 * q + r8 && 0 <= r8 < 8) by (nonlinear_arith)
            requires
                q == used / 8,
                r8 == used % 8,
        ;
        assert(ub == bytes_for_bits(used as int));
        assert(ub <= tail@.len());
    }
    let start = ub * 8;
    let ghost gt = tree;
    let ghost gstart = start as int;
    match tree.value {
        Some(v) => {
            let mut out: Vec<u8> = Vec::new();
            let mut cnt: usize = 0;
            while cnt < n
                invariant
                    cnt <= n,
                    out@ == Seq::new(cnt as nat, |j: int| v),
                decreases n - cnt,
            {
                out.push(v);
                proof {
                    assert(out@ =~= Seq::new(cnt as nat + 1, |j: int| v));
                }
                cnt = cnt + 1;
            }
            proof {
                assert(is_leaf(gt));
                assert(out@ =~= Seq::new(n as nat, |j: int| gt.value.unwrap()));
            }
            Ok(out)
        },
        None => {
            proof {
                assert(is_internal(gt));
                match spec_decode_symbols(gt, gbits, gstart, n as nat) {
                    None => {},
                    Some(rest) => {
                        assert(Seq::<u8>::empty() + rest =~= rest);
                    },
                }
                assert(input_inv(gt, gbits, gstart, n as nat, Seq::<u8>::empty(), gstart, n as nat));
                assert(spec_decode(stream@) == (match spec_decode_symbols(gt, gbits, gstart, n as nat) {
                    None => Err::<Seq<u8>, HufError>(HufError::CorruptStream),
                    Some(o) => Ok::<Seq<u8>, HufError>(o),
                }));
            }
            let mut out: Vec<u8> = Vec::new();
            let mut pos = start;
            let mut cnt: usize = 0;
            while cnt < n
                invariant
                    cnt <= n,
                    wf(gt),
                    tree == gt,
                    spec_bits(bits) == gbits,
                    gbits.len() <= usize::MAX,
                    0 <= gstart <= gbits.len(),
                    gstart <= pos as int <= gbits.len(),
                    out@.len() == cnt,
                    input_inv(gt, gbits, gstart, n as nat, out@, pos as int, (n - cnt) as nat),
                    spec_decode(stream@) == (match spec_decode_symbols(gt, gbits, gstart, n as nat) {
                        None => Err::<Seq<u8>, HufError>(HufError::CorruptStream),
                        Some(o) => Ok::<Seq<u8>, HufError>(o),
                    }),
                decreases n - cnt,
            {
                match walk_tree(&tree, &bits, pos) {
                    Err(_) => {
                        proof {
                            assert(spec_decode_symbols(gt, gbits, gstart, n as nat) is None);
                        }
                        return Err(HufError::CorruptStream);
                    },
                    Ok((b, p2)) => {
                        proof {
                            crate::codes::lemma_walk_bounds(gt, gbits, pos as int);
                            let k = (n - cnt) as nat;
                            let sub2 = spec_decode_symbols(gt, gbits, p2 as int, (k - 1) as nat);
                            if sub2 is Some {
                                assert((out@ + seq![b]) + sub2.unwrap() =~= out@ + (seq![b]
                                    + sub2.unwrap()));
                                assert(out@.push(b) =~= out@ + seq![b]);
                            }
                        }
                        out.push(b);
                        pos = p2;
                        cnt = cnt + 1;
                    },
                }
            }
            proof {
                assert(spec_decode_symbols(gt, gbits, pos as int, 0) == Some(Seq::<u8>::empty()));
                assert(out@ + Seq::<u8>::empty() =~= out@);
                assert(spec_decode_symbols(gt, gbits, gstart, n as nat) == Some(out@));
            }
            Ok(out)
        },
    }
}

/// Two trees with the same codes for every byte of `input` pack `input`
/// into the same bits.
proof fn lemma_payload_bits_equal(t1: Node, t2: Node, input: Seq<u8>)
    requires
        forall|k: int|
            0 <= k < input.len() ==> table_code(t1, #[trigger] input[k]) == table_code(
                t2,
                input[k],
            ),
    ensures
        payload_bits(t1, input) == payload_bits(t2, input),
    decreases input.len(),
{
    if input.len() > 0 {
        assert(forall|k: int|
            0 <= k < input.drop_first().len() ==> #[trigger] input.drop_first()[k] == input[k + 1]);
        lemma_payload_bits_equal(t1, t2, input.drop_first());
    }
}

/// Decoding the packed codes of `input` against the tree they were read
/// from yields `input` back, one walked symbol per input byte.
proof fn lemma_decode_payload(t: Node, input: Seq<u8>, bits: Seq<bool>, start: int)
    requires
        wf(t),
        is_internal(t),
        forall|k: int| 0 <= k < input.len() ==> leaf_vals(t).contains(#[trigger] input[k]),
        0 <= start,
        start + payload_bits(t, input).len() <= bits.len(),
        bits.subrange(start, start + payload_bits(t, input).len()) == payload_bits(t, input),
    ensures
        spec_decode_symbols(t, bits, start, input.len() as nat) == Some(input),
    decreases input.len(),
{
    if input.len() == 0 {
        assert(input =~= Seq::<u8>::empty());
    } else {
        let b = input[0];
        let c = code_of(t, b);
        let rest = input.drop_first();
        let pb = payload_bits(t, input);
        assert(pb == c + payload_bits(t, rest));
        assert(bits.subrange(start, start + c.len()) =~= c) by {
            assert forall|k: int| 0 <= k < c.len() implies bits.subrange(start, start + c.len())[k]
                == c[k] by {
                assert(bits.subrange(start, start + pb.len())[k] == pb[k]);
            }
        }
        lemma_walk_code(t, b, bits, start);
        let start2 = start + c.len();
        assert(forall|k: int|
            0 <= k < rest.len() ==> leaf_vals(t).contains(#[trigger] rest[k]) && rest[k] == input[k
                + 1]);
        assert(bits.subrange(start2, start2 + payload_bits(t, rest).len()) =~= payload_bits(
            t,
            rest,
        )) by {
            assert forall|k: int| 0 <= k < payload_bits(t, rest).len() implies bits.subrange(
                start2,
                start2 + payload_bits(t, rest).len(),
            )[k] == payload_bits(t, rest)[k] by {
                assert(bits.subrange(start, start + pb.len())[k + c.len()] == pb[k + c.len()]);
            }
        }
        lemma_decode_payload(t, rest, bits, start2);
        assert(seq![b] + rest =~= input);
    }
}

/// Round trip: decoding an encoded stream yields the original bytes back,
/// for every byte sequence, the empty one included.
#[verifier::rlimit(100)]
#[verifier::spinoff_prover]
pub proof fn lemma_round_trip(input: Seq<u8>)
    requires
        input.len() <= usize::MAX,
    ensures
        spec_decode(spec_encode(input)) == Ok::<Seq<u8>, HufError>(input),
{
    if input.len() == 0 {
        let s = be_bytes(0);
        lemma_be_round_trip(0);
        assert(s.subrange(0, 8) =~= s);
        assert(input =~= Seq::<u8>::empty());
    } else {
        lemma_tree_of_input(input);
        let t = spec_tree(input).unwrap();
        let n = input.len();
        let tb = export_bits(t);
        let pb = payload_bits(t, input);
        let s = spec_encode(input);
        lemma_be_round_trip(n as u64);
        assert(s.subrange(0, 8) =~= be_bytes(n as u64));
        assert(be_val(s.subrange(0, 8)) == n as u64);
        let tail = s.subrange(8, s.len() as int);
        assert(tail =~= pack_bits(tb) + pack_bits(pb));
        crate::bits::lemma_bytes_to_bits_concat(pack_bits(tb), pack_bits(pb));
        lemma_unpack_pack(tb);
        lemma_unpack_pack(pb);
        let bits = bytes_to_bits(tail);
        assert(bits == pad_to_byte(tb) + pad_to_byte(pb));
        lemma_export_len(t);
        assert(bits.subrange(0, tb.len() as int) =~= tb) by {
            assert forall|k: int| 0 <= k < tb.len() implies bits.subrange(0, tb.len() as int)[k]
                == tb[k] by {
                assert(bits[k] == pad_to_byte(tb)[k]);
            }
        }
        lemma_import_export(t, bits, 0);
        lemma_strip_wf(t);
        lemma_strip_codes(t);
        let st = strip(t);
        let start = bytes_for_bits(tb.len() as int) * 8;
        assert(start == pad_to_byte(tb).len());
        if is_leaf(t) {
            let v = t.value.unwrap();
            assert(leaf_vals(t) =~= Set::<u8>::empty().insert(v));
            assert(Seq::new(n as nat, |i: int| st.value.unwrap()) =~= input) by {
                assert forall|k: int| 0 <= k < input.len() implies input[k] == v by {
                    assert(leaf_vals(t).contains(input[k]));
                }
            }
        } else {
            assert(is_internal(st));
            assert(forall|k: int|
                0 <= k < input.len() ==> leaf_vals(st).contains(#[trigger] input[k]));
            assert(forall|k: int|
                0 <= k < input.len() ==> table_code(t, #[trigger] input[k]) == table_code(
                    st,
                    input[k],
                ));
            lemma_payload_bits_equal(t, st, input);
            assert(bits.subrange(start, start + pb.len()) =~= pb) by {
                assert forall|k: int| 0 <= k < pb.len() implies bits.subrange(
                    start,
                    start + pb.len(),
                )[k] == pb[k] by {
                    assert(bits[start + k] == pad_to_byte(pb)[k]);
                }
            }
            lemma_decode_payload(st, input, bits, start);
        }
    }
}

/// A nonempty input has a Huffman tree: well-formed, with at most 256
/// leaves, holding a leaf for every byte value that occurs in the input.
proof fn lemma_tree_of_input(input: Seq<u8>)
    requires
        0 < input.len() <= usize::MAX,
    ensures
        spec_tree(input) is Some,
        wf(spec_tree(input).unwrap()),
        num_leaves(spec_tree(input).unwrap()) <= 256,
        forall|k: int|
            0 <= k < input.len() ==> leaf_vals(spec_tree(input).unwrap()).contains(
                #[trigger] input[k],
            ),
{
    let counts = counts_of(input);
    let leaves = leaves_of_counts(counts, 256);
    lemma_leaves_of_counts(counts, 256);
    lemma_count_contains(input, 0);
    crate::histogram::lemma_count_le_len(input, input[0]);
    assert(counts[input[0] as int] > 0);
    assert(exists|j: int| 0 <= j < 256 && counts[j] > 0);
    lemma_merge_props(leaves);
    let t = spec_tree(input).unwrap();
    assert forall|k: int| 0 <= k < input.len() implies leaf_vals(t).contains(
        #[trigger] input[k],
    ) by {
        lemma_count_contains(input, k);
        crate::histogram::lemma_count_le_len(input, input[k]);
        assert(counts[input[k] as int] > 0);
    }
}

/// Decoding starved of bits fails: where the bits up to their end spell
/// only a strict prefix of the packed codes of `input`, some symbol's walk
/// runs out before `input.len()` symbols are decoded.
proof fn lemma_decode_payload_truncated(t: Node, input: Seq<u8>, bits: Seq<bool>, start: int)
    requires
        wf(t),
        is_internal(t),
        forall|k: int| 0 <= k < input.len() ==> leaf_vals(t).contains(#[trigger] input[k]),
        input.len() > 0,
        0 <= start <= bits.len(),
        bits.len() - start < payload_bits(t, input).len(),
        forall|k: int|
            0 <= k < bits.len() - start ==> bits[start + k] == payload_bits(t, input)[k],
    ensures
        spec_decode_symbols(t, bits, start, input.len() as nat) is None,
    decreases input.len(),
{
    let b = input[0];
    let c = code_of(t, b);
    let rest = input.drop_first();
    let pb = payload_bits(t, input);
    assert(pb == c + payload_bits(t, rest));
    let avail = bits.len() - start;
    if avail < c.len() {
        assert forall|k: int| 0 <= k < avail implies bits[start + k] == c[k] by {
            assert(bits[start + k] == pb[k]);
        }
        crate::codes::lemma_walk_partial(t, b, bits, start);
    } else {
        assert(bits.subrange(start, start + c.len()) =~= c) by {
            assert forall|k: int| 0 <= k < c.len() implies bits.subrange(start, start + c.len())[k]
                == c[k] by {
                assert(bits[start + k] == pb[k]);
            }
        }
        lemma_walk_code(t, b, bits, start);
        let start2 = start + c.len();
        assert(payload_bits(t, rest).len() > bits.len() - start2);
        assert(rest.len() > 0);
        assert(forall|k: int|
            0 <= k < rest.len() ==> leaf_vals(t).contains(#[trigger] rest[k]) && rest[k] == input[k
                + 1]);
        assert forall|k: int| 0 <= k < bits.len() - start2 implies bits[start2 + k]
            == payload_bits(t, rest)[k] by {
            assert(bits[start + (k + c.len())] == pb[k + c.len()]);
        }
        lemma_decode_payload_truncated(t, rest, bits, start2);
    }
}

/// Truncation detection: cutting the packed-codes section of the stream of
/// an input with two or more distinct byte values makes decoding fail with
/// `CorruptStream`; a truncated stream never decodes to fewer bytes. A
/// single-value input is the one exception: its decoder reads no packed
/// bits at all.
#[verifier::rlimit(100)]
#[verifier::spinoff_prover]
pub proof fn lemma_truncation_detected(input: Seq<u8>, m: int)
    requires
        input.len() <= usize::MAX,
        exists|i: int, j: int|
            0 <= i < input.len() && 0 <= j < input.len() && input[i] != input[j],
        8 + bytes_for_bits(export_bits(spec_tree(input).unwrap()).len() as int) <= m
            < spec_encode(input).len(),
    ensures
        spec_decode(spec_encode(input).subrange(0, m)) == Err::<Seq<u8>, HufError>(
            HufError::CorruptStream,
        ),
{
    lemma_tree_of_input(input);
    let t = spec_tree(input).unwrap();
    let wi = choose|i: int, j: int|
        0 <= i < input.len() && 0 <= j < input.len() && input[i] != input[j];
    assert(!is_leaf(t)) by {
        if is_leaf(t) {
            let v = t.value.unwrap();
            assert(leaf_vals(t) =~= Set::<u8>::empty().insert(v));
            assert(input[wi.0] == v && input[wi.1] == v);
        }
    }
    let n = input.len();
    let tb = export_bits(t);
    let pb = payload_bits(t, input);
    let s = spec_encode(input);
    let sm = s.subrange(0, m);
    lemma_be_round_trip(n as u64);
    assert(sm.subrange(0, 8) =~= be_bytes(n as u64));
    assert(be_val(sm.subrange(0, 8)) == n as u64);
    let tree_bytes = bytes_for_bits(tb.len() as int);
    lemma_export_len(t);
    lemma_unpack_pack(tb);
    lemma_unpack_pack(pb);
    let tail = sm.subrange(8, m);
    let full_tail = s.subrange(8, s.len() as int);
    assert(full_tail =~= pack_bits(tb) + pack_bits(pb));
    crate::bits::lemma_bytes_to_bits_concat(pack_bits(tb), pack_bits(pb));
    let full_bits = bytes_to_bits(full_tail);
    assert(full_bits == pad_to_byte(tb) + pad_to_byte(pb));
    let bits = bytes_to_bits(tail);
    assert(tail =~= full_tail.subrange(0, m - 8));
    assert(full_tail =~= tail + full_tail.subrange(m - 8, full_tail.len() as int));
    crate::bits::lemma_bytes_to_bits_concat(tail, full_tail.subrange(m - 8, full_tail.len() as int));
    assert(full_bits == bits + bytes_to_bits(full_tail.subrange(m - 8, full_tail.len() as int)));
    assert(bits.len() == 8 * (m - 8));
    let start = tree_bytes * 8;
    assert(start == pad_to_byte(tb).len());
    assert(bits.len() >= start);
    assert(bits.subrange(0, tb.len() as int) =~= tb) by {
        assert forall|k: int| 0 <= k < tb.len() implies bits.subrange(0, tb.len() as int)[k]
            == tb[k] by {
            assert(bits[k] == full_bits[k]);
            assert(full_bits[k] == pad_to_byte(tb)[k]);
        }
    }
    lemma_import_export(t, bits, 0);
    lemma_strip_wf(t);
    lemma_strip_codes(t);
    let st = strip(t);
    assert(is_internal(st));
    assert(forall|k: int| 0 <= k < input.len() ==> leaf_vals(st).contains(#[trigger] input[k]));
    assert(forall|k: int|
        0 <= k < input.len() ==> table_code(t, #[trigger] input[k]) == table_code(st, input[k]));
    lemma_payload_bits_equal(t, st, input);
    let avail = bits.len() - start;
    assert(s.len() == 8 + tree_bytes + bytes_for_bits(pb.len() as int));
    assert(avail < pb.len()) by {
        assert(8 * (m - 8) <= start + 8 * bytes_for_bits(pb.len() as int) - 8);
        assert(8 * bytes_for_bits(pb.len() as int) <= pb.len() + 7);
    }
    assert forall|k: int| 0 <= k < avail implies bits[start + k] == payload_bits(st, input)[k] by {
        assert(bits[start + k] == full_bits[start + k]);
        assert(full_bits[start + k] == pad_to_byte(pb)[k]);
    }
    lemma_decode_payload_truncated(st, input, bits, start);
}

/// The decode loop's book-keeping: what remains to decode at `pos` extends
/// what is already decoded into exactly the stream's full decoding.
spec fn input_inv(
    t: Node,
    bits: Seq<bool>,
    start: int,
    n: nat,
    out: Seq<u8>,
    pos: int,
    remaining: nat,
) -> bool {
    match spec_decode_symbols(t, bits, pos, remaining) {
        None => spec_decode_symbols(t, bits, start, n) is None,
        Some(rest) => spec_decode_symbols(t, bits, start, n) == Some(out + rest),
    }
}

} // verus!

