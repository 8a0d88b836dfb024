//! Byte-frequency counting: the first pass of a compression run.

use vstd::prelude::*;

verus! {

/// How many times byte `v` occurs in `s`.
pub open spec fn count_byte(s: Seq<u8>, v: u8) -> nat
    decreases s.len(),
{
    if s.len() == 0 {
        0
    } else {
        count_byte(s.drop_last(), v) + if s.last() == v {
            1nat
        } else {
            0nat
        }
    }
}

/// The sum of a sequence of counters.
pub open spec fn sum_counts(s: Seq<usize>) -> int
    decreases s.len(),
{
    if s.len() == 0 {
        0
    } else {
        sum_counts(s.drop_last()) + s.last()
    }
}

/// No byte occurs more often than the input is long.
pub proof fn lemma_count_le_len(s: Seq<u8>, v: u8)
    ensures
        count_byte(s, v) <= s.len(),
    decreases s.len(),
{
    if s.len() > 0 {
        lemma_count_le_len(s.drop_last(), v);
    }
}

/// Every byte that occurs in the input has a positive count.
pub proof fn lemma_count_contains(s: Seq<u8>, i: int)
    requires
        0 <= i < s.len(),
    ensures
        count_byte(s, s[i]) >= 1,
    decreases s.len(),
{
    if i == s.len() - 1 {
    } else {
        lemma_count_contains(s.drop_last(), i);
    }
}

/// Updating one counter moves the sum by the difference.
pub proof fn lemma_sum_update(s: Seq<usize>, j: int, x: usize)
    requires
        0 <= j < s.len(),
    ensures
        sum_counts(s.update(j, x)) == sum_counts(s) - s[j] + x,
    decreases s.len(),
{
    if j == s.len() - 1 {
        assert(s.update(j, x).drop_last() =~= s.drop_last());
    } else {
        assert(s.update(j, x).drop_last() =~= s.drop_last().update(j, x));
        lemma_sum_update(s.drop_last(), j, x);
    }
}

/// Count the occurrences of each of the 256 byte values in the input.
/// An empty input yields all-zero counts; that is not an error.
pub fn get_counts(bytes: &Vec<u8>) -> (counts: Vec<usize>)
    ensures
        counts@.len() == 256,
        forall|v: int| 0 <= v < 256 ==> counts@[v] == count_byte(bytes@, v as u8),
        sum_counts(counts@) == bytes@.len(),
{
    let mut counts: Vec<usize> = vec![0; 256];
    proof {
        lemma_zero_counts(counts@, bytes@, 256);
        assert(counts@.take(256) =~= counts@);
    }
    let mut i: usize = 0;
    while i < bytes.len()
        invariant
            counts@.len() == 256,
            i <= bytes@.len(),
            forall|v: int| 0 <= v < 256 ==> counts@[v] == count_byte(bytes@.take(i as int), v as u8),
            sum_counts(counts@) == i,
        decreases bytes@.len() - i,
    {
        let b = bytes[i];
        let old_count = counts[b as usize];
        proof {
            lemma_count_le_len(bytes@.take(i as int), b);
            lemma_sum_update(counts@, b as int, (old_count + 1) as usize);
        }
        counts.set(b as usize, old_count + 1);
        proof {
            assert forall|v: int| 0 <= v < 256 implies counts@[v] == count_byte(
                bytes@.take(i as int + 1),
                v as u8,
            ) by {
                assert(bytes@.take(i as int + 1).drop_last() =~= bytes@.take(i as int));
                assert(bytes@.take(i as int + 1).last() == bytes@[i as int]);
            }
        }
        i = i + 1;
    }
    proof {
        assert(bytes@.take(bytes@.len() as int) =~= bytes@);
    }
    counts
}

/// All-zero counters count nothing: the base case of the counting loop.
proof fn lemma_zero_counts(counts: Seq<usize>, bytes: Seq<u8>, upto: int)
    requires
        counts.len() == 256,
        forall|v: int| 0 <= v < 256 ==> counts[v] == 0,
        0 <= upto <= 256,
    ensures
        forall|v: int| 0 <= v < 256 ==> counts[v] == count_byte(bytes.take(0), v as u8),
        sum_counts(counts.take(upto)) == 0,
    decreases upto,
{
    assert(bytes.take(0) =~= Seq::<u8>::empty());
    if upto > 0 {
        lemma_zero_counts(counts, bytes, upto - 1);
        assert(counts.take(upto).drop_last() =~= counts.take(upto - 1));
    }
}

} // verus!
