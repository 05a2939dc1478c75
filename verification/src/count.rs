//! Histogram construction: count how often each byte value occurs in a
//! source buffer and report the largest symbol seen.

use vstd::prelude::*;

use crate::{count_in, max_symbol_of, sum_seq};
use crate::{
    lemma_above_max_symbol_absent, lemma_count_in_le_len, lemma_count_in_take_le,
    lemma_count_in_take_step, lemma_max_symbol_occurs, lemma_max_symbol_take_step,
    lemma_sum_seq_take_step, lemma_sum_seq_update,
};

verus! {

/// Compute an histogram with a very basic method: one pass over the source,
/// adding each occurrence to the entry of its byte value.
pub fn simple_count_u8_inplace(src: &[u8], ret: &mut [usize; 256]) -> (max_symbol: usize)
    requires
        forall|i: int| 0 <= i < 256 ==> old(ret)@[i] + count_in(src@, i as u8) <= usize::MAX,
    ensures
        forall|i: int| 0 <= i < 256 ==> final(ret)@[i] == old(ret)@[i] + count_in(src@, i as u8),
        sum_seq(final(ret)@) == sum_seq(old(ret)@) + src@.len(),
        max_symbol == max_symbol_of(src@) as usize,
{
    let mut max_symbol: usize = 0;
    let mut k: usize = 0;
    while k < src.len()
        invariant
            0 <= k <= src@.len(),
            ret@.len() == 256,
            forall|i: int| 0 <= i < 256 ==> old(ret)@[i] + count_in(src@, i as u8) <= usize::MAX,
            forall|i: int|
                0 <= i < 256 ==> ret@[i] == old(ret)@[i] + count_in(src@.take(k as int), i as u8),
            sum_seq(ret@) == sum_seq(old(ret)@) + k,
            max_symbol == max_symbol_of(src@.take(k as int)) as usize,
        decreases src@.len() - k,
    {
        let c = src[k] as usize;
        proof {
            lemma_count_in_take_step(src@, k as int, src@[k as int]);
            lemma_count_in_take_le(src@, k as int + 1, src@[k as int]);
            lemma_max_symbol_take_step(src@, k as int);
            assert forall|i: int| 0 <= i < 256 && i != c implies #[trigger] count_in(
                src@.take(k as int + 1),
                i as u8,
            ) == count_in(src@.take(k as int), i as u8) by {
                lemma_count_in_take_step(src@, k as int, i as u8);
            }
            lemma_sum_seq_update(ret@, c as int, (ret@[c as int] + 1) as usize);
        }
        ret[c] = ret[c] + 1;
        if max_symbol < c {
            max_symbol = c;
        }
        k = k + 1;
    }
    proof {
        assert(src@.take(src@.len() as int) =~= src@);
    }
    max_symbol
}

/// Compute an histogram of a byte source, returning the counts and the
/// largest symbol seen. The sum of all counts equals the source length.
pub fn simple_count_u8(src: &[u8]) -> (r: ([usize; 256], usize))
    ensures
        forall|i: int| 0 <= i < 256 ==> r.0@[i] == count_in(src@, i as u8),
        sum_seq(r.0@) == src@.len(),
        r.1 == max_symbol_of(src@) as usize,
{
    let mut ret = [0usize; 256];
    let n = src.len();
    proof {
        assert(src@.len() == n);
        assert(forall|i: int| 0 <= i < 256 ==> ret@[i] == 0);
        assert forall|i: int| 0 <= i < 256 implies ret@[i] + count_in(src@, i as u8)
            <= usize::MAX by {
            lemma_count_in_le_len(src@, i as u8);
        }
        lemma_sum_seq_all_zero(ret@);
    }
    let max_symbol = simple_count_u8_inplace(src, &mut ret);
    (ret, max_symbol)
}

proof fn lemma_sum_seq_all_zero(s: Seq<usize>)
    requires
        forall|j: int| 0 <= j < s.len() ==> s[j] == 0,
    ensures
        sum_seq(s) == 0,
    decreases s.len(),
{
    if s.len() > 0 {
        lemma_sum_seq_all_zero(s.drop_last());
    }
}

/// Histogram over four independent buckets, updated in a four-way unrolled
/// loop and summed at the end; bit-identical to the scalar count.
#[verifier::rlimit(60)]
pub fn multi_bucket_count_u8(src: &[u8], ret: &mut [usize; 256]) -> (max_symbol: usize)
    requires
        src@.len() >= 4,
    ensures
        forall|i: int| 0 <= i < 256 ==> final(ret)@[i] == count_in(src@, i as u8),
        sum_seq(final(ret)@) == src@.len(),
        max_symbol == max_symbol_of(src@) as usize,
{
    let mut bucket1 = [0usize; 256];
    let mut bucket2 = [0usize; 256];
    let mut bucket3 = [0usize; 256];
    let mut bucket4 = [0usize; 256];
    let n = src.len();
    let mut index: usize = 0;
    while index < n - 4
        invariant
            src@.len() >= 4,
            n == src@.len(),
            0 <= index <= src@.len(),
            bucket1@.len() == 256,
            bucket2@.len() == 256,
            bucket3@.len() == 256,
            bucket4@.len() == 256,
            forall|i: int|
                0 <= i < 256 ==> bucket1@[i] + bucket2@[i] + bucket3@[i] + bucket4@[i] == count_in(
                    src@.take(index as int),
                    i as u8,
                ),
        decreases src@.len() - index,
    {
        let s1 = src[index] as usize;
        proof {
            count_take_all(src@, index as int, src@[index as int]);
        }
        bucket1[s1] = bucket1[s1] + 1;
        let s2 = src[index + 1] as usize;
        proof {
            count_take_all(src@, index as int + 1, src@[index as int + 1]);
        }
        bucket2[s2] = bucket2[s2] + 1;
        let s3 = src[index + 2] as usize;
        proof {
            count_take_all(src@, index as int + 2, src@[index as int + 2]);
        }
        bucket3[s3] = bucket3[s3] + 1;
        let s4 = src[index + 3] as usize;
        proof {
            count_take_all(src@, index as int + 3, src@[index as int + 3]);
        }
        bucket4[s4] = bucket4[s4] + 1;
        index = index + 4;
    }
    while index < n
        invariant
            n == src@.len(),
            0 <= index <= src@.len(),
            bucket1@.len() == 256,
            bucket2@.len() == 256,
            bucket3@.len() == 256,
            bucket4@.len() == 256,
            forall|i: int|
                0 <= i < 256 ==> bucket1@[i] + bucket2@[i] + bucket3@[i] + bucket4@[i] == count_in(
                    src@.take(index as int),
                    i as u8,
                ),
        decreases src@.len() - index,
    {
        let s = src[index] as usize;
        proof {
            count_take_all(src@, index as int, src@[index as int]);
        }
        bucket1[s] = bucket1[s] + 1;
        index = index + 1;
    }
    proof {
        assert(src@.take(src@.len() as int) =~= src@);
    }
    let mut max_symbol: usize = 0;
    let mut i: usize = 0;
    while i < 256
        invariant
            n == src@.len(),
            0 <= i <= 256,
            ret@.len() == 256,
            bucket1@.len() == 256,
            bucket2@.len() == 256,
            bucket3@.len() == 256,
            bucket4@.len() == 256,
            forall|j: int|
                0 <= j < 256 ==> bucket1@[j] + bucket2@[j] + bucket3@[j] + bucket4@[j] == count_in(
                    src@,
                    j as u8,
                ),
            forall|j: int| 0 <= j < i ==> ret@[j] == count_in(src@, j as u8),
            sum_seq(ret@.take(i as int)) == count_prefix_sum(src@, i as int),
            max_symbol < 256,
            forall|j: int| max_symbol < j < i ==> #[trigger] count_in(src@, j as u8) == 0,
            max_symbol == 0 || (max_symbol < i && count_in(src@, max_symbol as u8) > 0),
        decreases 256 - i,
    {
        proof {
            lemma_count_in_le_len(src@, i as u8);
        }
        let ghost ret0 = ret@;
        let total = bucket1[i] + bucket2[i] + bucket3[i] + bucket4[i];
        ret[i] = total;
        if total > 0 {
            max_symbol = i;
        }
        proof {
            assert(ret@.take(i as int) =~= ret0.take(i as int));
            assert(ret@.take(i as int + 1).drop_last() =~= ret@.take(i as int));
            assert(ret@.take(i as int + 1).last() == total);
        }
        i = i + 1;
    }
    proof {
        assert(ret@.take(256) =~= ret@);
        lemma_count_prefix_sum_is_count_lt(src@, 256);
        lemma_count_lt_all(src@);
        lemma_max_symbol_occurs(src@);
        let mo = max_symbol_of(src@);
        if mo as int > max_symbol as int {
            assert((mo as int) as u8 == mo);
            assert(count_in(src@, (mo as int) as u8) == 0);
        }
        if (mo as int) < max_symbol as int {
            lemma_above_max_symbol_absent(src@, max_symbol as u8);
        }
    }
    max_symbol
}

/// Sum over the first `n` byte values of their occurrence counts in `s`.
spec fn count_prefix_sum(s: Seq<u8>, n: int) -> int
    decreases n,
{
    if n <= 0 {
        0
    } else {
        count_prefix_sum(s, n - 1) + count_in(s, (n - 1) as u8)
    }
}

/// Number of positions of `s` holding a value below `n`.
spec fn count_lt(s: Seq<u8>, n: int) -> int
    decreases s.len(),
{
    if s.len() == 0 {
        0
    } else {
        count_lt(s.drop_last(), n) + if (s.last() as int) < n {
            1int
        } else {
            0int
        }
    }
}

proof fn count_take_all(s: Seq<u8>, k: int, c: u8)
    requires
        0 <= k < s.len(),
        s[k] == c,
    ensures
        count_in(s.take(k + 1), c) == count_in(s.take(k), c) + 1,
        count_in(s.take(k + 1), c) <= s.len(),
        forall|i: int|
            0 <= i < 256 && i as u8 != c ==> #[trigger] count_in(s.take(k + 1), i as u8)
                == count_in(s.take(k), i as u8),
{
    lemma_count_in_take_step(s, k, c);
    lemma_count_in_take_le(s, k + 1, c);
    lemma_count_in_le_len(s, c);
    assert forall|i: int| 0 <= i < 256 && i as u8 != c implies #[trigger] count_in(
        s.take(k + 1),
        i as u8,
    ) == count_in(s.take(k), i as u8) by {
        lemma_count_in_take_step(s, k, i as u8);
    }
}

proof fn lemma_count_lt_step(s: Seq<u8>, n: int)
    requires
        1 <= n <= 256,
    ensures
        count_lt(s, n) == count_lt(s, n - 1) + count_in(s, (n - 1) as u8),
    decreases s.len(),
{
    assert(((n - 1) as u8) as int == n - 1);
    if s.len() > 0 {
        lemma_count_lt_step(s.drop_last(), n);
    }
}

proof fn lemma_count_prefix_sum_is_count_lt(s: Seq<u8>, n: int)
    requires
        0 <= n <= 256,
    ensures
        count_prefix_sum(s, n) == count_lt(s, n),
    decreases n,
{
    if n > 0 {
        lemma_count_prefix_sum_is_count_lt(s, n - 1);
        lemma_count_lt_step(s, n);
    } else {
        lemma_count_lt_zero(s);
    }
}

proof fn lemma_count_lt_zero(s: Seq<u8>)
    ensures
        count_lt(s, 0) == 0,
    decreases s.len(),
{
    if s.len() > 0 {
        lemma_count_lt_zero(s.drop_last());
    }
}

proof fn lemma_count_lt_all(s: Seq<u8>)
    ensures
        count_lt(s, 256) == s.len(),
    decreases s.len(),
{
    if s.len() > 0 {
        lemma_count_lt_all(s.drop_last());
    }
}

/// Add one sub-histogram into an accumulator table, entry by entry.
pub fn add_histograms(acc: &mut [usize; 256], bucket: &[usize; 256])
    requires
        forall|i: int| 0 <= i < 256 ==> old(acc)@[i] + bucket@[i] <= usize::MAX,
    ensures
        forall|i: int| 0 <= i < 256 ==> final(acc)@[i] == old(acc)@[i] + bucket@[i],
        sum_seq(final(acc)@) == sum_seq(old(acc)@) + sum_seq(bucket@),
{
    let mut k: usize = 0;
    while k < 256
        invariant
            0 <= k <= 256,
            acc@.len() == 256,
            bucket@.len() == 256,
            forall|i: int| 0 <= i < 256 ==> old(acc)@[i] + bucket@[i] <= usize::MAX,
            forall|i: int| 0 <= i < k ==> acc@[i] == old(acc)@[i] + bucket@[i],
            forall|i: int| k <= i < 256 ==> acc@[i] == old(acc)@[i],
            sum_seq(acc@) == sum_seq(old(acc)@) + sum_seq(bucket@.take(k as int)),
        decreases 256 - k,
    {
        proof {
            lemma_sum_seq_update(acc@, k as int, (acc@[k as int] + bucket@[k as int]) as usize);
            lemma_sum_seq_take_step(bucket@, k as int);
        }
        acc[k] = acc[k] + bucket[k];
        k = k + 1;
    }
    proof {
        assert(bucket@.take(256) =~= bucket@);
    }
}

/// The largest symbol with a nonzero count, or zero on an all-zero table.
pub fn largest_counted_symbol(hist: &[usize; 256]) -> (r: usize)
    ensures
        r < 256,
        forall|j: int| r < j < 256 ==> hist@[j] == 0,
        hist@[r as int] > 0 || r == 0,
{
    let mut max_symbol: usize = 0;
    let mut i: usize = 0;
    while i < 256
        invariant
            0 <= i <= 256,
            hist@.len() == 256,
            max_symbol < 256,
            forall|j: int| max_symbol < j < i ==> hist@[j] == 0,
            max_symbol == 0 || (max_symbol < i && hist@[max_symbol as int] > 0),
        decreases 256 - i,
    {
        if hist[i] > 0 {
            max_symbol = i;
        }
        i = i + 1;
    }
    max_symbol
}

} // verus!
