//! Entropy-coding library built on asymmetric numeral systems: histogram
//! construction, normalization of counts to a power-of-two budget, symbol
//! spreading over the state table, the table-based codec (tANS) and the
//! range codec (rANS), together with Lempel-Ziv style front ends.

use vstd::prelude::*;

pub mod bitstream;
pub mod count;
pub mod fse16;
pub mod lempel_ziv;
pub mod lzss;
pub mod normalization;
pub mod r_ans;
pub mod spreads;
pub mod t_ans;

pub use vstd::arithmetic::power2::pow2;

verus! {

/// Number of occurrences of `v` in `s`.
pub open spec fn count_in(s: Seq<u8>, v: u8) -> nat
    decreases s.len(),
{
    if s.len() == 0 {
        0
    } else {
        count_in(s.drop_last(), v) + if s.last() == v { 1nat } else { 0nat }
    }
}

/// Largest byte value occurring in `s`, or 0 when `s` is empty.
pub open spec fn max_symbol_of(s: Seq<u8>) -> u8
    decreases s.len(),
{
    if s.len() == 0 {
        0
    } else if s.last() >= max_symbol_of(s.drop_last()) {
        s.last()
    } else {
        max_symbol_of(s.drop_last())
    }
}

/// Sum of a sequence of counts.
pub open spec fn sum_seq(s: Seq<usize>) -> int
    decreases s.len(),
{
    if s.len() == 0 {
        0
    } else {
        sum_seq(s.drop_last()) + s.last()
    }
}

pub proof fn lemma_count_in_le_len(s: Seq<u8>, v: u8)
    ensures
        count_in(s, v) <= s.len(),
    decreases s.len(),
{
    if s.len() > 0 {
        lemma_count_in_le_len(s.drop_last(), v);
    }
}

/// Counting a one-longer prefix adds one occurrence of the new element.
pub proof fn lemma_count_in_take_step(s: Seq<u8>, k: int, v: u8)
    requires
        0 <= k < s.len(),
    ensures
        count_in(s.take(k + 1), v) == count_in(s.take(k), v) + if s[k] == v {
            1int
        } else {
            0int
        },
{
    assert(s.take(k + 1).drop_last() =~= s.take(k));
    assert(s.take(k + 1).last() == s[k]);
}

pub proof fn lemma_count_in_take_le(s: Seq<u8>, k: int, v: u8)
    requires
        0 <= k <= s.len(),
    ensures
        count_in(s.take(k), v) <= count_in(s, v),
    decreases s.len() - k,
{
    if k == s.len() {
        assert(s.take(k) =~= s);
    } else {
        lemma_count_in_take_step(s, k, v);
        lemma_count_in_take_le(s, k + 1, v);
    }
}

pub proof fn lemma_max_symbol_take_step(s: Seq<u8>, k: int)
    requires
        0 <= k < s.len(),
    ensures
        max_symbol_of(s.take(k + 1)) == if s[k] >= max_symbol_of(s.take(k)) {
            s[k]
        } else {
            max_symbol_of(s.take(k))
        },
{
    assert(s.take(k + 1).drop_last() =~= s.take(k));
    assert(s.take(k + 1).last() == s[k]);
}

/// The largest symbol of a nonempty sequence does occur in it.
pub proof fn lemma_max_symbol_occurs(s: Seq<u8>)
    requires
        s.len() > 0,
    ensures
        count_in(s, max_symbol_of(s)) > 0,
    decreases s.len(),
{
    if s.last() >= max_symbol_of(s.drop_last()) {
        assert(max_symbol_of(s) == s.last());
        assert(count_in(s, s.last()) >= 1);
    } else {
        assert(s.drop_last().len() > 0) by {
            if s.drop_last().len() == 0 {
                assert(max_symbol_of(s.drop_last()) == 0);
            }
        }
        lemma_max_symbol_occurs(s.drop_last());
        assert(max_symbol_of(s) == max_symbol_of(s.drop_last()));
        assert(count_in(s, max_symbol_of(s)) >= count_in(s.drop_last(), max_symbol_of(s)));
    }
}

/// No symbol above the largest one occurs.
pub proof fn lemma_above_max_symbol_absent(s: Seq<u8>, v: u8)
    requires
        v > max_symbol_of(s),
    ensures
        count_in(s, v) == 0,
    decreases s.len(),
{
    if s.len() > 0 {
        lemma_above_max_symbol_absent(s.drop_last(), v);
    }
}

/// Overwriting one position changes only the counts of the old and the new
/// value there.
pub proof fn lemma_count_in_update(s: Seq<u8>, i: int, v: u8)
    requires
        0 <= i < s.len(),
    ensures
        forall|x: u8|
            #[trigger] count_in(s.update(i, v), x) == count_in(s, x) + (if v == x {
                1int
            } else {
                0int
            }) - (if s[i] == x {
                1int
            } else {
                0int
            }),
    decreases s.len(),
{
    if i == s.len() - 1 {
        assert(s.update(i, v).drop_last() =~= s.drop_last());
        assert(s.update(i, v).last() == v);
    } else {
        assert(s.update(i, v).drop_last() =~= s.drop_last().update(i, v));
        assert(s.update(i, v).last() == s.last());
        lemma_count_in_update(s.drop_last(), i, v);
        assert forall|x: u8| #[trigger] count_in(s.update(i, v), x) == count_in(s, x) + (if v
            == x {
            1int
        } else {
            0int
        }) - (if s[i] == x {
            1int
        } else {
            0int
        }) by {
            assert(count_in(s.drop_last().update(i, v), x) == count_in(s.drop_last(), x) + (
            if v == x {
                1int
            } else {
                0int
            }) - (if s.drop_last()[i] == x {
                1int
            } else {
                0int
            }));
            assert(count_in(s.update(i, v), x) == count_in(s.update(i, v).drop_last(), x) + (
            if s.update(i, v).last() == x {
                1int
            } else {
                0int
            }));
        }
    }
}

/// A value with a positive count occurs somewhere.
pub proof fn lemma_count_in_pos_exists(s: Seq<u8>, v: u8)
    requires
        count_in(s, v) > 0,
    ensures
        exists|k: int| 0 <= k < s.len() && s[k] == v,
    decreases s.len(),
{
    if s.last() == v {
        assert(s[s.len() - 1] == v);
    } else {
        lemma_count_in_pos_exists(s.drop_last(), v);
        let k = choose|k: int| 0 <= k < s.drop_last().len() && s.drop_last()[k] == v;
        assert(s[k] == v);
    }
}

/// Updating one entry of a sequence of counts moves its sum by the difference.
pub proof fn lemma_sum_seq_update(s: Seq<usize>, i: int, v: usize)
    requires
        0 <= i < s.len(),
    ensures
        sum_seq(s.update(i, v)) == sum_seq(s) - s[i] + v,
    decreases s.len(),
{
    if i == s.len() - 1 {
        assert(s.update(i, v).drop_last() =~= s.drop_last());
    } else {
        assert(s.update(i, v).drop_last() =~= s.drop_last().update(i, v));
        lemma_sum_seq_update(s.drop_last(), i, v);
    }
}

/// Every entry of a sequence of counts is at most the whole sum.
pub proof fn lemma_sum_seq_entry_le(s: Seq<usize>, i: int)
    requires
        0 <= i < s.len(),
        forall|j: int| 0 <= j < s.len() ==> s[j] >= 0,
    ensures
        s[i] <= sum_seq(s),
    decreases s.len(),
{
    if i == s.len() - 1 {
        lemma_sum_seq_nonneg(s.drop_last());
    } else {
        lemma_sum_seq_entry_le(s.drop_last(), i);
    }
}

pub proof fn lemma_sum_seq_nonneg(s: Seq<usize>)
    ensures
        sum_seq(s) >= 0,
    decreases s.len(),
{
    if s.len() > 0 {
        lemma_sum_seq_nonneg(s.drop_last());
    }
}

/// Sum of a one-longer prefix of counts.
pub proof fn lemma_sum_seq_take_step(s: Seq<usize>, k: int)
    requires
        0 <= k < s.len(),
    ensures
        sum_seq(s.take(k + 1)) == sum_seq(s.take(k)) + s[k],
{
    assert(s.take(k + 1).drop_last() =~= s.take(k));
    assert(s.take(k + 1).last() == s[k]);
}

pub proof fn lemma_pow2_monotone(a: nat, b: nat)
    requires
        a <= b,
    ensures
        pow2(a) <= pow2(b),
{
    if a < b {
        vstd::arithmetic::power2::lemma_pow2_strictly_increases(a, b);
    }
}

/// Sum of a prefix of counts never exceeds the whole sum.
pub proof fn lemma_sum_seq_take_le(s: Seq<usize>, k: int)
    requires
        0 <= k <= s.len(),
    ensures
        sum_seq(s.take(k)) <= sum_seq(s),
    decreases s.len() - k,
{
    if k == s.len() {
        assert(s.take(k) =~= s);
    } else {
        lemma_sum_seq_take_step(s, k);
        lemma_sum_seq_take_le(s, k + 1);
    }
}

/// A positive sum comes from some positive entry.
pub proof fn lemma_sum_seq_pos_exists(s: Seq<usize>)
    requires
        sum_seq(s) > 0,
    ensures
        exists|i: int| 0 <= i < s.len() && s[i] > 0,
    decreases s.len(),
{
    if s.last() > 0 {
        assert(s[s.len() - 1] > 0);
    } else {
        lemma_sum_seq_pos_exists(s.drop_last());
        let i = choose|i: int| 0 <= i < s.drop_last().len() && s.drop_last()[i] > 0;
        assert(s[i] > 0);
    }
}

/// Compute the sum of a slice of counts.
pub fn sum_slice(hist: &[usize]) -> (r: usize)
    requires
        sum_seq(hist@) <= usize::MAX,
    ensures
        r == sum_seq(hist@),
{
    let mut acc: usize = 0;
    let mut k: usize = 0;
    let n = hist.len();
    while k < n
        invariant
            n == hist@.len(),
            0 <= k <= n,
            sum_seq(hist@) <= usize::MAX,
            acc == sum_seq(hist@.take(k as int)),
        decreases n - k,
    {
        proof {
            lemma_sum_seq_take_step(hist@, k as int);
            lemma_sum_seq_take_le(hist@, k as int + 1);
        }
        acc = acc + hist[k];
        k = k + 1;
    }
    proof {
        assert(hist@.take(n as int) =~= hist@);
    }
    acc
}

/// Compute a power of two.
pub fn pow2_usize(e: usize) -> (r: usize)
    requires
        pow2(e as nat) <= usize::MAX,
    ensures
        r == pow2(e as nat),
{
    let mut r: usize = 1;
    let mut k: usize = 0;
    proof {
        vstd::arithmetic::power2::lemma2_to64();
    }
    while k < e
        invariant
            0 <= k <= e,
            pow2(e as nat) <= usize::MAX,
            r == pow2(k as nat),
        decreases e - k,
    {
        proof {
            vstd::arithmetic::power2::lemma_pow2_unfold(k as nat + 1);
            lemma_pow2_monotone(k as nat + 1, e as nat);
        }
        r = r * 2;
        k = k + 1;
    }
    r
}

/// Compute a power of two in 64-bit arithmetic.
pub fn pow2_u64(e: u64) -> (r: u64)
    requires
        pow2(e as nat) <= u64::MAX,
    ensures
        r == pow2(e as nat),
{
    let mut r: u64 = 1;
    let mut k: u64 = 0;
    proof {
        vstd::arithmetic::power2::lemma2_to64();
    }
    while k < e
        invariant
            0 <= k <= e,
            pow2(e as nat) <= u64::MAX,
            r == pow2(k as nat),
        decreases e - k,
    {
        proof {
            vstd::arithmetic::power2::lemma_pow2_unfold(k as nat + 1);
            lemma_pow2_monotone(k as nat + 1, e as nat);
        }
        r = r * 2;
        k = k + 1;
    }
    r
}

/// A vector of `n` zero counts.
pub fn zero_counts(n: usize) -> (v: Vec<usize>)
    ensures
        v@.len() == n,
        forall|i: int| 0 <= i < n ==> v@[i] == 0,
{
    let mut v: Vec<usize> = Vec::new();
    let mut k: usize = 0;
    while k < n
        invariant
            0 <= k <= n,
            v@.len() == k,
            forall|i: int| 0 <= i < k ==> v@[i] == 0,
        decreases n - k,
    {
        v.push(0);
        k = k + 1;
    }
    v
}

} // verus!
