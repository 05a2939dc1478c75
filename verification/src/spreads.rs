//! Spread functions: place each symbol on exactly its normalized frequency's
//! worth of slots of the `2^table_log` state table, by a deterministic
//! permutation shared between encoder and decoder.

use vstd::prelude::*;

use vstd::arithmetic::div_mod::{lemma_add_mod_noop, lemma_mod_multiples_vanish, lemma_small_mod};
use vstd::arithmetic::power2::{lemma2_to64, lemma_pow2_pos, lemma_pow2_unfold};

use crate::{count_in, pow2, sum_seq};
use crate::{
    lemma_count_in_pos_exists, lemma_count_in_update, lemma_pow2_monotone, lemma_sum_seq_take_le,
    lemma_sum_seq_take_step,
};
use crate::pow2_usize;

verus! {

/// Total number of slots a pair list `(symbol, frequency)` asks for.
pub open spec fn psum(ps: Seq<(usize, usize)>) -> int
    decreases ps.len(),
{
    if ps.len() == 0 {
        0
    } else {
        psum(ps.drop_last()) + ps.last().1
    }
}

/// Number of slots a pair list asks for on behalf of symbol `b`.
pub open spec fn pcount(ps: Seq<(usize, usize)>, b: int) -> int
    decreases ps.len(),
{
    if ps.len() == 0 {
        0
    } else {
        pcount(ps.drop_last(), b) + if ps.last().0 == b {
            ps.last().1 as int
        } else {
            0int
        }
    }
}

proof fn lemma_pair_take_step(ps: Seq<(usize, usize)>, k: int)
    requires
        0 <= k < ps.len(),
    ensures
        psum(ps.take(k + 1)) == psum(ps.take(k)) + ps[k].1,
        forall|b: int|
            #[trigger] pcount(ps.take(k + 1), b) == pcount(ps.take(k), b) + if ps[k].0 == b {
                ps[k].1 as int
            } else {
                0int
            },
{
    assert(ps.take(k + 1).drop_last() =~= ps.take(k));
    assert(ps.take(k + 1).last() == ps[k]);
}

proof fn lemma_pair_push(ps: Seq<(usize, usize)>, p: (usize, usize))
    ensures
        psum(ps.push(p)) == psum(ps) + p.1,
        forall|b: int|
            #[trigger] pcount(ps.push(p), b) == pcount(ps, b) + if p.0 == b {
                p.1 as int
            } else {
                0int
            },
{
    assert(ps.push(p).drop_last() =~= ps);
    assert(ps.push(p).last() == p);
}

proof fn lemma_pair_remove(ps: Seq<(usize, usize)>, k: int)
    requires
        0 <= k < ps.len(),
    ensures
        psum(ps.remove(k)) == psum(ps) - ps[k].1,
        forall|b: int|
            #[trigger] pcount(ps.remove(k), b) == pcount(ps, b) - if ps[k].0 == b {
                ps[k].1 as int
            } else {
                0int
            },
    decreases ps.len(),
{
    if k == ps.len() - 1 {
        assert(ps.remove(k) =~= ps.drop_last());
    } else {
        assert(ps.remove(k).drop_last() =~= ps.drop_last().remove(k));
        assert(ps.remove(k).last() == ps.last());
        lemma_pair_remove(ps.drop_last(), k);
        assert forall|b: int| #[trigger] pcount(ps.remove(k), b) == pcount(ps, b) - (if ps[k].0
            == b {
            ps[k].1 as int
        } else {
            0int
        }) by {
            assert(pcount(ps.drop_last().remove(k), b) == pcount(ps.drop_last(), b) - (if ps[k].0
                == b {
                ps[k].1 as int
            } else {
                0int
            }));
            assert(pcount(ps.remove(k), b) == pcount(ps.remove(k).drop_last(), b) + (if ps.remove(
                k,
            ).last().0 == b {
                ps.remove(k).last().1 as int
            } else {
                0int
            }));
        }
    }
}

proof fn lemma_psum_take_le(ps: Seq<(usize, usize)>, k: int)
    requires
        0 <= k <= ps.len(),
    ensures
        psum(ps.take(k)) <= psum(ps),
    decreases ps.len() - k,
{
    if k == ps.len() {
        assert(ps.take(k) =~= ps);
    } else {
        lemma_pair_take_step(ps, k);
        lemma_psum_take_le(ps, k + 1);
    }
}

proof fn lemma_pcount_nonneg(ps: Seq<(usize, usize)>, b: int)
    ensures
        pcount(ps, b) >= 0,
    decreases ps.len(),
{
    if ps.len() > 0 {
        lemma_pcount_nonneg(ps.drop_last(), b);
    }
}

/// Walk the state table from `pos`, wrapping around, and place each pair's
/// symbol on its frequency's worth of free slots, stepping by `step` after
/// each write. A slot holding zero counts as free; because the pair list
/// asks for exactly the table size in total, the final table holds every
/// symbol exactly as often as its pair demands.
fn spread_pairs(pairs: &Vec<(usize, usize)>, table_log: usize, step: usize) -> (r: Vec<u8>)
    requires
        1 <= table_log <= 15,
        1 <= step <= 0x10000,
        psum(pairs@) == pow2(table_log as nat),
        forall|k: int| 0 <= k < pairs@.len() ==> (#[trigger] pairs@[k]).0 < 256,
        forall|k: int| 0 <= k < pairs@.len() ==> (#[trigger] pairs@[k]).1 >= 1,
    ensures
        r@.len() == pow2(table_log as nat),
        forall|b: int| 0 <= b < 256 ==> #[trigger] count_in(r@, b as u8) == pcount(pairs@, b),
{
    proof {
        lemma2_to64();
        lemma_pow2_monotone(1, table_log as nat);
        lemma_pow2_monotone(table_log as nat, 15);
    }
    let ts = pow2_usize(table_log);
    let mut ret = zero_bytes(ts);
    let mut pos: usize = 0;
    let mut k: usize = 0;
    let ghost mut np: int = 0;
    while k < pairs.len()
        invariant
            1 <= table_log <= 15,
            ts == pow2(table_log as nat),
            2 <= ts <= 0x8000,
            1 <= step <= 0x10000,
            ret@.len() == ts,
            psum(pairs@) == ts,
            forall|kk: int| 0 <= kk < pairs@.len() ==> (#[trigger] pairs@[kk]).0 < 256,
            forall|kk: int| 0 <= kk < pairs@.len() ==> (#[trigger] pairs@[kk]).1 >= 1,
            0 <= k <= pairs@.len(),
            0 <= pos < ts,
            np == psum(pairs@.take(k as int)) - pcount(pairs@.take(k as int), 0),
            0 <= np,
            count_in(ret@, 0u8) == ts - np,
            forall|b: int|
                1 <= b < 256 ==> #[trigger] count_in(ret@, b as u8) == pcount(
                    pairs@.take(k as int),
                    b,
                ),
        decreases pairs@.len() - k,
    {
        let pair = pairs[k];
        let sym = pair.0;
        let freq = pair.1;
        let mut c: usize = 0;
        while c < freq
            invariant
                1 <= table_log <= 15,
                ts == pow2(table_log as nat),
                2 <= ts <= 0x8000,
                1 <= step <= 0x10000,
                ret@.len() == ts,
                psum(pairs@) == ts,
                forall|kk: int| 0 <= kk < pairs@.len() ==> (#[trigger] pairs@[kk]).0 < 256,
                forall|kk: int| 0 <= kk < pairs@.len() ==> (#[trigger] pairs@[kk]).1 >= 1,
                0 <= k < pairs@.len(),
                sym == pairs@[k as int].0,
                freq == pairs@[k as int].1,
                0 <= c <= freq,
                0 <= pos < ts,
                np == psum(pairs@.take(k as int)) - pcount(pairs@.take(k as int), 0) + (
                if sym != 0 {
                    c as int
                } else {
                    0int
                }),
                0 <= np,
                count_in(ret@, 0u8) == ts - np,
                forall|b: int|
                    1 <= b < 256 ==> #[trigger] count_in(ret@, b as u8) == pcount(
                        pairs@.take(k as int),
                        b,
                    ) + (if sym == b {
                        c as int
                    } else {
                        0int
                    }),
            decreases freq - c,
        {
            proof {
                lemma_pair_take_step(pairs@, k as int);
                lemma_psum_take_le(pairs@, k as int + 1);
                lemma_pcount_nonneg(pairs@.take(k as int), 0);
                assert(np < ts);
                assert(count_in(ret@, 0u8) >= 1);
            }
            let ghost start = pos as int;
            let ghost mut tries: int = 0;
            proof {
                lemma_small_mod(pos as nat, ts as nat);
            }
            while ret[pos] != 0
                invariant
                    ret@.len() == ts,
                    2 <= ts,
                    count_in(ret@, 0u8) >= 1,
                    0 <= pos < ts,
                    0 <= start < ts,
                    0 <= tries < ts,
                    pos as int == (start + tries) % (ts as int),
                    forall|q: int|
                        0 <= q < tries ==> ret@[#[trigger] ((start + q) % (ts as int))] != 0,
                decreases ts - tries,
            {
                proof {
                    assert(ret@[(start + tries) % (ts as int)] != 0);
                }
                pos = (pos + 1) % ts;
                proof {
                    lemma_small_mod(1nat, ts as nat);
                    lemma_add_mod_noop(start + tries, 1, ts as int);
                    tries = tries + 1;
                    if tries == ts {
                        lemma_count_in_pos_exists(ret@, 0u8);
                        let kk = choose|kk: int| 0 <= kk < ret@.len() && ret@[kk] == 0;
                        let q: int = if kk >= start {
                            kk - start
                        } else {
                            kk + ts - start
                        };
                        assert(0 <= q < ts);
                        assert((start + q) % (ts as int) == kk) by {
                            if kk >= start {
                                lemma_small_mod(kk as nat, ts as nat);
                            } else {
                                lemma_mod_multiples_vanish(1, kk, ts as int);
                                lemma_small_mod(kk as nat, ts as nat);
                            }
                        }
                        assert(ret@[(start + q) % (ts as int)] != 0);
                        assert(false);
                    }
                }
            }
            proof {
                lemma_count_in_update(ret@, pos as int, sym as u8);
                if sym != 0 {
                    assert((sym as u8) != 0u8);
                }
            }
            ret.set(pos, sym as u8);
            proof {
                if sym != 0 {
                    np = np + 1;
                }
            }
            pos = (pos + step) % ts;
            c = c + 1;
        }
        proof {
            lemma_pair_take_step(pairs@, k as int);
        }
        k = k + 1;
    }
    proof {
        assert(pairs@.take(pairs@.len() as int) =~= pairs@);
        assert forall|b: int| 0 <= b < 256 implies #[trigger] count_in(ret@, b as u8) == pcount(
            pairs@,
            b,
        ) by {
            if b == 0 {
                assert(count_in(ret@, 0u8) == ts - (psum(pairs@) - pcount(pairs@, 0)));
            }
        }
    }
    ret
}

/// A table of `n` unplaced slots.
fn zero_bytes(n: usize) -> (v: Vec<u8>)
    ensures
        v@.len() == n,
        forall|i: int| 0 <= i < n ==> v@[i] == 0,
        count_in(v@, 0u8) == n,
        forall|b: int| 1 <= b < 256 ==> #[trigger] count_in(v@, b as u8) == 0,
{
    let mut v: Vec<u8> = Vec::new();
    let mut k: usize = 0;
    while k < n
        invariant
            0 <= k <= n,
            v@.len() == k,
            forall|i: int| 0 <= i < k ==> v@[i] == 0,
            count_in(v@, 0u8) == k,
            forall|b: int| 1 <= b < 256 ==> #[trigger] count_in(v@, b as u8) == 0,
        decreases n - k,
    {
        let ghost v0 = v@;
        v.push(0);
        proof {
            assert(v@.drop_last() =~= v0);
            assert forall|b: int| 0 <= b < 256 implies #[trigger] count_in(v@, b as u8)
                == count_in(v0, b as u8) + (if b == 0 {
                1int
            } else {
                0int
            }) by {
                assert(v@.last() == 0u8);
            }
        }
        k = k + 1;
    }
    v
}

/// The positive entries of a histogram as `(symbol, frequency)` pairs, in
/// symbol order.
fn hist_pairs(hist: &[usize]) -> (pairs: Vec<(usize, usize)>)
    requires
        hist@.len() <= 256,
        sum_seq(hist@) <= usize::MAX,
    ensures
        psum(pairs@) == sum_seq(hist@),
        forall|k: int| 0 <= k < pairs@.len() ==> (#[trigger] pairs@[k]).0 < hist@.len(),
        forall|k: int| 0 <= k < pairs@.len() ==> (#[trigger] pairs@[k]).1 >= 1,
        forall|b: int|
            0 <= b < 256 ==> #[trigger] pcount(pairs@, b) == (if b < hist@.len() {
                hist@[b] as int
            } else {
                0int
            }),
{
    let n = hist.len();
    let mut pairs: Vec<(usize, usize)> = Vec::new();
    let mut i: usize = 0;
    while i < n
        invariant
            n == hist@.len(),
            n <= 256,
            0 <= i <= n,
            psum(pairs@) == sum_seq(hist@.take(i as int)),
            forall|k: int| 0 <= k < pairs@.len() ==> (#[trigger] pairs@[k]).0 < i,
            forall|k: int| 0 <= k < pairs@.len() ==> (#[trigger] pairs@[k]).1 >= 1,
            forall|b: int|
                0 <= b < 256 ==> #[trigger] pcount(pairs@, b) == (if b < i {
                    hist@[b] as int
                } else {
                    0int
                }),
        decreases n - i,
    {
        proof {
            lemma_sum_seq_take_step(hist@, i as int);
        }
        if hist[i] > 0 {
            proof {
                lemma_pair_push(pairs@, (i, hist@[i as int]));
            }
            pairs.push((i, hist[i]));
        }
        i = i + 1;
    }
    proof {
        assert(hist@.take(n as int) =~= hist@);
    }
    pairs
}

/// Spread in the style of the reference FSE implementation, valid when the
/// histogram is already sorted: symbols in table order, each placed on the
/// next free slot of a fixed-stride walk. Every symbol `s` occupies exactly
/// `sorted_hist[s]` of the `2^table_log` slots.
pub fn fse_spread(sorted_hist: &[usize], table_log: usize) -> (r: Vec<u8>)
    requires
        3 <= table_log <= 15,
        sorted_hist@.len() <= 256,
        sum_seq(sorted_hist@) == pow2(table_log as nat),
    ensures
        r@.len() == pow2(table_log as nat),
        forall|b: int|
            0 <= b < 256 ==> #[trigger] count_in(r@, b as u8) == (if b < sorted_hist@.len() {
                sorted_hist@[b] as int
            } else {
                0int
            }),
{
    proof {
        lemma2_to64();
        lemma_pow2_monotone((table_log - 1) as nat, 14);
        lemma_pow2_monotone((table_log - 3) as nat, 14);
        lemma_pow2_pos((table_log - 1) as nat);
    }
    let step = pow2_usize(table_log - 1) + pow2_usize(table_log - 3) + 1;
    let pairs = hist_pairs(sorted_hist);
    spread_pairs(&pairs, table_log, step)
}

/// The same walk as `fse_spread` with the stride `5 * 2^table_log / 8 + 3`.
pub fn fast_spread_2(sorted_hist: &[usize], table_log: usize) -> (r: Vec<u8>)
    requires
        1 <= table_log <= 15,
        sorted_hist@.len() <= 256,
        sum_seq(sorted_hist@) == pow2(table_log as nat),
    ensures
        r@.len() == pow2(table_log as nat),
        forall|b: int|
            0 <= b < 256 ==> #[trigger] count_in(r@, b as u8) == (if b < sorted_hist@.len() {
                sorted_hist@[b] as int
            } else {
                0int
            }),
{
    proof {
        lemma2_to64();
        lemma_pow2_monotone(table_log as nat, 15);
    }
    let table_size = pow2_usize(table_log);
    let step = ((5 * table_size) / 8) + 3;
    let pairs = hist_pairs(sorted_hist);
    spread_pairs(&pairs, table_log, step)
}

/// Like `fse_spread` on a histogram that is not sorted: the symbols are
/// first ordered by decreasing frequency (ties keep symbol order), then
/// placed by the same fixed-stride walk.
pub fn fse_spread_unsorted(hist: &[usize], table_log: usize) -> (r: Vec<u8>)
    requires
        3 <= table_log <= 15,
        hist@.len() <= 256,
        sum_seq(hist@) == pow2(table_log as nat),
    ensures
        r@.len() == pow2(table_log as nat),
        forall|b: int|
            0 <= b < 256 ==> #[trigger] count_in(r@, b as u8) == (if b < hist@.len() {
                hist@[b] as int
            } else {
                0int
            }),
{
    proof {
        lemma2_to64();
        lemma_pow2_monotone((table_log - 1) as nat, 14);
        lemma_pow2_monotone((table_log - 3) as nat, 14);
        lemma_pow2_pos((table_log - 1) as nat);
    }
    let step = pow2_usize(table_log - 1) + pow2_usize(table_log - 3) + 1;
    let pairs = hist_pairs(hist);
    let ghost pairs0 = pairs@;
    let sorted = sort_pairs_by_count_desc(pairs);
    proof {
        assert forall|k: int|
            0 <= k < sorted@.len() implies ((#[trigger] sorted@[k]).0 < 256 && sorted@[k].1
            >= 1) by {
            let k2 = choose|k2: int| 0 <= k2 < pairs0.len() && sorted@[k] == pairs0[k2];
            assert(pairs0[k2].0 < 256 && pairs0[k2].1 >= 1);
        }
    }
    spread_pairs(&sorted, table_log, step)
}

/// Stable sort of the pair list by decreasing frequency: repeatedly move the
/// first largest remaining pair over, so that equal frequencies keep their
/// symbol order.
fn sort_pairs_by_count_desc(pairs: Vec<(usize, usize)>) -> (sorted: Vec<(usize, usize)>)
    requires
        psum(pairs@) <= usize::MAX,
    ensures
        psum(sorted@) == psum(pairs@),
        forall|b: int| 0 <= b < 256 ==> #[trigger] pcount(sorted@, b) == pcount(pairs@, b),
        forall|k: int|
            0 <= k < sorted@.len() ==> exists|k2: int|
                0 <= k2 < pairs@.len() && #[trigger] sorted@[k] == pairs@[k2],
{
    let mut rem = pairs;
    let mut sorted: Vec<(usize, usize)> = Vec::new();
    let ghost orig = rem@;
    while rem.len() > 0
        invariant
            psum(sorted@) + psum(rem@) == psum(orig),
            forall|b: int|
                0 <= b < 256 ==> #[trigger] pcount(sorted@, b) + pcount(rem@, b) == pcount(
                    orig,
                    b,
                ),
            forall|k: int|
                0 <= k < sorted@.len() ==> exists|k2: int|
                    0 <= k2 < orig.len() && #[trigger] sorted@[k] == orig[k2],
            forall|k: int|
                0 <= k < rem@.len() ==> exists|k2: int|
                    0 <= k2 < orig.len() && #[trigger] rem@[k] == orig[k2],
        decreases rem@.len(),
    {
        let mut best: usize = 0;
        let mut j: usize = 1;
        while j < rem.len()
            invariant
                rem@.len() > 0,
                0 <= best < rem@.len(),
                1 <= j <= rem@.len(),
            decreases rem@.len() - j,
        {
            if rem[j].1 > rem[best].1 {
                best = j;
            }
            j = j + 1;
        }
        proof {
            lemma_pair_remove(rem@, best as int);
            lemma_pair_push(sorted@, rem@[best as int]);
        }
        let p = rem.remove(best);
        sorted.push(p);
    }
    sorted
}

/// A longer prefix of counts sums at least as much.
proof fn lemma_sum_take_monotone(h: Seq<usize>, a: int, b: int)
    requires
        0 <= a <= b <= h.len(),
    ensures
        sum_seq(h.take(a)) <= sum_seq(h.take(b)),
{
    assert(h.take(b).take(a) =~= h.take(a));
    lemma_sum_seq_take_le(h.take(b), a);
}

/// Reversal of the low `n` bits of `x`: bit `j` of the result is bit
/// `n - 1 - j` of `x`.
pub open spec fn rev_bits(x: nat, n: nat) -> nat
    decreases n,
{
    if n == 0 {
        0
    } else {
        (x % 2) * pow2((n - 1) as nat) + rev_bits(x / 2, (n - 1) as nat)
    }
}

pub proof fn lemma_rev_bits_range(x: nat, n: nat)
    ensures
        rev_bits(x, n) < pow2(n),
    decreases n,
{
    vstd::arithmetic::power2::lemma_pow2_pos(n);
    if n > 0 {
        lemma_rev_bits_range(x / 2, (n - 1) as nat);
        lemma_pow2_unfold(n);
        if x % 2 == 0 {
            assert(rev_bits(x, n) == 0 * pow2((n - 1) as nat) + rev_bits(x / 2, (n - 1) as nat));
        } else {
            assert(x % 2 == 1);
            assert((x % 2) * pow2((n - 1) as nat) == pow2((n - 1) as nat));
        }
    }
}

/// Bit reversal is injective on `n`-bit values, so the bit-reverse spread
/// touches each slot at most once.
pub proof fn lemma_rev_bits_injective(x: nat, y: nat, n: nat)
    requires
        x < pow2(n),
        y < pow2(n),
        rev_bits(x, n) == rev_bits(y, n),
    ensures
        x == y,
    decreases n,
{
    if n == 0 {
        lemma2_to64();
    } else {
        lemma_rev_bits_range(x / 2, (n - 1) as nat);
        lemma_rev_bits_range(y / 2, (n - 1) as nat);
        lemma_pow2_unfold(n);
        vstd::arithmetic::power2::lemma_pow2_pos((n - 1) as nat);
        if x % 2 != y % 2 {
            if x % 2 == 1 {
                assert(y % 2 == 0) by {
                    assert(y % 2 < 2);
                }
                assert((x % 2) * pow2((n - 1) as nat) == pow2((n - 1) as nat));
                assert((y % 2) * pow2((n - 1) as nat) == 0) by (nonlinear_arith)
                    requires
                        y % 2 == 0,
                ;
            } else {
                assert(x % 2 == 0) by {
                    assert(x % 2 < 2);
                }
                assert((y % 2) * pow2((n - 1) as nat) == pow2((n - 1) as nat)) by (nonlinear_arith)
                    requires
                        y % 2 == 1,
                ;
                assert((x % 2) * pow2((n - 1) as nat) == 0) by (nonlinear_arith)
                    requires
                        x % 2 == 0,
                ;
            }
            assert(false);
        }
        lemma_rev_bits_injective(x / 2, y / 2, (n - 1) as nat);
        assert(x == 2 * (x / 2) + x % 2);
        assert(y == 2 * (y / 2) + y % 2);
    }
}

/// Reverse the low `n` bits of `x`.
fn rev_low_bits(x: usize, n: usize) -> (res: usize)
    requires
        n <= 15,
    ensures
        res == rev_bits(x as nat, n as nat),
        res < pow2(n as nat),
    decreases n,
{
    proof {
        lemma_rev_bits_range(x as nat, n as nat);
        lemma2_to64();
        lemma_pow2_monotone(n as nat, 15);
    }
    if n == 0 {
        0
    } else {
        proof {
            lemma_rev_bits_range((x / 2) as nat, (n - 1) as nat);
            lemma_pow2_unfold(n as nat);
            lemma_pow2_monotone((n - 1) as nat, 14);
        }
        let high = (x % 2) * pow2_usize(n - 1);
        let low = rev_low_bits(x / 2, n - 1);
        high + low
    }
}

/// Spread by bit reversal: the `k`-th placement overall lands on the slot
/// whose index is the bit-reversed counter, an interleaving proposed for
/// tANS tables. Every symbol `s` occupies exactly `sorted_hist[s]` slots.
pub fn bit_reverse_spread(sorted_hist: &[usize], table_log: usize) -> (r: Vec<u8>)
    requires
        1 <= table_log <= 15,
        sorted_hist@.len() <= 256,
        sum_seq(sorted_hist@) == pow2(table_log as nat),
    ensures
        r@.len() == pow2(table_log as nat),
        forall|b: int|
            0 <= b < 256 ==> #[trigger] count_in(r@, b as u8) == (if b < sorted_hist@.len() {
                sorted_hist@[b] as int
            } else {
                0int
            }),
        forall|nn: int, s: int|
            #![trigger rev_bits(nn as nat, table_log as nat), sorted_hist@.take(s)]
            0 <= nn < pow2(table_log as nat) && 0 <= s < sorted_hist@.len() && sum_seq(
                sorted_hist@.take(s),
            ) <= nn < sum_seq(sorted_hist@.take(s + 1)) ==> r@[rev_bits(
                nn as nat,
                table_log as nat,
            ) as int] == s,
{
    proof {
        lemma2_to64();
        lemma_pow2_monotone(table_log as nat, 15);
    }
    let n = sorted_hist.len();
    let ts = pow2_usize(table_log);
    let mut ret = zero_bytes(ts);
    let mut cnt: usize = 0;
    let mut i: usize = 0;
    while i < n
        invariant
            n == sorted_hist@.len(),
            n <= 256,
            1 <= table_log <= 15,
            ts == pow2(table_log as nat),
            1 <= ts <= 0x8000,
            sum_seq(sorted_hist@) == ts,
            ret@.len() == ts,
            0 <= i <= n,
            cnt == sum_seq(sorted_hist@.take(i as int)),
            count_in(ret@, 0u8) == ts - (cnt - (if i > 0 {
                sorted_hist@[0] as int
            } else {
                0int
            })),
            forall|b: int|
                1 <= b < 256 ==> #[trigger] count_in(ret@, b as u8) == (if b < i {
                    sorted_hist@[b] as int
                } else {
                    0int
                }),
            forall|p: int|
                0 <= p < ts && ret@[p] != 0 ==> exists|j: int|
                    0 <= j < cnt && (#[trigger] rev_bits(j as nat, table_log as nat)) == p,
            forall|nn: int, s: int|
                #![trigger rev_bits(nn as nat, table_log as nat), sorted_hist@.take(s)]
                0 <= nn < cnt && 0 <= s < n && sum_seq(sorted_hist@.take(s)) <= nn < sum_seq(
                    sorted_hist@.take(s + 1),
                ) ==> ret@[rev_bits(nn as nat, table_log as nat) as int] == s,
        decreases n - i,
    {
        let freq = sorted_hist[i];
        let mut c: usize = 0;
        while c < freq
            invariant
                n == sorted_hist@.len(),
                n <= 256,
                1 <= table_log <= 15,
                ts == pow2(table_log as nat),
                1 <= ts <= 0x8000,
                sum_seq(sorted_hist@) == ts,
                ret@.len() == ts,
                0 <= i < n,
                freq == sorted_hist@[i as int],
                0 <= c <= freq,
                cnt == sum_seq(sorted_hist@.take(i as int)) + c,
                count_in(ret@, 0u8) == ts - (cnt - (if i > 0 {
                    sorted_hist@[0] as int
                } else {
                    c as int
                })),
                forall|b: int|
                    1 <= b < 256 ==> #[trigger] count_in(ret@, b as u8) == (if b < i {
                        sorted_hist@[b] as int
                    } else if b == i {
                        c as int
                    } else {
                        0int
                    }),
                forall|p: int|
                    0 <= p < ts && ret@[p] != 0 ==> exists|j: int|
                        0 <= j < cnt && (#[trigger] rev_bits(j as nat, table_log as nat)) == p,
                forall|nn: int, s: int|
                    #![trigger rev_bits(nn as nat, table_log as nat), sorted_hist@.take(s)]
                    0 <= nn < cnt && 0 <= s < n && sum_seq(sorted_hist@.take(s)) <= nn < sum_seq(
                        sorted_hist@.take(s + 1),
                    ) ==> ret@[rev_bits(nn as nat, table_log as nat) as int] == s,
            decreases freq - c,
        {
            proof {
                lemma_sum_seq_take_step(sorted_hist@, i as int);
                lemma_sum_seq_take_le(sorted_hist@, i as int + 1);
                assert(cnt < ts);
            }
            let p = rev_low_bits(cnt, table_log);
            proof {
                if ret@[p as int] != 0 {
                    let j = choose|j: int|
                        0 <= j < cnt && (#[trigger] rev_bits(j as nat, table_log as nat))
                            == p as int;
                    lemma_rev_bits_injective(j as nat, cnt as nat, table_log as nat);
                    assert(false);
                }
                lemma_count_in_update(ret@, p as int, i as u8);
            }
            let ghost ret0 = ret@;
            ret.set(p, i as u8);
            cnt = cnt + 1;
            c = c + 1;
            proof {
                assert forall|pp: int| 0 <= pp < ts && ret@[pp] != 0 implies exists|j: int|
                    0 <= j < cnt && (#[trigger] rev_bits(j as nat, table_log as nat)) == pp by {
                    if pp == p as int {
                        assert(rev_bits((cnt - 1) as nat, table_log as nat) == pp);
                    }
                }
                lemma_sum_seq_take_step(sorted_hist@, i as int);
                assert forall|nn: int, s: int|
                    #![trigger rev_bits(nn as nat, table_log as nat), sorted_hist@.take(s)]
                    0 <= nn < cnt && 0 <= s < n && sum_seq(sorted_hist@.take(s)) <= nn < sum_seq(
                        sorted_hist@.take(s + 1),
                    ) implies ret@[rev_bits(nn as nat, table_log as nat) as int] == s by {
                    if nn == cnt - 1 {
                        assert(s == i) by {
                            if s < i {
                                lemma_sum_take_monotone(sorted_hist@, s + 1, i as int);
                            }
                            if s > i {
                                lemma_sum_take_monotone(sorted_hist@, i as int + 1, s);
                            }
                        }
                        assert(rev_bits(nn as nat, table_log as nat) == p as int);
                        assert(ret@[p as int] == (i as u8));
                    } else {
                        assert(rev_bits(nn as nat, table_log as nat) != p as int) by {
                            if rev_bits(nn as nat, table_log as nat) == p as int {
                                lemma_rev_bits_injective(
                                    nn as nat,
                                    (cnt - 1) as nat,
                                    table_log as nat,
                                );
                            }
                        }
                        assert(ret@ == ret0.update(p as int, i as u8));
                        lemma_rev_bits_range(nn as nat, table_log as nat);
                        assert(ret@[rev_bits(nn as nat, table_log as nat) as int] == ret0[rev_bits(
                            nn as nat,
                            table_log as nat,
                        ) as int]);
                        assert(ret0[rev_bits(nn as nat, table_log as nat) as int] == s);
                    }
                }
            }
        }
        proof {
            lemma_sum_seq_take_step(sorted_hist@, i as int);
        }
        i = i + 1;
    }
    proof {
        assert(sorted_hist@.take(n as int) =~= sorted_hist@);
        if n == 0 {
            assert(sum_seq(sorted_hist@) == 0);
        }
    }
    ret
}

} // verus!
