//! Normalization of a histogram: rescale the raw counts so that they sum to
//! exactly `2^table_log` while every symbol that occurred keeps a nonzero
//! frequency, plus the cumulative function shared by both codecs.

use vstd::prelude::*;

use vstd::arithmetic::div_mod::{
    lemma_div_is_ordered, lemma_div_is_ordered_by_denominator, lemma_div_multiples_vanish,
    lemma_fundamental_div_mod,
};
use vstd::arithmetic::mul::{lemma_mul_inequality, lemma_mul_is_distributive_add_other_way};
use vstd::arithmetic::power2::{
    lemma2_to64, lemma2_to64_rest, lemma_pow2_adds, lemma_pow2_pos, lemma_pow2_subtracts,
};

use crate::{pow2, sum_seq};
use crate::{
    lemma_pow2_monotone, lemma_sum_seq_entry_le, lemma_sum_seq_pos_exists, lemma_sum_seq_take_le,
    lemma_sum_seq_take_step, lemma_sum_seq_update,
};
use crate::{pow2_u64, pow2_usize, sum_slice, zero_counts};

verus! {

#[derive(Debug)]
pub enum NormError {
    RunLengthEncoding(&'static str),
    MultiplicationOverflow,
    NormalizationError,
    EmptyInput,
}

/// `r` failed because the histogram sums to zero: there is nothing to code.
pub open spec fn is_empty_err<T>(r: Result<T, Box<NormError>>) -> bool {
    r matches Err(e) && (*e) is EmptyInput
}

/// `r` failed because one symbol covers the whole input.
pub open spec fn is_rle_err<T>(r: Result<T, Box<NormError>>) -> bool {
    r matches Err(e) && (*e) is RunLengthEncoding
}

/// `r` failed because the rounding debt cannot be repaid at this table size.
pub open spec fn is_norm_err<T>(r: Result<T, Box<NormError>>) -> bool {
    r matches Err(e) && (*e) is NormalizationError
}

/// `norm` is a valid normalization of `hist` for table size `2^table_log`:
/// it sums to the full budget, keeps every occurring symbol decodable, and
/// spends nothing on absent symbols.
pub open spec fn norm_ok(hist: Seq<usize>, norm: Seq<usize>, table_log: nat) -> bool {
    &&& norm.len() == hist.len()
    &&& sum_seq(norm) == pow2(table_log)
    &&& forall|i: int|
        0 <= i < hist.len() ==> ((hist[i] > 0 ==> #[trigger] norm[i] >= 1) && (hist[i] == 0
            ==> norm[i] == 0))
}

/// Fixed-point tentative frequency of a symbol with `count` occurrences:
/// scale by `step`, drop `scale_pow` of precision, and never go below one.
pub open spec fn scaled_tent(count: nat, step: nat, scale_pow: nat) -> nat {
    if count == 0 {
        0
    } else if (count * step) / scale_pow == 0 {
        1
    } else {
        (count * step) / scale_pow
    }
}

/// Tentative frequencies of the fixed-point normalizers, before the rounding
/// debt is repaid.
pub open spec fn fast_tents(hist: Seq<usize>, table_log: nat) -> Seq<usize> {
    let total = sum_seq(hist) as nat;
    let step = pow2(62) / total;
    let scale_pow = pow2((62 - table_log) as nat);
    Seq::new(hist.len(), |i: int| scaled_tent(hist[i] as nat, step, scale_pow) as usize)
}

/// Tentative frequencies of the rational normalizer, which scales directly
/// by `2^table_log / total` without the fixed-point detour.
pub open spec fn slow_tents(hist: Seq<usize>, table_log: nat) -> Seq<usize> {
    let total = sum_seq(hist) as nat;
    let step = pow2(table_log) / total;
    Seq::new(hist.len(), |i: int| scaled_tent(hist[i] as nat, step, 1) as usize)
}

/// Index of the first entry of `t.take(n)` holding its running maximum, or
/// -1 while no entry is positive. This is the entry that absorbs the
/// rounding debt.
pub open spec fn first_max(t: Seq<usize>, n: int) -> int
    decreases n,
{
    if n <= 0 {
        -1
    } else {
        let p = first_max(t, n - 1);
        let prev: int = if p == -1 {
            0
        } else {
            t[p] as int
        };
        if t[n - 1] > prev {
            n - 1
        } else {
            p
        }
    }
}

/// The rounding debt of the tentative frequencies exceeds half the largest
/// tentative frequency: the table is too small for this distribution.
pub open spec fn over_budget(t: Seq<usize>, table_log: nat) -> bool {
    let m = first_max(t, t.len() as int);
    let tmax: int = if m == -1 {
        0
    } else {
        t[m] as int
    };
    sum_seq(t) - pow2(table_log) >= tmax / 2
}

/// Adding one more tentative frequency keeps the running total under the
/// budget of one table size per processed symbol.
proof fn lemma_distributed_step(i: int, ts: int, d: int, tent: int)
    requires
        0 <= i <= 255,
        1 <= ts <= 0x8000,
        0 <= d <= i * ts,
        0 <= tent <= ts,
    ensures
        d + tent <= (i + 1) * ts,
        (i + 1) * ts <= 0x800000,
{
    lemma_mul_is_distributive_add_other_way(ts, i, 1);
    lemma_mul_inequality(i + 1, 256, ts);
    lemma_mul_inequality(ts, 0x8000, 256);
}

/// What one entry of the fixed-point tentative table is, and its bounds.
proof fn lemma_fast_tent_at(hist: Seq<usize>, table_log: nat, i: int)
    requires
        1 <= table_log <= 15,
        1 <= sum_seq(hist),
        0 <= i < hist.len(),
    ensures
        ({
            let total = sum_seq(hist) as nat;
            let step = pow2(62) / total;
            let scale_pow = pow2((62 - table_log) as nat);
            let v = scaled_tent(hist[i] as nat, step, scale_pow);
            &&& fast_tents(hist, table_log)[i] as nat == v
            &&& v <= pow2(table_log)
            &&& hist[i] as nat * step <= pow2(62)
            &&& (hist[i] > 0 ==> v >= 1)
            &&& (hist[i] == 0 ==> v == 0)
        }),
{
    let total = sum_seq(hist) as nat;
    let step = pow2(62) / total;
    let scale_pow = pow2((62 - table_log) as nat);
    let v = scaled_tent(hist[i] as nat, step, scale_pow);
    lemma_pow2_pos((62 - table_log) as nat);
    lemma_pow2_pos(table_log);
    lemma_pow2_adds((62 - table_log) as nat, table_log);
    lemma_sum_seq_entry_le(hist, i);
    lemma_fundamental_div_mod(pow2(62) as int, total as int);
    assert(total as int * step as int <= pow2(62) as int);
    lemma_mul_inequality(hist[i] as int, total as int, step as int);
    assert(hist[i] as int * step as int <= pow2(62) as int);
    lemma_div_is_ordered(hist[i] as int * step as int, pow2(62) as int, scale_pow as int);
    lemma_div_multiples_vanish(pow2(table_log) as int, scale_pow as int);
    assert(pow2(62) as int == scale_pow as int * pow2(table_log) as int);
    assert((hist[i] as int * step as int) / (scale_pow as int) <= pow2(table_log) as int);
    lemma_pow2_monotone(table_log, 15);
    lemma2_to64();
    assert(v <= pow2(table_log));
    assert(fast_tents(hist, table_log)[i] as nat == v);
}

/// What one entry of the rational tentative table is, and its bounds.
proof fn lemma_slow_tent_at(hist: Seq<usize>, table_log: nat, i: int)
    requires
        1 <= table_log <= 15,
        1 <= sum_seq(hist),
        0 <= i < hist.len(),
    ensures
        ({
            let total = sum_seq(hist) as nat;
            let step = pow2(table_log) / total;
            let v = scaled_tent(hist[i] as nat, step, 1);
            &&& slow_tents(hist, table_log)[i] as nat == v
            &&& v <= pow2(table_log)
            &&& hist[i] as nat * step <= pow2(table_log)
            &&& (hist[i] > 0 ==> v >= 1)
            &&& (hist[i] == 0 ==> v == 0)
        }),
{
    let total = sum_seq(hist) as nat;
    let step = pow2(table_log) / total;
    let v = scaled_tent(hist[i] as nat, step, 1);
    lemma_pow2_pos(table_log);
    lemma_sum_seq_entry_le(hist, i);
    lemma_fundamental_div_mod(pow2(table_log) as int, total as int);
    assert(total as int * step as int <= pow2(table_log) as int);
    lemma_mul_inequality(hist[i] as int, total as int, step as int);
    assert(hist[i] as int * step as int <= pow2(table_log) as int);
    lemma_pow2_monotone(table_log, 15);
    lemma2_to64();
    assert(v <= pow2(table_log));
    assert(slow_tents(hist, table_log)[i] as nat == v);
}

/// Normalization in the style of the reference FSE implementation: scale
/// every count by `2^62 / total`, floor each kept symbol at one, then settle
/// the whole remaining debt on the first largest entry.
pub fn fast_normalization_1(hist: &[usize], table_log: usize) -> (r: Result<
    Vec<usize>,
    Box<NormError>,
>)
    requires
        1 <= table_log <= 15,
        hist@.len() <= 256,
        sum_seq(hist@) <= usize::MAX,
    ensures
        is_empty_err(r) <==> sum_seq(hist@) == 0,
        sum_seq(hist@) > 0 ==> (is_rle_err(r) <==> (exists|i: int|
            0 <= i < hist@.len() && hist@[i] == sum_seq(hist@))),
        sum_seq(hist@) > 0 && !is_rle_err(r) ==> (is_norm_err(r) <==> over_budget(
            fast_tents(hist@, table_log as nat),
            table_log as nat,
        )),
        r is Ok || is_empty_err(r) || is_rle_err(r) || is_norm_err(r),
        r matches Ok(v) ==> ({
            let t = fast_tents(hist@, table_log as nat);
            let m = first_max(t, t.len() as int);
            &&& v@ == t.update(m, (t[m] + pow2(table_log as nat) - sum_seq(t)) as usize)
            &&& norm_ok(hist@, v@, table_log as nat)
        }),
        r matches Ok(v) ==> (sum_seq(hist@) == pow2(table_log as nat) ==> v@ == hist@),
{
    let n = hist.len();
    let total = sum_slice(hist);
    if total == 0 {
        return Err(Box::new(NormError::EmptyInput));
    }
    proof {
        lemma2_to64();
        lemma2_to64_rest();
        lemma_pow2_monotone((62 - table_log) as nat, 62);
        lemma_pow2_monotone(table_log as nat, 15);
    }
    let pow62: u64 = pow2_u64(62);
    let total64: u64 = total as u64;
    let step: u64 = pow2_u64(62) / total64;
    let scale_pow: u64 = pow2_u64(62 - (table_log as u64));
    let table_size = pow2_usize(table_log);
    let ghost t = fast_tents(hist@, table_log as nat);
    let mut norm = zero_counts(n);
    let mut max: usize = 0;
    let mut max_idx: usize = 0;
    let mut distributed: usize = 0;
    let mut i: usize = 0;
    while i < n
        invariant
            n == hist@.len(),
            n <= 256,
            norm@.len() == n,
            1 <= sum_seq(hist@) <= usize::MAX,
            total == sum_seq(hist@),
            1 <= table_log <= 15,
            step == pow2(62) / total as nat,
            scale_pow == pow2((62 - table_log) as nat),
            table_size == pow2(table_log as nat),
            table_size <= 0x8000,
            t == fast_tents(hist@, table_log as nat),
            0 <= i <= n,
            forall|j: int| 0 <= j < i ==> hist@[j] != total,
            forall|j: int| 0 <= j < i ==> norm@[j] == t[j],
            forall|j: int| i <= j < n ==> norm@[j] == 0,
            forall|j: int| 0 <= j < i ==> #[trigger] t[j] <= max,
            distributed == sum_seq(t.take(i as int)),
            distributed <= i * table_size,
            max <= table_size,
            ({
                let fm = first_max(t, i as int);
                (fm == -1 && max == 0) || (0 <= fm < i && max_idx == fm as usize && max == t[fm]
                    && max > 0)
            }),
        decreases n - i,
    {
        let s = hist[i];
        proof {
            lemma2_to64();
            lemma2_to64_rest();
            lemma_pow2_pos((62 - table_log) as nat);
            lemma_pow2_pos(table_log as nat);
            lemma_sum_seq_take_step(t, i as int);
            lemma_fast_tent_at(hist@, table_log as nat, i as int);
            lemma_distributed_step(
                i as int,
                table_size as int,
                distributed as int,
                t[i as int] as int,
            );
        }
        if s == total {
            return Err(Box::new(NormError::RunLengthEncoding(
                "An rle compression should be more accurate",
            )));
        } else if s > 0 {
            let prod: u64 = (s as u64) * step;
            let p: u64 = prod / scale_pow;
            let tent: usize = if p == 0 {
                1usize
            } else {
                p as usize
            };
            proof {
                assert(tent as nat == scaled_tent(s as nat, step as nat, scale_pow as nat));
                assert(tent == t[i as int]);
            }
            norm.set(i, tent);
            if tent > max {
                max = tent;
                max_idx = i;
            }
            distributed = distributed + tent;
        } else {
            proof {
                assert(t[i as int] == 0);
            }
        }
        i = i + 1;
    }
    proof {
        assert(t.take(n as int) =~= t);
        lemma_sum_seq_pos_exists(hist@);
        let j0 = choose|j: int| 0 <= j < hist@.len() && hist@[j] > 0;
        lemma_fast_tent_at(hist@, table_log as nat, j0);
        assert(t[j0] >= 1);
        assert(first_max(t, n as int) != -1);
    }
    let ghost m = first_max(t, n as int);
    if distributed >= table_size && (distributed - table_size) >= max / 2 {
        return Err(Box::new(NormError::NormalizationError));
    }
    proof {
        assert(!over_budget(t, table_log as nat));
        assert(norm@ =~= t);
        lemma_sum_seq_update(norm@, m, (t[m] + pow2(table_log as nat) - sum_seq(t)) as usize);
    }
    let idx = max_idx;
    if distributed <= table_size {
        let cur = norm[idx];
        norm.set(idx, cur + (table_size - distributed));
    } else {
        let debt = distributed - table_size;
        let cur = norm[idx];
        norm.set(idx, cur - debt);
    }
    proof {
        assert(norm@ =~= t.update(m, (t[m] + pow2(table_log as nat) - sum_seq(t)) as usize));
        assert forall|j: int|
            0 <= j < hist@.len() implies ((hist@[j] > 0 ==> #[trigger] norm@[j] >= 1) && (hist@[j]
            == 0 ==> norm@[j] == 0)) by {
            lemma_fast_tent_at(hist@, table_log as nat, j);
        }
        if sum_seq(hist@) == pow2(table_log as nat) {
            lemma_pow2_subtracts(table_log as nat, 62);
            assert(step as nat == pow2((62 - table_log) as nat));
            assert forall|j: int| 0 <= j < n implies t[j] == hist@[j] by {
                lemma_fast_tent_at(hist@, table_log as nat, j);
                if hist@[j] > 0 {
                    lemma_div_multiples_vanish(hist@[j] as int, scale_pow as int);
                    assert(hist@[j] as int * step as int == scale_pow as int * hist@[j] as int)
                        by (nonlinear_arith)
                        requires
                            step as int == scale_pow as int,
                    ;
                    assert((hist@[j] as nat * step as nat) / (scale_pow as nat) == hist@[j] as nat);
                }
            }
            assert(t =~= hist@);
            assert(sum_seq(t) == pow2(table_log as nat));
            assert(norm@ =~= hist@);
        }
    }
    Ok(norm)
}

/// Rational-arithmetic normalization: identical to the fixed-point variant
/// except that counts are scaled by the exact quotient `2^table_log / total`,
/// which loses much more precision.
pub fn slow_normalization(hist: &[usize], table_log: usize) -> (r: Result<
    Vec<usize>,
    Box<NormError>,
>)
    requires
        1 <= table_log <= 15,
        hist@.len() <= 256,
        sum_seq(hist@) <= usize::MAX,
    ensures
        is_empty_err(r) <==> sum_seq(hist@) == 0,
        sum_seq(hist@) > 0 ==> (is_norm_err(r) <==> over_budget(
            slow_tents(hist@, table_log as nat),
            table_log as nat,
        )),
        r is Ok || is_empty_err(r) || is_norm_err(r),
        r matches Ok(v) ==> ({
            let t = slow_tents(hist@, table_log as nat);
            let m = first_max(t, t.len() as int);
            &&& v@ == t.update(m, (t[m] + pow2(table_log as nat) - sum_seq(t)) as usize)
            &&& norm_ok(hist@, v@, table_log as nat)
        }),
        r matches Ok(v) ==> (sum_seq(hist@) == pow2(table_log as nat) ==> v@ == hist@),
{
    let n = hist.len();
    let total = sum_slice(hist);
    if total == 0 {
        return Err(Box::new(NormError::EmptyInput));
    }
    proof {
        lemma2_to64();
        lemma_pow2_monotone(table_log as nat, 15);
    }
    let table_size = pow2_usize(table_log);
    let step: usize = table_size / total;
    let ghost t = slow_tents(hist@, table_log as nat);
    let mut norm = zero_counts(n);
    let mut max: usize = 0;
    let mut max_idx: usize = 0;
    let mut distributed: usize = 0;
    let mut i: usize = 0;
    while i < n
        invariant
            n == hist@.len(),
            n <= 256,
            norm@.len() == n,
            1 <= sum_seq(hist@) <= usize::MAX,
            total == sum_seq(hist@),
            1 <= table_log <= 15,
            step == pow2(table_log as nat) / total as nat,
            table_size == pow2(table_log as nat),
            table_size <= 0x8000,
            t == slow_tents(hist@, table_log as nat),
            0 <= i <= n,
            forall|j: int| 0 <= j < i ==> norm@[j] == t[j],
            forall|j: int| i <= j < n ==> norm@[j] == 0,
            forall|j: int| 0 <= j < i ==> #[trigger] t[j] <= max,
            distributed == sum_seq(t.take(i as int)),
            distributed <= i * table_size,
            max <= table_size,
            ({
                let fm = first_max(t, i as int);
                (fm == -1 && max == 0) || (0 <= fm < i && max_idx == fm as usize && max == t[fm]
                    && max > 0)
            }),
        decreases n - i,
    {
        let s = hist[i];
        proof {
            lemma2_to64();
            lemma_sum_seq_take_step(t, i as int);
            lemma_slow_tent_at(hist@, table_log as nat, i as int);
            lemma_distributed_step(
                i as int,
                table_size as int,
                distributed as int,
                t[i as int] as int,
            );
        }
        if s > 0 {
            let prod: usize = s * step;
            let tent: usize = if prod == 0 {
                1usize
            } else {
                prod
            };
            proof {
                assert(prod as int / 1int == prod as int);
                assert(tent as nat == scaled_tent(s as nat, step as nat, 1));
                assert(tent == t[i as int]);
            }
            norm.set(i, tent);
            if tent > max {
                max = tent;
                max_idx = i;
            }
            distributed = distributed + tent;
        } else {
            proof {
                assert(t[i as int] == 0);
            }
        }
        i = i + 1;
    }
    proof {
        assert(t.take(n as int) =~= t);
        lemma_sum_seq_pos_exists(hist@);
        let j0 = choose|j: int| 0 <= j < hist@.len() && hist@[j] > 0;
        lemma_slow_tent_at(hist@, table_log as nat, j0);
        assert(t[j0] >= 1);
        assert(first_max(t, n as int) != -1);
    }
    let ghost m = first_max(t, n as int);
    if distributed >= table_size && (distributed - table_size) >= max / 2 {
        return Err(Box::new(NormError::NormalizationError));
    }
    proof {
        assert(!over_budget(t, table_log as nat));
        assert(norm@ =~= t);
        lemma_sum_seq_update(norm@, m, (t[m] + pow2(table_log as nat) - sum_seq(t)) as usize);
    }
    let idx = max_idx;
    if distributed <= table_size {
        let cur = norm[idx];
        norm.set(idx, cur + (table_size - distributed));
    } else {
        let debt = distributed - table_size;
        let cur = norm[idx];
        norm.set(idx, cur - debt);
    }
    proof {
        assert(norm@ =~= t.update(m, (t[m] + pow2(table_log as nat) - sum_seq(t)) as usize));
        assert forall|j: int|
            0 <= j < hist@.len() implies ((hist@[j] > 0 ==> #[trigger] norm@[j] >= 1) && (hist@[j]
            == 0 ==> norm@[j] == 0)) by {
            lemma_slow_tent_at(hist@, table_log as nat, j);
        }
        if sum_seq(hist@) == pow2(table_log as nat) {
            lemma_div_multiples_vanish(1int, total as int);
            assert(total as int * 1int == total as int);
            assert(step == 1);
            assert forall|j: int| 0 <= j < n implies t[j] == hist@[j] by {
                lemma_slow_tent_at(hist@, table_log as nat, j);
            }
            assert(t =~= hist@);
            assert(norm@ =~= hist@);
        }
    }
    Ok(norm)
}

/// Number of positive entries of a frequency table.
pub open spec fn count_pos(s: Seq<usize>) -> int
    decreases s.len(),
{
    if s.len() == 0 {
        0
    } else {
        count_pos(s.drop_last()) + if s.last() > 0 {
            1int
        } else {
            0int
        }
    }
}

pub proof fn lemma_count_pos_take_step(s: Seq<usize>, k: int)
    requires
        0 <= k < s.len(),
    ensures
        count_pos(s.take(k + 1)) == count_pos(s.take(k)) + if s[k] > 0 {
            1int
        } else {
            0int
        },
{
    assert(s.take(k + 1).drop_last() =~= s.take(k));
    assert(s.take(k + 1).last() == s[k]);
}

pub proof fn lemma_count_pos_update(s: Seq<usize>, i: int, v: usize)
    requires
        0 <= i < s.len(),
    ensures
        count_pos(s.update(i, v)) == count_pos(s) + (if v > 0 {
            1int
        } else {
            0int
        }) - (if s[i] > 0 {
            1int
        } else {
            0int
        }),
    decreases s.len(),
{
    if i == s.len() - 1 {
        assert(s.update(i, v).drop_last() =~= s.drop_last());
    } else {
        assert(s.update(i, v).drop_last() =~= s.drop_last().update(i, v));
        lemma_count_pos_update(s.drop_last(), i, v);
    }
}

proof fn lemma_sum_le_count_pos_when_bounded(s: Seq<usize>)
    requires
        forall|i: int| 0 <= i < s.len() ==> s[i] <= 1,
    ensures
        sum_seq(s) <= count_pos(s),
    decreases s.len(),
{
    if s.len() > 0 {
        assert(forall|i: int| 0 <= i < s.drop_last().len() ==> s.drop_last()[i] == s[i]);
        lemma_sum_le_count_pos_when_bounded(s.drop_last());
    }
}

/// A table whose sum exceeds its number of positive entries holds an entry
/// of at least two, which a compensation pass can shrink.
proof fn lemma_exists_ge_two(s: Seq<usize>, c: int)
    requires
        sum_seq(s) > c,
        count_pos(s) <= c,
    ensures
        exists|k: int| 0 <= k < s.len() && s[k] >= 2,
{
    if !(exists|k: int| 0 <= k < s.len() && s[k] >= 2) {
        assert(forall|i: int| 0 <= i < s.len() ==> s[i] <= 1);
        lemma_sum_le_count_pos_when_bounded(s);
        assert(false);
    }
}

/// Fast-compensation normalization: the same tentative frequencies as the
/// fixed-point normalizer, then either grant the whole deficit to the first
/// largest entry, or walk the table from the end repeatedly, shaving one off
/// entries above one, until the budget is met.
pub fn normalization_with_fast_compensation(hist: &[usize], table_log: usize) -> (r: Result<
    Vec<usize>,
    Box<NormError>,
>)
    requires
        1 <= table_log <= 15,
        hist@.len() <= 256,
        sum_seq(hist@) <= usize::MAX,
    ensures
        is_empty_err(r) <==> sum_seq(hist@) == 0,
        sum_seq(hist@) > 0 ==> (is_rle_err(r) <==> (exists|i: int|
            0 <= i < hist@.len() && hist@[i] == sum_seq(hist@))),
        sum_seq(hist@) > 0 && !is_rle_err(r) ==> (is_norm_err(r) <==> count_pos(hist@) > pow2(
            table_log as nat,
        )),
        r is Ok || is_empty_err(r) || is_rle_err(r) || is_norm_err(r),
        r matches Ok(v) ==> norm_ok(hist@, v@, table_log as nat),
        r matches Ok(v) ==> ({
            let t = fast_tents(hist@, table_log as nat);
            let m = first_max(t, t.len() as int);
            &&& (sum_seq(t) <= pow2(table_log as nat) ==> v@ == t.update(
                m,
                (t[m] + pow2(table_log as nat) - sum_seq(t)) as usize,
            ))
            &&& (forall|i: int| 0 <= i < hist@.len() ==> #[trigger] v@[i] <= t[i] + pow2(
                table_log as nat,
            ))
        }),
        r matches Ok(v) ==> (sum_seq(hist@) == pow2(table_log as nat) ==> v@ == hist@),
{
    let n = hist.len();
    let total_in = sum_slice(hist);
    if total_in == 0 {
        return Err(Box::new(NormError::EmptyInput));
    }
    proof {
        lemma2_to64();
        lemma2_to64_rest();
        lemma_pow2_monotone((62 - table_log) as nat, 62);
        lemma_pow2_monotone(table_log as nat, 15);
    }
    let step: u64 = pow2_u64(62) / (total_in as u64);
    let scale_pow: u64 = pow2_u64(62 - (table_log as u64));
    let table_size = pow2_usize(table_log);
    let ghost t = fast_tents(hist@, table_log as nat);
    let mut norm = zero_counts(n);
    let mut max: usize = 0;
    let mut max_idx: usize = 0;
    let mut total: usize = 0;
    let mut np: usize = 0;
    let mut i: usize = 0;
    while i < n
        invariant
            n == hist@.len(),
            n <= 256,
            norm@.len() == n,
            1 <= sum_seq(hist@) <= usize::MAX,
            total_in == sum_seq(hist@),
            1 <= table_log <= 15,
            step == pow2(62) / sum_seq(hist@) as nat,
            scale_pow == pow2((62 - table_log) as nat),
            table_size == pow2(table_log as nat),
            1 <= table_size <= 0x8000,
            t == fast_tents(hist@, table_log as nat),
            0 <= i <= n,
            forall|j: int| 0 <= j < i ==> hist@[j] != total_in,
            forall|j: int| 0 <= j < i ==> norm@[j] == t[j],
            forall|j: int| i <= j < n ==> norm@[j] == 0,
            forall|j: int| 0 <= j < i ==> #[trigger] t[j] <= max,
            total == sum_seq(t.take(i as int)),
            total <= i * table_size,
            np == count_pos(t.take(i as int)),
            np <= i,
            max <= table_size,
            ({
                let fm = first_max(t, i as int);
                (fm == -1 && max == 0) || (0 <= fm < i && max_idx == fm as usize && max == t[fm]
                    && max > 0)
            }),
        decreases n - i,
    {
        let s = hist[i];
        proof {
            lemma2_to64();
            lemma2_to64_rest();
            lemma_pow2_pos((62 - table_log) as nat);
            lemma_sum_seq_take_step(t, i as int);
            lemma_count_pos_take_step(t, i as int);
            lemma_fast_tent_at(hist@, table_log as nat, i as int);
            lemma_distributed_step(
                i as int,
                table_size as int,
                total as int,
                t[i as int] as int,
            );
        }
        if s == total_in {
            return Err(Box::new(NormError::RunLengthEncoding(
                "An rle compression should be more accurate",
            )));
        } else if s > 0 {
            let prod: u64 = (s as u64) * step;
            let p: u64 = prod / scale_pow;
            let tent: usize = if p == 0 {
                1usize
            } else {
                p as usize
            };
            proof {
                assert(tent as nat == scaled_tent(s as nat, step as nat, scale_pow as nat));
                assert(tent == t[i as int]);
            }
            norm.set(i, tent);
            if tent > max {
                max = tent;
                max_idx = i;
            }
            total = total + tent;
            np = np + 1;
        } else {
            proof {
                assert(t[i as int] == 0);
            }
        }
        i = i + 1;
    }
    proof {
        assert(t.take(n as int) =~= t);
        assert(norm@ =~= t);
        lemma_sum_seq_pos_exists(hist@);
        let j0 = choose|j: int| 0 <= j < hist@.len() && hist@[j] > 0;
        lemma_fast_tent_at(hist@, table_log as nat, j0);
        assert(t[j0] >= 1);
        assert(first_max(t, n as int) != -1);
        assert forall|j: int| 0 <= j < n implies ((hist@[j] > 0 <==> #[trigger] t[j] >= 1) && (
        hist@[j] == 0 <==> t[j] == 0)) by {
            lemma_fast_tent_at(hist@, table_log as nat, j);
        }
        lemma_count_pos_same(hist@, t);
    }
    if np > table_size {
        return Err(Box::new(NormError::NormalizationError));
    }
    let ghost m = first_max(t, n as int);
    if total <= table_size {
        proof {
            lemma_sum_seq_update(norm@, m, (t[m] + pow2(table_log as nat) - sum_seq(t)) as usize);
        }
        let idx = max_idx;
        let cur = norm[idx];
        norm.set(idx, cur + (table_size - total));
        proof {
            assert(norm@ =~= t.update(m, (t[m] + pow2(table_log as nat) - sum_seq(t)) as usize));
            assert forall|j: int|
                0 <= j < hist@.len() implies ((hist@[j] > 0 ==> #[trigger] norm@[j] >= 1) && (
            hist@[j] == 0 ==> norm@[j] == 0)) by {
                lemma_fast_tent_at(hist@, table_log as nat, j);
            }
            if sum_seq(hist@) == pow2(table_log as nat) {
                lemma_pow2_subtracts(table_log as nat, 62);
                assert(step as nat == pow2((62 - table_log) as nat));
                assert forall|j: int| 0 <= j < n implies t[j] == hist@[j] by {
                    lemma_fast_tent_at(hist@, table_log as nat, j);
                    if hist@[j] > 0 {
                        lemma_div_multiples_vanish(hist@[j] as int, scale_pow as int);
                        assert(hist@[j] as int * step as int == scale_pow as int * hist@[j] as int)
                            by (nonlinear_arith)
                            requires
                                step as int == scale_pow as int,
                        ;
                        assert((hist@[j] as nat * step as nat) / (scale_pow as nat) == hist@[
                            j
                        ] as nat);
                    }
                }
                assert(t =~= hist@);
                assert(norm@ =~= hist@);
            }
        }
        return Ok(norm);
    }
    proof {
        if sum_seq(hist@) == pow2(table_log as nat) {
            lemma_pow2_subtracts(table_log as nat, 62);
            assert forall|j: int| 0 <= j < n implies t[j] == hist@[j] by {
                lemma_fast_tent_at(hist@, table_log as nat, j);
                if hist@[j] > 0 {
                    lemma_div_multiples_vanish(hist@[j] as int, scale_pow as int);
                    assert(hist@[j] as int * step as int == scale_pow as int * hist@[j] as int)
                        by (nonlinear_arith)
                        requires
                            step as int == scale_pow as int,
                    ;
                    assert((hist@[j] as nat * step as nat) / (scale_pow as nat) == hist@[j] as nat);
                }
            }
            assert(t =~= hist@);
            assert(sum_seq(t) == pow2(table_log as nat));
            assert(false);
        }
    }
    while total > table_size
        invariant
            n == hist@.len(),
            norm@.len() == n,
            table_size == pow2(table_log as nat),
            t == fast_tents(hist@, table_log as nat),
            t.len() == n,
            total == sum_seq(norm@),
            total >= table_size,
            count_pos(norm@) <= table_size,
            forall|j: int| 0 <= j < n ==> #[trigger] norm@[j] <= t[j],
            forall|j: int| 0 <= j < n ==> ((hist@[j] > 0 <==> #[trigger] norm@[j] >= 1) && (
            hist@[j] == 0 <==> norm@[j] == 0)),
        decreases total,
    {
        let ghost total_entry = total;
        proof {
            lemma_exists_ge_two(norm@, table_size as int);
        }
        let mut j: usize = n;
        while j > 0
            invariant_except_break
                0 <= j <= n,
                total >= table_size,
                total < total_entry || (exists|k: int| 0 <= k < j && norm@[k] >= 2),
            invariant
                n == hist@.len(),
                norm@.len() == n,
                table_size == pow2(table_log as nat),
                t == fast_tents(hist@, table_log as nat),
                t.len() == n,
                total == sum_seq(norm@),
                total <= total_entry,
                count_pos(norm@) <= table_size,
                forall|jj: int| 0 <= jj < n ==> #[trigger] norm@[jj] <= t[jj],
                forall|jj: int| 0 <= jj < n ==> ((hist@[jj] > 0 <==> #[trigger] norm@[jj] >= 1)
                    && (hist@[jj] == 0 <==> norm@[jj] == 0)),
            ensures
                n == hist@.len(),
                norm@.len() == n,
                total == sum_seq(norm@),
                total >= table_size,
                total < total_entry || total == table_size,
                count_pos(norm@) <= table_size,
                forall|jj: int| 0 <= jj < n ==> #[trigger] norm@[jj] <= t[jj],
                forall|jj: int| 0 <= jj < n ==> ((hist@[jj] > 0 <==> #[trigger] norm@[jj] >= 1)
                    && (hist@[jj] == 0 <==> norm@[jj] == 0)),
            decreases j,
        {
            if total == table_size {
                break ;
            }
            let ghost j_old = j as int;
            j = j - 1;
            if norm[j] > 1 {
                proof {
                    lemma_sum_seq_update(norm@, j as int, (norm@[j as int] - 1) as usize);
                    lemma_count_pos_update(norm@, j as int, (norm@[j as int] - 1) as usize);
                }
                let cur = norm[j];
                norm.set(j, cur - 1);
                total = total - 1;
            } else {
                proof {
                    if !(total < total_entry) {
                        let k = choose|k: int| 0 <= k < j_old && norm@[k] >= 2;
                        assert(norm@[j as int] <= 1);
                        assert(0 <= k < j && norm@[k] >= 2);
                    }
                }
            }
        }
    }
    proof {
        assert(sum_seq(norm@) == pow2(table_log as nat));
    }
    Ok(norm)
}

proof fn lemma_count_pos_same(a: Seq<usize>, b: Seq<usize>)
    requires
        a.len() == b.len(),
        forall|i: int| 0 <= i < a.len() ==> (a[i] > 0 <==> b[i] > 0),
    ensures
        count_pos(a) == count_pos(b),
    decreases a.len(),
{
    if a.len() > 0 {
        assert(forall|i: int|
            0 <= i < a.drop_last().len() ==> (a.drop_last()[i] > 0 <==> b.drop_last()[i] > 0));
        lemma_count_pos_same(a.drop_last(), b.drop_last());
    }
}

/// The penalty comparison of two candidate entries stays well inside 128-bit
/// arithmetic.
proof fn lemma_penalty_mul_bound(a: u128, b: u128)
    requires
        a < 0x10000000000000000,
        b <= 0x8000,
    ensures
        a * b <= 0x80000000000000000000,
{
    lemma_mul_inequality(a as int, 0xffffffffffffffff, b as int);
    lemma_mul_inequality(b as int, 0x8000, 0xffffffffffffffff);
}

/// A table with only zeros after index `w` sums the same as its prefix.
proof fn lemma_sum_seq_tail_zero(s: Seq<usize>, w: int)
    requires
        0 <= w <= s.len(),
        forall|i: int| w <= i < s.len() ==> s[i] == 0,
    ensures
        sum_seq(s) == sum_seq(s.take(w)),
        count_pos(s) == count_pos(s.take(w)),
    decreases s.len() - w,
{
    if w == s.len() {
        assert(s.take(w) =~= s);
    } else {
        lemma_sum_seq_take_step(s, s.len() - 1);
        lemma_count_pos_take_step(s, s.len() - 1);
        assert(s.take(s.len() as int) =~= s);
        lemma_sum_seq_tail_zero(s.take(s.len() - 1), w);
        assert(s.take(s.len() - 1).take(w) =~= s.take(w));
    }
}

/// Append zero entries to a frequency table up to length `l`.
pub open spec fn pad_zeros(s: Seq<usize>, l: int) -> Seq<usize> {
    s + Seq::new((l - s.len()) as nat, |i: int| 0usize)
}

/// Normalization with compensation by expected code-length penalty: the same
/// tentative frequencies as the fixed-point normalizer over the window
/// `0..=max_symbol`; a deficit goes to the first largest entry, while a
/// surplus is repaid by repeatedly decrementing the entry whose shrinkage
/// costs least, measured by the integer surrogate `count / (freq - 1)` of
/// the penalty `count * log2(freq / (freq - 1))`, ties to the lowest index.
pub fn normalization_with_compensation_binary_heap(
    histogram: &[usize],
    table_log: usize,
    max_symbol: usize,
) -> (r: Result<Vec<usize>, Box<NormError>>)
    requires
        1 <= table_log <= 15,
        histogram@.len() <= 256,
        max_symbol <= 256,
        forall|i: int| max_symbol < i < histogram@.len() ==> histogram@[i] == 0,
        sum_seq(histogram@) <= usize::MAX,
    ensures
        is_empty_err(r) <==> sum_seq(histogram@) == 0,
        sum_seq(histogram@) > 0 ==> (is_rle_err(r) <==> (exists|i: int|
            0 <= i < histogram@.len() && histogram@[i] == sum_seq(histogram@))),
        sum_seq(histogram@) > 0 && !is_rle_err(r) ==> (is_norm_err(r) <==> count_pos(histogram@)
            > pow2(table_log as nat)),
        r is Ok || is_empty_err(r) || is_rle_err(r) || is_norm_err(r),
        r matches Ok(v) ==> ({
            let w = if histogram@.len() <= max_symbol + 1 {
                histogram@.len() as int
            } else {
                max_symbol + 1
            };
            let t = fast_tents(histogram@.take(w), table_log as nat);
            let m = first_max(t, w);
            &&& v@.len() == max_symbol + 1
            &&& sum_seq(v@) == pow2(table_log as nat)
            &&& (forall|i: int|
                0 <= i < w ==> ((histogram@[i] > 0 ==> #[trigger] v@[i] >= 1) && (histogram@[i]
                    == 0 ==> v@[i] == 0)))
            &&& (forall|i: int| w <= i < max_symbol + 1 ==> #[trigger] v@[i] == 0)
            &&& (sum_seq(t) <= pow2(table_log as nat) ==> v@ == pad_zeros(
                t.update(m, (t[m] + pow2(table_log as nat) - sum_seq(t)) as usize),
                max_symbol + 1,
            ))
        }),
        r matches Ok(v) ==> (sum_seq(histogram@) == pow2(table_log as nat) ==> (forall|i: int|
            0 <= i < v@.len() ==> #[trigger] v@[i] == (if i < histogram@.len() {
                histogram@[i]
            } else {
                0usize
            }))),
{
    let n = histogram.len();
    let w: usize = if n <= max_symbol {
        n
    } else {
        max_symbol + 1
    };
    let total_in = sum_slice(histogram);
    if total_in == 0 {
        return Err(Box::new(NormError::EmptyInput));
    }
    proof {
        lemma2_to64();
        lemma2_to64_rest();
        lemma_pow2_monotone((62 - table_log) as nat, 62);
        lemma_pow2_monotone(table_log as nat, 15);
        lemma_sum_seq_tail_zero(histogram@, w as int);
    }
    let step: u64 = pow2_u64(62) / (total_in as u64);
    let scale_pow: u64 = pow2_u64(62 - (table_log as u64));
    let table_size = pow2_usize(table_log);
    let ghost hw = histogram@.take(w as int);
    let ghost t = fast_tents(hw, table_log as nat);
    let mut norm = zero_counts(max_symbol + 1);
    let mut max: usize = 0;
    let mut max_idx: usize = 0;
    let mut total: usize = 0;
    let mut np: usize = 0;
    let mut i: usize = 0;
    while i < w
        invariant
            n == histogram@.len(),
            n <= 256,
            w == if n <= max_symbol {
                n as int
            } else {
                max_symbol + 1
            },
            w <= n,
            w <= max_symbol + 1 <= 257,
            norm@.len() == max_symbol + 1,
            1 <= sum_seq(histogram@) <= usize::MAX,
            total_in == sum_seq(histogram@),
            sum_seq(hw) == sum_seq(histogram@),
            1 <= table_log <= 15,
            step == pow2(62) / sum_seq(histogram@) as nat,
            scale_pow == pow2((62 - table_log) as nat),
            table_size == pow2(table_log as nat),
            1 <= table_size <= 0x8000,
            hw == histogram@.take(w as int),
            t == fast_tents(hw, table_log as nat),
            t.len() == w,
            0 <= i <= w,
            forall|j: int| 0 <= j < i ==> hw[j] != total_in,
            forall|j: int| 0 <= j < i ==> norm@[j] == t[j],
            forall|j: int| i <= j < norm@.len() ==> norm@[j] == 0,
            forall|j: int| 0 <= j < i ==> #[trigger] t[j] <= max,
            total == sum_seq(t.take(i as int)),
            total <= i * table_size,
            np == count_pos(t.take(i as int)),
            np <= i,
            max <= table_size,
            ({
                let fm = first_max(t, i as int);
                (fm == -1 && max == 0) || (0 <= fm < i && max_idx == fm as usize && max == t[fm]
                    && max > 0)
            }),
        decreases w - i,
    {
        let s = histogram[i];
        proof {
            lemma2_to64();
            lemma2_to64_rest();
            lemma_pow2_pos((62 - table_log) as nat);
            lemma_sum_seq_take_step(t, i as int);
            lemma_count_pos_take_step(t, i as int);
            lemma_fast_tent_at(hw, table_log as nat, i as int);
            lemma_distributed_step(i as int, table_size as int, total as int, t[i as int] as int);
            assert(hw[i as int] == histogram@[i as int]);
        }
        if s == total_in {
            return Err(Box::new(NormError::RunLengthEncoding(
                "An rle compression should be more accurate",
            )));
        } else if s > 0 {
            let prod: u64 = (s as u64) * step;
            let p: u64 = prod / scale_pow;
            let tent: usize = if p == 0 {
                1usize
            } else {
                p as usize
            };
            proof {
                assert(tent as nat == scaled_tent(s as nat, step as nat, scale_pow as nat));
                assert(tent == t[i as int]);
            }
            norm.set(i, tent);
            if tent > max {
                max = tent;
                max_idx = i;
            }
            total = total + tent;
            np = np + 1;
        } else {
            proof {
                assert(t[i as int] == 0);
            }
        }
        i = i + 1;
    }
    proof {
        assert(t.take(w as int) =~= t);
        lemma_sum_seq_pos_exists(hw);
        let j0 = choose|j: int| 0 <= j < hw.len() && hw[j] > 0;
        lemma_fast_tent_at(hw, table_log as nat, j0);
        assert(t[j0] >= 1);
        assert(first_max(t, w as int) != -1);
        assert forall|j: int| 0 <= j < w implies ((hw[j] > 0 <==> #[trigger] t[j] >= 1) && (hw[j]
            == 0 <==> t[j] == 0)) by {
            lemma_fast_tent_at(hw, table_log as nat, j);
        }
        lemma_count_pos_same(hw, t);
        lemma_sum_seq_tail_zero(norm@, w as int);
        assert(norm@.take(w as int) =~= t);
        assert forall|j: int|
            0 <= j < histogram@.len() implies histogram@[j] != total_in by {
            if j < w {
                assert(hw[j] == histogram@[j]);
            } else {
                assert(histogram@[j] == 0);
            }
        }
    }
    if np > table_size {
        return Err(Box::new(NormError::NormalizationError));
    }
    let ghost m = first_max(t, w as int);
    if total <= table_size {
        proof {
            lemma_sum_seq_update(norm@, m, (t[m] + pow2(table_log as nat) - sum_seq(t)) as usize);
        }
        let idx = max_idx;
        let cur = norm[idx];
        norm.set(idx, cur + (table_size - total));
        proof {
            assert(norm@ =~= pad_zeros(
                t.update(m, (t[m] + pow2(table_log as nat) - sum_seq(t)) as usize),
                max_symbol + 1,
            ));
            if sum_seq(histogram@) == pow2(table_log as nat) {
                lemma_pow2_subtracts(table_log as nat, 62);
                assert(step as nat == pow2((62 - table_log) as nat));
                assert forall|j: int| 0 <= j < w implies t[j] == hw[j] by {
                    lemma_fast_tent_at(hw, table_log as nat, j);
                    if hw[j] > 0 {
                        lemma_div_multiples_vanish(hw[j] as int, scale_pow as int);
                        assert(hw[j] as int * step as int == scale_pow as int * hw[j] as int)
                            by (nonlinear_arith)
                            requires
                                step as int == scale_pow as int,
                        ;
                        assert((hw[j] as nat * step as nat) / (scale_pow as nat) == hw[j] as nat);
                    }
                }
                assert(t =~= hw);
                assert(sum_seq(t) == pow2(table_log as nat));
                assert(norm@ =~= t.update(m, t[m]) + Seq::new(
                    (max_symbol + 1 - w) as nat,
                    |i: int| 0usize,
                ));
                assert(t.update(m, t[m]) =~= t);
            }
        }
        return Ok(norm);
    }
    proof {
        assert forall|j: int| 0 <= j < norm@.len() implies #[trigger] norm@[j] <= 0x8000 by {
            if j < w {
                assert(norm@[j] == t[j]);
            }
        }
        assert forall|j: int|
            0 <= j < w implies ((hw[j] > 0 <==> #[trigger] norm@[j] >= 1) && (hw[j] == 0
            <==> norm@[j] == 0)) by {
            assert(norm@[j] == t[j]);
        }
    }
    while total > table_size
        invariant
            n == histogram@.len(),
            norm@.len() == max_symbol + 1,
            w <= max_symbol + 1,
            w <= n,
            table_size == pow2(table_log as nat),
            t == fast_tents(hw, table_log as nat),
            t.len() == w,
            hw == histogram@.take(w as int),
            forall|j: int| 0 <= j < w ==> hw[j] == histogram@[j],
            total == sum_seq(norm@),
            total >= table_size,
            count_pos(norm@) <= table_size,
            forall|j: int| w <= j < norm@.len() ==> #[trigger] norm@[j] == 0,
            forall|j: int| 0 <= j < norm@.len() ==> #[trigger] norm@[j] <= 0x8000,
            forall|j: int| 0 <= j < w ==> ((hw[j] > 0 <==> #[trigger] norm@[j] >= 1) && (hw[j]
                == 0 <==> norm@[j] == 0)),
        decreases total,
    {
        let mut best: usize = 0;
        let mut found: bool = false;
        let mut j: usize = 0;
        proof {
            lemma_exists_ge_two(norm@, table_size as int);
        }
        while j < w
            invariant
                n == histogram@.len(),
                w <= n,
                norm@.len() == max_symbol + 1,
                w <= max_symbol + 1,
                0 <= j <= w,
                forall|k: int| 0 <= k < norm@.len() ==> #[trigger] norm@[k] <= 0x8000,
                found ==> 0 <= best < j && norm@[best as int] >= 2,
                !found ==> forall|k: int| 0 <= k < j ==> #[trigger] norm@[k] <= 1,
            decreases w - j,
        {
            if norm[j] > 1 {
                if !found {
                    best = j;
                    found = true;
                } else {
                    let hj = histogram[j] as u128;
                    let hb = histogram[best] as u128;
                    let fj = (norm[j] - 1) as u128;
                    let fb = (norm[best] - 1) as u128;
                    proof {
                        lemma_penalty_mul_bound(hj, fb);
                        lemma_penalty_mul_bound(hb, fj);
                    }
                    if hj * fb < hb * fj {
                        best = j;
                    }
                }
            }
            j = j + 1;
        }
        proof {
            if !found {
                let k = choose|k: int| 0 <= k < norm@.len() && norm@[k] >= 2;
                if k >= w {
                    assert(norm@[k] == 0);
                }
                assert(false);
            }
            lemma_sum_seq_update(norm@, best as int, (norm@[best as int] - 1) as usize);
            lemma_count_pos_update(norm@, best as int, (norm@[best as int] - 1) as usize);
        }
        let cur = norm[best];
        norm.set(best, cur - 1);
        total = total - 1;
    }
    proof {
        assert(sum_seq(norm@) == pow2(table_log as nat));
        if sum_seq(histogram@) == pow2(table_log as nat) {
            lemma_pow2_subtracts(table_log as nat, 62);
            assert(step as nat == pow2((62 - table_log) as nat));
            assert forall|j: int| 0 <= j < w implies t[j] == hw[j] by {
                lemma_fast_tent_at(hw, table_log as nat, j);
                if hw[j] > 0 {
                    lemma_div_multiples_vanish(hw[j] as int, scale_pow as int);
                    assert(hw[j] as int * step as int == scale_pow as int * hw[j] as int);
                    assert((hw[j] as nat * step as nat) / (scale_pow as nat) == hw[j] as nat);
                }
            }
            assert(t =~= hw);
            assert(sum_seq(t) == pow2(table_log as nat));
            assert(false);
        }
    }
    Ok(norm)
}

/// Rounding tie-break thresholds of the zstd-style normalization, indexed by
/// the tentative frequency.
pub open spec fn rtb_val(p: nat) -> nat {
    if p == 0 {
        0
    } else if p == 1 {
        473195
    } else if p == 2 {
        504333
    } else if p == 3 {
        520860
    } else if p == 4 {
        550000
    } else if p == 5 {
        700000
    } else if p == 6 {
        750000
    } else {
        830000
    }
}

/// Tentative frequency of the zstd-style normalization: rare symbols are
/// pinned at one, others take the fixed-point estimate, bumped by one when
/// the dropped fraction crosses the tie-break threshold.
pub open spec fn zstd_tent(count: nat, total: nat, table_log: nat) -> nat {
    let threshold = total / pow2(table_log);
    let step = pow2(62) / total;
    let scale_pow = pow2((62 - table_log) as nat);
    let vstep = pow2((42 - table_log) as nat);
    if count == 0 {
        0
    } else if count <= threshold {
        1
    } else {
        let p = scaled_tent(count, step, scale_pow);
        if p < 8 && count * step > p * scale_pow && count * step - p * scale_pow > vstep * rtb_val(
            p,
        ) {
            p + 1
        } else {
            p
        }
    }
}

/// The zstd-style tentative frequencies of a window of counts.
pub open spec fn zstd_tents(hw: Seq<usize>, table_log: nat) -> Seq<usize> {
    let total = sum_seq(hw) as nat;
    Seq::new(hw.len(), |i: int| zstd_tent(hw[i] as nat, total, table_log) as usize)
}

/// The zstd-style tentative frequencies, with the rare symbols masked out:
/// only entries above the rarity threshold may absorb the rounding debt.
pub open spec fn zstd_big(hw: Seq<usize>, table_log: nat) -> Seq<usize> {
    let total = sum_seq(hw) as nat;
    Seq::new(
        hw.len(),
        |i: int|
            if hw[i] as nat > total / pow2(table_log) {
                zstd_tent(hw[i] as nat, total, table_log) as usize
            } else {
                0usize
            },
    )
}

/// What one entry of the zstd-style tentative table is, and its bounds.
proof fn lemma_zstd_tent_at(hw: Seq<usize>, table_log: nat, i: int)
    requires
        1 <= table_log <= 15,
        1 <= sum_seq(hw),
        0 <= i < hw.len(),
    ensures
        ({
            let total = sum_seq(hw) as nat;
            let v = zstd_tent(hw[i] as nat, total, table_log);
            &&& zstd_tents(hw, table_log)[i] as nat == v
            &&& v <= pow2(table_log) + 9
            &&& hw[i] as nat * (pow2(62) / total) <= pow2(62)
            &&& (hw[i] > 0 ==> v >= 1)
            &&& (hw[i] == 0 ==> v == 0)
            &&& zstd_big(hw, table_log)[i] <= v
            &&& (hw[i] as nat > total / pow2(table_log) ==> zstd_big(hw, table_log)[i] as nat == v)
            &&& (hw[i] as nat <= total / pow2(table_log) ==> zstd_big(hw, table_log)[i] == 0)
        }),
{
    let total = sum_seq(hw) as nat;
    let step = pow2(62) / total;
    let scale_pow = pow2((62 - table_log) as nat);
    let v = zstd_tent(hw[i] as nat, total, table_log);
    lemma_fast_tent_at(hw, table_log, i);
    lemma_pow2_monotone(table_log, 15);
    lemma2_to64();
    assert(scaled_tent(hw[i] as nat, step, scale_pow) <= pow2(table_log));
    assert(v <= pow2(table_log) + 9);
    assert(zstd_tents(hw, table_log)[i] as nat == v);
}

/// In-place zstd-style normalization over the window `0..=max_symbol`:
/// symbols at or below the rarity threshold `total / 2^table_log` are pinned
/// at one, the rest take the fixed-point estimate with the tie-break bump,
/// and the debt lands on the first largest non-rare entry.
#[verifier::rlimit(100)]
#[verifier::spinoff_prover]
pub fn zstd_normalization_1_inplace(
    hist: &mut Vec<usize>,
    table_log: usize,
    max_symbol: usize,
) -> (r: Result<(), Box<NormError>>)
    requires
        1 <= table_log <= 15,
        old(hist)@.len() <= 256,
        max_symbol <= 256,
        forall|i: int| max_symbol < i < old(hist)@.len() ==> old(hist)@[i] == 0,
        sum_seq(old(hist)@) <= usize::MAX,
    ensures
        ({
            let h0 = old(hist)@;
            let w = if h0.len() <= max_symbol + 1 {
                h0.len() as int
            } else {
                max_symbol + 1
            };
            let hw = h0.take(w);
            let t = zstd_tents(hw, table_log as nat);
            let b = zstd_big(hw, table_log as nat);
            let m = first_max(b, w);
            let tsum = sum_seq(t);
            &&& (is_empty_err(r) <==> sum_seq(h0) == 0)
            &&& (sum_seq(h0) > 0 ==> (is_rle_err(r) <==> (exists|i: int|
                0 <= i < h0.len() && h0[i] == sum_seq(h0))))
            &&& (sum_seq(h0) > 0 && !is_rle_err(r) ==> (is_norm_err(r) <==> ((m == -1 && tsum
                != pow2(table_log as nat)) || (m != -1 && tsum - pow2(table_log as nat) >= b[m]
                / 2))))
            &&& (r is Ok || is_empty_err(r) || is_rle_err(r) || is_norm_err(r))
            &&& (r is Ok ==> final(hist)@ == (if m == -1 {
                t
            } else {
                t.update(m, (t[m] + pow2(table_log as nat) - tsum) as usize)
            }) + h0.skip(w))
            &&& (r is Ok ==> sum_seq(final(hist)@) == pow2(table_log as nat))
            &&& (r is Ok ==> forall|i: int|
                0 <= i < h0.len() ==> ((h0[i] > 0 ==> #[trigger] final(hist)@[i] >= 1) && (h0[i]
                    == 0 ==> final(hist)@[i] == 0)))
            &&& ((sum_seq(h0) == pow2(table_log as nat) && !(exists|i: int|
                0 <= i < h0.len() && h0[i] == sum_seq(h0))) ==> (r is Ok && final(hist)@ == h0))
        }),
{
    let ghost h0 = hist@;
    let n = hist.len();
    let w: usize = if n <= max_symbol {
        n
    } else {
        max_symbol + 1
    };
    let total_in = sum_slice(hist.as_slice());
    if total_in == 0 {
        proof {
            lemma_pow2_pos(table_log as nat);
        }
        return Err(Box::new(NormError::EmptyInput));
    }
    proof {
        lemma2_to64();
        lemma2_to64_rest();
        lemma_pow2_monotone((62 - table_log) as nat, 62);
        lemma_pow2_monotone((42 - table_log) as nat, 62);
        lemma_pow2_monotone(table_log as nat, 15);
        lemma_pow2_pos(table_log as nat);
        lemma_sum_seq_tail_zero(h0, w as int);
    }
    let step: u64 = pow2_u64(62) / (total_in as u64);
    let scale_pow: u64 = pow2_u64(62 - (table_log as u64));
    let vstep: u64 = pow2_u64(42 - (table_log as u64));
    let table_size = pow2_usize(table_log);
    let threshold: usize = total_in / table_size;
    let ghost hw = h0.take(w as int);
    let ghost t = zstd_tents(hw, table_log as nat);
    let ghost b = zstd_big(hw, table_log as nat);
    let mut max: usize = 0;
    let mut max_idx: usize = 0;
    let mut found_big: bool = false;
    let mut total: usize = 0;
    let mut i: usize = 0;
    while i < w
        invariant
            h0 == old(hist)@,
            n == h0.len(),
            n <= 256,
            hist@.len() == n,
            w == if n <= max_symbol {
                n as int
            } else {
                max_symbol + 1
            },
            w <= n,
            max_symbol <= 256,
            1 <= sum_seq(h0) <= usize::MAX,
            total_in == sum_seq(h0),
            sum_seq(hw) == sum_seq(h0),
            1 <= table_log <= 15,
            step == pow2(62) / sum_seq(h0) as nat,
            scale_pow == pow2((62 - table_log) as nat),
            vstep == pow2((42 - table_log) as nat),
            table_size == pow2(table_log as nat),
            1 <= table_size <= 0x8000,
            threshold == sum_seq(h0) as nat / pow2(table_log as nat),
            hw == h0.take(w as int),
            t == zstd_tents(hw, table_log as nat),
            b == zstd_big(hw, table_log as nat),
            t.len() == w,
            b.len() == w,
            0 <= i <= w,
            forall|j: int| 0 <= j < i ==> hw[j] != total_in,
            forall|j: int| 0 <= j < i ==> hist@[j] == t[j],
            forall|j: int| i <= j < n ==> hist@[j] == h0[j],
            forall|j: int| 0 <= j < i ==> #[trigger] b[j] <= max,
            total == sum_seq(t.take(i as int)),
            total <= i * (table_size + 9),
            max <= table_size + 9,
            ({
                let fm = first_max(b, i as int);
                (fm == -1 && max == 0 && !found_big) || (0 <= fm < i && found_big && max_idx
                    == fm as usize && max == b[fm] && max > 0)
            }),
        decreases w - i,
    {
        let s = hist[i];
        proof {
            lemma2_to64();
            lemma2_to64_rest();
            lemma_pow2_pos((62 - table_log) as nat);
            lemma_pow2_pos(table_log as nat);
            lemma_sum_seq_take_step(t, i as int);
            lemma_zstd_tent_at(hw, table_log as nat, i as int);
            lemma_fast_tent_at(hw, table_log as nat, i as int);
            assert(hw[i as int] == h0[i as int]);
            lemma_distributed_step_wide(
                i as int,
                table_size as int + 9,
                total as int,
                t[i as int] as int,
            );
        }
        if s == 0 {
            proof {
                assert(t[i as int] == 0);
                assert(b[i as int] == 0);
            }
        } else if s <= threshold {
            proof {
                lemma_div_is_ordered_by_denominator(total_in as int, 2, pow2(table_log as nat) as int);
                lemma_pow2_monotone(1, table_log as nat);
                assert(s < total_in);
            }
            hist.set(i, 1);
            proof {
                assert(t[i as int] == 1);
                assert(b[i as int] == 0);
            }
        } else if s == total_in {
            proof {
                assert(exists|j: int| 0 <= j < h0.len() && h0[j] == sum_seq(h0)) by {
                    assert((i as int) < h0.len() && h0[i as int] == sum_seq(h0));
                }
            }
            return Err(Box::new(NormError::RunLengthEncoding(
                "An rle compression should be more accurate",
            )));
        } else {
            let prod: u64 = (s as u64) * step;
            let q: u64 = prod / scale_pow;
            let p: u64 = if q == 0 {
                1u64
            } else {
                q
            };
            proof {
                assert(p as nat == scaled_tent(s as nat, step as nat, scale_pow as nat));
                assert(p <= 0x8000);
                lemma_mul_inequality(p as int, pow2(table_log as nat) as int, scale_pow as int);
                lemma_pow2_adds(table_log as nat, (62 - table_log) as nat);
                assert(p as int * scale_pow as int <= pow2(62) as int);
                lemma_pow2_monotone((42 - table_log) as nat, 41);
                lemma_mul_inequality(vstep as int, 0x20000000000, rtb_val(p as nat) as int);
                lemma_mul_inequality(rtb_val(p as nat) as int, 830000, 0x20000000000);
                assert(vstep as int * rtb_val(p as nat) as int <= 830000 * 0x20000000000) by {
                    assert(0x20000000000 * rtb_val(p as nat) as int == rtb_val(p as nat) as int
                        * 0x20000000000);
                }
            }
            let bumped: bool = p < 8 && prod > p * scale_pow && prod - p * scale_pow > vstep
                * rtb(p);
            let tent: usize = if bumped {
                (p + 1) as usize
            } else {
                p as usize
            };
            proof {
                assert(p as nat == scaled_tent(s as nat, step as nat, scale_pow as nat));
                assert(tent as nat == zstd_tent(s as nat, total_in as nat, table_log as nat));
                assert(tent == t[i as int]);
                assert(b[i as int] == t[i as int]);
            }
            hist.set(i, tent);
            if tent > max {
                max = tent;
                max_idx = i;
                found_big = true;
            }
        }
        let cur_t = if s == 0 {
            0usize
        } else if s <= threshold {
            1usize
        } else {
            hist[i]
        };
        total = total + cur_t;
        i = i + 1;
    }
    proof {
        assert(t.take(w as int) =~= t);
        assert forall|j: int| 0 <= j < h0.len() implies h0[j] != total_in by {
            if j < w {
                assert(hw[j] == h0[j]);
            } else {
                assert(h0[j] == 0);
            }
        }
    }
    let ghost m = first_max(b, w as int);
    if !found_big {
        if total != table_size {
            proof {
                if sum_seq(h0) == pow2(table_log as nat) {
                    lemma_zstd_tents_normalized(hw, table_log as nat);
                    assert(sum_seq(t) == pow2(table_log as nat));
                    assert(false);
                }
            }
            return Err(Box::new(NormError::NormalizationError));
        }
        proof {
            assert(m == -1);
            assert forall|j: int| w <= j < hist@.len() implies #[trigger] hist@[j] == 0 by {
                assert(hist@[j] == h0[j]);
            }
            assert(hist@ =~= t + h0.skip(w as int));
            lemma_sum_seq_tail_zero(hist@, w as int);
            assert(hist@.take(w as int) =~= t);
            assert forall|j: int|
                0 <= j < h0.len() implies ((h0[j] > 0 ==> #[trigger] hist@[j] >= 1) && (h0[j] == 0
                ==> hist@[j] == 0)) by {
                if j < w {
                    lemma_zstd_tent_at(hw, table_log as nat, j);
                }
            }
            if sum_seq(h0) == pow2(table_log as nat) {
                lemma_zstd_tents_normalized(hw, table_log as nat);
                assert(t =~= hw);
                assert(hist@ =~= h0);
            }
        }
        return Ok(());
    }
    let idx = max_idx;
    if total >= table_size && (total - table_size) >= max / 2 {
        proof {
            if sum_seq(h0) == pow2(table_log as nat) {
                lemma_zstd_tents_normalized(hw, table_log as nat);
                assert(t =~= hw);
                assert(b[m] == (if hw[m] >= 2 {
                    hw[m]
                } else {
                    0usize
                }));
                assert(max >= 2);
                assert(total == table_size);
                assert(false);
            }
        }
        return Err(Box::new(NormError::NormalizationError));
    }
    proof {
        assert forall|j: int| w <= j < hist@.len() implies #[trigger] hist@[j] == 0 by {
            assert(hist@[j] == h0[j]);
        }
        lemma_sum_seq_tail_zero(hist@, w as int);
        assert(hist@.take(w as int) =~= t);
        lemma_sum_seq_update(hist@, m, (t[m] + pow2(table_log as nat) - sum_seq(t)) as usize);
        assert(hist@[m] == t[m]);
    }
    if total <= table_size {
        let cur = hist[idx];
        hist.set(idx, cur + (table_size - total));
    } else {
        let debt = total - table_size;
        let cur = hist[idx];
        hist.set(idx, cur - debt);
    }
    proof {
        assert(hist@ =~= t.update(m, (t[m] + pow2(table_log as nat) - sum_seq(t)) as usize)
            + h0.skip(w as int));
        assert forall|j: int| w <= j < hist@.len() implies #[trigger] hist@[j] == 0 by {
            assert(hist@[j] == h0[j]);
        }
        lemma_sum_seq_tail_zero(hist@, w as int);
        assert(hist@.take(w as int) =~= t.update(
            m,
            (t[m] + pow2(table_log as nat) - sum_seq(t)) as usize,
        ));
        assert forall|j: int|
            0 <= j < h0.len() implies ((h0[j] > 0 ==> #[trigger] hist@[j] >= 1) && (h0[j] == 0
            ==> hist@[j] == 0)) by {
            if j < w {
                lemma_zstd_tent_at(hw, table_log as nat, j);
                if j == m {
                    assert(b[m] >= 1);
                    assert(t[m] >= 1);
                }
            }
        }
        if sum_seq(h0) == pow2(table_log as nat) {
            lemma_zstd_tents_normalized(hw, table_log as nat);
            assert(t =~= hw);
            assert(sum_seq(t) == pow2(table_log as nat));
            assert(t.update(m, (t[m] + pow2(table_log as nat) - sum_seq(t)) as usize) =~= t);
            assert(hist@ =~= h0);
        }
    }
    Ok(())
}

/// The tie-break threshold table as executable code.
fn rtb(p: u64) -> (r: u64)
    ensures
        r == rtb_val(p as nat),
{
    if p == 0 {
        0
    } else if p == 1 {
        473195
    } else if p == 2 {
        504333
    } else if p == 3 {
        520860
    } else if p == 4 {
        550000
    } else if p == 5 {
        700000
    } else if p == 6 {
        750000
    } else {
        830000
    }
}

/// Wider version of the per-symbol budget bound, allowing the tie-break bump.
proof fn lemma_distributed_step_wide(i: int, ts: int, d: int, tent: int)
    requires
        0 <= i <= 256,
        1 <= ts <= 0x8009,
        0 <= d <= i * ts,
        0 <= tent <= ts,
    ensures
        d + tent <= (i + 1) * ts,
        (i + 1) * ts <= 0x900000,
{
    lemma_mul_is_distributive_add_other_way(ts, i, 1);
    lemma_mul_inequality(i + 1, 257, ts);
    lemma_mul_inequality(ts, 0x8009, 257);
}

/// On an input already normalized to the table size, the zstd tentative
/// frequencies reproduce the input exactly, and the non-rare entries are
/// precisely those of frequency at least two.
proof fn lemma_zstd_tents_normalized(hw: Seq<usize>, table_log: nat)
    requires
        1 <= table_log <= 15,
        sum_seq(hw) == pow2(table_log),
    ensures
        zstd_tents(hw, table_log) =~= hw,
        sum_seq(zstd_tents(hw, table_log)) == pow2(table_log),
        forall|j: int|
            0 <= j < hw.len() ==> #[trigger] zstd_big(hw, table_log)[j] == (if hw[j] >= 2 {
                hw[j]
            } else {
                0usize
            }),
{
    let total = sum_seq(hw) as nat;
    let step = pow2(62) / total;
    let scale_pow = pow2((62 - table_log) as nat);
    let threshold = total / pow2(table_log);
    lemma_pow2_pos(table_log);
    lemma_pow2_monotone(table_log, 15);
    lemma2_to64();
    lemma_pow2_subtracts(table_log, 62);
    assert(step == scale_pow);
    lemma_div_multiples_vanish(1int, pow2(table_log) as int);
    assert(pow2(table_log) as int * 1int == pow2(table_log) as int);
    assert(threshold == 1);
    assert forall|j: int| 0 <= j < hw.len() implies zstd_tents(hw, table_log)[j] == hw[j] by {
        lemma_zstd_tent_at(hw, table_log, j);
        if hw[j] as nat > threshold {
            lemma_div_multiples_vanish(hw[j] as int, scale_pow as int);
            assert(hw[j] as int * step as int == scale_pow as int * hw[j] as int)
                by (nonlinear_arith)
                requires
                    step as int == scale_pow as int,
            ;
            assert((hw[j] as nat * step as nat) / (scale_pow as nat) == hw[j] as nat);
            assert(scaled_tent(hw[j] as nat, step, scale_pow) == hw[j] as nat);
        }
    }
    assert(zstd_tents(hw, table_log) =~= hw);
    assert forall|j: int|
        0 <= j < hw.len() implies #[trigger] zstd_big(hw, table_log)[j] == (if hw[j] >= 2 {
        hw[j]
    } else {
        0usize
    }) by {
        lemma_zstd_tent_at(hw, table_log, j);
    }
}

/// Build the cumulative function `C` of a frequency table: `C[0] == 0` and
/// `C[i+1] == C[i] + hist[i]`, so `C[i]` is the sum of the first `i`
/// frequencies and the last entry is the whole sum.
pub fn build_cumulative_function(hist: &[usize]) -> (cs: Vec<usize>)
    requires
        sum_seq(hist@) <= usize::MAX,
    ensures
        cs@.len() == hist@.len() + 1,
        forall|i: int| 0 <= i <= hist@.len() ==> #[trigger] cs@[i] == sum_seq(hist@.take(i)),
        cs@[0] == 0,
        forall|i: int| 0 <= i < hist@.len() ==> #[trigger] cs@[i + 1] == cs@[i] + hist@[i],
        cs@[hist@.len() as int] == sum_seq(hist@),
{
    let n = hist.len();
    let mut cs: Vec<usize> = Vec::new();
    let mut acc: usize = 0;
    let mut i: usize = 0;
    while i < n
        invariant
            n == hist@.len(),
            0 <= i <= n,
            sum_seq(hist@) <= usize::MAX,
            cs@.len() == i,
            acc == sum_seq(hist@.take(i as int)),
            forall|j: int| 0 <= j < i ==> #[trigger] cs@[j] == sum_seq(hist@.take(j)),
        decreases n - i,
    {
        cs.push(acc);
        proof {
            lemma_sum_seq_take_step(hist@, i as int);
            lemma_sum_seq_take_le(hist@, i as int + 1);
        }
        acc = acc + hist[i];
        i = i + 1;
    }
    cs.push(acc);
    proof {
        assert(hist@.take(n as int) =~= hist@);
        assert forall|i: int| 0 <= i < hist@.len() implies #[trigger] cs@[i + 1] == cs@[i]
            + hist@[i] by {
            lemma_sum_seq_take_step(hist@, i);
        }
    }
    cs
}

} // verus!
