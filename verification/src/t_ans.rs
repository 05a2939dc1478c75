//! Table-based variant of the asymmetric numeral system: precompute the
//! state transitions of the `[2^table_log, 2^(table_log+1))` window into
//! encode and decode tables driven by a spread of the symbols, then stream
//! with table lookups only.

use vstd::prelude::*;

use tiny_bitstream::{BitDstream, BitEstream};

use vstd::arithmetic::mul::lemma_mul_inequality;
use vstd::arithmetic::power2::{lemma2_to64, lemma_pow2_adds, lemma_pow2_pos};

use crate::bitstream::{
    bit_len, bit_width, bits_of, dst_open, dst_read, est_bits, est_finalize, est_new, est_write,
    lemma_bit_len_bound, readable_bits,
};
use crate::count_in;
use crate::r_ans::{cumul_of, lemma_val_of_bits_of, CodecError};
use crate::{
    lemma_count_in_le_len, lemma_count_in_take_le, lemma_count_in_take_step, lemma_pow2_monotone,
    lemma_sum_seq_take_le, lemma_sum_seq_take_step,
};
use crate::{pow2, pow2_usize, sum_seq};

verus! {

/// Any value needs at least its bit length's worth of room: a nonzero `x`
/// reaches up to its top bit.
pub proof fn lemma_bit_len_lower(x: nat)
    requires
        x >= 1,
    ensures
        bit_len(x) >= 1,
        pow2((bit_len(x) - 1) as nat) <= x,
    decreases x,
{
    vstd::arithmetic::power2::lemma2_to64();
    if x == 1 {
        assert(bit_len(0) == 0);
        assert(bit_len(1) == 1);
    } else {
        lemma_bit_len_lower(x / 2);
        vstd::arithmetic::power2::lemma_pow2_unfold((bit_len(x) - 1) as nat);
    }
}

/// Doubling one factor doubles the product.
proof fn lemma_double_mul(a: int, b: int)
    ensures
        (2 * a) * b == 2 * (a * b),
{
    assert((2 * a) * b == 2 * (a * b)) by (nonlinear_arith);
}

/// The number of bits a symbol of frequency `freq` sheds at most per step.
pub open spec fn tans_max_bits(freq: nat, table_log: nat) -> nat {
    if freq == 1 {
        table_log
    } else {
        (table_log - (bit_len((freq - 1) as nat) - 1)) as nat
    }
}

/// The packed constant from which the encoder derives, for any state, how
/// many bits to shed before transitioning on a symbol of frequency `freq`.
pub open spec fn tans_delta(freq: nat, table_log: nat) -> int {
    tans_max_bits(freq, table_log) * pow2(16) - freq * pow2(tans_max_bits(freq, table_log))
}

/// The slot of the encode table that the `p`-th state of the window fills:
/// the symbol's cumulative start plus how often it has appeared before.
pub open spec fn enc_slot(hist: Seq<usize>, spread: Seq<u8>, p: int) -> int {
    cumul_of(hist, spread[p] as int) + count_in(spread.take(p), spread[p])
}

/// Build the tANS encode artifacts from a normalized frequency table and
/// its spread: per-symbol shed constants and offsets, and the transition
/// table mapping each slot to its post-transition state in the window.
pub fn build_encode_table(hist: &[usize], table_log: usize, spread: &[u8]) -> (r: (
    Vec<usize>,
    Vec<usize>,
    Vec<i32>,
))
    requires
        1 <= table_log <= 15,
        hist@.len() == 256,
        sum_seq(hist@) == pow2(table_log as nat),
        spread@.len() == pow2(table_log as nat),
        forall|b: int| 0 <= b < 256 ==> #[trigger] count_in(spread@, b as u8) == hist@[b],
    ensures
        r.0@.len() == pow2(table_log as nat) + 2,
        r.1@.len() == 256,
        r.2@.len() == 256,
        forall|s: int|
            0 <= s < 256 && hist@[s] >= 1 ==> #[trigger] r.1@[s] == tans_delta(
                hist@[s] as nat,
                table_log as nat,
            ),
        forall|s: int|
            0 <= s < 256 && hist@[s] >= 1 ==> #[trigger] r.2@[s] == cumul_of(hist@, s) - hist@[s],
        forall|p: int|
            0 <= p < pow2(table_log as nat) ==> #[trigger] r.0@[enc_slot(hist@, spread@, p)]
                == pow2(table_log as nat) + p,
        forall|p: int|
            0 <= p < pow2(table_log as nat) ==> 0 <= #[trigger] enc_slot(hist@, spread@, p)
                < pow2(table_log as nat),
{
    proof {
        lemma2_to64();
        lemma_pow2_monotone(table_log as nat, 15);
        lemma_pow2_pos(table_log as nat);
    }
    let table_size = pow2_usize(table_log);
    let pow16 = pow2_usize(16);
    let mut delta_nb_bits: Vec<usize> = crate::zero_counts(256);
    let mut starts: Vec<i32> = Vec::new();
    let mut k: usize = 0;
    while k < 256
        invariant
            0 <= k <= 256,
            starts@.len() == k,
            forall|s: int| 0 <= s < k ==> starts@[s] == 0,
        decreases 256 - k,
    {
        starts.push(0);
        k = k + 1;
    }
    let mut total: usize = 0;
    let mut s: usize = 0;
    while s < 256
        invariant
            1 <= table_log <= 15,
            hist@.len() == 256,
            sum_seq(hist@) == pow2(table_log as nat),
            table_size == pow2(table_log as nat),
            2 <= table_size <= 0x8000,
            pow16 == pow2(16),
            delta_nb_bits@.len() == 256,
            starts@.len() == 256,
            0 <= s <= 256,
            total == cumul_of(hist@, s as int),
            0 <= total <= table_size,
            forall|ss: int|
                0 <= ss < s && hist@[ss] >= 1 ==> #[trigger] delta_nb_bits@[ss] == tans_delta(
                    hist@[ss] as nat,
                    table_log as nat,
                ),
            forall|ss: int|
                0 <= ss < s && hist@[ss] >= 1 ==> #[trigger] starts@[ss] == cumul_of(hist@, ss)
                    - hist@[ss],
        decreases 256 - s,
    {
        let c = hist[s];
        proof {
            lemma_sum_seq_take_step(hist@, s as int);
            lemma_sum_seq_take_le(hist@, s as int + 1);
            lemma2_to64();
            lemma_pow2_pos(table_log as nat);
        }
        if c == 1 {
            let d = table_log * pow16 - table_size;
            delta_nb_bits.set(s, d);
            starts.set(s, (total as i32) - 1);
            total = total + 1;
        } else if c > 0 {
            proof {
                lemma_bit_len_lower((c - 1) as nat);
                lemma_bit_len_bound((c - 1) as nat, table_log as nat);
            }
            let hb = bit_width(c - 1) - 1;
            let max_bits = table_log - (hb as usize);
            let ghost hbn = (bit_len((c - 1) as nat) - 1) as nat;
            let ghost mbn = (table_log - hbn) as nat;
            proof {
                lemma_pow2_monotone(mbn, 15);
                lemma_pow2_pos(mbn);
                lemma_pow2_pos(hbn);
                lemma_pow2_adds(hbn, mbn);
                assert(c - 1 < pow2(bit_len((c - 1) as nat)));
                vstd::arithmetic::power2::lemma_pow2_unfold(bit_len((c - 1) as nat));
                assert(c <= 2 * pow2(hbn));
                lemma_mul_inequality(c as int, 2 * pow2(hbn) as int, pow2(mbn) as int);
                lemma_double_mul(pow2(hbn) as int, pow2(mbn) as int);
                assert(pow2(hbn) * pow2(mbn) == pow2(table_log as nat));
                assert(c as int * pow2(mbn) as int <= 2 * pow2(table_log as nat));
                lemma_mul_inequality(1, mbn as int, pow2(16) as int);
            }
            let shifted = c * pow2_usize(max_bits);
            proof {
                assert(shifted <= 2 * pow2(table_log as nat));
                assert(2 * pow2(table_log as nat) <= pow2(16));
                assert(max_bits >= 1);
                assert(max_bits * pow16 >= pow16);
            }
            let d = max_bits * pow16 - shifted;
            delta_nb_bits.set(s, d);
            starts.set(s, (total as i32) - (c as i32));
            total = total + c;
        }
        s = s + 1;
    }
    proof {
        assert(hist@.take(256) =~= hist@);
    }
    let mut table: Vec<usize> = crate::zero_counts(table_size + 2);
    let mut nexts: Vec<usize> = Vec::new();
    let mut k2: usize = 0;
    while k2 < 256
        invariant
            hist@.len() == 256,
            0 <= k2 <= 256,
            nexts@.len() == k2,
            forall|ss: int| 0 <= ss < k2 ==> nexts@[ss] == hist@[ss],
        decreases 256 - k2,
    {
        nexts.push(hist[k2]);
        k2 = k2 + 1;
    }
    let mut x: usize = 0;
    while x < table_size
        invariant
            1 <= table_log <= 15,
            hist@.len() == 256,
            sum_seq(hist@) == pow2(table_log as nat),
            table_size == pow2(table_log as nat),
            2 <= table_size <= 0x8000,
            spread@.len() == table_size,
            forall|b: int| 0 <= b < 256 ==> #[trigger] count_in(spread@, b as u8) == hist@[b],
            table@.len() == table_size + 2,
            nexts@.len() == 256,
            starts@.len() == 256,
            delta_nb_bits@.len() == 256,
            forall|ss: int|
                0 <= ss < 256 && hist@[ss] >= 1 ==> #[trigger] delta_nb_bits@[ss] == tans_delta(
                    hist@[ss] as nat,
                    table_log as nat,
                ),
            forall|ss: int|
                0 <= ss < 256 && hist@[ss] >= 1 ==> #[trigger] starts@[ss] == cumul_of(hist@, ss)
                    - hist@[ss],
            0 <= x <= table_size,
            forall|ss: int|
                0 <= ss < 256 ==> #[trigger] nexts@[ss] == hist@[ss] + count_in(
                    spread@.take(x as int),
                    ss as u8,
                ),
            forall|p: int|
                0 <= p < x ==> 0 <= #[trigger] enc_slot(hist@, spread@, p) < table_size,
            forall|p: int|
                0 <= p < x ==> #[trigger] table@[enc_slot(hist@, spread@, p)] == table_size + p,
        decreases table_size - x,
    {
        let sy = spread[x] as usize;
        proof {
            lemma_enc_slot_ok(hist@, spread@, table_log as nat, x as int);
            assert forall|b: int| 0 <= b < 256 && b != sy implies #[trigger] count_in(
                spread@.take(x as int + 1),
                b as u8,
            ) == count_in(spread@.take(x as int), b as u8) by {
                lemma_count_in_take_step(spread@, x as int, b as u8);
            }
            lemma_count_in_take_step(spread@, x as int, spread@[x as int]);
            assert forall|p: int| 0 <= p < x implies #[trigger] enc_slot(hist@, spread@, p)
                != enc_slot(hist@, spread@, x as int) by {
                lemma_enc_slots_distinct(hist@, spread@, table_log as nat, p, x as int);
            }
        }
        proof {
            assert((sy as u8) == spread@[x as int]);
            assert(hist@[sy as int] >= 1);
            crate::lemma_sum_seq_entry_le(hist@, sy as int);
            lemma_count_in_le_len(spread@.take(x as int), spread@[x as int]);
            assert(starts@[sy as int] == cumul_of(hist@, sy as int) - hist@[sy as int]);
            assert(nexts@[sy as int] == hist@[sy as int] + count_in(
                spread@.take(x as int),
                spread@[x as int],
            ));
            assert(nexts@[sy as int] <= 0x18000);
            assert(0 <= enc_slot(hist@, spread@, x as int) < table_size);
        }
        let idx = starts[sy] + (nexts[sy] as i32);
        proof {
            assert(idx == enc_slot(hist@, spread@, x as int));
        }
        table.set(idx as usize, table_size + x);
        let cur = nexts[sy];
        nexts.set(sy, cur + 1);
        x = x + 1;
        proof {
            assert forall|p: int| 0 <= p < x implies #[trigger] table@[enc_slot(
                hist@,
                spread@,
                p,
            )] == table_size + p by {
                if p < x - 1 {
                    assert(enc_slot(hist@, spread@, p) != enc_slot(hist@, spread@, x - 1));
                }
            }
        }
    }
    proof {
        assert(spread@.take(table_size as int) =~= spread@);
    }
    (table, delta_nb_bits, starts)
}

/// The slot of window state `p` is a fresh slot inside the table: it lies
/// in the symbol's own cumulative interval, below the table size.
proof fn lemma_enc_slot_ok(hist: Seq<usize>, spread: Seq<u8>, table_log: nat, p: int)
    requires
        hist.len() == 256,
        sum_seq(hist) == pow2(table_log),
        spread.len() == pow2(table_log),
        forall|b: int| 0 <= b < 256 ==> #[trigger] count_in(spread, b as u8) == hist[b],
        0 <= p < spread.len(),
    ensures
        cumul_of(hist, spread[p] as int) <= enc_slot(hist, spread, p),
        enc_slot(hist, spread, p) - cumul_of(hist, spread[p] as int) < hist[spread[p] as int],
        0 <= enc_slot(hist, spread, p) < pow2(table_log),
        hist[spread[p] as int] >= 1,
        enc_slot(hist, spread, p) < cumul_of(hist, spread[p] as int + 1),
{
    let s = spread[p] as int;
    lemma_count_in_take_step(spread, p, spread[p]);
    lemma_count_in_take_le(spread, p + 1, spread[p]);
    assert((s as u8) == spread[p]);
    assert(count_in(spread, s as u8) == hist[s]);
    assert(count_in(spread.take(p), spread[p]) < hist[s]);
    crate::lemma_sum_seq_nonneg(hist.take(s));
    lemma_sum_seq_take_step(hist, s);
    lemma_sum_seq_take_le(hist, s + 1);
    assert(cumul_of(hist, s + 1) == cumul_of(hist, s) + hist[s]);
    assert(cumul_of(hist, s + 1) <= sum_seq(hist));
}

/// Slots of two different window states never collide: within one symbol
/// the occurrence count grows, and different symbols own disjoint
/// cumulative intervals.
proof fn lemma_enc_slots_distinct(
    hist: Seq<usize>,
    spread: Seq<u8>,
    table_log: nat,
    p1: int,
    p2: int,
)
    requires
        hist.len() == 256,
        sum_seq(hist) == pow2(table_log),
        spread.len() == pow2(table_log),
        forall|b: int| 0 <= b < 256 ==> #[trigger] count_in(spread, b as u8) == hist[b],
        0 <= p1 < p2 < spread.len(),
    ensures
        enc_slot(hist, spread, p1) != enc_slot(hist, spread, p2),
{
    lemma_enc_slot_ok(hist, spread, table_log, p1);
    lemma_enc_slot_ok(hist, spread, table_log, p2);
    let s1 = spread[p1] as int;
    let s2 = spread[p2] as int;
    if s1 == s2 {
        lemma_count_in_take_step(spread, p1, spread[p1]);
        assert(spread.take(p2).take(p1 + 1) =~= spread.take(p1 + 1));
        lemma_count_in_take_le(spread.take(p2), p1 + 1, spread[p1]);
        assert(count_in(spread.take(p1), spread[p1]) < count_in(spread.take(p2), spread[p2]));
    } else if s1 < s2 {
        assert(hist.take(s2).take(s1 + 1) =~= hist.take(s1 + 1));
        lemma_sum_seq_take_le(hist.take(s2), s1 + 1);
        assert(cumul_of(hist, s1 + 1) <= cumul_of(hist, s2));
    } else {
        assert(hist.take(s1).take(s2 + 1) =~= hist.take(s2 + 1));
        lemma_sum_seq_take_le(hist.take(s1), s2 + 1);
        assert(cumul_of(hist, s2 + 1) <= cumul_of(hist, s1));
    }
}

/// Encode one symbol: shed the bits the packed constant prescribes for the
/// current state, then hop to the post-transition state the table holds.
pub fn encode_symbol(
    delta_nb_bits: &[usize],
    starts: &[i32],
    table: &[usize],
    state: usize,
    symbol: usize,
    stream: &mut BitEstream,
) -> (r: usize)
    requires
        symbol < delta_nb_bits@.len(),
        symbol < starts@.len(),
        state < pow2(17),
        state + delta_nb_bits@[symbol as int] <= usize::MAX,
        (state + delta_nb_bits@[symbol as int]) as nat / pow2(16) <= 16,
        0 <= starts@[symbol as int] + state as nat / pow2(
            ((state + delta_nb_bits@[symbol as int]) as nat / pow2(16)) as nat,
        ) < table@.len(),
    ensures
        ({
            let nb = (state + delta_nb_bits@[symbol as int]) as nat / pow2(16);
            &&& r == table@[starts@[symbol as int] + state as nat / pow2(nb)]
            &&& est_bits(*final(stream)) == est_bits(*old(stream)) + bits_of(state as nat, nb)
        }),
{
    proof {
        lemma2_to64();
    }
    let pow16 = pow2_usize(16);
    let nb_bits_out = (state + delta_nb_bits[symbol]) / pow16;
    est_write(stream, state, nb_bits_out as u8);
    proof {
        lemma_pow2_pos(nb_bits_out as nat);
        lemma_pow2_monotone(nb_bits_out as nat, 16);
    }
    let shift_pow = pow2_usize(nb_bits_out);
    proof {
        vstd::arithmetic::div_mod::lemma_div_is_ordered_by_denominator(
            state as int,
            1,
            shift_pow as int,
        );
        assert(state as int / 1 == state as int);
        assert(state as int / shift_pow as int <= state as int);
    }
    let st_hi = state / shift_pow;
    let idx64: i64 = (starts[symbol] as i64) + (st_hi as i64);
    table[idx64 as usize]
}

/// Build the tANS decode artifacts: for every table state, how many bits to
/// read and the base the read bits are added to for the next state.
pub fn build_decode_table(table_log: usize, spread: &[u8], histogram: &[usize]) -> (r: (
    Vec<usize>,
    Vec<usize>,
))
    requires
        1 <= table_log <= 15,
        histogram@.len() == 256,
        sum_seq(histogram@) == pow2(table_log as nat),
        spread@.len() == pow2(table_log as nat),
        forall|b: int| 0 <= b < 256 ==> #[trigger] count_in(spread@, b as u8) == histogram@[b],
    ensures
        r.0@.len() == pow2(table_log as nat),
        r.1@.len() == pow2(table_log as nat),
        forall|t: int|
            0 <= t < pow2(table_log as nat) ==> ({
                let x = histogram@[spread@[t] as int] + count_in(spread@.take(t), spread@[t]);
                &&& #[trigger] r.0@[t] == table_log - (bit_len(x as nat) - 1)
                &&& r.0@[t] <= table_log
                &&& r.1@[t] == x * pow2((table_log - (bit_len(x as nat) - 1)) as nat) - pow2(
                    table_log as nat,
                )
                &&& r.1@[t] <= pow2(table_log as nat)
            }),
{
    proof {
        lemma2_to64();
        lemma_pow2_monotone(table_log as nat, 15);
        lemma_pow2_pos(table_log as nat);
    }
    let table_size = pow2_usize(table_log);
    let mut symbol_next: Vec<usize> = Vec::new();
    let mut k: usize = 0;
    while k < 256
        invariant
            histogram@.len() == 256,
            0 <= k <= 256,
            symbol_next@.len() == k,
            forall|ss: int| 0 <= ss < k ==> symbol_next@[ss] == histogram@[ss],
        decreases 256 - k,
    {
        symbol_next.push(histogram[k]);
        k = k + 1;
    }
    let mut nb_bits: Vec<usize> = Vec::new();
    let mut new_state: Vec<usize> = Vec::new();
    let mut t: usize = 0;
    while t < table_size
        invariant
            1 <= table_log <= 15,
            histogram@.len() == 256,
            sum_seq(histogram@) == pow2(table_log as nat),
            table_size == pow2(table_log as nat),
            2 <= table_size <= 0x8000,
            spread@.len() == table_size,
            forall|b: int| 0 <= b < 256 ==> #[trigger] count_in(spread@, b as u8) == histogram@[b],
            symbol_next@.len() == 256,
            0 <= t <= table_size,
            nb_bits@.len() == t,
            new_state@.len() == t,
            forall|ss: int|
                0 <= ss < 256 ==> #[trigger] symbol_next@[ss] == histogram@[ss] + count_in(
                    spread@.take(t as int),
                    ss as u8,
                ),
            forall|tt: int|
                0 <= tt < t ==> ({
                    let x = histogram@[spread@[tt] as int] + count_in(
                        spread@.take(tt),
                        spread@[tt],
                    );
                    &&& #[trigger] nb_bits@[tt] == table_log - (bit_len(x as nat) - 1)
                    &&& nb_bits@[tt] <= table_log
                    &&& new_state@[tt] == x * pow2((table_log - (bit_len(x as nat) - 1)) as nat)
                        - pow2(table_log as nat)
                    &&& new_state@[tt] <= pow2(table_log as nat)
                }),
        decreases table_size - t,
    {
        let sy = spread[t] as usize;
        let x = symbol_next[sy];
        proof {
            assert((sy as u8) == spread@[t as int]);
            assert(x == histogram@[sy as int] + count_in(
                spread@.take(t as int),
                spread@[t as int],
            ));
            lemma2_to64();
            lemma_pow2_pos(table_log as nat);
            lemma_count_in_take_step(spread@, t as int, spread@[t as int]);
            lemma_count_in_take_le(spread@, t as int + 1, spread@[t as int]);
            assert forall|b: int| 0 <= b < 256 && b != sy implies #[trigger] count_in(
                spread@.take(t as int + 1),
                b as u8,
            ) == count_in(spread@.take(t as int), b as u8) by {
                lemma_count_in_take_step(spread@, t as int, b as u8);
            }
            assert(count_in(spread@.take(t as int), spread@[t as int]) < histogram@[sy as int]);
            assert(x >= 1);
            assert(x <= 2 * histogram@[sy as int] - 1);
            crate::lemma_sum_seq_entry_le(histogram@, sy as int);
            lemma_pow2_adds(table_log as nat, 1);
            assert(x < pow2((table_log + 1) as nat));
            lemma_bit_len_bound(x as nat, (table_log + 1) as nat);
            lemma_bit_len_lower(x as nat);
            let bl = bit_len(x as nat);
            let hbn = (bl - 1) as nat;
            let nbn = (table_log - hbn) as nat;
            lemma_pow2_pos(hbn);
            lemma_pow2_pos(nbn);
            lemma_pow2_monotone(nbn, 15);
            lemma_pow2_adds(hbn, nbn);
            assert(pow2(hbn) * pow2(nbn) == pow2(table_log as nat));
            lemma_mul_inequality(pow2(hbn) as int, x as int, pow2(nbn) as int);
            assert(x as int * pow2(nbn) as int >= pow2(table_log as nat));
            vstd::arithmetic::power2::lemma_pow2_unfold(bl);
            assert(x <= 2 * pow2(hbn));
            lemma_mul_inequality(x as int, 2 * pow2(hbn) as int, pow2(nbn) as int);
            lemma_double_mul(pow2(hbn) as int, pow2(nbn) as int);
            assert(x as int * pow2(nbn) as int <= 2 * pow2(table_log as nat));
        }
        let hb = bit_width(x) - 1;
        let nb = table_log - (hb as usize);
        let base = x * pow2_usize(nb) - table_size;
        nb_bits.push(nb);
        new_state.push(base);
        let cur = symbol_next[sy];
        symbol_next.set(sy, cur + 1);
        t = t + 1;
    }
    proof {
        assert(spread@.take(table_size as int) =~= spread@);
    }
    (nb_bits, new_state)
}

/// Decode one symbol: read the bits the table prescribes for the current
/// state, emit the state's symbol, and step to the read-extended base.
pub fn decode_symbol(
    dstream: &mut BitDstream,
    nb_bits: &[usize],
    new_states: &[usize],
    state: usize,
    spread: &[u8],
) -> (r: (usize, u8))
    requires
        state < nb_bits@.len(),
        state < new_states@.len(),
        state < spread@.len(),
        nb_bits@[state as int] <= 16,
        nb_bits@[state as int] <= crate::bitstream::dst_bits(*old(dstream)).len(),
        new_states@[state as int] + pow2(nb_bits@[state as int] as nat) <= usize::MAX,
    ensures
        ({
            let nb = nb_bits@[state as int];
            let pre = crate::bitstream::dst_bits(*old(dstream));
            &&& r.1 == spread@[state as int]
            &&& crate::bitstream::dst_bits(*final(dstream)) == pre.take(pre.len() - nb)
            &&& new_states@[state as int] <= r.0
            &&& r.0 < new_states@[state as int] + pow2(nb as nat)
            &&& bits_of((r.0 - new_states@[state as int]) as nat, nb as nat) == pre.subrange(
                pre.len() - nb,
                pre.len() as int,
            )
        }),
{
    proof {
        lemma2_to64();
    }
    let nb = nb_bits[state];
    let b: usize = if nb == 0 {
        proof {
            let pre = crate::bitstream::dst_bits(*dstream);
            assert(pre.take(pre.len() as int) =~= pre);
            assert(bits_of(0, 0) =~= pre.subrange(pre.len() as int, pre.len() as int));
        }
        0
    } else {
        proof {
            lemma_pow2_pos(nb_bits@[state as int] as nat);
        }
        let got = dst_read(dstream, nb as u8);
        match got {
            Some(v) => v,
            None => 0,
        }
    };
    (new_states[state] + b, spread[state])
}

/// The source alphabet is carried by the frequency table.
pub open spec fn tans_src_ok(src: Seq<u8>, hist: Seq<usize>) -> bool {
    forall|k: int| 0 <= k < src.len() ==> hist[#[trigger] src[k] as int] >= 1
}

/// The state and shed bits of a tANS encoding pass at the ghost level.
pub ghost struct TansTrace {
    pub state: nat,
    pub bits: Seq<bool>,
}

/// One tANS encoding step: shed the bits the packed constant prescribes,
/// then hop to the window state whose spread position is the next
/// occurrence of the symbol.
pub open spec fn tans_step_trace(
    pre: TansTrace,
    hist: Seq<usize>,
    spread: Seq<u8>,
    s: int,
    table_log: nat,
) -> TansTrace {
    let freq = hist[s] as nat;
    let nb = ((pre.state + tans_delta(freq, table_log)) as nat) / pow2(16);
    let j = pre.state as int / pow2(nb) as int - hist[s];
    TansTrace {
        state: (pow2(table_log) + nth_occurrence(spread, s as u8, j)) as nat,
        bits: pre.bits + bits_of(pre.state, nb),
    }
}

/// The whole tANS encoding pass over a source, symbol by symbol, from the
/// starting window state.
pub open spec fn tans_encode_trace(
    src: Seq<u8>,
    hist: Seq<usize>,
    spread: Seq<u8>,
    table_log: nat,
    state0: nat,
) -> TansTrace
    decreases src.len(),
{
    if src.len() == 0 {
        TansTrace { state: state0, bits: Seq::empty() }
    } else {
        tans_step_trace(
            tans_encode_trace(src.drop_last(), hist, spread, table_log, state0),
            hist,
            spread,
            src.last() as int,
            table_log,
        )
    }
}

/// The carried artifacts are exactly what tANS encoding `src` from the
/// window state `state0` produces: the final state's offset in the window
/// and the finalized bit stream.
pub open spec fn tans_payload_of(
    src: Seq<u8>,
    hist: Seq<usize>,
    spread: Seq<u8>,
    table_log: nat,
    state0: nat,
    state: int,
    stream: Seq<u8>,
) -> bool {
    &&& tans_src_ok(src, hist)
    &&& pow2(table_log) <= state0 < 2 * pow2(table_log)
    &&& state == tans_encode_trace(src, hist, spread, table_log, state0).state - pow2(table_log)
    &&& stream == crate::bitstream::stream_bytes(
        tans_encode_trace(src, hist, spread, table_log, state0).bits,
    )
}

/// Every tANS encoding trace stays inside the window.
proof fn lemma_tans_trace_wf(
    src: Seq<u8>,
    hist: Seq<usize>,
    spread: Seq<u8>,
    table_log: nat,
    state0: nat,
)
    requires
        1 <= table_log <= 15,
        hist.len() == 256,
        sum_seq(hist) == pow2(table_log),
        spread.len() == pow2(table_log),
        forall|b: int| 0 <= b < 256 ==> #[trigger] count_in(spread, b as u8) == hist[b],
        tans_src_ok(src, hist),
        pow2(table_log) <= state0 < 2 * pow2(table_log),
    ensures
        ({
            let t = tans_encode_trace(src, hist, spread, table_log, state0);
            &&& pow2(table_log) <= t.state < 2 * pow2(table_log)
            &&& t.bits.len() <= 15 * src.len()
        }),
    decreases src.len(),
{
    lemma_pow2_pos(table_log);
    if src.len() > 0 {
        assert(tans_src_ok(src.drop_last(), hist)) by {
            assert(forall|k: int| 0 <= k < src.len() - 1 ==> src.drop_last()[k] == src[k]);
        }
        lemma_tans_trace_wf(src.drop_last(), hist, spread, table_log, state0);
        let pre = tans_encode_trace(src.drop_last(), hist, spread, table_log, state0);
        let s = src.last() as int;
        assert(hist[s] >= 1);
        let freq = hist[s] as nat;
        crate::lemma_sum_seq_entry_le(hist, s);
        lemma_tans_shed_window(pre.state, freq, table_log);
        let nb = ((pre.state + tans_delta(freq, table_log)) as nat) / pow2(16);
        let j = pre.state as int / pow2(nb) as int - hist[s];
        assert(0 <= j < freq);
        assert((s as u8) as int == s);
        assert(count_in(spread, (s as u8)) == hist[s]);
        lemma_nth_occurrence(spread, s as u8, j);
        let t = tans_encode_trace(src, hist, spread, table_log, state0);
        assert(t == tans_step_trace(pre, hist, spread, s, table_log));
        assert(t.bits == pre.bits + bits_of(pre.state, nb));
        crate::bitstream::lemma_bits_of_len(pre.state, nb);
        assert(t.bits.len() == pre.bits.len() + nb);
        assert(nb <= 15);
        assert(pre.bits.len() <= 15 * (src.len() - 1));
        assert(15 * src.len() == 15 * (src.len() - 1) + 15);
    }
}

/// One decode row undoes the last ghost encode step: the row at the
/// trace's state names the symbol just encoded, reads back exactly the
/// bits the step shed, and steps to the state the encoder came from.
proof fn lemma_tans_dec_step_inverts(
    src: Seq<u8>,
    hist: Seq<usize>,
    spread: Seq<u8>,
    table_log: nat,
    state0: nat,
    nb_bits: Seq<usize>,
    new_states: Seq<usize>,
)
    requires
        1 <= table_log <= 15,
        hist.len() == 256,
        sum_seq(hist) == pow2(table_log),
        spread.len() == pow2(table_log),
        forall|b: int| 0 <= b < 256 ==> #[trigger] count_in(spread, b as u8) == hist[b],
        forall|t: int|
            0 <= t < pow2(table_log) ==> ({
                let xv = hist[spread[t] as int] + count_in(spread.take(t), spread[t]);
                &&& #[trigger] nb_bits[t] == table_log - (bit_len(xv as nat) - 1)
                &&& new_states[t] == xv * pow2((table_log - (bit_len(xv as nat) - 1)) as nat)
                    - pow2(table_log)
            }),
        tans_src_ok(src, hist),
        pow2(table_log) <= state0 < 2 * pow2(table_log),
        src.len() > 0,
    ensures
        ({
            let t = tans_encode_trace(src, hist, spread, table_log, state0);
            let pre = tans_encode_trace(src.drop_last(), hist, spread, table_log, state0);
            let ti = t.state - pow2(table_log);
            let nb = ((pre.state + tans_delta(hist[src.last() as int] as nat, table_log)) as nat)
                / pow2(16);
            &&& 0 <= ti < pow2(table_log)
            &&& spread[ti] == src.last()
            &&& nb_bits[ti] == nb
            &&& nb <= table_log
            &&& t.bits == pre.bits + bits_of(pre.state, nb)
            &&& new_states[ti] + pre.state % pow2(nb) == pre.state - pow2(table_log)
        }),
{
    assert(tans_src_ok(src.drop_last(), hist)) by {
        assert(forall|k: int| 0 <= k < src.len() - 1 ==> src.drop_last()[k] == src[k]);
    }
    lemma_tans_trace_wf(src.drop_last(), hist, spread, table_log, state0);
    let pre = tans_encode_trace(src.drop_last(), hist, spread, table_log, state0);
    let s = src.last() as int;
    assert(hist[s] >= 1);
    lemma_tans_step_core(hist, spread, table_log, pre.state, s);
    assert((s as u8) as int == s);
    let nb = ((pre.state + tans_delta(hist[s] as nat, table_log)) as nat) / pow2(16);
    let p = nth_occurrence(spread, s as u8, pre.state as int / pow2(nb) as int - hist[s]);
    let t = tans_encode_trace(src, hist, spread, table_log, state0);
    assert(t == tans_step_trace(pre, hist, spread, s, table_log));
    assert(t.state == pow2(table_log) + p);
    assert(nb_bits[p] == nb);
    assert(new_states[p] + pre.state % pow2(nb) == pre.state - pow2(table_log));
}

/// Encode a byte source with tANS against a normalized frequency table and
/// its spread. The state walks the window `[2^table_log, 2^(table_log+1))`
/// and the returned stream is the finalized byte form of the shed bits,
/// exactly as the ghost trace describes them.
pub fn encode_tans(
    src: &[u8],
    histogram: &[usize],
    spread: &[u8],
    table_log: usize,
    state: &mut usize,
) -> (r: (Vec<u8>, usize))
    requires
        1 <= table_log <= 15,
        histogram@.len() == 256,
        sum_seq(histogram@) == pow2(table_log as nat),
        spread@.len() == pow2(table_log as nat),
        forall|b: int| 0 <= b < 256 ==> #[trigger] count_in(spread@, b as u8) == histogram@[b],
        tans_src_ok(src@, histogram@),
        pow2(table_log as nat) <= *old(state) < 2 * pow2(table_log as nat),
    ensures
        ({
            let t = tans_encode_trace(
                src@,
                histogram@,
                spread@,
                table_log as nat,
                *old(state) as nat,
            );
            &&& *final(state) == t.state
            &&& pow2(table_log as nat) <= t.state < 2 * pow2(table_log as nat)
            &&& r.1 + pow2(table_log as nat) == t.state
            &&& r.0@ == crate::bitstream::stream_bytes(t.bits)
            &&& crate::bitstream::spec_readable(r.0@) == t.bits.len() + 1
            &&& t.bits.len() <= 15 * src@.len()
        }),
        tans_payload_of(
            src@,
            histogram@,
            spread@,
            table_log as nat,
            *old(state) as nat,
            r.1 as int,
            r.0@,
        ),
{
    let ghost state0 = *state as nat;
    proof {
        lemma2_to64();
        lemma_pow2_monotone(table_log as nat, 15);
        lemma_pow2_pos(table_log as nat);
    }
    let table_size = pow2_usize(table_log);
    let tables = build_encode_table(histogram, table_log, spread);
    let table = tables.0;
    let delta_nb_bits = tables.1;
    let starts = tables.2;
    let mut estream: BitEstream = est_new();
    let n = src.len();
    let mut k: usize = 0;
    while k < n
        invariant
            n == src@.len(),
            0 <= k <= n,
            1 <= table_log <= 15,
            histogram@.len() == 256,
            sum_seq(histogram@) == pow2(table_log as nat),
            spread@.len() == pow2(table_log as nat),
            forall|b: int| 0 <= b < 256 ==> #[trigger] count_in(spread@, b as u8) == histogram@[b],
            tans_src_ok(src@, histogram@),
            pow2(table_log as nat) <= state0 < 2 * pow2(table_log as nat),
            table_size == pow2(table_log as nat),
            2 <= table_size <= 0x8000,
            table@.len() == table_size + 2,
            delta_nb_bits@.len() == 256,
            starts@.len() == 256,
            forall|ss: int|
                0 <= ss < 256 && histogram@[ss] >= 1 ==> #[trigger] delta_nb_bits@[ss]
                    == tans_delta(histogram@[ss] as nat, table_log as nat),
            forall|ss: int|
                0 <= ss < 256 && histogram@[ss] >= 1 ==> #[trigger] starts@[ss] == cumul_of(
                    histogram@,
                    ss,
                ) - histogram@[ss],
            forall|p: int|
                0 <= p < pow2(table_log as nat) ==> #[trigger] table@[enc_slot(
                    histogram@,
                    spread@,
                    p,
                )] == pow2(table_log as nat) + p,
            ({
                let t = tans_encode_trace(
                    src@.take(k as int),
                    histogram@,
                    spread@,
                    table_log as nat,
                    state0,
                );
                &&& *state == t.state
                &&& est_bits(estream) == t.bits
            }),
            table_size <= *state < 2 * table_size,
        decreases n - k,
    {
        let symbol = src[k] as usize;
        proof {
            lemma2_to64();
            lemma_pow2_pos(table_log as nat);
            lemma_pow2_pos(16);
            assert(histogram@[src@[k as int] as int] >= 1);
            assert(symbol as int == src@[k as int] as int);
            lemma_tans_step_core(
                histogram@,
                spread@,
                table_log as nat,
                *state as nat,
                symbol as int,
            );
            assert(delta_nb_bits@[symbol as int] == tans_delta(
                histogram@[symbol as int] as nat,
                table_log as nat,
            ));
            assert(starts@[symbol as int] == cumul_of(histogram@, symbol as int)
                - histogram@[symbol as int]);
        }
        let next = encode_symbol(&delta_nb_bits, &starts, &table, *state, symbol, &mut estream);
        proof {
            let ghost x = *state as nat;
            let ghost tl = table_log as nat;
            let ghost nbg = ((x + tans_delta(histogram@[symbol as int] as nat, tl)) as nat)
                / pow2(16);
            let ghost p = nth_occurrence(
                spread@,
                (symbol as int) as u8,
                x as int / pow2(nbg) as int - histogram@[symbol as int],
            );
            assert((symbol as int) as u8 == src@[k as int]);
            assert(table@[enc_slot(histogram@, spread@, p)] == pow2(tl) + p);
            assert(next == pow2(tl) + p);
            assert(src@.take(k as int + 1).drop_last() =~= src@.take(k as int));
            assert(src@.take(k as int + 1).last() == src@[k as int]);
            assert(tans_encode_trace(src@.take(k as int + 1), histogram@, spread@, tl, state0)
                == tans_step_trace(
                tans_encode_trace(src@.take(k as int), histogram@, spread@, tl, state0),
                histogram@,
                spread@,
                src@[k as int] as int,
                tl,
            ));
        }
        *state = next;
        k = k + 1;
    }
    proof {
        assert(src@.take(n as int) =~= src@);
        lemma_tans_trace_wf(src@, histogram@, spread@, table_log as nat, state0);
    }
    let fin = *state - table_size;
    (est_finalize(estream), fin)
}

/// Decode a tANS stream into `dst_buffer`, filling it from the back: the
/// decoder walks the states in reverse, reading back exactly the bits the
/// encoder shed. A payload that came out of the encoder for a source of the
/// buffer's length fills the buffer with exactly that source; any stream
/// whose tables, state or bits do not add up is rejected instead of read
/// out of bounds.
#[verifier::rlimit(100)]
#[verifier::spinoff_prover]
pub fn decode_tans(
    src: Vec<u8>,
    histogram: &[usize],
    spread: &[u8],
    table_log: usize,
    state: usize,
    dst_buffer: &mut Vec<u8>,
) -> (r: Result<(), CodecError>)
    requires
        1 <= table_log <= 15,
        histogram@.len() == 256,
        sum_seq(histogram@) == pow2(table_log as nat),
        spread@.len() == pow2(table_log as nat),
        forall|b: int| 0 <= b < 256 ==> #[trigger] count_in(spread@, b as u8) == histogram@[b],
        8 * src@.len() + 64 <= usize::MAX,
    ensures
        r is Ok ==> final(dst_buffer)@.len() == old(dst_buffer)@.len(),
        forall|srcg: Seq<u8>, st0: nat|
            srcg.len() == old(dst_buffer)@.len() && #[trigger] tans_payload_of(
                srcg,
                histogram@,
                spread@,
                table_log as nat,
                st0,
                state as int,
                src@,
            ) ==> (r is Ok && final(dst_buffer)@ == srcg),
{
    let ghost hist = histogram@;
    let ghost spr = spread@;
    let ghost tl = table_log as nat;
    let ghost stream0 = src@;
    let ghost len0 = old(dst_buffer)@.len();
    proof {
        lemma2_to64();
        lemma_pow2_monotone(table_log as nat, 15);
        lemma_pow2_pos(table_log as nat);
    }
    let table_size = pow2_usize(table_log);
    if state >= table_size {
        proof {
            assert forall|srcg: Seq<u8>, st0: nat|
                srcg.len() == len0 && #[trigger] tans_payload_of(
                    srcg,
                    hist,
                    spr,
                    tl,
                    st0,
                    state as int,
                    stream0,
                ) implies false by {
                lemma_tans_trace_wf(srcg, hist, spr, tl, st0);
            }
        }
        return Err(CodecError::InvalidState);
    }
    let tables = build_decode_table(table_log, spread, histogram);
    let nb_bits = tables.0;
    let new_states = tables.1;
    proof {
        assert forall|tt: int| 0 <= tt < table_size implies #[trigger] nb_bits@[tt]
            <= table_log by {
            assert(nb_bits@[tt] == table_log - (bit_len(
                (histogram@[spread@[tt] as int] + count_in(spread@.take(tt), spread@[tt])) as nat,
            ) - 1));
        }
        assert forall|tt: int| 0 <= tt < table_size implies #[trigger] new_states@[tt] <= pow2(
            table_log as nat,
        ) by {
            assert(nb_bits@[tt] == table_log - (bit_len(
                (histogram@[spread@[tt] as int] + count_in(spread@.take(tt), spread@[tt])) as nat,
            ) - 1));
        }
    }
    let mut avail = readable_bits(src.as_slice());
    let opened = dst_open(src);
    if opened.is_none() {
        proof {
            assert forall|srcg: Seq<u8>, st0: nat|
                srcg.len() == len0 && #[trigger] tans_payload_of(
                    srcg,
                    hist,
                    spr,
                    tl,
                    st0,
                    state as int,
                    stream0,
                ) implies false by {}
        }
        return Err(CodecError::TruncatedStream);
    }
    let mut dstream: BitDstream = match opened {
        Some(d) => d,
        None => {
            return Err(CodecError::TruncatedStream);
        },
    };
    proof {
        assert forall|srcg: Seq<u8>, st0: nat|
            srcg.len() == len0 && #[trigger] tans_payload_of(
                srcg,
                hist,
                spr,
                tl,
                st0,
                state as int,
                stream0,
            ) implies crate::bitstream::dst_bits(dstream) == tans_encode_trace(
            srcg,
            hist,
            spr,
            tl,
            st0,
        ).bits.push(true) && avail as int == tans_encode_trace(
            srcg,
            hist,
            spr,
            tl,
            st0,
        ).bits.len() + 1 by {}
    }
    if avail < 1 {
        proof {
            assert forall|srcg: Seq<u8>, st0: nat|
                srcg.len() == len0 && #[trigger] tans_payload_of(
                    srcg,
                    hist,
                    spr,
                    tl,
                    st0,
                    state as int,
                    stream0,
                ) implies false by {}
        }
        return Err(CodecError::TruncatedStream);
    }
    let mark = dst_read(&mut dstream, 1);
    proof {
        assert(mark is Some);
        assert forall|srcg: Seq<u8>, st0: nat|
            srcg.len() == len0 && #[trigger] tans_payload_of(
                srcg,
                hist,
                spr,
                tl,
                st0,
                state as int,
                stream0,
            ) implies crate::bitstream::dst_bits(dstream) == tans_encode_trace(
            srcg,
            hist,
            spr,
            tl,
            st0,
        ).bits by {
            let tb = tans_encode_trace(srcg, hist, spr, tl, st0).bits;
            assert(tb.push(true).take(tb.len() as int) =~= tb);
        }
    }
    avail = avail - 1;
    let mut st = state;
    let mut j: usize = dst_buffer.len();
    proof {
        assert forall|srcg: Seq<u8>, st0: nat|
            srcg.len() == len0 && #[trigger] tans_payload_of(
                srcg,
                hist,
                spr,
                tl,
                st0,
                state as int,
                stream0,
            ) implies ({
            let tm = tans_encode_trace(srcg.take(j as int), hist, spr, tl, st0);
            &&& st == tm.state - pow2(tl)
            &&& crate::bitstream::dst_bits(dstream) == tm.bits
            &&& avail as int == tm.bits.len()
            &&& (forall|i: int| j <= i < len0 ==> #[trigger] dst_buffer@[i] == srcg[i])
        }) by {
            assert(srcg.take(len0 as int) =~= srcg);
        }
    }
    while j > 0
        invariant
            hist == histogram@,
            spr == spread@,
            tl == table_log as nat,
            stream0 == src@,
            len0 == old(dst_buffer)@.len(),
            0 <= j <= dst_buffer@.len(),
            dst_buffer@.len() == old(dst_buffer)@.len(),
            1 <= table_log <= 15,
            histogram@.len() == 256,
            sum_seq(histogram@) == pow2(table_log as nat),
            table_size == pow2(table_log as nat),
            2 <= table_size <= 0x8000,
            spread@.len() == table_size,
            forall|b: int| 0 <= b < 256 ==> #[trigger] count_in(spread@, b as u8) == histogram@[b],
            nb_bits@.len() == table_size,
            new_states@.len() == table_size,
            forall|tt: int| 0 <= tt < table_size ==> #[trigger] nb_bits@[tt] <= table_log,
            forall|tt: int| 0 <= tt < table_size ==> #[trigger] new_states@[tt] <= pow2(
                table_log as nat,
            ),
            forall|tt: int|
                0 <= tt < pow2(table_log as nat) ==> ({
                    let xv = histogram@[spread@[tt] as int] + count_in(
                        spread@.take(tt),
                        spread@[tt],
                    );
                    &&& #[trigger] nb_bits@[tt] == table_log - (bit_len(xv as nat) - 1)
                    &&& new_states@[tt] == xv * pow2(
                        (table_log - (bit_len(xv as nat) - 1)) as nat,
                    ) - pow2(table_log as nat)
                }),
            st < table_size,
            avail as int <= crate::bitstream::dst_bits(dstream).len(),
            forall|srcg: Seq<u8>, st0: nat|
                srcg.len() == len0 && #[trigger] tans_payload_of(
                    srcg,
                    hist,
                    spr,
                    tl,
                    st0,
                    state as int,
                    stream0,
                ) ==> ({
                    let tm = tans_encode_trace(srcg.take(j as int), hist, spr, tl, st0);
                    &&& st == tm.state - pow2(tl)
                    &&& crate::bitstream::dst_bits(dstream) == tm.bits
                    &&& avail as int == tm.bits.len()
                    &&& (forall|i: int| j <= i < len0 ==> #[trigger] dst_buffer@[i] == srcg[i])
                }),
        decreases j,
    {
        let ghost dstream_pre = dstream;
        let ghost buf_pre = dst_buffer@;
        let nb = nb_bits[st];
        // what one ghost decode step does to any matching trace
        proof {
            assert forall|srcg: Seq<u8>, st0: nat|
                srcg.len() == len0 && #[trigger] tans_payload_of(
                    srcg,
                    hist,
                    spr,
                    tl,
                    st0,
                    state as int,
                    stream0,
                ) implies ({
                let tm = tans_encode_trace(srcg.take(j as int), hist, spr, tl, st0);
                let tp = tans_encode_trace(srcg.take(j as int - 1), hist, spr, tl, st0);
                let nbm = ((tp.state + tans_delta(
                    hist[srcg[j - 1] as int] as nat,
                    tl,
                )) as nat) / pow2(16);
                &&& spr[st as int] == srcg[j - 1]
                &&& nb == nbm
                &&& tm.bits == tp.bits + bits_of(tp.state, nbm)
                &&& new_states@[st as int] + tp.state % pow2(nbm) == tp.state - pow2(tl)
                &&& pow2(tl) <= tp.state < 2 * pow2(tl)
            }) by {
                assert(tans_src_ok(srcg.take(j as int), hist)) by {
                    assert(forall|q: int| 0 <= q < j ==> srcg.take(j as int)[q] == srcg[q]);
                }
                assert(srcg.take(j as int).drop_last() =~= srcg.take(j as int - 1));
                assert(srcg.take(j as int).last() == srcg[j - 1]);
                lemma_tans_dec_step_inverts(
                    srcg.take(j as int),
                    hist,
                    spr,
                    tl,
                    st0,
                    nb_bits@,
                    new_states@,
                );
                assert(tans_src_ok(srcg.take(j as int - 1), hist)) by {
                    assert(forall|q: int|
                        0 <= q < j - 1 ==> srcg.take(j as int - 1)[q] == srcg[q]);
                }
                lemma_tans_trace_wf(srcg.take(j as int - 1), hist, spr, tl, st0);
            }
        }
        if nb > avail {
            proof {
                assert forall|srcg: Seq<u8>, st0: nat|
                    srcg.len() == len0 && #[trigger] tans_payload_of(
                        srcg,
                        hist,
                        spr,
                        tl,
                        st0,
                        state as int,
                        stream0,
                    ) implies false by {
                    let tm = tans_encode_trace(srcg.take(j as int), hist, spr, tl, st0);
                    let tp = tans_encode_trace(srcg.take(j as int - 1), hist, spr, tl, st0);
                    let nbm = ((tp.state + tans_delta(
                        hist[srcg[j - 1] as int] as nat,
                        tl,
                    )) as nat) / pow2(16);
                    assert(tm.bits == tp.bits + bits_of(tp.state, nbm));
                    assert(avail as int == tm.bits.len());
                    assert(nb == nbm);
                    assert(bits_of(tp.state, nbm).len() == nbm);
                }
            }
            return Err(CodecError::TruncatedStream);
        }
        proof {
            lemma_pow2_monotone(nb_bits@[st as int] as nat, table_log as nat);
            lemma_pow2_monotone(table_log as nat, 15);
        }
        let stepped = decode_symbol(&mut dstream, &nb_bits, &new_states, st, spread);
        avail = avail - nb;
        j = j - 1;
        dst_buffer.set(j, stepped.1);
        proof {
            assert forall|srcg: Seq<u8>, st0: nat|
                srcg.len() == len0 && #[trigger] tans_payload_of(
                    srcg,
                    hist,
                    spr,
                    tl,
                    st0,
                    state as int,
                    stream0,
                ) implies ({
                let tp = tans_encode_trace(srcg.take(j as int), hist, spr, tl, st0);
                &&& stepped.0 as int == tp.state - pow2(tl)
                &&& stepped.0 < pow2(tl)
                &&& crate::bitstream::dst_bits(dstream) == tp.bits
                &&& avail as int == tp.bits.len()
                &&& (forall|i: int| j <= i < len0 ==> #[trigger] dst_buffer@[i] == srcg[i])
            }) by {
                let tm = tans_encode_trace(srcg.take(j as int + 1), hist, spr, tl, st0);
                let tp = tans_encode_trace(srcg.take(j as int), hist, spr, tl, st0);
                let nbm = ((tp.state + tans_delta(
                    hist[srcg[j as int] as int] as nat,
                    tl,
                )) as nat) / pow2(16);
                let pre_bits = crate::bitstream::dst_bits(dstream_pre);
                assert(pre_bits == tm.bits);
                assert(tm.bits == tp.bits + bits_of(tp.state, nbm));
                assert(pre_bits.take(pre_bits.len() - nbm) =~= tp.bits);
                assert(pre_bits.subrange(pre_bits.len() - nbm, pre_bits.len() as int)
                    =~= bits_of(tp.state, nbm));
                let b = (stepped.0 - new_states@[st as int]) as nat;
                assert(bits_of(b, nbm) == bits_of(tp.state, nbm));
                crate::bitstream::lemma_bits_of_mod(tp.state, nbm);
                vstd::arithmetic::power2::lemma_pow2_pos(nbm);
                vstd::arithmetic::div_mod::lemma_mod_bound(tp.state as int, pow2(nbm) as int);
                lemma_val_of_bits_of(b, nbm);
                lemma_val_of_bits_of(tp.state % pow2(nbm), nbm);
                assert(b == tp.state % pow2(nbm));
                assert(stepped.0 as int == tp.state - pow2(tl));
                assert forall|i: int| j <= i < len0 implies #[trigger] dst_buffer@[i]
                    == srcg[i] by {
                    if i == j {
                        assert(dst_buffer@[i] == stepped.1);
                        assert(stepped.1 == spr[st as int]);
                    } else {
                        assert(dst_buffer@[i] == buf_pre[i]);
                    }
                }
            }
        }
        if stepped.0 >= table_size {
            proof {
                assert forall|srcg: Seq<u8>, st0: nat|
                    srcg.len() == len0 && #[trigger] tans_payload_of(
                        srcg,
                        hist,
                        spr,
                        tl,
                        st0,
                        state as int,
                        stream0,
                    ) implies false by {
                    assert(stepped.0 < pow2(tl));
                }
            }
            return Err(CodecError::InvalidState);
        }
        st = stepped.0;
    }
    proof {
        assert forall|srcg: Seq<u8>, st0: nat|
            srcg.len() == len0 && #[trigger] tans_payload_of(
                srcg,
                hist,
                spr,
                tl,
                st0,
                state as int,
                stream0,
            ) implies dst_buffer@ == srcg by {
            assert(dst_buffer@ =~= srcg);
        }
    }
    Ok(())
}

/// How the packed constant drives the shed: for any window state, the
/// derived shed width drops the state into `[freq, 2 freq)`.
proof fn lemma_tans_shed_window(x: nat, freq: nat, table_log: nat)
    requires
        1 <= table_log <= 15,
        1 <= freq <= pow2(table_log),
        pow2(table_log) <= x < 2 * pow2(table_log),
    ensures
        ({
            let nb = ((x + tans_delta(freq, table_log)) as nat) / pow2(16);
            &&& tans_delta(freq, table_log) >= 0
            &&& nb <= table_log
            &&& freq <= x / pow2(nb)
            &&& x / pow2(nb) < 2 * freq
        }),
{
    lemma2_to64();
    lemma_pow2_pos(table_log);
    lemma_pow2_monotone(table_log, 15);
    let mb = tans_max_bits(freq, table_log);
    if freq == 1 {
        assert(mb == table_log);
        lemma_pow2_pos(mb);
        assert(tans_delta(freq, table_log) == mb * pow2(16) - pow2(table_log));
        lemma_mul_inequality(1, mb as int, pow2(16) as int);
        assert(x + tans_delta(freq, table_log) == mb * pow2(16) + (x - pow2(table_log)));
        assert(0 <= x - pow2(table_log) < pow2(table_log));
        vstd::arithmetic::div_mod::lemma_fundamental_div_mod_converse_div(
            (mb * pow2(16) + (x - pow2(table_log))) as int,
            pow2(16) as int,
            mb as int,
            x - pow2(table_log),
        );
        let nb = ((x + tans_delta(freq, table_log)) as nat) / pow2(16);
        assert(nb == mb);
        vstd::arithmetic::div_mod::lemma_fundamental_div_mod_converse_div(
            x as int,
            pow2(table_log) as int,
            1,
            x - pow2(table_log),
        );
        assert(x / pow2(table_log) == 1);
    } else {
        let hb = (bit_len((freq - 1) as nat) - 1) as nat;
        lemma_bit_len_lower((freq - 1) as nat);
        lemma_bit_len_bound((freq - 1) as nat, table_log);
        assert(mb == (table_log - hb) as nat);
        assert(mb >= 1);
        lemma_pow2_pos(mb);
        lemma_pow2_monotone(mb, 15);
        lemma_pow2_pos(hb);
        lemma_pow2_adds(hb, mb);
        assert(pow2(hb) * pow2(mb) == pow2(table_log));
        vstd::arithmetic::power2::lemma_pow2_unfold(bit_len((freq - 1) as nat));
        assert(pow2(hb) <= freq - 1);
        assert(freq <= 2 * pow2(hb));
        // freq * 2^mb lands between 2^table_log and 2^(table_log + 1)
        lemma_mul_inequality(pow2(hb) as int + 1, freq as int, pow2(mb) as int);
        lemma_mul_inequality(freq as int, 2 * pow2(hb) as int, pow2(mb) as int);
        lemma_double_mul(pow2(hb) as int, pow2(mb) as int);
        assert((pow2(hb) as int + 1) * pow2(mb) as int == pow2(hb) as int * pow2(mb) as int
            + pow2(mb) as int) by (nonlinear_arith);
        assert(pow2(table_log) < freq * pow2(mb));
        assert(freq * pow2(mb) <= 2 * pow2(table_log));
        assert(tans_delta(freq, table_log) == mb * pow2(16) - freq * pow2(mb));
        lemma_mul_inequality(1, mb as int, pow2(16) as int);
        assert(freq * pow2(mb) <= pow2(16));
        assert(tans_delta(freq, table_log) >= 0);
        let nb = ((x + tans_delta(freq, table_log)) as nat) / pow2(16);
        if x >= freq * pow2(mb) {
            assert(x + tans_delta(freq, table_log) == mb * pow2(16) + (x - freq * pow2(mb)));
            assert(0 <= x - freq * pow2(mb) < pow2(16)) by {
                assert(x < 2 * pow2(table_log));
                assert(freq * pow2(mb) > pow2(table_log));
            }
            vstd::arithmetic::div_mod::lemma_fundamental_div_mod_converse_div(
                (mb * pow2(16) + (x - freq * pow2(mb))) as int,
                pow2(16) as int,
                mb as int,
                x - freq * pow2(mb),
            );
            assert(nb == mb);
            vstd::arithmetic::div_mod::lemma_fundamental_div_mod(x as int, pow2(mb) as int);
            assert(freq <= x / pow2(mb)) by {
                vstd::arithmetic::div_mod::lemma_div_is_ordered(
                    (freq * pow2(mb)) as int,
                    x as int,
                    pow2(mb) as int,
                );
                vstd::arithmetic::div_mod::lemma_div_by_multiple(freq as int, pow2(mb) as int);
            }
            assert(x / pow2(mb) < 2 * freq) by {
                if x / pow2(mb) >= 2 * freq {
                    lemma_mul_inequality(2 * freq as int, x as int / pow2(mb) as int, pow2(
                        mb,
                    ) as int);
                    assert((2 * freq as int) * pow2(mb) as int == 2 * (freq as int * pow2(
                        mb,
                    ) as int)) by (nonlinear_arith);
                    assert((x as int / pow2(mb) as int) * pow2(mb) as int <= x as int);
                    assert(x >= 2 * (freq * pow2(mb)));
                    assert(false);
                }
            }
        } else {
            let d = freq * pow2(mb) - x;
            assert(0 < d <= pow2(table_log));
            assert(x + tans_delta(freq, table_log) == mb * pow2(16) - d);
            assert((mb * pow2(16) - d) as int == (mb - 1) * pow2(16) + (pow2(16) - d)) by (
            nonlinear_arith);
            assert(0 <= pow2(16) - d < pow2(16)) by {
                lemma_pow2_monotone(table_log, 15);
                assert(d <= pow2(15));
                assert(pow2(15) < pow2(16));
            }
            vstd::arithmetic::div_mod::lemma_fundamental_div_mod_converse_div(
                ((mb - 1) * pow2(16) + (pow2(16) - d)) as int,
                pow2(16) as int,
                mb as int - 1,
                pow2(16) - d,
            );
            assert(nb == mb - 1);
            lemma_pow2_adds(hb, 1);
            vstd::arithmetic::power2::lemma_pow2_unfold(mb);
            assert(pow2(mb) == 2 * pow2((mb - 1) as nat));
            assert(freq <= x / pow2((mb - 1) as nat)) by {
                lemma_pow2_adds((hb + 1) as nat, (mb - 1) as nat);
                assert(pow2(hb + 1) * pow2((mb - 1) as nat) == pow2(table_log));
                assert(freq * pow2((mb - 1) as nat) <= pow2(hb + 1) as int * pow2(
                    (mb - 1) as nat,
                ) as int) by {
                    lemma_mul_inequality(
                        freq as int,
                        pow2((hb + 1) as nat) as int,
                        pow2((mb - 1) as nat) as int,
                    );
                    assert(pow2((hb + 1) as nat) == 2 * pow2(hb));
                }
                assert(freq * pow2((mb - 1) as nat) <= x);
                vstd::arithmetic::div_mod::lemma_div_is_ordered(
                    (freq * pow2((mb - 1) as nat)) as int,
                    x as int,
                    pow2((mb - 1) as nat) as int,
                );
                vstd::arithmetic::div_mod::lemma_div_by_multiple(
                    freq as int,
                    pow2((mb - 1) as nat) as int,
                );
            }
            assert(x / pow2((mb - 1) as nat) < 2 * freq) by {
                assert(x < freq * pow2(mb));
                assert(freq * pow2(mb) == (2 * freq) * pow2((mb - 1) as nat)) by (
                nonlinear_arith)
                    requires
                        pow2(mb) == 2 * pow2((mb - 1) as nat),
                ;
                if x / pow2((mb - 1) as nat) >= 2 * freq {
                    lemma_mul_inequality(
                        2 * freq as int,
                        x as int / pow2((mb - 1) as nat) as int,
                        pow2((mb - 1) as nat) as int,
                    );
                    vstd::arithmetic::div_mod::lemma_fundamental_div_mod(
                        x as int,
                        pow2((mb - 1) as nat) as int,
                    );
                    assert(false);
                }
            }
        }
    }
}

/// The position of the occurrence of rank `j` of symbol `s` in the spread.
pub open spec fn nth_occurrence(spread: Seq<u8>, s: u8, j: int) -> int
    decreases spread.len(),
{
    if spread.len() == 0 {
        0
    } else if j < count_in(spread.drop_last(), s) {
        nth_occurrence(spread.drop_last(), s, j)
    } else {
        spread.len() - 1
    }
}

/// Each of the `count_in(spread, s)` copies of a symbol has a position in
/// the spread holding exactly its occurrence rank.
proof fn lemma_nth_occurrence(spread: Seq<u8>, s: u8, j: int)
    requires
        0 <= j < count_in(spread, s),
    ensures
        ({
            let p = nth_occurrence(spread, s, j);
            &&& 0 <= p < spread.len()
            &&& spread[p] == s
            &&& count_in(spread.take(p), s) == j
        }),
    decreases spread.len(),
{
    if j < count_in(spread.drop_last(), s) {
        lemma_nth_occurrence(spread.drop_last(), s, j);
        let p = nth_occurrence(spread.drop_last(), s, j);
        assert(spread.drop_last().take(p) =~= spread.take(p));
        assert(spread[p] == s);
        assert(count_in(spread.take(p), s) == j);
    } else {
        assert(spread.last() == s);
        let p = spread.len() - 1;
        assert(spread.take(p) =~= spread.drop_last());
        assert(count_in(spread.take(p), s) == j);
    }
}

/// The core of one tANS transition: from a window state, the shed width,
/// the occurrence rank and its spread position, the slot they select, and
/// the decode-row arithmetic that undoes the step.
proof fn lemma_tans_step_core(
    hist: Seq<usize>,
    spread: Seq<u8>,
    table_log: nat,
    x: nat,
    s: int,
)
    requires
        1 <= table_log <= 15,
        hist.len() == 256,
        sum_seq(hist) == pow2(table_log),
        spread.len() == pow2(table_log),
        forall|b: int| 0 <= b < 256 ==> #[trigger] count_in(spread, b as u8) == hist[b],
        0 <= s < 256,
        hist[s] >= 1,
        pow2(table_log) <= x < 2 * pow2(table_log),
    ensures
        ({
            let freq = hist[s] as nat;
            let nb = ((x + tans_delta(freq, table_log)) as nat) / pow2(16);
            let j = x as int / pow2(nb) as int - hist[s];
            let p = nth_occurrence(spread, s as u8, j);
            let xv = hist[spread[p] as int] + count_in(spread.take(p), spread[p]);
            &&& 0 <= tans_delta(freq, table_log) <= 15 * pow2(16)
            &&& nb <= table_log
            &&& 0 <= j < hist[s]
            &&& 0 <= p < pow2(table_log)
            &&& spread[p] == s as u8
            &&& count_in(spread.take(p), spread[p]) == j
            &&& enc_slot(hist, spread, p) == cumul_of(hist, s) - hist[s] + x as int / pow2(
                nb,
            ) as int
            &&& 0 <= enc_slot(hist, spread, p) < pow2(table_log)
            &&& xv == x as int / pow2(nb) as int
            &&& table_log - (bit_len(xv as nat) - 1) == nb
            &&& xv * pow2((table_log - (bit_len(xv as nat) - 1)) as nat) - pow2(table_log) + x
                as nat % pow2(nb) == x - pow2(table_log)
        }),
{
    lemma2_to64();
    lemma_pow2_pos(table_log);
    let freq = hist[s] as nat;
    crate::lemma_sum_seq_entry_le(hist, s);
    lemma_tans_shed_window(x, freq, table_log);
    let nb = ((x + tans_delta(freq, table_log)) as nat) / pow2(16);
    lemma_pow2_pos(nb);
    let xh = x / pow2(nb);
    let j = xh - freq;
    assert(0 <= j < freq);
    assert((s as u8) as int == s);
    assert(count_in(spread, (s as u8)) == hist[s]);
    assert(tans_max_bits(freq, table_log) <= table_log) by {
        if freq >= 2 {
            lemma_bit_len_lower((freq - 1) as nat);
            lemma_bit_len_bound((freq - 1) as nat, table_log);
        }
    }
    lemma_mul_inequality(tans_max_bits(freq, table_log) as int, 15, pow2(16) as int);
    lemma_nth_occurrence(spread, s as u8, j);
    let p = nth_occurrence(spread, s as u8, j);
    lemma_sum_seq_take_step(hist, s);
    lemma_sum_seq_take_le(hist, s + 1);
    crate::lemma_sum_seq_nonneg(hist.take(s));
    assert(enc_slot(hist, spread, p) == cumul_of(hist, s) - hist[s] + xh);
    assert(0 <= enc_slot(hist, spread, p) < pow2(table_log)) by {
        lemma_enc_slot_ok(hist, spread, table_log, p);
    }
    let xv = hist[s] + count_in(spread.take(p), spread[p]);
    assert(xv == xh);
    assert(pow2((table_log - nb) as nat) <= xh) by {
        lemma_pow2_adds((table_log - nb) as nat, nb);
        vstd::arithmetic::div_mod::lemma_div_is_ordered(
            pow2(table_log) as int,
            x as int,
            pow2(nb) as int,
        );
        vstd::arithmetic::div_mod::lemma_div_by_multiple(
            pow2((table_log - nb) as nat) as int,
            pow2(nb) as int,
        );
    }
    assert(xh < pow2((table_log - nb + 1) as nat)) by {
        lemma_pow2_adds((table_log - nb + 1) as nat, nb);
        vstd::arithmetic::power2::lemma_pow2_unfold((table_log + 1) as nat);
        lemma_pow2_adds(table_log, 1);
        assert(x < pow2((table_log + 1) as nat));
        if xh >= pow2((table_log - nb + 1) as nat) {
            lemma_mul_inequality(
                pow2((table_log - nb + 1) as nat) as int,
                xh as int,
                pow2(nb) as int,
            );
            vstd::arithmetic::div_mod::lemma_fundamental_div_mod(x as int, pow2(nb) as int);
            assert(false);
        }
    }
    assert(bit_len(xh) == table_log - nb + 1) by {
        lemma_bit_len_bound(xh, (table_log - nb + 1) as nat);
        lemma_bit_len_lower(xh);
        if bit_len(xh) <= table_log - nb {
            lemma_pow2_monotone(bit_len(xh), (table_log - nb) as nat);
            assert(xh < pow2((table_log - nb) as nat)) by {
                lemma_bit_len_bound(xh, bit_len(xh));
            }
            assert(false);
        }
    }
    vstd::arithmetic::div_mod::lemma_fundamental_div_mod(x as int, pow2(nb) as int);
    assert(xh * pow2(nb) + x % pow2(nb) == x) by {
        assert(pow2(nb) as int * (x as int / pow2(nb) as int) == xh as int * pow2(nb) as int)
            by (nonlinear_arith)
            requires
                xh == x / pow2(nb),
        ;
    }
}

/// Round trip of one tANS transition through the two tables the builders
/// characterize: encoding a symbol from any window state lands on a table
/// state whose decode row names that symbol, sheds exactly the bits the
/// encoder wrote, and steps back to the state the encoder came from.
pub proof fn lemma_tans_step_roundtrip(
    hist: Seq<usize>,
    spread: Seq<u8>,
    table_log: nat,
    table: Seq<usize>,
    nb_bits: Seq<usize>,
    new_states: Seq<usize>,
    x: nat,
    s: int,
)
    requires
        1 <= table_log <= 15,
        hist.len() == 256,
        sum_seq(hist) == pow2(table_log),
        spread.len() == pow2(table_log),
        forall|b: int| 0 <= b < 256 ==> #[trigger] count_in(spread, b as u8) == hist[b],
        forall|p: int|
            0 <= p < pow2(table_log) ==> #[trigger] table[enc_slot(hist, spread, p)] == pow2(
                table_log,
            ) + p,
        forall|t: int|
            0 <= t < pow2(table_log) ==> ({
                let xv = hist[spread[t] as int] + count_in(spread.take(t), spread[t]);
                &&& #[trigger] nb_bits[t] == table_log - (bit_len(xv as nat) - 1)
                &&& new_states[t] == xv * pow2((table_log - (bit_len(xv as nat) - 1)) as nat)
                    - pow2(table_log)
            }),
        0 <= s < 256,
        hist[s] >= 1,
        pow2(table_log) <= x < 2 * pow2(table_log),
    ensures
        ({
            let nb = ((x + tans_delta(hist[s] as nat, table_log)) as nat) / pow2(16);
            let slot = cumul_of(hist, s) - hist[s] + x / pow2(nb);
            &&& 0 <= tans_delta(hist[s] as nat, table_log) <= 15 * pow2(16)
            &&& nb <= table_log
            &&& 0 <= slot < pow2(table_log)
            &&& pow2(table_log) <= table[slot] < 2 * pow2(table_log)
            &&& table[slot] == pow2(table_log) + nth_occurrence(
                spread,
                s as u8,
                x / pow2(nb) - hist[s],
            )
            &&& spread[table[slot] - pow2(table_log)] == s
            &&& nb_bits[table[slot] - pow2(table_log)] == nb
            &&& new_states[table[slot] - pow2(table_log)] + x % pow2(nb) == x - pow2(table_log)
        }),
{
    lemma_tans_step_core(hist, spread, table_log, x, s);
    let nb = ((x + tans_delta(hist[s] as nat, table_log)) as nat) / pow2(16);
    let p = nth_occurrence(spread, s as u8, x as int / pow2(nb) as int - hist[s]);
    assert(table[enc_slot(hist, spread, p)] == pow2(table_log) + p);
    let xv = hist[spread[p] as int] + count_in(spread.take(p), spread[p]);
    assert(nb_bits[p] == table_log - (bit_len(xv as nat) - 1));
    assert(new_states[p] == xv * pow2((table_log - (bit_len(xv as nat) - 1)) as nat) - pow2(
        table_log,
    ));
    assert(nb_bits[p] == nb);
    assert(new_states[p] + x % pow2(nb) == x - pow2(table_log));
}

} // verus!
