//! Range variant of the asymmetric numeral system: the state transition is
//! computed arithmetically from the normalized frequencies and their
//! cumulative function, with sixteen-bit renormalization chunks shed into
//! the bit stream and their widths logged in a trail.

use vstd::prelude::*;

use tiny_bitstream::{BitDstream, BitEstream};

use vstd::arithmetic::div_mod::{
    lemma_div_is_ordered, lemma_fundamental_div_mod, lemma_fundamental_div_mod_converse_div,
    lemma_fundamental_div_mod_converse_mod,
};
use vstd::arithmetic::mul::lemma_mul_inequality;
use vstd::arithmetic::power2::{lemma2_to64, lemma_pow2_adds, lemma_pow2_pos};

use crate::bitstream::{
    bit_len, bit_width, bits_of, dst_open, dst_read, est_bits, est_finalize, est_new, est_write,
    stream_bytes,
};
use crate::normalization::build_cumulative_function;
use crate::{lemma_pow2_monotone, lemma_sum_seq_entry_le, lemma_sum_seq_take_le,
    lemma_sum_seq_take_step};
use crate::{pow2, pow2_u64, pow2_usize, sum_seq};

verus! {

/// Why a decoder refused a stream.
#[derive(Debug, PartialEq, Eq, Structural)]
pub enum CodecError {
    /// The carried state lies outside the interval the encoder can produce.
    InvalidState,
    /// The bit stream or the width trail ran out before the output was
    /// complete.
    TruncatedStream,
}

/// Bounding a product by bounding both factors.
proof fn lemma_mul_le(a: int, amax: int, b: int, bmax: int)
    requires
        0 <= a <= amax,
        0 <= b <= bmax,
    ensures
        a * b <= amax * bmax,
{
    lemma_mul_inequality(a, amax, b);
    lemma_mul_inequality(b, bmax, amax);
}

/// The rANS forward transition on the bare state.
pub open spec fn spec_compress(state: nat, table_log: nat, frequency: nat, cumul: nat) -> int {
    (state / frequency) * pow2(table_log) + state % frequency + cumul as int
}

/// The rANS backward transition on the bare state.
pub open spec fn spec_decompress(state: nat, frequency: nat, table_log: nat, cumul: nat) -> int {
    frequency * (state / pow2(table_log)) + state % pow2(table_log) - cumul
}

/// Push one symbol of frequency `frequency` and cumulative start `cumul`
/// onto the state: the interval map of the range coder.
pub fn compress_state(state: usize, table_log: usize, frequency: usize, cumul: usize) -> (r: usize)
    requires
        1 <= table_log <= 15,
        1 <= frequency,
        spec_compress(state as nat, table_log as nat, frequency as nat, cumul as nat)
            <= usize::MAX,
    ensures
        r == spec_compress(state as nat, table_log as nat, frequency as nat, cumul as nat),
{
    proof {
        lemma2_to64();
        lemma_pow2_monotone(table_log as nat, 15);
    }
    let table_size = pow2_usize(table_log);
    proof {
        lemma_fundamental_div_mod(state as int, frequency as int);
        assert((state / frequency) * table_size + state % frequency + cumul <= usize::MAX);
    }
    ((state / frequency) * table_size) + (state % frequency) + cumul
}

/// Pop one symbol off the state: the exact inverse of `compress_state`.
pub fn decompress_state(state: usize, frequency: usize, table_log: usize, cumul: usize) -> (r:
    usize)
    requires
        1 <= table_log <= 15,
        frequency * (state as nat / pow2(table_log as nat)) + state as nat % pow2(
            table_log as nat,
        ) <= usize::MAX,
        cumul <= frequency * (state as nat / pow2(table_log as nat)) + state as nat % pow2(
            table_log as nat,
        ),
    ensures
        r == spec_decompress(state as nat, frequency as nat, table_log as nat, cumul as nat),
{
    proof {
        lemma2_to64();
        lemma_pow2_monotone(table_log as nat, 15);
        lemma_pow2_pos(table_log as nat);
    }
    let table_size = pow2_usize(table_log);
    let mask = table_size - 1;
    proof {
        vstd::arithmetic::div_mod::lemma_fundamental_div_mod(state as int, table_size as int);
        assert(state % table_size == state as nat % pow2(table_log as nat));
    }
    (frequency * (state / table_size)) + (state % table_size) - cumul
}

/// Popping a just-pushed symbol returns the state it was pushed on: the
/// two bare state transitions are exact inverses whenever the symbol's
/// interval `[cumul, cumul + frequency)` fits under the table size.
pub proof fn lemma_state_roundtrip(state: nat, table_log: nat, frequency: nat, cumul: nat)
    requires
        1 <= frequency,
        frequency + cumul <= pow2(table_log),
    ensures
        spec_compress(state, table_log, frequency, cumul) >= 0,
        spec_decompress(
            spec_compress(state, table_log, frequency, cumul) as nat,
            frequency,
            table_log,
            cumul,
        ) == state,
        cumul <= spec_compress(state, table_log, frequency, cumul) as nat % pow2(table_log)
            < cumul + frequency,
{
    lemma_pow2_pos(table_log);
    let ts = pow2(table_log) as int;
    let q = state as int / frequency as int;
    let rm = state as int % frequency as int;
    lemma_fundamental_div_mod(state as int, frequency as int);
    let x = q * ts + rm + cumul;
    assert(x == spec_compress(state, table_log, frequency, cumul));
    assert(0 <= rm + cumul < ts);
    assert(q >= 0) by {
        vstd::arithmetic::div_mod::lemma_div_pos_is_pos(state as int, frequency as int);
    }
    assert(x >= 0) by (nonlinear_arith)
        requires
            q >= 0,
            ts > 0,
            rm + cumul >= 0,
            x == q * ts + rm + cumul,
    ;
    lemma_fundamental_div_mod_converse_div(x, ts, q, rm + cumul);
    lemma_fundamental_div_mod_converse_mod(x, ts, q, rm + cumul);
    assert(x / ts == q);
    assert(x % ts == rm + cumul);
    assert(spec_decompress(x as nat, frequency, table_log, cumul) == frequency * q + rm);
}

/// Find the symbol owning `state` in the cumulative function: the unique
/// index whose interval `[cs[i], cs[i+1])` contains it.
pub fn find_s(state: usize, cs: &[usize]) -> (r: usize)
    requires
        cs@.len() >= 2,
        cs@[0] <= state,
        (state as int) < cs@[cs@.len() - 1],
    ensures
        r + 1 < cs@.len(),
        cs@[r as int] <= state,
        (state as int) < cs@[r as int + 1],
{
    let n = cs.len();
    let mut i: usize = 0;
    while i < n
        invariant
            n == cs@.len(),
            n >= 2,
            0 <= i <= n,
            cs@[0] <= state,
            forall|j: int| 0 <= j < i ==> cs@[j] <= state,
            (state as int) < cs@[cs@.len() - 1],
        decreases n - i,
    {
        if cs[i] > state {
            proof {
                assert(i > 0);
            }
            return i - 1;
        }
        i = i + 1;
    }
    proof {
        assert(cs@[cs@.len() - 1] <= state);
        assert(false);
    }
    0
}

/// The cumulative start of symbol `s` in a frequency table.
pub open spec fn cumul_of(hist: Seq<usize>, s: int) -> int {
    sum_seq(hist.take(s))
}

/// One rANS encoding step at the ghost level: shed the low sixteen bits of
/// the state when it would overflow the symbol's renormalization bound,
/// then push the symbol.
pub ghost struct RansTrace {
    pub state: nat,
    pub trail: Seq<u8>,
    pub bits: Seq<bool>,
}

pub open spec fn rans_step(pre: RansTrace, freq: nat, cumul: nat, table_log: nat) -> RansTrace {
    let renorm = pre.state >= freq * pow2((32 - table_log) as nat);
    let chunk = pre.state % pow2(16);
    let w = bit_len(chunk);
    let s1 = if renorm {
        pre.state / pow2(16)
    } else {
        pre.state
    };
    RansTrace {
        state: spec_compress(s1, table_log, freq, cumul) as nat,
        trail: if renorm {
            pre.trail.push(w as u8)
        } else {
            pre.trail
        },
        bits: if renorm {
            pre.bits + bits_of(chunk, w)
        } else {
            pre.bits
        },
    }
}

/// The whole encoding pass over a source, symbol by symbol, starting from
/// state zero with empty trail and bit stream.
pub open spec fn rans_encode_trace(src: Seq<u8>, hist: Seq<usize>, table_log: nat) -> RansTrace
    decreases src.len(),
{
    if src.len() == 0 {
        RansTrace { state: 0, trail: Seq::empty(), bits: Seq::empty() }
    } else {
        let pre = rans_encode_trace(src.drop_last(), hist, table_log);
        rans_step(
            pre,
            hist[src.last() as int] as nat,
            cumul_of(hist, src.last() as int) as nat,
            table_log,
        )
    }
}

/// A state below the symbol's renormalization bound stays below `2^32`
/// after the push, and any state at least `2^16` keeps the next state at
/// least `2^16`: the invariants that keep the stream self-delimiting.
proof fn lemma_rans_step_bounds(s1: nat, freq: nat, cumul: nat, table_log: nat)
    requires
        1 <= table_log <= 15,
        1 <= freq,
        freq + cumul <= pow2(table_log),
        s1 < freq * pow2((32 - table_log) as nat),
    ensures
        0 <= spec_compress(s1, table_log, freq, cumul) < pow2(32),
        s1 >= pow2(16) ==> spec_compress(s1, table_log, freq, cumul) >= pow2(16),
{
    lemma_pow2_pos(table_log);
    lemma_pow2_pos((32 - table_log) as nat);
    lemma_pow2_pos(16);
    lemma_fundamental_div_mod(s1 as int, freq as int);
    let q = s1 as int / freq as int;
    let ts = pow2(table_log) as int;
    let d = pow2((32 - table_log) as nat) as int;
    assert(q < d) by (nonlinear_arith)
        requires
            s1 as int == freq * q + s1 as int % freq as int,
            0 <= s1 as int % freq as int,
            s1 < freq * d,
            freq >= 1,
            d > 0,
            q >= 0 || true,
    ;
    assert(q >= 0) by {
        vstd::arithmetic::div_mod::lemma_div_pos_is_pos(s1 as int, freq as int);
    }
    lemma_mul_inequality(q, d - 1, ts);
    lemma_pow2_adds((32 - table_log) as nat, table_log);
    assert((d - 1) * ts == d * ts - ts) by (nonlinear_arith);
    assert(d * ts == pow2(32));
    assert(spec_compress(s1, table_log, freq, cumul) == q * ts + s1 as int % freq as int + cumul);
    assert(s1 as int % freq as int + cumul < ts);
    if s1 >= pow2(16) {
        lemma2_to64();
        assert(pow2(16) <= ts * d);
        assert(q >= s1 as int / freq as int);
        // s1 >= 2^16 and freq <= ts imply q >= 2^16 / ts, so q * ts >= 2^16
        assert(freq <= ts);
        assert(q * ts + s1 as int % freq as int >= s1) by (nonlinear_arith)
            requires
                s1 as int == freq * q + s1 as int % freq as int,
                freq <= ts,
                q >= 0,
        ;
    }
}

/// Encode a byte source with rANS against a normalized frequency table.
/// Returns the final state, the trail of shed-chunk widths in encode order,
/// and the finalized bit stream, exactly as the ghost trace describes them.
pub fn encode_rans(normalized_histogram: &[usize], table_log: usize, src: &[u8]) -> (r: (
    usize,
    Vec<u8>,
    Vec<u8>,
))
    requires
        1 <= table_log <= 15,
        normalized_histogram@.len() == 256,
        sum_seq(normalized_histogram@) == pow2(table_log as nat),
        forall|k: int|
            0 <= k < src@.len() ==> normalized_histogram@[#[trigger] src@[k] as int] >= 1,
    ensures
        ({
            let t = rans_encode_trace(src@, normalized_histogram@, table_log as nat);
            &&& r.0 == t.state
            &&& r.1@ == t.trail
            &&& r.2@ == stream_bytes(t.bits)
        }),
        rans_payload_of(
            src@,
            normalized_histogram@,
            table_log as nat,
            r.0 as int,
            r.1@,
            r.2@,
        ),
        crate::bitstream::spec_readable(r.2@) == rans_encode_trace(
            src@,
            normalized_histogram@,
            table_log as nat,
        ).bits.len() + 1,
        rans_encode_trace(src@, normalized_histogram@, table_log as nat).bits.len() <= 16
            * src@.len(),
{
    proof {
        lemma2_to64();
        lemma_pow2_monotone(table_log as nat, 15);
        lemma_pow2_monotone((32 - table_log) as nat, 31);
    }
    let cs = build_cumulative_function(normalized_histogram);
    let d_pow: u64 = pow2_u64(32 - (table_log as u64));
    let pow16 = pow2_usize(16);
    let mut state: usize = 0;
    let mut estream: BitEstream = est_new();
    let mut nb_bits_table: Vec<u8> = Vec::new();
    let n = src.len();
    let mut k: usize = 0;
    while k < n
        invariant
            n == src@.len(),
            0 <= k <= n,
            1 <= table_log <= 15,
            normalized_histogram@.len() == 256,
            sum_seq(normalized_histogram@) == pow2(table_log as nat),
            forall|kk: int|
                0 <= kk < src@.len() ==> normalized_histogram@[#[trigger] src@[kk] as int] >= 1,
            cs@.len() == 257,
            forall|i: int| 0 <= i <= 256 ==> #[trigger] cs@[i] == cumul_of(normalized_histogram@, i),
            d_pow == pow2((32 - table_log) as nat),
            pow16 == pow2(16),
            ({
                let t = rans_encode_trace(src@.take(k as int), normalized_histogram@,
                    table_log as nat);
                &&& state == t.state
                &&& nb_bits_table@ == t.trail
                &&& est_bits(estream) == t.bits
            }),
            state < pow2(32),
        decreases n - k,
    {
        let sym = src[k] as usize;
        let fs = normalized_histogram[sym];
        let cv = cs[sym];
        proof {
            lemma2_to64();
            lemma_pow2_pos(table_log as nat);
            lemma_pow2_pos((32 - table_log) as nat);
            lemma_pow2_pos(16);
            lemma_pow2_monotone(table_log as nat, 15);
            lemma_pow2_monotone(16, (32 - table_log) as nat);
            lemma_pow2_monotone((32 - table_log) as nat, 31);
            lemma_sum_seq_entry_le(normalized_histogram@, sym as int);
            lemma_sum_seq_take_step(normalized_histogram@, sym as int);
            lemma_sum_seq_take_le(normalized_histogram@, sym as int + 1);
            assert(cs@[sym as int + 1] == cumul_of(normalized_histogram@, sym as int + 1));
            assert(fs + cv <= pow2(table_log as nat));
            assert(src@.take(k as int + 1).drop_last() =~= src@.take(k as int));
            assert(src@.take(k as int + 1).last() == src@[k as int]);
            vstd::arithmetic::div_mod::lemma_mod_bound(state as int, pow2(16) as int);
            assert(fs <= 0x8000);
            assert(d_pow <= 0x80000000);
            lemma_mul_inequality(fs as int, 0x8000, d_pow as int);
            lemma_mul_inequality(d_pow as int, 0x80000000, 0x8000);
            assert(fs as int * d_pow as int <= 0x8000 * 0x80000000int);
        }
        let renorm = (state as u64) >= (fs as u64) * d_pow;
        if renorm {
            let chunk = state % pow16;
            proof {
                crate::bitstream::lemma_bit_len_bound(chunk as nat, 16);
                lemma_pow2_monotone(bit_len(chunk as nat), 16);
            }
            let nb = bit_width(chunk);
            est_write(&mut estream, chunk, nb);
            nb_bits_table.push(nb);
            state = state / pow16;
            proof {
                assert(state <= 0xffffffffusize / 0x10000);
                assert(state < pow2(16));
                assert(state < fs * pow2((32 - table_log) as nat)) by (nonlinear_arith)
                    requires
                        state < pow2(16),
                        fs >= 1,
                        pow2((32 - table_log) as nat) >= pow2(16),
                ;
            }
        }
        proof {
            lemma_rans_step_bounds(state as nat, fs as nat, cv as nat, table_log as nat);
        }
        state = compress_state(state, table_log, fs, cv);
        k = k + 1;
    }
    proof {
        assert(src@.take(n as int) =~= src@);
        lemma_rans_trace_wf(src@, normalized_histogram@, table_log as nat);
    }
    (state, nb_bits_table, est_finalize(estream))
}

/// The carried artifacts are exactly what encoding `src` against `hist`
/// produces: its final state, its trail, and its finalized bit stream.
pub open spec fn rans_payload_of(
    src: Seq<u8>,
    hist: Seq<usize>,
    table_log: nat,
    state: int,
    trail: Seq<u8>,
    stream: Seq<u8>,
) -> bool {
    &&& rans_src_ok(src, hist)
    &&& state == rans_encode_trace(src, hist, table_log).state
    &&& trail == rans_encode_trace(src, hist, table_log).trail
    &&& stream == stream_bytes(rans_encode_trace(src, hist, table_log).bits)
}

proof fn lemma_twidths_nonneg(trail: Seq<u8>)
    ensures
        twidths(trail) >= 0,
    decreases trail.len(),
{
    if trail.len() > 0 {
        lemma_twidths_nonneg(trail.drop_last());
    }
}

/// Decode `len` bytes from a rANS stream: walk the state backwards through
/// the cumulative function, reloading sixteen-bit chunks from the bit
/// stream as the trail prescribes. A payload that came out of the encoder
/// for some source of length `len` decodes to exactly that source; any
/// stream whose state, trail or bits do not add up is rejected instead of
/// read out of bounds.
#[verifier::rlimit(100)]
#[verifier::spinoff_prover]
pub fn decode_rans(
    state: usize,
    bits: Vec<u8>,
    stream: Vec<u8>,
    normalized_counter: &[usize],
    table_log: usize,
    len: usize,
) -> (r: Result<Vec<u8>, CodecError>)
    requires
        1 <= table_log <= 15,
        normalized_counter@.len() == 256,
        sum_seq(normalized_counter@) == pow2(table_log as nat),
        8 * stream@.len() + 64 <= usize::MAX,
    ensures
        r matches Ok(v) ==> v@.len() == len,
        forall|srcg: Seq<u8>|
            srcg.len() == len && #[trigger] rans_payload_of(
                srcg,
                normalized_counter@,
                table_log as nat,
                state as int,
                bits@,
                stream@,
            ) ==> (r matches Ok(v) && v@ == srcg),
{
    let ghost hist = normalized_counter@;
    let ghost tl = table_log as nat;
    let ghost stream0 = stream@;
    let ghost trail0 = bits@;
    proof {
        lemma2_to64();
        lemma_pow2_monotone(table_log as nat, 15);
        lemma_pow2_pos(table_log as nat);
    }
    let pow16 = pow2_usize(16);
    let table_size = pow2_usize(table_log);
    let pow32: u64 = pow2_u64(32);
    if (state as u64) >= pow32 {
        proof {
            assert forall|srcg: Seq<u8>|
                srcg.len() == len && #[trigger] rans_payload_of(
                    srcg,
                    hist,
                    tl,
                    state as int,
                    trail0,
                    stream0,
                ) implies false by {
                lemma_rans_trace_wf(srcg, hist, tl);
            }
        }
        return Err(CodecError::InvalidState);
    }
    let cs = build_cumulative_function(normalized_counter);
    let mut avail = crate::bitstream::readable_bits(stream.as_slice());
    let opened = dst_open(stream);
    if opened.is_none() {
        proof {
            assert forall|srcg: Seq<u8>|
                srcg.len() == len && #[trigger] rans_payload_of(
                    srcg,
                    hist,
                    tl,
                    state as int,
                    trail0,
                    stream0,
                ) implies false by {}
        }
        return Err(CodecError::TruncatedStream);
    }
    let mut dstream: BitDstream = match opened {
        Some(d) => d,
        None => {
            return Err(CodecError::TruncatedStream);
        },
    };
    proof {
        assert forall|srcg: Seq<u8>|
            srcg.len() == len && #[trigger] rans_payload_of(
                srcg,
                hist,
                tl,
                state as int,
                trail0,
                stream0,
            ) implies crate::bitstream::dst_bits(dstream) == rans_encode_trace(
            srcg,
            hist,
            tl,
        ).bits.push(true) && avail as int == rans_encode_trace(srcg, hist, tl).bits.len() + 1 by {
        }
    }
    if avail < 1 {
        proof {
            assert forall|srcg: Seq<u8>|
                srcg.len() == len && #[trigger] rans_payload_of(
                    srcg,
                    hist,
                    tl,
                    state as int,
                    trail0,
                    stream0,
                ) implies false by {
                crate::lemma_sum_seq_nonneg(Seq::<usize>::empty());
            }
        }
        return Err(CodecError::TruncatedStream);
    }
    let mark = dst_read(&mut dstream, 1);
    proof {
        assert(mark is Some);
        assert forall|srcg: Seq<u8>|
            srcg.len() == len && #[trigger] rans_payload_of(
                srcg,
                hist,
                tl,
                state as int,
                trail0,
                stream0,
            ) implies crate::bitstream::dst_bits(dstream) == rans_encode_trace(
            srcg,
            hist,
            tl,
        ).bits by {
            let tb = rans_encode_trace(srcg, hist, tl).bits;
            assert(tb.push(true).take(tb.len() as int) =~= tb);
        }
    }
    avail = avail - 1;
    let mut trail = bits;
    let mut ret: Vec<u8> = Vec::new();
    let mut st = state;
    let mut k: usize = 0;
    proof {
        assert forall|srcg: Seq<u8>|
            srcg.len() == len && #[trigger] rans_payload_of(
                srcg,
                hist,
                tl,
                state as int,
                trail0,
                stream0,
            ) implies ({
            let tm = rans_encode_trace(srcg.take(len - k), hist, tl);
            &&& st == tm.state
            &&& trail@ == tm.trail
            &&& crate::bitstream::dst_bits(dstream) == tm.bits
            &&& avail as int == tm.bits.len()
            &&& ret@ == srcg.skip(len - k).reverse()
        }) by {
            assert(srcg.take(len as int) =~= srcg);
            assert(ret@ =~= srcg.skip(len as int).reverse());
        }
        assert forall|srcg: Seq<u8>|
            srcg.len() == len && #[trigger] rans_payload_of(
                srcg,
                hist,
                tl,
                state as int,
                trail0,
                stream0,
            ) implies st < pow2(32) by {
            lemma_rans_trace_wf(srcg, hist, tl);
            assert(srcg.take(len as int) =~= srcg);
        }
    }
    while k < len
        invariant
            0 <= k <= len,
            ret@.len() == k,
            1 <= table_log <= 15,
            tl == table_log as nat,
            hist == normalized_counter@,
            trail0 == bits@,
            stream0 == stream@,
            normalized_counter@.len() == 256,
            sum_seq(normalized_counter@) == pow2(table_log as nat),
            cs@.len() == 257,
            forall|i: int|
                0 <= i <= 256 ==> #[trigger] cs@[i] == sum_seq(normalized_counter@.take(i)),
            table_size == pow2(table_log as nat),
            pow16 == pow2(16),
            pow32 == pow2(32),
            st < pow2(32),
            avail as int <= crate::bitstream::dst_bits(dstream).len(),
            forall|srcg: Seq<u8>|
                srcg.len() == len && #[trigger] rans_payload_of(
                    srcg,
                    hist,
                    tl,
                    state as int,
                    trail0,
                    stream0,
                ) ==> ({
                    let tm = rans_encode_trace(srcg.take(len - k), hist, tl);
                    &&& st == tm.state
                    &&& trail@ == tm.trail
                    &&& crate::bitstream::dst_bits(dstream) == tm.bits
                    &&& avail as int == tm.bits.len()
                    &&& ret@ == srcg.skip(len - k).reverse()
                }),
        decreases len - k,
    {
        proof {
            lemma2_to64();
            lemma_pow2_pos(table_log as nat);
            lemma_pow2_pos(16);
            lemma_pow2_monotone(table_log as nat, 15);
            vstd::arithmetic::div_mod::lemma_mod_bound(st as int, table_size as int);
        }
        let ghost trail_pre = trail@;
        let ghost dstream_pre = dstream;
        let ghost ret_pre = ret@;
        let r_low = st % table_size;
        proof {
            assert(cs@[0] == sum_seq(normalized_counter@.take(0)));
            assert(normalized_counter@.take(0) =~= Seq::<usize>::empty());
            assert(cs@[256] == sum_seq(normalized_counter@.take(256)));
            assert(normalized_counter@.take(256) =~= normalized_counter@);
        }
        let sym = find_s(r_low, &cs);
        ret.push(sym as u8);
        let fs = normalized_counter[sym];
        let cv = cs[sym];
        proof {
            lemma_sum_seq_entry_le(normalized_counter@, sym as int);
            lemma_sum_seq_take_step(normalized_counter@, sym as int);
            lemma_sum_seq_take_le(normalized_counter@, sym as int + 1);
            assert(fs <= 0x8000);
            lemma_div_is_ordered(st as int, pow2(32) as int, table_size as int);
            lemma_pow2_pos((32 - table_log) as nat);
            vstd::arithmetic::power2::lemma_pow2_subtracts(table_log as nat, 32);
            lemma_mul_inequality(
                st as int / table_size as int,
                pow2((32 - table_log) as nat) as int,
                fs as int,
            );
            lemma_pow2_monotone((32 - table_log) as nat, 31);
            lemma_mul_le(fs as int, 0x8000, (st as int) / (table_size as int), 0x80000000);
        }
        let hi: u64 = (fs as u64) * ((st / table_size) as u64);
        // what one ghost decode step does to any matching trace
        proof {
            assert forall|srcg: Seq<u8>|
                srcg.len() == len && #[trigger] rans_payload_of(
                    srcg,
                    hist,
                    tl,
                    state as int,
                    trail0,
                    stream0,
                ) implies ({
                let m = len - k;
                let tm = rans_encode_trace(srcg.take(m), hist, tl);
                let tp = rans_encode_trace(srcg.take(m - 1), hist, tl);
                &&& rans_src_ok(srcg.take(m), hist)
                &&& srcg.take(m).len() == m
                &&& rans_dec_step(tm, hist, tl) == (tp, srcg[m - 1])
                &&& sym as int == find_sym(hist, r_low as int, 256)
                &&& tp.state < pow2(32)
                &&& (forall|i: int| 0 <= i < tm.trail.len() ==> #[trigger] tm.trail[i] <= 16)
                &&& tm.bits.len() == twidths(tm.trail)
            }) by {
                let m = len - k;
                assert(rans_src_ok(srcg.take(m), hist)) by {
                    assert(forall|q: int| 0 <= q < m ==> srcg.take(m)[q] == srcg[q]);
                }
                assert(rans_src_ok(srcg.take(m - 1), hist)) by {
                    assert(forall|q: int| 0 <= q < m - 1 ==> srcg.take(m - 1)[q] == srcg[q]);
                }
                assert(srcg.take(m).drop_last() =~= srcg.take(m - 1));
                lemma_rans_dec_step_inverts(srcg.take(m), hist, tl);
                lemma_rans_trace_wf(srcg.take(m), hist, tl);
                lemma_rans_trace_wf(srcg.take(m - 1), hist, tl);
                lemma_find_sym_exact(hist, r_low as int, sym as int, 256);
            }
        }
        proof {
            assert(cv <= r_low);
        }
        let x1_64: u64 = hi + (r_low as u64) - (cv as u64);
        if x1_64 >= pow32 {
            proof {
                assert forall|srcg: Seq<u8>|
                    srcg.len() == len && #[trigger] rans_payload_of(
                        srcg,
                        hist,
                        tl,
                        state as int,
                        trail0,
                        stream0,
                    ) implies false by {
                    let m = len - k;
                    let tm = rans_encode_trace(srcg.take(m), hist, tl);
                    let tp = rans_encode_trace(srcg.take(m - 1), hist, tl);
                    let rr = tm.state % pow2(tl);
                    let ss = find_sym(hist, rr as int, 256);
                    let x1m = (hist[ss] as nat * (tm.state / pow2(tl)) + rr - cumul_of(
                        hist,
                        ss,
                    ) as nat) as nat;
                    assert(ss == sym as int);
                    assert(x1m == x1_64 as nat);
                    assert(rans_dec_step(tm, hist, tl) == (tp, srcg[m - 1]));
                    if x1m < pow2(16) && tm.trail.len() > 0 {
                        assert(false);
                    } else {
                        assert(rans_dec_step(tm, hist, tl).0.state == x1m);
                        assert(tp.state < pow2(32));
                    }
                }
            }
            return Err(CodecError::InvalidState);
        }
        st = x1_64 as usize;
        if st < pow16 && trail.len() > 0 {
            let popped = trail.pop();
            let nb = match popped {
                Some(nb) => nb,
                None => 0,
            };
            if nb == 0 {
                proof {
                    lemma_pow2_adds(16, 16);
                    lemma_mul_le(st as int, pow2(16) as int - 1, pow16 as int, pow2(16) as int);
                }
                st = st * pow16;
            } else {
                if nb > 16 {
                    proof {
                        assert forall|srcg: Seq<u8>|
                            srcg.len() == len && #[trigger] rans_payload_of(
                                srcg,
                                hist,
                                tl,
                                state as int,
                                trail0,
                                stream0,
                            ) implies false by {
                            let m = len - k;
                            let tm = rans_encode_trace(srcg.take(m), hist, tl);
                            assert(trail_pre == tm.trail);
                            assert(tm.trail[tm.trail.len() - 1] <= 16);
                        }
                    }
                    return Err(CodecError::InvalidState);
                }
                if (nb as usize) > avail {
                    proof {
                        assert forall|srcg: Seq<u8>|
                            srcg.len() == len && #[trigger] rans_payload_of(
                                srcg,
                                hist,
                                tl,
                                state as int,
                                trail0,
                                stream0,
                            ) implies false by {
                            let m = len - k;
                            let tm = rans_encode_trace(srcg.take(m), hist, tl);
                            lemma_twidths_nonneg(tm.trail.drop_last());
                        }
                    }
                    return Err(CodecError::TruncatedStream);
                }
                let got = dst_read(&mut dstream, nb);
                let v = match got {
                    Some(v) => v,
                    None => {
                        return Err(CodecError::TruncatedStream);
                    },
                };
                avail = avail - (nb as usize);
                proof {
                    lemma_pow2_monotone(nb as nat, 16);
                    lemma_pow2_adds(16, 16);
                    lemma_mul_le(st as int, pow2(16) as int - 1, pow16 as int, pow2(16) as int);
                    assert forall|srcg: Seq<u8>|
                        srcg.len() == len && #[trigger] rans_payload_of(
                            srcg,
                            hist,
                            tl,
                            state as int,
                            trail0,
                            stream0,
                        ) implies val_of(
                        crate::bitstream::dst_bits(dstream_pre).subrange(
                            crate::bitstream::dst_bits(dstream_pre).len() - nb as int,
                            crate::bitstream::dst_bits(dstream_pre).len() as int,
                        ),
                    ) == v as nat by {
                        lemma_val_of_bits_of(v as nat, nb as nat);
                    }
                }
                st = st * pow16 + v;
            }
        }
        k = k + 1;
        proof {
            assert forall|srcg: Seq<u8>|
                srcg.len() == len && #[trigger] rans_payload_of(
                    srcg,
                    hist,
                    tl,
                    state as int,
                    trail0,
                    stream0,
                ) implies ({
                let tm = rans_encode_trace(srcg.take(len - k), hist, tl);
                &&& st == tm.state
                &&& trail@ == tm.trail
                &&& crate::bitstream::dst_bits(dstream) == tm.bits
                &&& avail as int == tm.bits.len()
                &&& ret@ == srcg.skip(len - k).reverse()
            }) by {
                let m = len - (k - 1);
                let told = rans_encode_trace(srcg.take(m), hist, tl);
                let tm = rans_encode_trace(srcg.take(len - k), hist, tl);
                assert(rans_dec_step(told, hist, tl) == (tm, srcg[m - 1]));
                assert(ret@ == ret_pre.push(srcg[m - 1]));
                assert(srcg.skip(len - k).reverse() =~= srcg.skip(m).reverse().push(
                    srcg[m - 1],
                ));
            }
        }
    }
    let mut out: Vec<u8> = Vec::new();
    let mut j: usize = len;
    while j > 0
        invariant
            ret@.len() == len,
            0 <= j <= len,
            out@.len() == len - j,
            forall|i: int| 0 <= i < len - j ==> #[trigger] out@[i] == ret@[len - 1 - i],
        decreases j,
    {
        j = j - 1;
        out.push(ret[j]);
    }
    proof {
        assert forall|srcg: Seq<u8>|
            srcg.len() == len && #[trigger] rans_payload_of(
                srcg,
                hist,
                tl,
                state as int,
                trail0,
                stream0,
            ) implies out@ == srcg by {
            assert(srcg.skip(0) =~= srcg);
            assert(ret@ == srcg.reverse());
            assert(out@ =~= srcg);
        }
    }
    Ok(out)
}

/// The value of a bit run, least significant bit first.
pub open spec fn val_of(s: Seq<bool>) -> nat
    decreases s.len(),
{
    if s.len() == 0 {
        0
    } else {
        (if s[0] {
            1nat
        } else {
            0nat
        }) + 2 * val_of(s.skip(1))
    }
}

/// Reading back the bits of a value returns the value.
pub proof fn lemma_val_of_bits_of(v: nat, n: nat)
    requires
        v < pow2(n),
    ensures
        val_of(bits_of(v, n)) == v,
    decreases n,
{
    lemma2_to64();
    if n == 0 {
    } else {
        assert(bits_of(v, n)[0] == ((v / pow2(0)) % 2 == 1));
        assert(v / pow2(0) == v);
        assert forall|j: int| 0 <= j < n - 1 implies #[trigger] bits_of(v, n).skip(1)[j]
            == bits_of(v / 2, (n - 1) as nat)[j] by {
            lemma_pow2_pos(j as nat);
            vstd::arithmetic::power2::lemma_pow2_unfold((j + 1) as nat);
            vstd::arithmetic::div_mod::lemma_div_denominator(v as int, 2, pow2(j as nat) as int);
            assert(bits_of(v, n).skip(1)[j] == bits_of(v, n)[j + 1]);
            assert(bits_of(v, n)[j + 1] == ((v / pow2((j + 1) as nat)) % 2 == 1));
            assert(v / 2 / pow2(j as nat) == v / pow2((j + 1) as nat));
        }
        assert(bits_of(v, n).skip(1) =~= bits_of(v / 2, (n - 1) as nat));
        vstd::arithmetic::power2::lemma_pow2_unfold(n);
        lemma_val_of_bits_of(v / 2, (n - 1) as nat);
        assert(val_of(bits_of(v, n)) == (if (v % 2 == 1) {
            1nat
        } else {
            0nat
        }) + 2 * val_of(bits_of(v / 2, (n - 1) as nat)));
        assert(v == 2 * (v / 2) + v % 2);
    }
}

/// Total width of the chunks a trail records.
pub open spec fn twidths(trail: Seq<u8>) -> int
    decreases trail.len(),
{
    if trail.len() == 0 {
        0
    } else {
        twidths(trail.drop_last()) + trail.last()
    }
}

/// The symbol owning position `r` of the cumulative function: the largest
/// symbol below `n` whose interval starts at or before `r`.
pub open spec fn find_sym(hist: Seq<usize>, r: int, n: int) -> int
    decreases n,
{
    if n <= 1 {
        0
    } else if cumul_of(hist, n - 1) <= r {
        n - 1
    } else {
        find_sym(hist, r, n - 1)
    }
}

/// On a position inside a symbol's interval, the search returns that
/// symbol.
proof fn lemma_find_sym_exact(hist: Seq<usize>, r: int, s: int, n: int)
    requires
        0 <= s < n <= hist.len(),
        cumul_of(hist, s) <= r,
        r < cumul_of(hist, s + 1),
    ensures
        find_sym(hist, r, n) == s,
    decreases n,
{
    if n - 1 == s {
    } else {
        assert(hist.take(n - 1).take(s + 1) =~= hist.take(s + 1));
        crate::lemma_sum_seq_take_le(hist.take(n - 1), s + 1);
        assert(cumul_of(hist, s + 1) <= cumul_of(hist, n - 1));
        lemma_find_sym_exact(hist, r, s, n - 1);
    }
}

/// One rANS decoding step at the ghost level: pop the symbol owning the
/// low bits of the state, and reload a sixteen-bit chunk as the trail
/// prescribes.
pub open spec fn rans_dec_step(d: RansTrace, hist: Seq<usize>, table_log: nat) -> (RansTrace, u8) {
    let r = d.state % pow2(table_log);
    let s = find_sym(hist, r as int, 256);
    let f = hist[s] as nat;
    let c = cumul_of(hist, s) as nat;
    let x1 = (f * (d.state / pow2(table_log)) + r - c) as nat;
    if x1 < pow2(16) && d.trail.len() > 0 {
        let w = d.trail.last() as nat;
        let v = val_of(d.bits.subrange(d.bits.len() - w, d.bits.len() as int));
        (
            RansTrace {
                state: x1 * pow2(16) + v,
                trail: d.trail.drop_last(),
                bits: d.bits.take(d.bits.len() - w),
            },
            s as u8,
        )
    } else {
        (RansTrace { state: x1, trail: d.trail, bits: d.bits }, s as u8)
    }
}

/// Decode `n` symbols at the ghost level, most recently encoded first.
pub open spec fn rans_decode_all(d: RansTrace, hist: Seq<usize>, table_log: nat, n: nat) -> (
    RansTrace,
    Seq<u8>,
)
    decreases n,
{
    if n == 0 {
        (d, Seq::empty())
    } else {
        let stepped = rans_dec_step(d, hist, table_log);
        let rest = rans_decode_all(stepped.0, hist, table_log, (n - 1) as nat);
        (rest.0, seq![stepped.1] + rest.1)
    }
}

/// The source alphabet is carried by the frequency table.
pub open spec fn rans_src_ok(src: Seq<u8>, hist: Seq<usize>) -> bool {
    forall|k: int| 0 <= k < src.len() ==> hist[#[trigger] src[k] as int] >= 1
}

/// Every encoding trace is well formed: the state stays below `2^32`, it
/// stays at or above `2^16` once any chunk was shed, and the bit stream
/// holds exactly the widths the trail records, none wider than sixteen.
proof fn lemma_rans_trace_wf(src: Seq<u8>, hist: Seq<usize>, table_log: nat)
    requires
        1 <= table_log <= 15,
        hist.len() == 256,
        sum_seq(hist) == pow2(table_log),
        rans_src_ok(src, hist),
    ensures
        ({
            let t = rans_encode_trace(src, hist, table_log);
            &&& t.state < pow2(32)
            &&& (t.trail.len() > 0 ==> t.state >= pow2(16))
            &&& t.bits.len() == twidths(t.trail)
            &&& t.bits.len() <= 16 * src.len()
            &&& (forall|i: int| 0 <= i < t.trail.len() ==> #[trigger] t.trail[i] <= 16)
        }),
    decreases src.len(),
{
    lemma2_to64();
    lemma_pow2_pos(table_log);
    lemma_pow2_pos((32 - table_log) as nat);
    lemma_pow2_pos(16);
    if src.len() == 0 {
    } else {
        let pre = rans_encode_trace(src.drop_last(), hist, table_log);
        assert(rans_src_ok(src.drop_last(), hist)) by {
            assert(forall|k: int| 0 <= k < src.len() - 1 ==> src.drop_last()[k] == src[k]);
        }
        lemma_rans_trace_wf(src.drop_last(), hist, table_log);
        let sym = src.last() as int;
        assert(hist[sym] >= 1);
        let f = hist[sym] as nat;
        let c = cumul_of(hist, sym) as nat;
        lemma_sum_seq_take_step(hist, sym);
        lemma_sum_seq_take_le(hist, sym + 1);
        crate::lemma_sum_seq_nonneg(hist.take(sym));
        assert(f + c <= pow2(table_log));
        let t = rans_encode_trace(src, hist, table_log);
        assert(t == rans_step(pre, f, c, table_log));
        let renorm = pre.state >= f * pow2((32 - table_log) as nat);
        let chunk = pre.state % pow2(16);
        let w = crate::bitstream::bit_len(chunk);
        vstd::arithmetic::div_mod::lemma_mod_bound(pre.state as int, pow2(16) as int);
        crate::bitstream::lemma_bit_len_bound(chunk, 16);
        let s1: nat = if renorm {
            pre.state / pow2(16)
        } else {
            pre.state
        };
        if renorm {
            lemma_pow2_adds(16, 16);
            vstd::arithmetic::div_mod::lemma_div_is_ordered(
                pre.state as int,
                pow2(32) as int - 1,
                pow2(16) as int,
            );
            assert((pow2(32) - 1) as int / pow2(16) as int == pow2(16) - 1) by {
                vstd::arithmetic::div_mod::lemma_fundamental_div_mod_converse_div(
                    pow2(32) as int - 1,
                    pow2(16) as int,
                    pow2(16) as int - 1,
                    pow2(16) as int - 1,
                );
            }
            assert(s1 < pow2(16));
            // the shed state keeps the next state at or above two to the
            // sixteenth: the renormalization bound divided down survives
            lemma_pow2_adds(16, (16 - table_log) as nat);
            assert(f * pow2((32 - table_log) as nat) == (f * pow2((16 - table_log) as nat)) * pow2(
                16,
            )) by (nonlinear_arith)
                requires
                    pow2((32 - table_log) as nat) == pow2((16 - table_log) as nat) * pow2(16),
            ;
            vstd::arithmetic::div_mod::lemma_div_is_ordered(
                (f * pow2((16 - table_log) as nat)) as int * pow2(16) as int,
                pre.state as int,
                pow2(16) as int,
            );
            vstd::arithmetic::div_mod::lemma_div_by_multiple(
                (f * pow2((16 - table_log) as nat)) as int,
                pow2(16) as int,
            );
            assert(s1 >= f * pow2((16 - table_log) as nat));
            let q = s1 / f;
            vstd::arithmetic::div_mod::lemma_fundamental_div_mod(s1 as int, f as int);
            assert(q >= pow2((16 - table_log) as nat)) by (nonlinear_arith)
                requires
                    s1 as int == f * q + s1 as int % f as int,
                    0 <= s1 as int % f as int,
                    (s1 as int % f as int) < f as int,
                    s1 >= f * pow2((16 - table_log) as nat),
                    f >= 1,
            ;
            lemma_pow2_adds((16 - table_log) as nat, table_log);
            lemma_mul_inequality(
                pow2((16 - table_log) as nat) as int,
                q as int,
                pow2(table_log) as int,
            );
            assert(q * pow2(table_log) >= pow2(16));
            assert(t.state >= pow2(16));
            lemma_pow2_monotone(17, (32 - table_log) as nat);
            lemma_mul_inequality(1, f as int, pow2((32 - table_log) as nat) as int);
            assert(s1 < f * pow2((32 - table_log) as nat));
            lemma_rans_step_bounds(s1, f, c, table_log);
            assert(t.bits.len() == pre.bits.len() + w);
            assert(t.trail.drop_last() =~= pre.trail);
        } else {
            lemma_rans_step_bounds(s1, f, c, table_log);
            if pre.trail.len() > 0 {
                assert(pre.state >= pow2(16));
            }
        }
    }
}

/// One ghost decode step undoes the last ghost encode step and recovers
/// the symbol it consumed.
proof fn lemma_rans_dec_step_inverts(src: Seq<u8>, hist: Seq<usize>, table_log: nat)
    requires
        1 <= table_log <= 15,
        hist.len() == 256,
        sum_seq(hist) == pow2(table_log),
        rans_src_ok(src, hist),
        src.len() > 0,
    ensures
        ({
            let t = rans_encode_trace(src, hist, table_log);
            let pre = rans_encode_trace(src.drop_last(), hist, table_log);
            rans_dec_step(t, hist, table_log) == (pre, src.last())
        }),
{
    lemma2_to64();
    lemma_pow2_pos(table_log);
    lemma_pow2_pos(16);
    let t = rans_encode_trace(src, hist, table_log);
    let pre = rans_encode_trace(src.drop_last(), hist, table_log);
    assert(rans_src_ok(src.drop_last(), hist)) by {
        assert(forall|k: int| 0 <= k < src.len() - 1 ==> src.drop_last()[k] == src[k]);
    }
    lemma_rans_trace_wf(src.drop_last(), hist, table_log);
    lemma_rans_trace_wf(src, hist, table_log);
    let sym = src.last() as int;
    let f = hist[sym] as nat;
    let c = cumul_of(hist, sym) as nat;
    lemma_sum_seq_take_step(hist, sym);
    lemma_sum_seq_take_le(hist, sym + 1);
    crate::lemma_sum_seq_nonneg(hist.take(sym));
    assert(f + c <= pow2(table_log));
    assert(t == rans_step(pre, f, c, table_log));
    let renorm = pre.state >= f * pow2((32 - table_log) as nat);
    let chunk = pre.state % pow2(16);
    let w = crate::bitstream::bit_len(chunk);
    let s1: nat = if renorm {
        pre.state / pow2(16)
    } else {
        pre.state
    };
    lemma_state_roundtrip(s1, table_log, f, c);
    let r = t.state % pow2(table_log);
    assert(c <= r < c + f);
    assert(cumul_of(hist, sym + 1) == c + f);
    lemma_find_sym_exact(hist, r as int, sym, 256);
    assert(find_sym(hist, r as int, 256) == sym);
    assert((sym as u8) == src.last());
    let x1 = (f * (t.state / pow2(table_log)) + r - c) as nat;
    assert(x1 == s1);
    vstd::arithmetic::div_mod::lemma_mod_bound(pre.state as int, pow2(16) as int);
    crate::bitstream::lemma_bit_len_bound(chunk, 16);
    if renorm {
        lemma_pow2_adds(16, 16);
        vstd::arithmetic::div_mod::lemma_div_is_ordered(
            pre.state as int,
            pow2(32) as int - 1,
            pow2(16) as int,
        );
        assert((pow2(32) - 1) as int / pow2(16) as int == pow2(16) - 1) by {
            vstd::arithmetic::div_mod::lemma_fundamental_div_mod_converse_div(
                pow2(32) as int - 1,
                pow2(16) as int,
                pow2(16) as int - 1,
                pow2(16) as int - 1,
            );
        }
        assert(s1 < pow2(16));
        assert(t.trail.len() > 0);
        assert(t.trail.last() == w as u8);
        assert(t.bits == pre.bits + bits_of(chunk, w));
        assert(t.bits.len() == pre.bits.len() + w);
        assert(t.bits.subrange(t.bits.len() - w, t.bits.len() as int) =~= bits_of(chunk, w));
        crate::bitstream::lemma_bit_len_bound(chunk, 16);
        lemma_val_of_bits_of(chunk, w);
        assert(val_of(t.bits.subrange(t.bits.len() - w, t.bits.len() as int)) == chunk);
        vstd::arithmetic::div_mod::lemma_fundamental_div_mod(pre.state as int, pow2(16) as int);
        assert(s1 * pow2(16) + chunk == pre.state);
        assert(t.bits.take(t.bits.len() - w) =~= pre.bits);
        assert(t.trail.drop_last() =~= pre.trail);
        let stepped = rans_dec_step(t, hist, table_log);
        assert(stepped.0.state == pre.state);
        assert(stepped.0.trail == pre.trail);
        assert(stepped.0.bits == pre.bits);
        assert(stepped.0 == pre);
    } else {
        // without a shed the reload must not fire: either the state kept
        // its sixteenth bit, or nothing was ever shed
        if x1 < pow2(16) && t.trail.len() > 0 {
            assert(pre.trail.len() > 0);
            assert(pre.state >= pow2(16));
            assert(false);
        }
        let stepped = rans_dec_step(t, hist, table_log);
        assert(stepped.0 == pre);
    }
}

/// Round trip of the range coder at the model level: decoding as many
/// symbols as were encoded, from the final state, trail and bit stream the
/// encoding trace describes, returns exactly the source, most recently
/// encoded symbol first, and ends on the empty trace.
pub proof fn lemma_rans_roundtrip(src: Seq<u8>, hist: Seq<usize>, table_log: nat)
    requires
        1 <= table_log <= 15,
        hist.len() == 256,
        sum_seq(hist) == pow2(table_log),
        rans_src_ok(src, hist),
    ensures
        ({
            let t = rans_encode_trace(src, hist, table_log);
            let d = rans_decode_all(t, hist, table_log, src.len());
            &&& d.1 == src.reverse()
            &&& d.0 == rans_encode_trace(Seq::empty(), hist, table_log)
        }),
    decreases src.len(),
{
    let t = rans_encode_trace(src, hist, table_log);
    let d = rans_decode_all(t, hist, table_log, src.len());
    if src.len() == 0 {
        assert(d.1 =~= src.reverse());
    } else {
        lemma_rans_dec_step_inverts(src, hist, table_log);
        assert(rans_src_ok(src.drop_last(), hist)) by {
            assert(forall|k: int| 0 <= k < src.len() - 1 ==> src.drop_last()[k] == src[k]);
        }
        lemma_rans_roundtrip(src.drop_last(), hist, table_log);
        let pre = rans_encode_trace(src.drop_last(), hist, table_log);
        let drest = rans_decode_all(pre, hist, table_log, (src.len() - 1) as nat);
        assert(d.1 == seq![src.last()] + drest.1);
        assert(seq![src.last()] + src.drop_last().reverse() =~= src.reverse());
    }
}

} // verus!
