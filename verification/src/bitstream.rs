//! Trusted boundary around the external bit stream that both codecs shed
//! their state bits into: a last-in-first-out stack of bits, packed least
//! significant first and closed with a marker bit.

use vstd::prelude::*;

use tiny_bitstream::{BitDstream, BitEstream, BitReader, BitWriter};

use crate::{lemma_pow2_monotone, pow2, pow2_u64};

verus! {

#[verifier::external_type_specification]
#[verifier::external_body]
pub struct ExBitEstream(BitEstream);

#[verifier::external_type_specification]
#[verifier::external_body]
pub struct ExBitDstream(BitDstream);

/// The bits written to an encoder stream so far, oldest first.
pub uninterp spec fn est_bits(e: BitEstream) -> Seq<bool>;

/// The bits an open decoder stream has not yet read, oldest first; a read
/// pops from the end.
pub uninterp spec fn dst_bits(d: BitDstream) -> Seq<bool>;

/// The finalized byte form of a bit stack: the bits packed least
/// significant first, one closing one-bit, and zero padding up to the byte
/// boundary.
pub uninterp spec fn stream_bytes(bits: Seq<bool>) -> Seq<u8>;

/// The low `n` bits of `v`, least significant first.
pub open spec fn bits_of(v: nat, n: nat) -> Seq<bool> {
    Seq::new(n, |j: int| (v / pow2(j as nat)) % 2 == 1)
}

/// A bit run of width `n` has length `n`.
pub proof fn lemma_bits_of_len(v: nat, n: nat)
    ensures
        bits_of(v, n).len() == n,
{
}

/// Number of bits needed to write `x`, with zero needing none.
pub open spec fn bit_len(x: nat) -> nat
    decreases x,
{
    if x == 0 {
        0
    } else {
        1 + bit_len(x / 2)
    }
}

/// The value of the last eight bytes read as one little-endian word.
pub open spec fn le_word(s: Seq<u8>) -> nat
    decreases s.len(),
{
    if s.len() == 0 {
        0
    } else {
        le_word(s.drop_last()) + (s.last() as nat) * pow2(((s.len() - 1) * 8) as nat)
    }
}

/// How many bits a decoder opened on `bytes` will hand out before running
/// dry: whole bytes below the last loaded word, plus that word up to its
/// highest one-bit.
pub open spec fn spec_readable(bytes: Seq<u8>) -> int {
    if bytes.len() >= 8 {
        8 * (bytes.len() - 8) + bit_len(le_word(bytes.skip(bytes.len() - 8)))
    } else {
        bit_len(le_word(bytes)) as int
    }
}

/// Relies on `BitEstream::new`: a fresh encoder stream holds no bits.
#[verifier::external_body]
pub fn est_new() -> (e: BitEstream)
    ensures
        est_bits(e) == Seq::<bool>::empty(),
{
    BitEstream::new()
}

/// Relies on `BitEstream::unchecked_write`: append the low `nb_bits` bits
/// of `value` to the stream, least significant bit first.
#[verifier::external_body]
pub fn est_write(e: &mut BitEstream, value: usize, nb_bits: u8)
    requires
        nb_bits <= 32,
    ensures
        est_bits(*final(e)) == est_bits(*old(e)) + bits_of(value as nat, nb_bits as nat),
{
    e.unchecked_write(value, nb_bits)
}

/// Relies on the conversion of `BitEstream` into `Vec<u8>`, which closes
/// the stream: one marker one-bit follows the data bits, and zeros pad the
/// last byte, so the byte form determines the bit stack exactly.
#[verifier::external_body]
pub fn est_finalize(e: BitEstream) -> (bytes: Vec<u8>)
    ensures
        bytes@ == stream_bytes(est_bits(e)),
        bytes@.len() >= 1,
        spec_readable(bytes@) == est_bits(e).len() + 1,
{
    e.into()
}

/// Relies on `BitDstream::try_from(Vec<u8>)`: open a decoder stream whose
/// readable bits are the packed bits up to the highest set bit of the last
/// word; on the byte form of a bit stack these are the data bits plus the
/// marker. Only an empty input is refused.
#[verifier::external_body]
pub fn dst_open(bytes: Vec<u8>) -> (r: Option<BitDstream>)
    ensures
        r is Some <==> bytes@.len() >= 1,
        r matches Some(d) ==> dst_bits(d).len() == spec_readable(bytes@),
        r matches Some(d) ==> (forall|b: Seq<bool>|
            bytes@ == #[trigger] stream_bytes(b) ==> dst_bits(d) == b.push(true)),
        r is None ==> (forall|b: Seq<bool>| bytes@ != #[trigger] stream_bytes(b)),
{
    BitDstream::try_from(bytes).ok()
}

/// Relies on `BitDstream::read`: pop the `nb_bits` most recently written
/// bits that are still unread and return them as a value, least significant
/// bit first. With enough bits left the read cannot fail.
#[verifier::external_body]
pub fn dst_read(d: &mut BitDstream, nb_bits: u8) -> (r: Option<usize>)
    requires
        1 <= nb_bits <= 32,
        nb_bits as int <= dst_bits(*old(d)).len(),
    ensures
        r is Some,
        r matches Some(v) ==> ((v as nat) < pow2(nb_bits as nat) && bits_of(
            v as nat,
            nb_bits as nat,
        ) == dst_bits(*old(d)).subrange(
            dst_bits(*old(d)).len() - nb_bits,
            dst_bits(*old(d)).len() as int,
        )),
        dst_bits(*final(d)) == dst_bits(*old(d)).take(dst_bits(*old(d)).len() - nb_bits as int),
{
    d.read(nb_bits).ok()
}

/// Only the low `n` bits of a value reach its low `n` bit run.
pub proof fn lemma_bits_of_mod(x: nat, n: nat)
    ensures
        bits_of(x % pow2(n), n) == bits_of(x, n),
{
    vstd::arithmetic::power2::lemma_pow2_pos(n);
    let q = x / pow2(n);
    let r = x % pow2(n);
    vstd::arithmetic::div_mod::lemma_fundamental_div_mod(x as int, pow2(n) as int);
    assert forall|j: int| 0 <= j < n implies #[trigger] bits_of(x % pow2(n), n)[j] == bits_of(
        x,
        n,
    )[j] by {
        vstd::arithmetic::power2::lemma_pow2_pos(j as nat);
        vstd::arithmetic::power2::lemma_pow2_pos((n - j) as nat);
        vstd::arithmetic::power2::lemma_pow2_pos((n - j - 1) as nat);
        vstd::arithmetic::power2::lemma_pow2_adds((n - j) as nat, j as nat);
        vstd::arithmetic::div_mod::lemma_fundamental_div_mod(r as int, pow2(j as nat) as int);
        vstd::arithmetic::div_mod::lemma_mod_bound(r as int, pow2(j as nat) as int);
        // x at scale 2^j: the part above 2^n contributes an even multiple
        let a = pow2((n - j) as nat) as int * q;
        assert(x as int == (a + r as int / pow2(j as nat) as int) * pow2(j as nat) as int + (
        r as int % pow2(j as nat) as int)) by (nonlinear_arith)
            requires
                x as int == pow2(n) as int * q + r,
                pow2(n) as int == pow2((n - j) as nat) as int * pow2(j as nat) as int,
                r as int == pow2(j as nat) as int * (r as int / pow2(j as nat) as int) + r as int
                    % pow2(j as nat) as int,
                a == pow2((n - j) as nat) as int * q,
        ;
        vstd::arithmetic::div_mod::lemma_fundamental_div_mod_converse_div(
            x as int,
            pow2(j as nat) as int,
            a + r as int / pow2(j as nat) as int,
            r as int % pow2(j as nat) as int,
        );
        assert(x as int / pow2(j as nat) as int == a + r as int / pow2(j as nat) as int);
        vstd::arithmetic::power2::lemma_pow2_unfold((n - j) as nat);
        assert(a == 2 * (pow2((n - j - 1) as nat) as int * q)) by (nonlinear_arith)
            requires
                a == pow2((n - j) as nat) as int * q,
                pow2((n - j) as nat) == 2 * pow2((n - j - 1) as nat),
        ;
        assert(a % 2 == 0) by (nonlinear_arith)
            requires
                a == 2 * (pow2((n - j - 1) as nat) as int * q),
        ;
        vstd::arithmetic::div_mod::lemma_mod_multiples_vanish(
            pow2((n - j - 1) as nat) as int * q,
            r as int / pow2(j as nat) as int,
            2,
        );
        assert((a + r as int / pow2(j as nat) as int) % 2 == (r as int / pow2(
            j as nat,
        ) as int) % 2);
    }
    assert(bits_of(x % pow2(n), n) =~= bits_of(x, n));
}

/// Compute the number of bits needed to write `x`.
pub fn bit_width(x: usize) -> (r: u8)
    requires
        x < pow2(32),
    ensures
        r == bit_len(x as nat),
        r <= 32,
        (x as nat) < pow2(r as nat),
    decreases x,
{
    proof {
        vstd::arithmetic::power2::lemma2_to64();
    }
    if x == 0 {
        0
    } else {
        proof {
            lemma_bit_len_bound(x as nat, 32);
            lemma_bit_len_bound((x / 2) as nat, 31);
            vstd::arithmetic::power2::lemma_pow2_unfold(bit_len(x as nat));
        }
        let rest = bit_width(x / 2);
        rest + 1
    }
}

/// Compute the number of bits needed to write a 64-bit word.
pub fn bit_width_u64(x: u64) -> (r: u8)
    ensures
        r == bit_len(x as nat),
        r <= 64,
    decreases x,
{
    proof {
        vstd::arithmetic::power2::lemma2_to64();
        vstd::arithmetic::power2::lemma2_to64_rest();
        lemma_bit_len_bound(x as nat, 64);
    }
    if x == 0 {
        0
    } else {
        let rest = bit_width_u64(x / 2);
        rest + 1
    }
}

/// Count how many bits a decoder opened on these bytes can hand out, the
/// mirror of `spec_readable`.
pub fn readable_bits(bytes: &[u8]) -> (r: usize)
    requires
        8 * bytes@.len() + 64 <= usize::MAX,
    ensures
        r == spec_readable(bytes@),
{
    let n = bytes.len();
    let m: usize = if n >= 8 {
        8
    } else {
        n
    };
    let ghost suffix = bytes@.skip(n - m);
    let mut w: u64 = 0;
    let mut j: usize = 0;
    proof {
        vstd::arithmetic::power2::lemma2_to64();
        assert(suffix.take(0) =~= Seq::<u8>::empty());
    }
    while j < m
        invariant
            n == bytes@.len(),
            m == if n >= 8 {
                8int
            } else {
                n as int
            },
            m <= n,
            suffix == bytes@.skip(n - m),
            suffix.len() == m,
            0 <= j <= m,
            w == le_word(suffix.take(j as int)),
            w < pow2((8 * j) as nat),
        decreases m - j,
    {
        proof {
            vstd::arithmetic::power2::lemma2_to64();
            vstd::arithmetic::power2::lemma2_to64_rest();
            vstd::arithmetic::power2::lemma_pow2_adds((8 * j) as nat, 8);
            assert(suffix.take(j as int + 1).drop_last() =~= suffix.take(j as int));
            assert(suffix.take(j as int + 1).last() == suffix[j as int]);
            assert(suffix[j as int] == bytes@[n - m + j]);
            vstd::arithmetic::mul::lemma_mul_inequality(
                suffix[j as int] as int,
                255,
                pow2((8 * j) as nat) as int,
            );
            lemma_pow2_monotone((8 * j) as nat, 56);
        }
        let b = bytes[n - m + j];
        w = w + (b as u64) * pow2_u64(8 * (j as u64));
        j = j + 1;
    }
    proof {
        assert(suffix.take(m as int) =~= suffix);
        if n < 8 {
            assert(bytes@.skip(0) =~= bytes@);
        }
    }
    let bl = bit_width_u64(w);
    if n >= 8 {
        8 * (n - 8) + (bl as usize)
    } else {
        bl as usize
    }
}

/// A value below `2^n` needs at most `n` bits, and any value fits below
/// two to its bit length.
pub proof fn lemma_bit_len_bound(x: nat, n: nat)
    requires
        x < pow2(n),
    ensures
        bit_len(x) <= n,
        x < pow2(bit_len(x)),
    decreases n,
{
    vstd::arithmetic::power2::lemma2_to64();
    if x == 0 {
    } else if n == 0 {
    } else {
        vstd::arithmetic::power2::lemma_pow2_unfold(n);
        lemma_bit_len_bound(x / 2, (n - 1) as nat);
        vstd::arithmetic::power2::lemma_pow2_unfold(bit_len(x));
    }
}

} // verus!
