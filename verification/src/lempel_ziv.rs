//! Lempel-Ziv style front end: find repeated runs in the already-seen part
//! of the source and replace them by length-index pairs, with several
//! interchangeable run-length scanners.

use vstd::prelude::*;

use std::collections::HashMap;

verus! {

/// Decode a length-index stream onto the accumulator `acc`: a byte below
/// 128 is a literal, anything else opens a four-byte pair holding a run
/// length and a back reference into the output produced so far. `None`
/// marks a malformed stream.
pub open spec fn lz_decode_from(s: Seq<u8>, acc: Seq<u8>) -> Option<Seq<u8>>
    decreases s.len(),
{
    if s.len() == 0 {
        Some(acc)
    } else if s[0] < 128 {
        lz_decode_from(s.skip(1), acc.push(s[0]))
    } else if s.len() < 4 {
        None
    } else {
        let len = (s[0] - 128) as int * 256 + s[1];
        let idx = s[2] as int * 256 + s[3];
        if 0 <= idx && idx + len <= acc.len() {
            lz_decode_from(s.skip(4), acc + acc.subrange(idx, idx + len))
        } else {
            None
        }
    }
}

/// Every byte of the source stays clear of the back-reference flag bit, so
/// literals cannot be mistaken for pairs.
pub open spec fn all_below_128(s: Seq<u8>) -> bool {
    forall|i: int| 0 <= i < s.len() ==> s[i] < 128
}

/// What a run-length scan returns: the length of the longest common run at
/// `from` and `index`, capped so the runs cannot overlap past `index` nor
/// run off the end of the source.
pub open spec fn we_post(s: Seq<u8>, from: int, index: int, len: int) -> bool {
    &&& 1 <= len <= index - from
    &&& index + len <= s.len()
    &&& (forall|j: int| 0 <= j < len ==> #[trigger] s[from + j] == s[index + j])
    &&& (len == index - from || index + len == s.len() || s[from + len] != s[index + len])
}

/// Decoding a stream extended on the right continues from where the first
/// part left off.
proof fn lemma_lz_decode_append(s1: Seq<u8>, s2: Seq<u8>, acc: Seq<u8>)
    requires
        lz_decode_from(s1, acc) is Some,
    ensures
        lz_decode_from(s1 + s2, acc) == lz_decode_from(s2, lz_decode_from(s1, acc).unwrap()),
    decreases s1.len(),
{
    if s1.len() == 0 {
        assert(s1 + s2 =~= s2);
    } else if s1[0] < 128 {
        assert((s1 + s2)[0] == s1[0]);
        assert((s1 + s2).skip(1) =~= s1.skip(1) + s2);
        lemma_lz_decode_append(s1.skip(1), s2, acc.push(s1[0]));
    } else {
        assert(s1.len() >= 4);
        assert((s1 + s2)[0] == s1[0]);
        assert((s1 + s2)[1] == s1[1]);
        assert((s1 + s2)[2] == s1[2]);
        assert((s1 + s2)[3] == s1[3]);
        assert((s1 + s2).skip(4) =~= s1.skip(4) + s2);
        let len = (s1[0] - 128) as int * 256 + s1[1];
        let idx = s1[2] as int * 256 + s1[3];
        lemma_lz_decode_append(s1.skip(4), s2, acc + acc.subrange(idx, idx + len));
    }
}

/// The four-byte encoding of a back reference of `len` bytes at `idx`.
pub open spec fn lz_pair_token(len: int, idx: int) -> Seq<u8> {
    seq![
        (128 + len / 256) as u8,
        (len % 256) as u8,
        (idx / 256) as u8,
        (idx % 256) as u8,
    ]
}

/// Appending one literal to a well-formed stream appends it to the output.
proof fn lemma_lz_step_literal(out: Seq<u8>, pre: Seq<u8>, b: u8)
    requires
        lz_decode_from(out, Seq::empty()) == Some(pre),
        b < 128,
    ensures
        lz_decode_from(out.push(b), Seq::empty()) == Some(pre.push(b)),
{
    assert(out.push(b) =~= out + seq![b]);
    lemma_lz_decode_append(out, seq![b], Seq::empty());
    assert(seq![b].len() == 1);
    assert(seq![b][0] == b);
    assert(seq![b].skip(1) =~= Seq::<u8>::empty());
    assert(lz_decode_from(seq![b], pre) == lz_decode_from(seq![b].skip(1), pre.push(b)));
    assert(lz_decode_from(seq![b], pre) == Some(pre.push(b)));
}

/// Appending a back-reference pair to a well-formed stream appends the run
/// it refers to.
proof fn lemma_lz_step_pair(out: Seq<u8>, pre: Seq<u8>, len: int, idx: int)
    requires
        lz_decode_from(out, Seq::empty()) == Some(pre),
        5 <= len < 32768,
        0 <= idx,
        idx + len <= pre.len(),
        idx < 0x10000,
    ensures
        lz_decode_from(out + lz_pair_token(len, idx), Seq::empty()) == Some(
            pre + pre.subrange(idx, idx + len),
        ),
{
    lemma_lz_decode_append(out, lz_pair_token(len, idx), Seq::empty());
    let t = lz_pair_token(len, idx);
    assert(t.len() == 4);
    assert((128 + len / 256) as u8 as int == 128 + len / 256);
    assert((len % 256) as u8 as int == len % 256);
    assert((idx / 256) as u8 as int == idx / 256);
    assert((idx % 256) as u8 as int == idx % 256);
    assert(t[0] as int == 128 + len / 256);
    assert(t[0] >= 128);
    assert((t[0] - 128) as int * 256 + t[1] == len) by {
        assert(len == 256 * (len / 256) + len % 256) by {
            vstd::arithmetic::div_mod::lemma_fundamental_div_mod(len, 256);
        }
    }
    assert(t[2] as int * 256 + t[3] == idx) by {
        assert(idx == 256 * (idx / 256) + idx % 256) by {
            vstd::arithmetic::div_mod::lemma_fundamental_div_mod(idx, 256);
        }
    }
    assert(t.skip(4) =~= Seq::<u8>::empty());
    assert(lz_decode_from(t, pre) == lz_decode_from(
        t.skip(4),
        pre + pre.subrange(idx, idx + len),
    ));
    assert(lz_decode_from(t, pre) == Some(pre + pre.subrange(idx, idx + len)));
}

/// Dispatch over the interchangeable run-length scanners. Every
/// implementation returns the same, fully determined, length.
pub trait WhileEqual {
    /// Number of positions, starting at `from` and `index`, over which the
    /// source repeats itself, at most `min(index - from, len - index)`.
    fn while_equal(src: &[u8], from: usize, index: usize) -> (len: u32)
        requires
            from < index,
            index < src@.len(),
            src@.len() <= 0xffff_ffff,
            src@[from as int] == src@[index as int],
        ensures
            we_post(src@, from as int, index as int, len as int),
    ;
}

/// Namespace for the original while_equal algorithm.
pub struct Original;

/// Namespace for the while_equal algorithm arranged for out-of-order
/// processors.
pub struct Fast;

/// Namespace for the while_equal algorithm that the reference code sped up
/// with word-wide reads; the result is byte-for-byte the same.
pub struct Faster;

/// Namespace for the while_equal algorithm that the reference code sped up
/// with vector compares; the result is byte-for-byte the same.
pub struct X86_64;

/// The plain byte-at-a-time run scan.
pub(crate) fn while_equal_scalar(src: &[u8], from: usize, index: usize) -> (len: u32)
    requires
        from < index,
        index < src@.len(),
        src@.len() <= 0xffff_ffff,
        src@[from as int] == src@[index as int],
    ensures
        we_post(src@, from as int, index as int, len as int),
{
    let n = src.len();
    let mut s = from + 1;
    let mut i = index + 1;
    while s < index && i < n && src[s] == src[i]
        invariant
            n == src@.len(),
            from < index < n <= 0xffff_ffff,
            from + 1 <= s <= index,
            i == index + (s - from),
            i <= n,
            forall|j: int| 0 <= j < s - from ==> #[trigger] src@[from + j] == src@[index + j],
        decreases index - s,
    {
        s = s + 1;
        i = i + 1;
    }
    (s - from) as u32
}

/// The run scan unrolled four ways, with a scalar tail.
pub(crate) fn while_equal_unrolled(src: &[u8], from: usize, index: usize) -> (len: u32)
    requires
        from < index,
        index < src@.len(),
        src@.len() <= 0xffff_ffff,
        src@[from as int] == src@[index as int],
    ensures
        we_post(src@, from as int, index as int, len as int),
{
    let n = src.len();
    let mut s = from + 1;
    let mut i = index + 1;
    while index - s > 4 && n - i > 4
        invariant
            n == src@.len(),
            from < index < n <= 0xffff_ffff,
            from + 1 <= s <= index,
            i == index + (s - from),
            i <= n,
            forall|j: int| 0 <= j < s - from ==> #[trigger] src@[from + j] == src@[index + j],
        ensures
            n == src@.len(),
            from + 1 <= s <= index,
            i == index + (s - from),
            i <= n,
            forall|j: int| 0 <= j < s - from ==> #[trigger] src@[from + j] == src@[index + j],
        decreases index - s,
    {
        let b1 = src[s] == src[i];
        let b2 = src[s + 1] == src[i + 1];
        let b3 = src[s + 2] == src[i + 2];
        let b4 = src[s + 3] == src[i + 3];
        if b1 && b2 && b3 && b4 {
            s = s + 4;
            i = i + 4;
        } else {
            break ;
        }
    }
    while s < index && i < n && src[s] == src[i]
        invariant
            n == src@.len(),
            from < index < n <= 0xffff_ffff,
            from + 1 <= s <= index,
            i == index + (s - from),
            i <= n,
            forall|j: int| 0 <= j < s - from ==> #[trigger] src@[from + j] == src@[index + j],
        decreases index - s,
    {
        s = s + 1;
        i = i + 1;
    }
    (s - from) as u32
}

impl WhileEqual for Original {
    /// Naive while_equal implementation.
    fn while_equal(src: &[u8], from: usize, index: usize) -> (len: u32) {
        while_equal_scalar(src, from, index)
    }
}

impl WhileEqual for Fast {
    /// Symmetrical implementation of the naive scan, split in four
    /// independent compares per round for out-of-order processors.
    fn while_equal(src: &[u8], from: usize, index: usize) -> (len: u32) {
        while_equal_unrolled(src, from, index)
    }
}

impl WhileEqual for Faster {
    /// In the reference code this scan compares a machine word at a time
    /// through pointer casts; the byte-wise scan returns the same length.
    fn while_equal(src: &[u8], from: usize, index: usize) -> (len: u32) {
        while_equal_scalar(src, from, index)
    }
}

impl WhileEqual for X86_64 {
    /// In the reference code this scan compares sixteen bytes at a time
    /// with vector instructions; the byte-wise scan returns the same length.
    fn while_equal(src: &[u8], from: usize, index: usize) -> (len: u32) {
        while_equal_scalar(src, from, index)
    }
}

/// Public access to Original::while_equal
pub fn while_equal(src: &[u8], from: usize, index: usize) -> (len: u32)
    requires
        from < index,
        index < src@.len(),
        src@.len() <= 0xffff_ffff,
        src@[from as int] == src@[index as int],
    ensures
        we_post(src@, from as int, index as int, len as int),
{
    Original::while_equal(src, from, index)
}

/// Public access to Fast::while_equal
pub fn while_equal_fast(src: &[u8], from: usize, index: usize) -> (len: u32)
    requires
        from < index,
        index < src@.len(),
        src@.len() <= 0xffff_ffff,
        src@[from as int] == src@[index as int],
    ensures
        we_post(src@, from as int, index as int, len as int),
{
    Fast::while_equal(src, from, index)
}

/// Public access to Faster::while_equal
pub fn while_equal_faster(src: &[u8], from: usize, index: usize) -> (len: u32)
    requires
        from < index,
        index < src@.len(),
        src@.len() > 9,
        src@.len() <= 0xffff_ffff,
        src@[from as int] == src@[index as int],
    ensures
        we_post(src@, from as int, index as int, len as int),
{
    Faster::while_equal(src, from, index)
}

/// Public access to X86_64::while_equal
pub fn while_equal_target_x86_64(src: &[u8], from: usize, index: usize) -> (len: u32)
    requires
        from < index,
        index < src@.len(),
        src@.len() > 17,
        src@.len() <= 0xffff_ffff,
        src@[from as int] == src@[index as int],
    ensures
        we_post(src@, from as int, index as int, len as int),
{
    X86_64::while_equal(src, from, index)
}

/// Generic windowless encoder: look for the longest earlier run over the
/// whole prefix. The output never exceeds the source, and on sources whose
/// bytes stay below 128 it decodes back to the source exactly.
pub fn internal_encode_lz_no_windows_u8<T: WhileEqual>(src: &[u8]) -> (out: Vec<u8>)
    requires
        4 <= src@.len() <= 0x10000,
    ensures
        out@.len() <= src@.len(),
        all_below_128(src@) ==> lz_decode_from(out@, Seq::empty()) == Some(src@),
{
    let n = src.len();
    let mut ret: Vec<u8> = Vec::new();
    let mut index: usize = 0;
    while index < 4
        invariant
            n == src@.len(),
            4 <= n <= 0x10000,
            0 <= index <= 4,
            ret@.len() == index,
            all_below_128(src@) ==> lz_decode_from(ret@, Seq::empty()) == Some(
                src@.take(index as int),
            ),
        decreases 4 - index,
    {
        proof {
            if all_below_128(src@) {
                lemma_lz_step_literal(ret@, src@.take(index as int), src@[index as int]);
                assert(src@.take(index as int).push(src@[index as int]) =~= src@.take(
                    index as int + 1,
                ));
            }
        }
        ret.push(src[index]);
        index = index + 1;
    }
    while index < n - 4
        invariant
            n == src@.len(),
            4 <= n <= 0x10000,
            4 <= index <= n,
            ret@.len() <= index,
            all_below_128(src@) ==> lz_decode_from(ret@, Seq::empty()) == Some(
                src@.take(index as int),
            ),
        decreases n - index,
    {
        let mut s: usize = 0;
        let mut rep_len: u32 = 0;
        let mut rep_idx: usize = 0;
        while s < index - 4
            invariant
                n == src@.len(),
                4 <= n <= 0x10000,
                4 <= index < n,
                0 <= s <= index,
                rep_len == 0 || (5 <= rep_len < 32768 && rep_idx + rep_len <= index && index
                    + rep_len <= n && (forall|j: int|
                    0 <= j < rep_len ==> #[trigger] src@[rep_idx + j] == src@[index + j])),
            decreases index - s,
        {
            if src[s] == src[index] {
                let l = T::while_equal(src, s, index);
                if 5 <= l && l < 32768 && rep_len < l {
                    rep_len = l;
                    rep_idx = s;
                }
            }
            s = s + 1;
        }
        if rep_len == 0 {
            proof {
                if all_below_128(src@) {
                    lemma_lz_step_literal(ret@, src@.take(index as int), src@[index as int]);
                    assert(src@.take(index as int).push(src@[index as int]) =~= src@.take(
                        index as int + 1,
                    ));
                }
            }
            ret.push(src[index]);
            index = index + 1;
        } else {
            let rl = rep_len as usize;
            let b0 = (128 + rl / 256) as u8;
            let b1 = (rl % 256) as u8;
            let b2 = (rep_idx / 256) as u8;
            let b3 = (rep_idx % 256) as u8;
            proof {
                if all_below_128(src@) {
                    lemma_lz_step_pair(ret@, src@.take(index as int), rl as int, rep_idx as int);
                    assert forall|j: int| 0 <= j < rl implies #[trigger] src@.take(
                        index as int,
                    ).subrange(rep_idx as int, rep_idx + rl as int)[j] == src@.subrange(
                        index as int,
                        index + rl as int,
                    )[j] by {
                        assert(src@[rep_idx + j] == src@[index + j]);
                    }
                    assert(src@.take(index as int).subrange(rep_idx as int, rep_idx + rl as int)
                        =~= src@.subrange(index as int, index + rl as int));
                    assert(src@.take(index as int) + src@.subrange(index as int, index + rl as int)
                        =~= src@.take(index as int + rl as int));
                    assert(ret@ + lz_pair_token(rl as int, rep_idx as int) =~= ret@.push(b0).push(
                        b1,
                    ).push(b2).push(b3));
                }
            }
            ret.push(b0);
            ret.push(b1);
            ret.push(b2);
            ret.push(b3);
            index = index + rl;
        }
    }
    while index < n
        invariant
            n == src@.len(),
            4 <= n <= 0x10000,
            4 <= index <= n,
            ret@.len() <= index,
            all_below_128(src@) ==> lz_decode_from(ret@, Seq::empty()) == Some(
                src@.take(index as int),
            ),
        decreases n - index,
    {
        proof {
            if all_below_128(src@) {
                lemma_lz_step_literal(ret@, src@.take(index as int), src@[index as int]);
                assert(src@.take(index as int).push(src@[index as int]) =~= src@.take(
                    index as int + 1,
                ));
            }
        }
        ret.push(src[index]);
        index = index + 1;
    }
    proof {
        assert(src@.take(n as int) =~= src@);
    }
    ret
}

/// Windowless encoder with the naive scan.
pub fn encode_lz_no_windows_u8(src: &[u8]) -> (out: Vec<u8>)
    requires
        4 <= src@.len() <= 0x10000,
    ensures
        out@.len() <= src@.len(),
        all_below_128(src@) ==> lz_decode_from(out@, Seq::empty()) == Some(src@),
{
    internal_encode_lz_no_windows_u8::<Original>(src)
}

/// Windowless encoder with the scan arranged for out-of-order processors.
pub fn encode_lz_no_windows_u8_fast(src: &[u8]) -> (out: Vec<u8>)
    requires
        4 <= src@.len() <= 0x10000,
    ensures
        out@.len() <= src@.len(),
        all_below_128(src@) ==> lz_decode_from(out@, Seq::empty()) == Some(src@),
{
    internal_encode_lz_no_windows_u8::<Fast>(src)
}

/// Windowless encoder with the word-wide scan.
pub fn encode_lz_no_windows_u8_faster(src: &[u8]) -> (out: Vec<u8>)
    requires
        4 <= src@.len() <= 0x10000,
    ensures
        out@.len() <= src@.len(),
        all_below_128(src@) ==> lz_decode_from(out@, Seq::empty()) == Some(src@),
{
    internal_encode_lz_no_windows_u8::<Faster>(src)
}

/// Windowed encoder: the run search looks back at most `windows_size`
/// positions, after an unwindowed pass over the leading window.
pub fn internal_encode_lempel_ziv_u8<T: WhileEqual>(src: &[u8], windows_size: usize) -> (out: Vec<
    u8,
>)
    requires
        3 <= windows_size,
        windows_size < src@.len(),
        src@.len() <= 0x10000,
    ensures
        out@.len() <= src@.len(),
        all_below_128(src@) ==> lz_decode_from(out@, Seq::empty()) == Some(src@),
{
    let n = src.len();
    let prefix = &src[0..windows_size + 1];
    proof {
        assert(prefix@ =~= src@.take(windows_size as int + 1));
        if all_below_128(src@) {
            assert(all_below_128(prefix@));
        }
    }
    let mut ret = internal_encode_lz_no_windows_u8::<T>(prefix);
    let mut index: usize = windows_size + 1;
    while index < n - 4
        invariant
            n == src@.len(),
            4 <= n <= 0x10000,
            3 <= windows_size < n,
            windows_size + 1 <= index <= n,
            ret@.len() <= index,
            all_below_128(src@) ==> lz_decode_from(ret@, Seq::empty()) == Some(
                src@.take(index as int),
            ),
        decreases n - index,
    {
        let mut s: usize = index - windows_size;
        let mut rep_len: u32 = 0;
        let mut rep_idx: usize = 0;
        while s < index - 4
            invariant
                n == src@.len(),
                4 <= n <= 0x10000,
                3 <= windows_size < n,
                windows_size + 1 <= index < n,
                index - windows_size <= s <= index,
                rep_len == 0 || (5 <= rep_len < 32768 && rep_idx + rep_len <= index && index
                    + rep_len <= n && (forall|j: int|
                    0 <= j < rep_len ==> #[trigger] src@[rep_idx + j] == src@[index + j])),
            decreases index - s,
        {
            if src[s] == src[index] {
                let l = T::while_equal(src, s, index);
                if 5 <= l && l < 32768 && rep_len < l {
                    rep_len = l;
                    rep_idx = s;
                }
            }
            s = s + 1;
        }
        if rep_len == 0 {
            proof {
                if all_below_128(src@) {
                    lemma_lz_step_literal(ret@, src@.take(index as int), src@[index as int]);
                    assert(src@.take(index as int).push(src@[index as int]) =~= src@.take(
                        index as int + 1,
                    ));
                }
            }
            ret.push(src[index]);
            index = index + 1;
        } else {
            let rl = rep_len as usize;
            let b0 = (128 + rl / 256) as u8;
            let b1 = (rl % 256) as u8;
            let b2 = (rep_idx / 256) as u8;
            let b3 = (rep_idx % 256) as u8;
            proof {
                if all_below_128(src@) {
                    lemma_lz_step_pair(ret@, src@.take(index as int), rl as int, rep_idx as int);
                    assert forall|j: int| 0 <= j < rl implies #[trigger] src@.take(
                        index as int,
                    ).subrange(rep_idx as int, rep_idx + rl as int)[j] == src@.subrange(
                        index as int,
                        index + rl as int,
                    )[j] by {
                        assert(src@[rep_idx + j] == src@[index + j]);
                    }
                    assert(src@.take(index as int).subrange(rep_idx as int, rep_idx + rl as int)
                        =~= src@.subrange(index as int, index + rl as int));
                    assert(src@.take(index as int) + src@.subrange(index as int, index + rl as int)
                        =~= src@.take(index as int + rl as int));
                    assert(ret@ + lz_pair_token(rl as int, rep_idx as int) =~= ret@.push(b0).push(
                        b1,
                    ).push(b2).push(b3));
                }
            }
            ret.push(b0);
            ret.push(b1);
            ret.push(b2);
            ret.push(b3);
            index = index + rl;
        }
    }
    while index < n
        invariant
            n == src@.len(),
            4 <= n <= 0x10000,
            windows_size + 1 <= index <= n,
            ret@.len() <= index,
            all_below_128(src@) ==> lz_decode_from(ret@, Seq::empty()) == Some(
                src@.take(index as int),
            ),
        decreases n - index,
    {
        proof {
            if all_below_128(src@) {
                lemma_lz_step_literal(ret@, src@.take(index as int), src@[index as int]);
                assert(src@.take(index as int).push(src@[index as int]) =~= src@.take(
                    index as int + 1,
                ));
            }
        }
        ret.push(src[index]);
        index = index + 1;
    }
    proof {
        assert(src@.take(n as int) =~= src@);
    }
    ret
}

/// Windowed encoder with the naive scan.
pub fn encode_lempel_ziv_u8(src: &[u8], windows_size: usize) -> (out: Vec<u8>)
    requires
        3 <= windows_size,
        windows_size < src@.len(),
        src@.len() <= 0x10000,
    ensures
        out@.len() <= src@.len(),
        all_below_128(src@) ==> lz_decode_from(out@, Seq::empty()) == Some(src@),
{
    internal_encode_lempel_ziv_u8::<Original>(src, windows_size)
}

/// Windowed encoder with the scan arranged for out-of-order processors.
pub fn encode_lempel_ziv_u8_fast(src: &[u8], windows_size: usize) -> (out: Vec<u8>)
    requires
        3 <= windows_size,
        windows_size < src@.len(),
        src@.len() <= 0x10000,
    ensures
        out@.len() <= src@.len(),
        all_below_128(src@) ==> lz_decode_from(out@, Seq::empty()) == Some(src@),
{
    internal_encode_lempel_ziv_u8::<Fast>(src, windows_size)
}

/// Windowed encoder with the word-wide scan.
pub fn encode_lz_u8_faster(src: &[u8], windows_size: usize) -> (out: Vec<u8>)
    requires
        3 <= windows_size,
        windows_size < src@.len(),
        src@.len() <= 0x10000,
    ensures
        out@.len() <= src@.len(),
        all_below_128(src@) ==> lz_decode_from(out@, Seq::empty()) == Some(src@),
{
    internal_encode_lempel_ziv_u8::<Faster>(src, windows_size)
}

/// The four bytes at `i`, read as one little-endian word, used to group
/// candidate run starts.
pub open spec fn lz_key_spec(s: Seq<u8>, i: int) -> int {
    s[i] + s[i + 1] * 256 + s[i + 2] * 0x10000 + s[i + 3] * 0x1000000
}

fn lz_key_at(src: &[u8], i: usize) -> (k: u32)
    requires
        i + 4 <= src@.len(),
    ensures
        k as int == lz_key_spec(src@, i as int),
{
    (src[i] as u32) + (src[i + 1] as u32) * 256 + (src[i + 2] as u32) * 0x10000 + (src[i + 3]
        as u32) * 0x1000000
}

/// Positions sharing a key start with the same byte.
proof fn lemma_lz_key_first_byte(s: Seq<u8>, a: int, b: int)
    requires
        0 <= a,
        a + 4 <= s.len(),
        0 <= b,
        b + 4 <= s.len(),
        lz_key_spec(s, a) == lz_key_spec(s, b),
    ensures
        s[a] == s[b],
{
    vstd::arithmetic::div_mod::lemma_mod_multiples_vanish(
        s[a + 1] as int + s[a + 2] * 256 + s[a + 3] * 0x10000,
        s[a] as int,
        256,
    );
    vstd::arithmetic::div_mod::lemma_mod_multiples_vanish(
        s[b + 1] as int + s[b + 2] * 256 + s[b + 3] * 0x10000,
        s[b] as int,
        256,
    );
    vstd::arithmetic::div_mod::lemma_small_mod(s[a] as nat, 256);
    vstd::arithmetic::div_mod::lemma_small_mod(s[b] as nat, 256);
    assert(lz_key_spec(s, a) % 256 == s[a] as int);
    assert(lz_key_spec(s, b) % 256 == s[b] as int);
}

/// All candidate run starts stored under a key lie before `bound`, leave
/// room for a whole key, and begin with the key's bytes.
pub open spec fn lz_entries_ok(es: Seq<usize>, s: Seq<u8>, bound: int, k: u32) -> bool {
    forall|x: int|
        0 <= x < es.len() ==> ((#[trigger] es[x]) + 4 <= s.len() && es[x] < bound && lz_key_spec(
            s,
            es[x] as int,
        ) == k as int)
}

/// Windowless encoder that groups earlier positions by their four leading
/// bytes, so only positions sharing them are scanned for a run.
pub fn internal_encode_lz_with_hashmap_u8<T: WhileEqual>(src: &[u8]) -> (out: Vec<u8>)
    requires
        4 <= src@.len() <= 0x10000,
    ensures
        out@.len() <= src@.len(),
        all_below_128(src@) ==> lz_decode_from(out@, Seq::empty()) == Some(src@),
{
    broadcast use vstd::std_specs::hash::group_hash_axioms;

    let n = src.len();
    let mut ret: Vec<u8> = Vec::new();
    let mut hmap: HashMap<u32, Vec<usize>> = HashMap::new();
    let mut index: usize = 0;
    while index < n - 4
        invariant
            n == src@.len(),
            4 <= n <= 0x10000,
            0 <= index <= n,
            ret@.len() <= index,
            all_below_128(src@) ==> lz_decode_from(ret@, Seq::empty()) == Some(
                src@.take(index as int),
            ),
            forall|k: u32|
                #[trigger] hmap@.contains_key(k) ==> lz_entries_ok(
                    hmap@[k]@,
                    src@,
                    index as int,
                    k,
                ),
        decreases n - index,
    {
        let key = lz_key_at(src, index);
        let mut rep_len: u32 = 0;
        let mut rep_idx: usize = 0;
        let prev_opt = hmap.remove(&key);
        match prev_opt {
            Some(mut prev) => {
                let mut x: usize = 0;
                while x < prev.len()
                    invariant
                        n == src@.len(),
                        4 <= n <= 0x10000,
                        4 <= index + 4 <= n,
                        index < n,
                        0 <= x <= prev@.len(),
                        key as int == lz_key_spec(src@, index as int),
                        lz_entries_ok(prev@, src@, index as int, key),
                        rep_len == 0 || (5 <= rep_len < 32768 && rep_idx + rep_len <= index
                            && index + rep_len <= n && (forall|j: int|
                            0 <= j < rep_len ==> #[trigger] src@[rep_idx + j] == src@[index + j])),
                    decreases prev@.len() - x,
                {
                    let s0 = prev[x];
                    proof {
                        lemma_lz_key_first_byte(src@, s0 as int, index as int);
                    }
                    let l = T::while_equal(src, s0, index);
                    if 5 <= l && l < 32768 && rep_len < l {
                        rep_len = l;
                        rep_idx = s0;
                    }
                    x = x + 1;
                }
                prev.push(index);
                hmap.insert(key, prev);
            },
            None => {
                let mut v: Vec<usize> = Vec::new();
                v.push(index);
                hmap.insert(key, v);
            },
        }
        if rep_len == 0 {
            proof {
                if all_below_128(src@) {
                    lemma_lz_step_literal(ret@, src@.take(index as int), src@[index as int]);
                    assert(src@.take(index as int).push(src@[index as int]) =~= src@.take(
                        index as int + 1,
                    ));
                }
            }
            ret.push(src[index]);
            index = index + 1;
        } else {
            let rl = rep_len as usize;
            let b0 = (128 + rl / 256) as u8;
            let b1 = (rl % 256) as u8;
            let b2 = (rep_idx / 256) as u8;
            let b3 = (rep_idx % 256) as u8;
            proof {
                if all_below_128(src@) {
                    lemma_lz_step_pair(ret@, src@.take(index as int), rl as int, rep_idx as int);
                    assert forall|j: int| 0 <= j < rl implies #[trigger] src@.take(
                        index as int,
                    ).subrange(rep_idx as int, rep_idx + rl as int)[j] == src@.subrange(
                        index as int,
                        index + rl as int,
                    )[j] by {
                        assert(src@[rep_idx + j] == src@[index + j]);
                    }
                    assert(src@.take(index as int).subrange(rep_idx as int, rep_idx + rl as int)
                        =~= src@.subrange(index as int, index + rl as int));
                    assert(src@.take(index as int) + src@.subrange(index as int, index + rl as int)
                        =~= src@.take(index as int + rl as int));
                    assert(ret@ + lz_pair_token(rl as int, rep_idx as int) =~= ret@.push(b0).push(
                        b1,
                    ).push(b2).push(b3));
                }
            }
            ret.push(b0);
            ret.push(b1);
            ret.push(b2);
            ret.push(b3);
            let lim = index + rl;
            let mut i2 = index + 1;
            while i2 < lim
                invariant
                    n == src@.len(),
                    index + 1 <= i2 <= lim,
                    lim <= n,
                    forall|k: u32|
                        #[trigger] hmap@.contains_key(k) ==> lz_entries_ok(
                            hmap@[k]@,
                            src@,
                            lim as int,
                            k,
                        ),
                decreases lim - i2,
            {
                if n - i2 >= 4 {
                    let k2 = lz_key_at(src, i2);
                    let e = hmap.remove(&k2);
                    match e {
                        Some(mut v) => {
                            v.push(i2);
                            hmap.insert(k2, v);
                        },
                        None => {
                            let mut v: Vec<usize> = Vec::new();
                            v.push(i2);
                            hmap.insert(k2, v);
                        },
                    }
                }
                i2 = i2 + 1;
            }
            index = index + rl;
        }
    }
    while index < n
        invariant
            n == src@.len(),
            4 <= n <= 0x10000,
            0 <= index <= n,
            ret@.len() <= index,
            all_below_128(src@) ==> lz_decode_from(ret@, Seq::empty()) == Some(
                src@.take(index as int),
            ),
        decreases n - index,
    {
        proof {
            if all_below_128(src@) {
                lemma_lz_step_literal(ret@, src@.take(index as int), src@[index as int]);
                assert(src@.take(index as int).push(src@[index as int]) =~= src@.take(
                    index as int + 1,
                ));
            }
        }
        ret.push(src[index]);
        index = index + 1;
    }
    proof {
        assert(src@.take(n as int) =~= src@);
    }
    ret
}

/// Windowless encoder grouped by leading bytes, with the word-wide scan.
pub fn encode_lz_with_hashmap_u8(src: &[u8]) -> (out: Vec<u8>)
    requires
        4 <= src@.len() <= 0x10000,
    ensures
        out@.len() <= src@.len(),
        all_below_128(src@) ==> lz_decode_from(out@, Seq::empty()) == Some(src@),
{
    internal_encode_lz_with_hashmap_u8::<Faster>(src)
}

/// Decode any output from the pair encoders back into the source bytes.
pub fn decode_lz_u8(src: &[u8]) -> (out: Vec<u8>)
    requires
        lz_decode_from(src@, Seq::empty()) is Some,
    ensures
        Some(out@) == lz_decode_from(src@, Seq::empty()),
{
    let n = src.len();
    let mut ret: Vec<u8> = Vec::new();
    let mut pos: usize = 0;
    proof {
        assert(src@.skip(0) =~= src@);
    }
    while pos < n
        invariant
            n == src@.len(),
            0 <= pos <= n,
            lz_decode_from(src@.skip(pos as int), ret@) == lz_decode_from(src@, Seq::empty()),
            lz_decode_from(src@.skip(pos as int), ret@) is Some,
        decreases n - pos,
    {
        let b = src[pos];
        proof {
            assert(src@.skip(pos as int)[0] == src@[pos as int]);
        }
        if b < 128 {
            proof {
                assert(src@.skip(pos as int).skip(1) =~= src@.skip(pos as int + 1));
            }
            ret.push(b);
            pos = pos + 1;
        } else {
            proof {
                assert(src@.skip(pos as int).len() >= 4);
                assert(src@.skip(pos as int)[1] == src@[pos as int + 1]);
                assert(src@.skip(pos as int)[2] == src@[pos as int + 2]);
                assert(src@.skip(pos as int)[3] == src@[pos as int + 3]);
                assert(src@.skip(pos as int).skip(4) =~= src@.skip(pos as int + 4));
            }
            let len = ((b - 128) as usize) * 256 + (src[pos + 1] as usize);
            let idx = (src[pos + 2] as usize) * 256 + (src[pos + 3] as usize);
            let ghost pre = ret@;
            let cur_len = ret.len();
            proof {
                assert(idx + len <= pre.len());
            }
            let mut j: usize = 0;
            while j < len
                invariant
                    0 <= j <= len,
                    cur_len == pre.len(),
                    idx + len <= cur_len,
                    ret@ == pre + pre.subrange(idx as int, idx as int + j as int),
                decreases len - j,
            {
                let v = ret[idx + j];
                proof {
                    assert(ret@[idx + j] == pre[idx + j]);
                    assert(pre + pre.subrange(idx as int, idx as int + j as int + 1) =~= ret@.push(
                        pre[idx + j],
                    ));
                }
                ret.push(v);
                j = j + 1;
            }
            pos = pos + 4;
        }
    }
    proof {
        assert(src@.skip(n as int) =~= Seq::<u8>::empty());
    }
    ret
}

} // verus!
