//! LZSS-flavoured front end: the same length-index pair scheme as the
//! Lempel-Ziv module, under the names its callers use.

use vstd::prelude::*;

use crate::lempel_ziv::{
    all_below_128, internal_encode_lempel_ziv_u8, internal_encode_lz_no_windows_u8,
    internal_encode_lz_with_hashmap_u8, lz_decode_from, we_post,
};
use crate::lempel_ziv::{decode_lz_u8, Fast, Faster, Original, WhileEqual, X86_64};

verus! {

/// Windowless encoder with the naive scan.
pub fn encode_lzw_no_windows_u8(src: &[u8]) -> (out: Vec<u8>)
    requires
        4 <= src@.len() <= 0x10000,
    ensures
        out@.len() <= src@.len(),
        all_below_128(src@) ==> lz_decode_from(out@, Seq::empty()) == Some(src@),
{
    internal_encode_lz_no_windows_u8::<Original>(src)
}

/// Windowless encoder with the scan arranged for out-of-order processors.
pub fn encode_lzw_no_windows_u8_fast(src: &[u8]) -> (out: Vec<u8>)
    requires
        4 <= src@.len() <= 0x10000,
    ensures
        out@.len() <= src@.len(),
        all_below_128(src@) ==> lz_decode_from(out@, Seq::empty()) == Some(src@),
{
    internal_encode_lz_no_windows_u8::<Fast>(src)
}

/// Windowless encoder with the word-wide scan.
pub fn encode_lzw_no_windows_u8_faster(src: &[u8]) -> (out: Vec<u8>)
    requires
        4 <= src@.len() <= 0x10000,
    ensures
        out@.len() <= src@.len(),
        all_below_128(src@) ==> lz_decode_from(out@, Seq::empty()) == Some(src@),
{
    internal_encode_lz_no_windows_u8::<Faster>(src)
}

/// Windowed encoder with the naive scan.
pub fn encode_lzss_u8(src: &[u8], windows_size: usize) -> (out: Vec<u8>)
    requires
        3 <= windows_size,
        windows_size < src@.len(),
        src@.len() <= 0x10000,
    ensures
        out@.len() <= src@.len(),
        all_below_128(src@) ==> lz_decode_from(out@, Seq::empty()) == Some(src@),
{
    internal_encode_lempel_ziv_u8::<Original>(src, windows_size)
}

/// Windowed encoder with the scan arranged for out-of-order processors.
pub fn encode_lzss_u8_fast(src: &[u8], windows_size: usize) -> (out: Vec<u8>)
    requires
        3 <= windows_size,
        windows_size < src@.len(),
        src@.len() <= 0x10000,
    ensures
        out@.len() <= src@.len(),
        all_below_128(src@) ==> lz_decode_from(out@, Seq::empty()) == Some(src@),
{
    internal_encode_lempel_ziv_u8::<Fast>(src, windows_size)
}

/// Windowed encoder with the word-wide scan.
pub fn encode_lzss_u8_faster(src: &[u8], windows_size: usize) -> (out: Vec<u8>)
    requires
        3 <= windows_size,
        windows_size < src@.len(),
        src@.len() <= 0x10000,
    ensures
        out@.len() <= src@.len(),
        all_below_128(src@) ==> lz_decode_from(out@, Seq::empty()) == Some(src@),
{
    internal_encode_lempel_ziv_u8::<Faster>(src, windows_size)
}

/// Windowless encoder grouped by leading bytes, with the word-wide scan.
pub fn encode_lzss_u8_dict(src: &[u8]) -> (out: Vec<u8>)
    requires
        4 <= src@.len() <= 0x10000,
    ensures
        out@.len() <= src@.len(),
        all_below_128(src@) ==> lz_decode_from(out@, Seq::empty()) == Some(src@),
{
    internal_encode_lz_with_hashmap_u8::<Faster>(src)
}

/// Decode any output from the pair encoders back into the source bytes.
pub fn decode_lzw_u8(src: &[u8]) -> (out: Vec<u8>)
    requires
        lz_decode_from(src@, Seq::empty()) is Some,
    ensures
        Some(out@) == lz_decode_from(src@, Seq::empty()),
{
    decode_lz_u8(src)
}

/// Public access to Original::while_equal
pub fn while_equal(src: &[u8], from: usize, index: usize) -> (len: u32)
    requires
        from < index,
        index < src@.len(),
        src@.len() <= 0xffff_ffff,
        src@[from as int] == src@[index as int],
    ensures
        we_post(src@, from as int, index as int, len as int),
{
    Original::while_equal(src, from, index)
}

/// Public access to Fast::while_equal
pub fn while_equal_fast(src: &[u8], from: usize, index: usize) -> (len: u32)
    requires
        from < index,
        index < src@.len(),
        src@.len() <= 0xffff_ffff,
        src@[from as int] == src@[index as int],
    ensures
        we_post(src@, from as int, index as int, len as int),
{
    Fast::while_equal(src, from, index)
}

/// Public access to Faster::while_equal
pub fn while_equal_faster(src: &[u8], from: usize, index: usize) -> (len: u32)
    requires
        from < index,
        index < src@.len(),
        src@.len() > 9,
        src@.len() <= 0xffff_ffff,
        src@[from as int] == src@[index as int],
    ensures
        we_post(src@, from as int, index as int, len as int),
{
    Faster::while_equal(src, from, index)
}

/// Public access to X86_64::while_equal
pub fn while_equal_target_x86_64(src: &[u8], from: usize, index: usize) -> (len: u32)
    requires
        from < index,
        index < src@.len(),
        src@.len() > 17,
        src@.len() <= 0xffff_ffff,
        src@[from as int] == src@[index as int],
    ensures
        we_post(src@, from as int, index as int, len as int),
{
    X86_64::while_equal(src, from, index)
}

} // verus!
