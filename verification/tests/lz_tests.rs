use final_state_rs::lempel_ziv::{
    decode_lz_u8, encode_lempel_ziv_u8, encode_lz_no_windows_u8, encode_lz_no_windows_u8_fast,
    encode_lz_with_hashmap_u8, while_equal, while_equal_fast, while_equal_faster,
};

fn synthetic_text(n: usize) -> Vec<u8> {
    let phrases: [&str; 4] = [
        "the quick brown fox jumps over the lazy dog. ",
        "a stitch in time saves nine, so they say. ",
        "pack my box with five dozen liquor jugs. ",
        "she sells sea shells on the sea shore. ",
    ];
    let mut out = Vec::new();
    let mut seed: u64 = 0x853c49e6748fea9b;
    while out.len() < n {
        seed = seed.wrapping_mul(6364136223846793005).wrapping_add(1442695040888963407);
        let pick = ((seed >> 33) % 4) as usize;
        out.extend_from_slice(phrases[pick].as_bytes());
    }
    out.truncate(n);
    out
}

#[test]
fn compare_lz() {
    let book1 = synthetic_text(10000);
    let encoded1 = encode_lz_no_windows_u8_fast(&book1);
    let encoded2 = encode_lempel_ziv_u8(&book1, 2000);
    assert!(encoded1.len() <= encoded2.len());
    assert!(encoded1.len() < encoded2.len());
}

#[test]
fn lempel_ziv_no_windows_test() {
    let src = "ABCABCABCBADABCABCABCABCABCDBA";
    println!("source: {:?}", src.as_bytes());
    let encoded = encode_lz_no_windows_u8(src.as_bytes());
    println!("encoded {:?}", encoded);
    for e in encoded.iter() {
        println!("{:8b}", *e);
    }
    let decoded = decode_lz_u8(&encoded);
    assert_eq!(src.as_bytes(), decoded);
}

#[test]
fn consistency_with_hashmap_test() {
    let src = "ABCABCABCBADABCABCABCABCABCDBA".as_bytes();
    let encoded1 = encode_lz_no_windows_u8(src);
    let encoded2 = encode_lz_with_hashmap_u8(src);
    assert_eq!(encoded1, encoded2);
}

#[test]
fn lempel_ziv_no_windows_calgary_book1_compression_test() {
    let book1 = synthetic_text(4000);
    let book1 = &book1[3000..4000];
    let encoded = encode_lz_no_windows_u8(book1);
    let decoded = decode_lz_u8(&encoded);
    assert_eq!(book1, decoded)
}

#[test]
fn lempel_ziv_calgary_book1_compression_test() {
    let book1 = synthetic_text(4000);
    let book1 = &book1[..4000];
    let encoded = encode_lempel_ziv_u8(book1, 1000);

    assert!(encoded.len() < book1.len());
    let decoded = decode_lz_u8(&encoded);
    assert_eq!(book1, decoded)
}

#[test]
fn lempel_ziv_while_equal_consitency_doctest_enhanced() {
    let src = "ABCDFGHABCDEFGHI".as_bytes();
    let len1 = while_equal_fast(src, 0, 7);
    let len2 = while_equal(src, 0, 7);
    let len3 = while_equal_faster(src, 0, 7);
    assert_eq!(len1, 4);
    assert_eq!(len1, len2);
    assert_eq!(len1, len3);

    let src = "ABCDABCDEFGHI".as_bytes();
    let len1 = while_equal_fast(src, 0, 4);
    let len2 = while_equal(src, 0, 4);
    let len3 = while_equal_faster(src, 0, 4);
    assert_eq!(len1, len2);
    assert_eq!(len1, len3);

    let src = "AA".as_bytes();
    let len1 = while_equal_fast(src, 0, 1);
    let len2 = while_equal(src, 0, 1);
    assert_eq!(len1, len2);

    let src = "ABAB".as_bytes();
    let len1 = while_equal_fast(src, 0, 2);
    let len2 = while_equal(src, 0, 2);
    assert_eq!(len1, len2);

    let src = "ABCABC".as_bytes();
    let len1 = while_equal_fast(src, 0, 3);
    let len2 = while_equal(src, 0, 3);
    assert_eq!(len1, len2);

    let src = "ABCDABC".as_bytes();
    let len1 = while_equal_fast(src, 0, 4);
    let len2 = while_equal(src, 0, 4);
    assert_eq!(len1, len2);

    let src = "ABCDABCD".as_bytes();
    let len1 = while_equal_fast(src, 0, 4);
    let len2 = while_equal(src, 0, 4);
    assert_eq!(len1, len2);
}
