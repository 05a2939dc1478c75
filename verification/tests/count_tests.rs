use final_state_rs::count::{multi_bucket_count_u8, simple_count_u8, simple_count_u8_inplace};

fn synthetic_text(n: usize) -> Vec<u8> {
    // Deterministic English-like filler, all bytes below 128.
    let phrases: [&str; 4] = [
        "the quick brown fox jumps over the lazy dog. ",
        "a stitch in time saves nine, so they say. ",
        "pack my box with five dozen liquor jugs. ",
        "she sells sea shells on the sea shore. ",
    ];
    let mut out = Vec::new();
    let mut seed: u64 = 0x2545f4914f6cdd1d;
    while out.len() < n {
        seed = seed.wrapping_mul(6364136223846793005).wrapping_add(1442695040888963407);
        let pick = ((seed >> 33) % 4) as usize;
        out.extend_from_slice(phrases[pick].as_bytes());
    }
    out.truncate(n);
    out
}

#[test]
fn test_counters_consistency() {
    let book1 = synthetic_text(20000);
    let mut hist1 = [0; 256];
    let max1 = simple_count_u8_inplace(&book1, &mut hist1);
    let (hist2, max2) = simple_count_u8(&book1);
    let mut hist4 = [0; 256];
    let max4 = multi_bucket_count_u8(&book1, &mut hist4);
    assert_eq!(hist1, hist2);
    assert_eq!(hist1, hist4);
    assert_eq!(max1, max2);
    assert_eq!(max1, max4);
}

#[test]
fn correctness_multi_bucket_count() {
    let mut ret = [0; 256];
    multi_bucket_count_u8(&[1, 2, 3, 4, 5], &mut ret);
    assert_eq!(ret[1], 1, "error at the 1st block");
    assert_eq!(ret[2], 1, "error at the 2nd block");
    assert_eq!(ret[3], 1, "error at the 3th block");
    assert_eq!(ret[4], 1, "error at the 4th block");
    assert_eq!(ret[5], 1, "error at the 5th block");
}

#[test]
fn histogram_sums_to_the_length() {
    let src = synthetic_text(777);
    let (hist, max_symbol) = simple_count_u8(&src);
    assert_eq!(hist.iter().sum::<usize>(), src.len());
    assert!(hist[max_symbol] > 0);
    for i in max_symbol + 1..256 {
        assert_eq!(hist[i], 0);
    }
}
