use final_state_rs::count::simple_count_u8;
use final_state_rs::normalization::{
    build_cumulative_function, fast_normalization_1, normalization_with_compensation_binary_heap,
    normalization_with_fast_compensation, slow_normalization, zstd_normalization_1_inplace,
    NormError,
};

fn get_calgary_extract_histogram_1() -> (([usize; 256], usize), [u8; 50]) {
    const SRC: [u8; 50] = [
        37, 65, 32, 65, 98, 100, 111, 117, 44, 32, 73, 46, 69, 46, 10, 37, 65, 32, 87, 111, 110,
        103, 44, 32, 75, 46, 89, 46, 10, 37, 68, 32, 49, 57, 56, 50, 10, 37, 84, 32, 65, 110, 97,
        108, 121, 115, 105, 115, 32, 111,
    ];
    (simple_count_u8(&SRC), SRC)
}

#[test]
fn test_fast_normalization_1() {
    let hist = vec![2, 3, 6, 2];
    let table_log = 4;
    let normalized = fast_normalization_1(&hist, table_log).expect("expect to succeed");
    println!("{:?}", normalized);
    assert_eq!(normalized.iter().sum::<usize>(), 1 << table_log)
}

#[test]
fn test_slow_normalization() {
    let hist = vec![2, 3, 6, 2];
    let table_log = 4;
    let normalized = slow_normalization(&hist, table_log).expect("expect to succeed");
    println!("{:?}", normalized);
    assert_eq!(normalized.iter().sum::<usize>(), 1 << table_log)
}

#[test]
fn test_slow_normalization_vs_fast() {
    // A table of four bits cannot hold 256 distinct symbols with the
    // floor-to-one rule, so both normalizers must refuse, and they must
    // agree with each other.
    let mut hist = vec![1; 256];
    for _ in 0..5000 {
        hist[rand::random::<u8>() as usize] += 1;
    }
    let table_log = 4;
    let normalized = slow_normalization(&hist, table_log);
    let normalized2 = fast_normalization_1(&hist, table_log);
    assert_eq!(normalized.is_err(), normalized2.is_err());
    assert!(normalized.is_err());
}

#[test]
fn normalization_with_compensation_binary_heap_test() {
    let table_log = 8;
    let ((histogram, max_symbol), _) = get_calgary_extract_histogram_1();

    let normalized_histogram =
        normalization_with_compensation_binary_heap(&histogram, table_log, max_symbol).unwrap();

    for i in 0..max_symbol {
        if histogram[i] > 0 {
            assert!(normalized_histogram[i] > 0);
        }
    }
}

#[test]
fn fast_compensation_matches_budget() {
    let table_log = 8;
    let ((histogram, _), _) = get_calgary_extract_histogram_1();
    let normalized = normalization_with_fast_compensation(&histogram, table_log).unwrap();
    assert_eq!(normalized.iter().sum::<usize>(), 256);
    for i in 0..256 {
        if histogram[i] > 0 {
            assert!(normalized[i] >= 1);
        } else {
            assert_eq!(normalized[i], 0);
        }
    }
}

#[test]
fn normalization_is_idempotent_on_normalized_input() {
    let table_log = 8;
    let ((histogram, _), _) = get_calgary_extract_histogram_1();
    let normalized = normalization_with_fast_compensation(&histogram, table_log).unwrap();
    let again = fast_normalization_1(&normalized, table_log).unwrap();
    assert_eq!(normalized, again);
    let again2 = normalization_with_fast_compensation(&normalized, table_log).unwrap();
    assert_eq!(normalized, again2);
    let again3 = slow_normalization(&normalized, table_log).unwrap();
    assert_eq!(normalized, again3);
}

#[test]
fn zstd_normalization_budget() {
    let table_log = 8;
    let ((histogram, max_symbol), _) = get_calgary_extract_histogram_1();
    let mut hist = histogram.to_vec();
    zstd_normalization_1_inplace(&mut hist, table_log, max_symbol).unwrap();
    assert_eq!(hist.iter().sum::<usize>(), 256);
    for i in 0..256 {
        if histogram[i] > 0 {
            assert!(hist[i] >= 1);
        } else {
            assert_eq!(hist[i], 0);
        }
    }
}

#[test]
fn degenerate_single_symbol_is_refused() {
    let src = "AAAAAAAAAA".as_bytes();
    let (hist, _) = simple_count_u8(src);
    let r = fast_normalization_1(&hist, 8);
    assert!(matches!(r, Err(e) if matches!(*e, NormError::RunLengthEncoding(_))));
}

#[test]
fn cumulative_function_steps_by_the_frequencies() {
    let ((histogram, _), _) = get_calgary_extract_histogram_1();
    let normalized = normalization_with_fast_compensation(&histogram, 8).unwrap();
    let cs = build_cumulative_function(&normalized);
    assert_eq!(cs.len(), normalized.len() + 1);
    assert_eq!(cs[0], 0);
    for i in 0..normalized.len() {
        assert_eq!(cs[i + 1] - cs[i], normalized[i]);
    }
    assert_eq!(cs[normalized.len()], 256);
}

#[test]
fn empty_input_is_refused() {
    let hist = vec![0usize; 256];
    let r = fast_normalization_1(&hist, 8);
    assert!(matches!(r, Err(e) if matches!(*e, NormError::EmptyInput)));
    let r = slow_normalization(&hist, 8);
    assert!(matches!(r, Err(e) if matches!(*e, NormError::EmptyInput)));
    let r = normalization_with_fast_compensation(&hist, 8);
    assert!(matches!(r, Err(e) if matches!(*e, NormError::EmptyInput)));
    let r = normalization_with_compensation_binary_heap(&hist, 8, 255);
    assert!(matches!(r, Err(e) if matches!(*e, NormError::EmptyInput)));
    let mut hist = vec![0usize; 256];
    let r = zstd_normalization_1_inplace(&mut hist, 8, 255);
    assert!(matches!(r, Err(e) if matches!(*e, NormError::EmptyInput)));
}
