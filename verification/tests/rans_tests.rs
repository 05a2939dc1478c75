use final_state_rs::count::simple_count_u8;
use final_state_rs::normalization::{
    normalization_with_compensation_binary_heap, normalization_with_fast_compensation,
};
use final_state_rs::r_ans::{decode_rans, encode_rans};

fn get_calgary_extract_histogram_1() -> (([usize; 256], usize), [u8; 50]) {
    const SRC: [u8; 50] = [
        37, 65, 32, 65, 98, 100, 111, 117, 44, 32, 73, 46, 69, 46, 10, 37, 65, 32, 87, 111, 110,
        103, 44, 32, 75, 46, 89, 46, 10, 37, 68, 32, 49, 57, 56, 50, 10, 37, 84, 32, 65, 110, 97,
        108, 121, 115, 105, 115, 32, 111,
    ];
    (simple_count_u8(&SRC), SRC)
}

fn pad_to_256(norm: &[usize]) -> Vec<usize> {
    let mut out = vec![0usize; 256];
    for (i, &v) in norm.iter().enumerate().take(256) {
        out[i] = v;
    }
    out
}

#[test]
fn rans_fuzzing_u8() {
    let table_log = 13;

    let mut src = vec![];
    let mut hist = vec![1; 256];
    for _ in 0..100 {
        let symbol = rand::random::<u8>();
        src.push(symbol);
        hist[symbol as usize] += 1;
    }
    let src_size = src.len() * 16;
    println!("hist: {:?}", hist);
    let hist = normalization_with_compensation_binary_heap(&hist, table_log, 256).unwrap();
    let hist = pad_to_256(&hist);
    let r = encode_rans(&hist, table_log, &src);
    println!("starting state {}", r.0);

    println!("\n{:?}\n", r);

    let (state, nb_bits, flac) = r;
    let encoded_size = nb_bits.len() * 8 + flac.len() * 8;
    let decoded = decode_rans(state, nb_bits, flac, &hist, table_log, src.len()).unwrap();

    assert_eq!(src, decoded);
    println!("{:?}", decoded);

    println!("encoded size + pop information: {}", encoded_size);
    println!("src size: {}", src_size);
}

#[test]
fn rans_fuzzing_with_zeros_u8() {
    let table_log = 13;

    let mut src = vec![];
    let mut hist = vec![0; 256];
    let mut zeroed = vec![0; 256];
    for _ in 0..10 {
        let symbol = rand::random::<u8>();
        zeroed[symbol as usize] = 1;
    }
    for _ in 0..100 {
        let symbol = rand::random::<u8>();
        if zeroed[symbol as usize] == 1 {
            continue;
        }
        src.push(symbol);
        hist[symbol as usize] += 1;
    }
    let src_size = src.len() * 16;
    println!("hist: {:?}", hist);
    let hist = normalization_with_compensation_binary_heap(&hist, table_log, 256).unwrap();
    let hist = pad_to_256(&hist);

    let r = encode_rans(&hist, table_log, &src);
    println!("starting state {}", r.0);

    println!("\n{:?}\n", r);

    let (state, nb_bits, flac) = r;
    let encoded_size = nb_bits.len() * 8 + flac.len() * 8;
    let decoded = decode_rans(state, nb_bits, flac, &hist, table_log, src.len()).unwrap();

    assert_eq!(src, decoded);
    println!("{:?}", decoded);

    println!("encoded size + pop information: {}", encoded_size);
    println!("src size: {}", src_size);
}

#[test]
fn test_rans_homemade_1() {
    let table_log = 8;
    let ((histogram, _), src) = get_calgary_extract_histogram_1();
    let normalized_histogram = normalization_with_fast_compensation(&histogram, table_log).unwrap();

    assert_eq!(normalized_histogram.iter().sum::<usize>(), 1 << table_log);

    let (state, bits, stream) = encode_rans(&normalized_histogram, table_log, &src);
    let res = decode_rans(
        state,
        bits,
        stream,
        &normalized_histogram,
        table_log,
        src.len(),
    )
    .unwrap();

    assert_eq!(src.to_vec(), res);
}

#[test]
fn uniform_alphabet_small() {
    // A nearly uniform alphabet is incompressible: the stream plus any
    // reasonable table overhead exceeds the input.
    let src = "ABCDEFGHIJKLMNOPQRSTUVWXYZA".as_bytes();
    let table_log = 8;
    let (hist, _) = simple_count_u8(src);
    let norm = normalization_with_fast_compensation(&hist, table_log).unwrap();
    let (state, bits, stream) = encode_rans(&norm, table_log, src);
    let decoded = decode_rans(state, bits, stream.clone(), &norm, table_log, src.len()).unwrap();
    assert_eq!(src.to_vec(), decoded);
    let table_overhead = norm.iter().filter(|&&f| f > 0).count();
    assert!(stream.len() + table_overhead >= src.len());
}

#[test]
fn skewed_tiny() {
    let ((hist, _), src) = get_calgary_extract_histogram_1();
    let table_log = 8;
    let norm = normalization_with_fast_compensation(&hist, table_log).unwrap();
    assert_eq!(norm.iter().sum::<usize>(), 256);
    for i in 0..256 {
        if hist[i] > 0 {
            assert!(norm[i] >= 1);
        }
    }
    let (state, bits, stream) = encode_rans(&norm, table_log, &src);
    let decoded = decode_rans(state, bits, stream, &norm, table_log, src.len()).unwrap();
    assert_eq!(src.to_vec(), decoded);
}

#[test]
fn zeroed_symbols() {
    // Ten byte values never drawn: their frequencies stay zero while every
    // occurring symbol keeps one, and the round trip is exact.
    let table_log = 11;
    let mut src = vec![];
    let mut zeroed = vec![false; 256];
    for i in 0..10 {
        zeroed[i * 25] = true;
    }
    for _ in 0..100 {
        let symbol = rand::random::<u8>();
        if zeroed[symbol as usize] {
            continue;
        }
        src.push(symbol);
    }
    if src.is_empty() {
        src.push(7);
    }
    let (hist, _) = simple_count_u8(&src);
    let norm = normalization_with_compensation_binary_heap(&hist, table_log, 256).unwrap();
    let norm = pad_to_256(&norm);
    for i in 0..256 {
        if hist[i] == 0 {
            assert_eq!(norm[i], 0);
        } else {
            assert!(norm[i] >= 1);
        }
    }
    let (state, bits, stream) = encode_rans(&norm, table_log, &src);
    let decoded = decode_rans(state, bits, stream, &norm, table_log, src.len()).unwrap();
    assert_eq!(src, decoded);
}

#[test]
fn rans_encoded_length_tracks_the_entropy() {
    // The stream length stays within a few bytes of the information content
    // of the source measured against the normalized frequencies.
    let ((hist, _), src) = get_calgary_extract_histogram_1();
    let table_log = 8;
    let norm = normalization_with_fast_compensation(&hist, table_log).unwrap();
    let (_, _, stream) = encode_rans(&norm, table_log, &src);
    let mut entropy_bits: f64 = 0.0;
    for i in 0..256 {
        if hist[i] > 0 {
            let p = norm[i] as f64 / 256.0;
            entropy_bits += hist[i] as f64 * (1.0 / p).log2();
        }
    }
    let stream_bits = stream.len() as f64 * 8.0;
    println!("stream {} bits, entropy {} bits", stream_bits, entropy_bits);
    assert!(stream_bits <= entropy_bits + 40.0);
    assert!(stream_bits + 40.0 >= entropy_bits);
}

#[test]
fn decoder_rejects_bad_payloads() {
    let ((hist, _), src) = get_calgary_extract_histogram_1();
    let table_log = 8;
    let norm = normalization_with_fast_compensation(&hist, table_log).unwrap();
    let (state, bits, stream) = encode_rans(&norm, table_log, &src);

    // a state outside the coder's interval
    let r = decode_rans(1 << 33, bits.clone(), stream.clone(), &norm, table_log, src.len());
    assert_eq!(r, Err(final_state_rs::r_ans::CodecError::InvalidState));

    // an empty bit stream cannot carry anything
    let r = decode_rans(state, bits, Vec::new(), &norm, table_log, src.len());
    assert_eq!(r, Err(final_state_rs::r_ans::CodecError::TruncatedStream));
}
