use final_state_rs::count::multi_bucket_count_u8;
use final_state_rs::normalization::normalization_with_compensation_binary_heap;
use final_state_rs::r_ans::{decode_rans, encode_rans};
use final_state_rs::spreads::{bit_reverse_spread, fse_spread_unsorted};
use final_state_rs::t_ans::{
    build_decode_table, build_encode_table, decode_symbol, decode_tans, encode_symbol, encode_tans,
};
use tiny_bitstream::{BitDstream, BitEstream, BitReader};

fn synthetic_text(n: usize) -> Vec<u8> {
    let phrases: [&str; 4] = [
        "the quick brown fox jumps over the lazy dog. ",
        "a stitch in time saves nine, so they say. ",
        "pack my box with five dozen liquor jugs. ",
        "she sells sea shells on the sea shore. ",
    ];
    let mut out = Vec::new();
    let mut seed: u64 = 0x9e3779b97f4a7c15;
    while out.len() < n {
        seed = seed.wrapping_mul(6364136223846793005).wrapping_add(1442695040888963407);
        let pick = ((seed >> 33) % 4) as usize;
        out.extend_from_slice(phrases[pick].as_bytes());
    }
    out.truncate(n);
    out
}

fn pad_to_256(norm: &[usize]) -> Vec<usize> {
    let mut out = vec![0usize; 256];
    for (i, &v) in norm.iter().enumerate().take(256) {
        out[i] = v;
    }
    out
}

#[test]
fn test_build_table() {
    let mut hist = [0; 256];
    hist['A' as usize] = 3;
    hist['B' as usize] = 3;
    hist['C' as usize] = 2;
    let data = "ABBCBACA";
    let spread = bit_reverse_spread(&hist, 3);

    let (table, delta_nb_bits, starts) = build_encode_table(&hist, 3, &spread);

    let mut state = 8;
    let mut stream = BitEstream::new();

    data.chars().for_each(|symbol| {
        state = encode_symbol(
            &delta_nb_bits,
            &starts,
            &table,
            state,
            symbol as usize,
            &mut stream,
        );
    });

    let encoded_data: Vec<u8> = stream.into();
    for i in encoded_data.iter() {
        println!("{:08b}", i);
    }
    let mut dstream: BitDstream = encoded_data.try_into().unwrap();
    dstream.read(1).unwrap();

    state -= 1 << 3;
    let (nb_bits, new_states) = build_decode_table(3, &spread, &hist);

    let mut decoded_data = vec![];
    for _ in 0..8 {
        let (new_state, symbol) =
            decode_symbol(&mut dstream, &nb_bits, &new_states, state, &spread);
        decoded_data.push(symbol);
        state = new_state;
    }
    decoded_data.reverse();
    assert_eq!(
        data.chars().map(|c| c as u8).collect::<Vec<u8>>(),
        decoded_data
    );
}

#[test]
fn tans_medium_corpus_roundtrip() {
    // A four-thousand-byte english corpus, eleven-bit table, bit-reverse
    // spread: the round trip is exact and the stream is smaller than the
    // source.
    const TABLE_LOG: usize = 11;
    let book = synthetic_text(4000);
    let mut hist = [0; 256];
    let max_symbol = multi_bucket_count_u8(&book, &mut hist);
    let norm = normalization_with_compensation_binary_heap(&hist, TABLE_LOG, max_symbol).unwrap();
    let norm = pad_to_256(&norm);
    let spread = bit_reverse_spread(&norm, TABLE_LOG);
    let mut state = 1 << TABLE_LOG;
    let (encoded, fin) = encode_tans(&book, &norm, &spread, TABLE_LOG, &mut state);
    println!("encoded stream size: {}", encoded.len());
    assert!(encoded.len() < book.len());

    let mut decoded = vec![0u8; book.len()];
    decode_tans(
        encoded,
        &norm,
        &spread,
        TABLE_LOG,
        fin,
        &mut decoded,
    )
    .unwrap();
    assert_eq!(book, decoded);
}

#[test]
fn tans_book_compression_with_fse_spread() {
    const TABLE_LOG: usize = 11;
    let book = synthetic_text(4000);
    let mut hist = [0; 256];
    let max_symbol = multi_bucket_count_u8(&book, &mut hist);
    let norm = normalization_with_compensation_binary_heap(&hist, TABLE_LOG, max_symbol).unwrap();
    let norm = pad_to_256(&norm);
    let spread = fse_spread_unsorted(&norm, TABLE_LOG);
    println!("spread len {}", spread.len());
    let mut state = 1 << TABLE_LOG;
    let (encoded, fin) = encode_tans(&book, &norm, &spread, TABLE_LOG, &mut state);
    println!("encoded stream size: {}", encoded.len());

    let mut decoded = vec![0u8; book.len()];
    decode_tans(
        encoded,
        &norm,
        &spread,
        TABLE_LOG,
        fin,
        &mut decoded,
    )
    .unwrap();
    assert_eq!(book, decoded);
}

#[test]
fn rans_on_the_same_corpus() {
    // The range coder on the same corpus with a thirteen-bit table lands
    // close to the table-based stream. On the reference corpus the two are
    // within one percent; this synthetic corpus is more compressible and
    // the coarser eleven-bit table costs more, so a tenth is asserted.
    let book = synthetic_text(4000);
    let mut hist = [0; 256];
    let max_symbol = multi_bucket_count_u8(&book, &mut hist);

    let norm11 = normalization_with_compensation_binary_heap(&hist, 11, max_symbol).unwrap();
    let norm11 = pad_to_256(&norm11);
    let spread = bit_reverse_spread(&norm11, 11);
    let mut state = 1 << 11;
    let (tans_stream, _) = encode_tans(&book, &norm11, &spread, 11, &mut state);

    let norm13 = normalization_with_compensation_binary_heap(&hist, 13, max_symbol).unwrap();
    let norm13 = pad_to_256(&norm13);
    let (st, bits, rans_stream) = encode_rans(&norm13, 13, &book);
    let decoded = decode_rans(st, bits, rans_stream.clone(), &norm13, 13, book.len()).unwrap();
    assert_eq!(book, decoded);

    let a = tans_stream.len() as f64;
    let b = rans_stream.len() as f64;
    println!("tans {} bytes, rans {} bytes", a, b);
    assert!((a - b).abs() <= 0.10 * a.max(b) + 8.0);
}
