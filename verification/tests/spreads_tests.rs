use final_state_rs::spreads::{bit_reverse_spread, fast_spread_2, fse_spread, fse_spread_unsorted};

#[test]
fn fse_spread_test() {
    let mut sorted_hist = [0; 256];
    sorted_hist['A' as usize] = 7;
    sorted_hist['B' as usize] = 6;
    sorted_hist['C' as usize] = 3;
    assert_eq!(
        vec!['A', 'A', 'A', 'B', 'B', 'C', 'A', 'A', 'B', 'B', 'C', 'A', 'A', 'B', 'B', 'C'],
        fse_spread(&sorted_hist, 4).iter().map(|c| char::from(*c)).collect::<Vec<char>>()
    )
}

#[test]
fn fast_compression_spread_test() {
    let mut sorted_hist = [0; 256];
    sorted_hist['A' as usize] = 5;
    sorted_hist['B' as usize] = 5;
    sorted_hist['C' as usize] = 3;
    sorted_hist['D' as usize] = 3;
    assert_eq!(
        vec!['A', 'B', 'C', 'D', 'A', 'B', 'D', 'A', 'B', 'D', 'A', 'B', 'C', 'A', 'B', 'C'],
        fast_spread_2(&sorted_hist, 4).iter().map(|c| char::from(*c)).collect::<Vec<char>>()
    )
}

#[test]
fn fse_spread_unsorted_test() {
    let mut sorted_hist = [0; 256];
    sorted_hist['A' as usize] = 7;
    sorted_hist['B' as usize] = 6;
    sorted_hist['C' as usize] = 3;
    assert_eq!(
        vec!['A', 'A', 'A', 'B', 'B', 'C', 'A', 'A', 'B', 'B', 'C', 'A', 'A', 'B', 'B', 'C'],
        fse_spread_unsorted(&sorted_hist, 4).iter().map(|c| char::from(*c)).collect::<Vec<char>>()
    );
    let mut sorted_hist = [0; 256];
    sorted_hist['A' as usize] = 6;
    sorted_hist['B' as usize] = 7;
    sorted_hist['C' as usize] = 3;
    assert_eq!(
        vec!['B', 'B', 'B', 'A', 'A', 'C', 'B', 'B', 'A', 'A', 'C', 'B', 'B', 'A', 'A', 'C'],
        fse_spread_unsorted(&sorted_hist, 4).iter().map(|c| char::from(*c)).collect::<Vec<char>>()
    );
}

#[test]
fn bitreverse_spread_test() {
    let mut hist = [0; 256];
    hist['A' as usize] = 7;
    hist['B' as usize] = 6;
    hist['C' as usize] = 3;
    assert_eq!(
        vec!['A', 'B', 'A', 'B', 'A', 'B', 'A', 'C', 'A', 'B', 'A', 'C', 'A', 'B', 'B', 'C'],
        bit_reverse_spread(&hist, 4).iter().map(|c| char::from(*c)).collect::<Vec<char>>()
    )
}

#[test]
fn spreads_place_each_symbol_its_frequency_often() {
    let mut hist = [0; 256];
    hist[0] = 3;
    hist['x' as usize] = 9;
    hist['y' as usize] = 2;
    hist['z' as usize] = 2;
    for spread in [
        fse_spread(&hist, 4),
        fast_spread_2(&hist, 4),
        fse_spread_unsorted(&hist, 4),
        bit_reverse_spread(&hist, 4),
    ] {
        assert_eq!(spread.len(), 16);
        for b in 0..256usize {
            let n = spread.iter().filter(|&&v| v as usize == b).count();
            assert_eq!(n, hist[b], "symbol {}", b);
        }
    }
}
