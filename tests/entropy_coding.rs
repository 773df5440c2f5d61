use jpeg_decoder::entropy_coding::{decode, encode, run_length_decoded, run_length_encoded};
use jpeg_decoder::DecodeError;

#[test]
fn zigzag_encode_order() {
    let quantized_block: [[i32; 8]; 8] = [
        [16, 11, 10, 16, 24, 40, 51, 61],
        [12, 12, 14, 19, 26, 58, 60, 55],
        [14, 13, 16, 24, 40, 57, 69, 56],
        [14, 17, 22, 29, 51, 87, 80, 62],
        [18, 22, 37, 56, 68, 109, 103, 77],
        [24, 35, 55, 64, 81, 104, 113, 92],
        [49, 64, 78, 87, 103, 121, 120, 101],
        [72, 92, 95, 98, 112, 100, 103, 99],
    ];

    let expected_output: Vec<i32> = vec![
        16, 11, 12, 14, 12, 10, 16, 14, 13, 14, 18, 17, 16, 19, 24, 40, 26, 24, 22, 22, 24, 49,
        35, 37, 29, 40, 58, 51, 61, 60, 57, 51, 56, 55, 64, 72, 92, 78, 64, 68, 87, 69, 55, 56,
        80, 109, 81, 87, 95, 98, 103, 104, 103, 62, 77, 113, 121, 112, 100, 120, 92, 101, 103,
        99,
    ];

    assert_eq!(encode(&quantized_block), expected_output);
}

#[test]
fn zigzag_decode_order() {
    let expected_output: [[i32; 8]; 8] = [
        [16, 11, 10, 16, 24, 40, 51, 61],
        [12, 12, 14, 19, 26, 58, 60, 55],
        [14, 13, 16, 24, 40, 57, 69, 56],
        [14, 17, 22, 29, 51, 87, 80, 62],
        [18, 22, 37, 56, 68, 109, 103, 77],
        [24, 35, 55, 64, 81, 104, 113, 92],
        [49, 64, 78, 87, 103, 121, 120, 101],
        [72, 92, 95, 98, 112, 100, 103, 99],
    ];

    let quantized_block: Vec<i32> = vec![
        16, 11, 12, 14, 12, 10, 16, 14, 13, 14, 18, 17, 16, 19, 24, 40, 26, 24, 22, 22, 24, 49,
        35, 37, 29, 40, 58, 51, 61, 60, 57, 51, 56, 55, 64, 72, 92, 78, 64, 68, 87, 69, 55, 56,
        80, 109, 81, 87, 95, 98, 103, 104, 103, 62, 77, 113, 121, 112, 100, 120, 92, 101, 103,
        99,
    ];

    assert_eq!(decode(&quantized_block), Ok(expected_output));
}

#[test]
fn run_length_encoding() {
    let input = vec![
        16, 11, 12, 12, 0, 10, 14, 0, 0, 0, 0, 0, 0, 0, 0, 0, 0, 0, 0, 0, 0, 0, 0, 0, 0, 0, 0, 0,
        0, 0, 0, 0, 0, 0, 0, 0, 0, 0, 0, 0, 0, 0, 0, 0, 0, 0, 0, 0, 0, 0, 0, 0, 0, 0, 0, 0, 0, 0,
        0, 0, 0, 0, 0, 0,
    ];
    let expected_output = [(0, 16), (0, 11), (0, 12), (0, 12), (1, 10), (0, 14), (0, 0)];
    assert_eq!(run_length_encoded(input), expected_output);
}

#[test]
fn run_length_decoding() {
    let input = [(0, 16), (0, 11), (0, 12), (0, 12), (1, 10), (0, 14), (0, 0)].to_vec();
    let expected_output = vec![
        16, 11, 12, 12, 0, 10, 14, 0, 0, 0, 0, 0, 0, 0, 0, 0, 0, 0, 0, 0, 0, 0, 0, 0, 0, 0, 0, 0,
        0, 0, 0, 0, 0, 0, 0, 0, 0, 0, 0, 0, 0, 0, 0, 0, 0, 0, 0, 0, 0, 0, 0, 0, 0, 0, 0, 0, 0, 0,
        0, 0, 0, 0, 0, 0,
    ];
    assert_eq!(run_length_decoded(input), expected_output);
}

fn index_matrix() -> [[i32; 8]; 8] {
    let mut m = [[0i32; 8]; 8];
    for r in 0..8 {
        for c in 0..8 {
            m[r][c] = (r * 8 + c) as i32;
        }
    }
    m
}

#[test]
fn zigzag_golden_order_of_positions() {
    let expected: Vec<i32> = vec![
        0, 1, 8, 16, 9, 2, 3, 10, 17, 24, 32, 25, 18, 11, 4, 5, 12, 19, 26, 33, 40, 48, 41, 34,
        27, 20, 13, 6, 7, 14, 21, 28, 35, 42, 49, 56, 57, 50, 43, 36, 29, 22, 15, 23, 30, 37, 44,
        51, 58, 59, 52, 45, 38, 31, 39, 46, 53, 60, 61, 54, 47, 55, 62, 63,
    ];
    assert_eq!(encode(&index_matrix()), expected);
}

#[test]
fn zigzag_round_trip_on_index_matrix() {
    let m = index_matrix();
    assert_eq!(decode(&encode(&m)), Ok(m));
}

#[test]
fn zigzag_rejects_wrong_length() {
    let short = vec![1i32; 63];
    assert_eq!(decode(&short), Err(DecodeError::InvalidZigzagLength));
    let long = vec![1i32; 65];
    assert_eq!(decode(&long), Err(DecodeError::InvalidZigzagLength));
}

#[test]
fn run_length_round_trip_without_trailing_zeros() {
    let mut block = vec![0i32; 64];
    block[0] = -3;
    block[10] = 7;
    block[63] = 1;
    let pairs = run_length_encoded(block.clone());
    assert_eq!(pairs, vec![(0, -3), (9, 7), (52, 1)]);
    assert_eq!(run_length_decoded(pairs), block);
}

#[test]
fn run_length_all_zero_block() {
    let block = vec![0i32; 64];
    let pairs = run_length_encoded(block.clone());
    assert_eq!(pairs, vec![(0, 0)]);
    assert_eq!(run_length_decoded(pairs), block);
}

#[test]
fn run_length_decoding_drops_values_past_the_block() {
    let decoded = run_length_decoded(vec![(70, 5), (-69, 9), (1, 4)]);
    let mut expected = vec![0i32; 64];
    expected[2] = 9;
    expected[4] = 4;
    assert_eq!(decoded, expected);
}
