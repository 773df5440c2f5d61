use std::collections::HashMap;

use jpeg_decoder::huffman_tree::{huffman_frequency, HuffmanTable};
use jpeg_decoder::DecodeError;

#[test]
fn test_huffman_frequency() {
    let input = "AAAABBBCCD";
    let expectation: HashMap<char, i32> = HashMap::from([('A', 4), ('B', 3), ('C', 2), ('D', 1)]);

    let counted: HashMap<char, i32> = huffman_frequency(input).into_iter().collect();
    assert_eq!(counted, expectation);
}

#[test]
fn frequency_keeps_first_occurrence_order() {
    assert_eq!(huffman_frequency("abcab"), vec![('a', 2), ('b', 2), ('c', 1)]);
    assert_eq!(huffman_frequency(""), vec![]);
}

fn sample_table() -> HuffmanTable {
    let length_table = [0, 2, 2, 3, 1, 1, 1, 0, 0, 0, 0, 0, 0, 0, 0, 0];
    let symbols = [5, 6, 3, 4, 2, 7, 8, 1, 0, 9];
    HuffmanTable::from_canonical_code(&length_table, &symbols).unwrap()
}

#[test]
fn test_canonical_code_parsing() {
    let expected: HashMap<u8, String> = HashMap::from([
        (5, "00".to_string()),
        (6, "01".to_string()),
        (3, "100".to_string()),
        (4, "101".to_string()),
        (2, "1100".to_string()),
        (7, "1101".to_string()),
        (8, "1110".to_string()),
        (1, "11110".to_string()),
        (0, "111110".to_string()),
        (9, "1111110".to_string()),
    ]);
    assert_eq!(sample_table().get_huffman_codes(), expected);
    assert_eq!(sample_table().get_huffman_codes(), sample_table().get_huffman_codes());
}

#[test]
fn canonical_codes_are_prefix_free() {
    let codes: Vec<String> = sample_table().get_huffman_codes().into_values().collect();
    for (i, a) in codes.iter().enumerate() {
        for (j, b) in codes.iter().enumerate() {
            if i != j {
                assert!(!b.starts_with(a.as_str()));
            }
        }
    }
}

#[test]
fn canonical_decode_reads_symbols() {
    let bits = [0, 0, 1, 0, 0, 1, 1, 1, 1, 1, 1, 0, 1];
    let (symbols, end) = sample_table().decode(&bits, 0, 3).unwrap();
    assert_eq!(symbols, vec![5, 3, 9]);
    assert_eq!(end, 12);
    let (symbols, end) = sample_table().decode(&bits, 2, 1).unwrap();
    assert_eq!(symbols, vec![3]);
    assert_eq!(end, 5);
}

#[test]
fn canonical_decode_runs_out_of_bits() {
    assert_eq!(sample_table().decode(&[1, 1], 0, 1).unwrap_err(), DecodeError::BitstreamExhausted);
    assert_eq!(sample_table().decode(&[0, 0], 0, 2).unwrap_err(), DecodeError::BitstreamExhausted);
    assert_eq!(sample_table().decode(&[1, 1, 1, 1, 1, 1, 1], 0, 1).unwrap_err(), DecodeError::BitstreamExhausted);
}

#[test]
fn canonical_rejects_malformed_tables() {
    let length_table = [0, 2, 2, 3, 1, 1, 1, 0, 0, 0, 0, 0, 0, 0, 0, 0];
    let too_few = [5, 6, 3];
    assert_eq!(
        HuffmanTable::from_canonical_code(&length_table, &too_few).unwrap_err(),
        DecodeError::MalformedHuffmanTable
    );
    let overfull = [3, 0, 0, 0, 0, 0, 0, 0, 0, 0, 0, 0, 0, 0, 0, 0];
    assert_eq!(
        HuffmanTable::from_canonical_code(&overfull, &[1, 2, 3]).unwrap_err(),
        DecodeError::MalformedHuffmanTable
    );
    assert_eq!(
        HuffmanTable::from_canonical_code(&[1, 1], &[1, 2]).unwrap_err(),
        DecodeError::MalformedHuffmanTable
    );
}

use jpeg_decoder::frequency_tree::{decode, get_huffman_codes, huffman_tree, huffman_tree_mapped};

fn sample_frequencies() -> Vec<(char, i32)> {
    vec![('A', 4), ('B', 3), ('C', 2), ('D', 1)]
}

#[test]
fn test_huffman_node() {
    let input = sample_frequencies();
    let expectation = 10;

    assert_eq!(huffman_tree(input).frequency, expectation);
}

#[test]
fn test_get_huffman_codes() {
    let tree = huffman_tree(sample_frequencies());
    let expected: HashMap<char, String> = HashMap::from([
        ('C', "111".to_string()),
        ('D', "110".to_string()),
        ('A', "0".to_string()),
        ('B', "10".to_string()),
    ]);
    let mapped: HashMap<char, String> = huffman_tree_mapped(&tree).into_iter().collect();
    assert_eq!(mapped, expected);
}

#[test]
fn test_decode_huffman() {
    let tree = huffman_tree(sample_frequencies());
    let coded_text = "0111010110001111".to_string();
    let decoded = decode(&tree, coded_text);
    let expected = "ACABDAAC".to_string();

    assert_eq!(decoded, expected);
}

#[test]
fn codes_come_left_subtree_first() {
    let tree = huffman_tree(sample_frequencies());
    let mut codes: Vec<(char, String)> = vec![('Z', "x".to_string())];
    get_huffman_codes(&tree, "1".to_string(), &mut codes);
    assert_eq!(
        codes,
        vec![
            ('Z', "x".to_string()),
            ('A', "10".to_string()),
            ('B', "110".to_string()),
            ('D', "1110".to_string()),
            ('C', "1111".to_string()),
        ]
    );
}

#[test]
fn single_symbol_tree_is_a_leaf() {
    let tree = huffman_tree(vec![('x', 7)]);
    assert_eq!(tree.frequency, 7);
    assert_eq!(tree.char, Some('x'));
    assert_eq!(huffman_tree_mapped(&tree), vec![('x', String::new())]);
    assert_eq!(decode(&tree, "01".to_string()), "xx".to_string());
}
