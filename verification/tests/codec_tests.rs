use zip_rs::bits::{encode_payload, EncodingError};
use zip_rs::code::{generate_codes, CodeTable};
use zip_rs::codec::{decode_bytes, encode_bytes};
use zip_rs::freq::{calculate_frequency, calculate_frequency_parallel, FrequencyTable};
use zip_rs::header::{read_header, write_header, FormatError};
use zip_rs::tree::{build_huffman_tree, TreeConstructionError};

fn roundtrip(data: &[u8]) {
    let encoded = encode_bytes(data);
    let decoded = decode_bytes(&encoded).expect("decode of an encoding must succeed");
    assert_eq!(decoded, data.to_vec());
}

#[test]
fn test_header_format() {
    let mut freq_table = FrequencyTable::new();
    freq_table.set(b'a', 1);
    freq_table.set(b'b', 2);
    let output = write_header(&freq_table);
    let output_str = String::from_utf8(output).unwrap();
    assert!(output_str.contains("a:1"));
    assert!(output_str.contains("b:2"));
    assert!(output_str.ends_with("---\n"));
}

#[test]
fn test_encoding_and_bit_sequences() {
    let mut huffman_codes = CodeTable::new();
    huffman_codes.set_code(b'a', vec![false]);
    huffman_codes.set_code(b'b', vec![true]);
    let output = encode_payload(b"abba", &huffman_codes).unwrap();
    // Bits "0","1","1","0" followed by four padding zero bits on the low
    // end of the byte.
    assert_eq!(output, vec![0b01100000]);
}

#[test]
fn test_character_frequency() {
    let test_str = "Example text with XXX and ttt";
    let freq = calculate_frequency(test_str.as_bytes());
    assert_eq!(freq.get(b'X'), 3);
    assert_eq!(freq.get(b't'), 6);
    assert_eq!(freq.get(b' '), 5);
    assert_eq!(freq.get(b'z'), 0);
}

#[test]
fn test_parallel_frequency_matches_single_pass() {
    let data: Vec<u8> = (0..4096u32).map(|i| (i % 251) as u8).collect();
    let single = calculate_frequency(&data);
    for chunks in [1usize, 2, 3, 7, 100, 5000] {
        let parallel = calculate_frequency_parallel(&data, chunks);
        for b in 0..=255u8 {
            assert_eq!(parallel.get(b), single.get(b));
        }
    }
}

#[test]
fn test_empty_input() {
    let freq = calculate_frequency(b"");
    assert!(freq.is_empty());
    assert!(matches!(build_huffman_tree(&freq), Err(TreeConstructionError)));
    let encoded = encode_bytes(b"");
    assert_eq!(encoded, b"---\n".to_vec());
    assert_eq!(decode_bytes(&encoded), Ok(Vec::new()));
}

#[test]
fn test_single_byte_roundtrip() {
    roundtrip(&[b'z'; 1]);
    roundtrip(&[b'z'; 8]);
    roundtrip(&[b'z'; 1000]);
    roundtrip(&[0u8; 13]);
}

#[test]
fn test_roundtrip_various() {
    roundtrip(b"abba");
    roundtrip(b"abracadabra");
    roundtrip(b"Example text with XXX and ttt");
    roundtrip(&[0x00, 0xff, 0x3a, 0x0a, 0x5c, b'-', b'-', b'-', 0x0a, 0x00]);
    let data: Vec<u8> = (0..2048u32).map(|i| (i * i % 256) as u8).collect();
    roundtrip(&data);
}

#[test]
fn test_header_roundtrip_edge_bytes() {
    let mut table = FrequencyTable::new();
    table.set(0x00, 5);
    table.set(b':', 7);
    table.set(b'\n', 3);
    table.set(0xff, 9);
    table.set(b'a', 1);
    table.set(b'-', 2);
    let mut bytes = write_header(&table);
    bytes.extend_from_slice(b"payload follows");
    let (parsed, used) = read_header(&bytes).unwrap();
    assert_eq!(used, bytes.len() - b"payload follows".len());
    for b in 0..=255u8 {
        assert_eq!(parsed.get(b), table.get(b));
    }
}

#[test]
fn test_header_entry_order_is_free() {
    let header = b"b:2\na:1\n---\n";
    let (parsed, used) = read_header(header).unwrap();
    assert_eq!(used, header.len());
    assert_eq!(parsed.get(b'a'), 1);
    assert_eq!(parsed.get(b'b'), 2);
}

#[test]
fn test_header_errors() {
    // Sentinel missing before end of input.
    assert!(matches!(read_header(b"a:1\n"), Err(FormatError)));
    // A line that does not split on the delimiter.
    assert!(matches!(read_header(b"ab\n---\n"), Err(FormatError)));
    // A count that is not a valid non-negative integer.
    assert!(matches!(read_header(b"a:x\n---\n"), Err(FormatError)));
    assert!(matches!(read_header(b"a:\n---\n"), Err(FormatError)));
    // A count beyond the representable range.
    assert!(matches!(read_header(b"a:99999999999999999999\n---\n"), Err(FormatError)));
    // A malformed escape.
    assert!(matches!(read_header(b"\\xZZ:1\n---\n"), Err(FormatError)));
}

#[test]
fn test_decode_rejects_unrepresentable_totals() {
    // Two counts that sum beyond the count type describe no real input.
    let mut data = Vec::new();
    data.extend_from_slice(b"a:18446744073709551615\nb:18446744073709551615\n---\n");
    data.push(0u8);
    assert_eq!(decode_bytes(&data), Err(FormatError));
}

#[test]
fn test_encoding_error_on_missing_code() {
    let mut codes = CodeTable::new();
    codes.set_code(b'a', vec![false]);
    assert_eq!(encode_payload(b"ab", &codes), Err(EncodingError));
}

#[test]
fn test_tree_determinism_with_ties() {
    // Every byte tied at one occurrence: shape must still be reproducible.
    let data = b"abcdefgh";
    let t1 = build_huffman_tree(&calculate_frequency(data)).unwrap();
    let t2 = build_huffman_tree(&calculate_frequency(data)).unwrap();
    let c1 = generate_codes(&t1);
    let c2 = generate_codes(&t2);
    for b in 0..=255u8 {
        assert_eq!(c1.get_code(b), c2.get_code(b));
    }
}

#[test]
fn test_codes_prefix_free_and_complete() {
    let data = b"abracadabra: a tale\nof 0x00 bytes";
    let freq = calculate_frequency(data);
    let tree = build_huffman_tree(&freq).unwrap();
    let codes = generate_codes(&tree);
    let mut present: Vec<(u8, Vec<bool>)> = Vec::new();
    for b in 0..=255u8 {
        let has_count = freq.get(b) > 0;
        match codes.get_code(b) {
            Some(code) => {
                assert!(has_count, "code for an absent byte");
                assert!(!code.is_empty(), "empty code");
                present.push((b, code.clone()));
            }
            None => assert!(!has_count, "present byte without a code"),
        }
    }
    for (b1, c1) in &present {
        for (b2, c2) in &present {
            if b1 != b2 {
                assert!(
                    !(c1.len() <= c2.len() && &c2[..c1.len()] == &c1[..]),
                    "code of {} is a prefix of code of {}",
                    b1,
                    b2
                );
            }
        }
    }
}

#[test]
fn test_single_leaf_code_is_one_bit() {
    let freq = calculate_frequency(b"zzzz");
    let tree = build_huffman_tree(&freq).unwrap();
    assert_eq!(tree.frequency(), 4);
    let codes = generate_codes(&tree);
    assert_eq!(codes.get_code(b'z'), Some(&vec![false]));
    assert_eq!(codes.get_code(b'a'), None);
}

#[test]
fn test_encoded_form_is_header_then_payload() {
    let encoded = encode_bytes(b"abba");
    // Ties: 'a' (2) and 'b' (2); the lower byte value leads, so 'a' takes
    // the left edge (0) and 'b' the right (1): "abba" packs to 0b01100000.
    assert_eq!(encoded, b"a:2\nb:2\n---\n\x60".to_vec());
}
