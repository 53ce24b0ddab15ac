use simd_json::bits::first_set_bit;
use simd_json::classify::{SimdInput, Stage1Parse};
use simd_json::scan::{escaped_mask, find_structural_bits, load_chunk};

fn naive(doc: &[u8]) -> Vec<u32> {
    let mut out = Vec::new();
    for (i, b) in doc.iter().enumerate() {
        if b"{}[]:,\"".contains(b) {
            out.push(i as u32);
        }
    }
    out
}

#[test]
fn example_document_index() {
    let doc = br#"{"a":"b\tc","x":[1,2]}"#;
    let idx = find_structural_bits::<SimdInput>(doc);
    assert_eq!(idx, vec![0, 1, 3, 4, 5, 10, 11, 12, 14, 15, 16, 18, 20, 21]);
    let chars: Vec<u8> = idx.iter().map(|&i| doc[i as usize]).collect();
    assert_eq!(chars, b"{\"\":\"\",\"\":[,]}".to_vec());
}

#[test]
fn empty_input_has_empty_index() {
    assert_eq!(find_structural_bits::<SimdInput>(b""), Vec::<u32>::new());
}

#[test]
fn plain_document_matches_naive_scan() {
    let doc = br#"{"key": [1, 2, {"k2": null}], "z": true , "w":{}}"#;
    assert_eq!(find_structural_bits::<SimdInput>(doc), naive(doc));
}

#[test]
fn long_plain_document_matches_naive_scan() {
    let mut doc = Vec::new();
    doc.push(b'[');
    for i in 0..200 {
        doc.extend_from_slice(format!("{{\"n{}\": {}}},", i, i).as_bytes());
    }
    doc.extend_from_slice(b"0]");
    assert_eq!(find_structural_bits::<SimdInput>(&doc), naive(&doc));
}

#[test]
fn structurals_inside_strings_are_skipped() {
    let doc = br#"["{[:,]}", 1]"#;
    assert_eq!(find_structural_bits::<SimdInput>(doc), vec![0, 1, 8, 9, 12]);
}

#[test]
fn escaped_quote_stays_inside_string() {
    let doc = br#"{"a\"b,":1}"#;
    assert_eq!(find_structural_bits::<SimdInput>(doc), vec![0, 1, 7, 8, 10]);
}

#[test]
fn double_backslash_does_not_escape_quote() {
    let doc = br#"["a\\",1]"#;
    assert_eq!(find_structural_bits::<SimdInput>(doc), vec![0, 1, 5, 6, 8]);
}

#[test]
fn string_spanning_chunk_boundary() {
    let mut doc = vec![b'['];
    doc.push(b'"');
    doc.extend(std::iter::repeat(b'x').take(60));
    doc.extend_from_slice(b",{}:");
    doc.extend(std::iter::repeat(b'y').take(10));
    doc.extend_from_slice(b"\",1]");
    let close = doc.len() - 4;
    assert_eq!(find_structural_bits::<SimdInput>(&doc), vec![0, 1, close as u32, close as u32 + 1, close as u32 + 3]);
}

#[test]
fn escaped_quote_across_chunk_boundary() {
    // A backslash as the last byte of the first chunk escapes the quote
    // that opens the second one.
    let mut doc = vec![b'"'];
    doc.extend(std::iter::repeat(b'a').take(62));
    doc.push(b'\\');
    assert_eq!(doc.len(), 64);
    doc.extend_from_slice(b"\"b\",[]");
    assert_eq!(find_structural_bits::<SimdInput>(&doc), vec![0, 66, 67, 68, 69]);
}

#[test]
fn odd_backslash_run_across_chunk_boundary() {
    let mut doc = vec![b'"'];
    doc.extend(std::iter::repeat(b'a').take(60));
    doc.extend_from_slice(b"\\\\\\");
    assert_eq!(doc.len(), 64);
    doc.extend_from_slice(b"\"\":");
    assert_eq!(find_structural_bits::<SimdInput>(&doc), vec![0, 65, 66]);
}

#[test]
fn even_backslash_run_across_chunk_boundary() {
    let mut doc = vec![b'"'];
    doc.extend(std::iter::repeat(b'a').take(61));
    doc.extend_from_slice(b"\\\\");
    assert_eq!(doc.len(), 64);
    doc.extend_from_slice(b"\":");
    assert_eq!(find_structural_bits::<SimdInput>(&doc), vec![0, 64, 65]);
}

#[test]
fn escaped_mask_carries_odd_run() {
    let mut carry = false;
    // backslashes at bits 0, 1, 2 and 63
    let bs: u64 = 0b111 | (1u64 << 63);
    let e = escaped_mask(bs, &mut carry);
    assert_eq!(e, 1u64 << 1 | 1u64 << 3);
    assert!(carry);
    let mut carry2 = true;
    let e2 = escaped_mask(0, &mut carry2);
    assert_eq!(e2, 1);
    assert!(!carry2);
}

#[test]
fn load_chunk_pads_with_zeros() {
    let c: SimdInput = load_chunk(b"ab", 1);
    assert_eq!(c.cmp_mask_against_input(b'b'), 1);
    assert_eq!(c.cmp_mask_against_input(0), !1u64);
}

#[test]
fn cmp_mask_marks_equal_bytes() {
    let mut bytes = vec![b'a'; 64];
    bytes[3] = b'"';
    bytes[63] = b'"';
    let c = SimdInput::new(&bytes);
    assert_eq!(c.cmp_mask_against_input(b'"'), (1u64 << 3) | (1u64 << 63));
    assert_eq!(c.cmp_mask_against_input(b'z'), 0);
}

#[test]
fn unsigned_lteq_marks_control_bytes() {
    let mut bytes = vec![b'a'; 64];
    bytes[0] = 0x1f;
    bytes[5] = 0x00;
    bytes[6] = 0x20;
    bytes[7] = 0xff;
    let c = SimdInput::new(&bytes);
    let max = SimdInput::fill_s8(0x1f);
    assert_eq!(c.unsigned_lteq_against_input(&max), 1 | (1u64 << 5));
    let all = SimdInput::fill_s8(-1);
    assert_eq!(c.unsigned_lteq_against_input(&all), u64::MAX);
}

#[test]
fn whitespace_and_structurals_classified() {
    let mut bytes = vec![b'a'; 64];
    let marks: &[(usize, u8)] = &[
        (0, b'{'), (1, b'}'), (2, b'['), (3, b']'), (4, b':'), (5, b','),
        (10, b' '), (11, b'\t'), (12, b'\n'), (13, b'\r'),
        (20, b'"'), (21, 0x0c), (22, 0xbb), (23, 0xdb), (24, 0xfb), (25, 0x8c),
    ];
    for &(i, b) in marks {
        bytes[i] = b;
    }
    let c = SimdInput::new(&bytes);
    let mut ws = 0u64;
    let mut st = 0u64;
    c.find_whitespace_and_structurals(&mut ws, &mut st);
    assert_eq!(st, 0b111111 | (1u64 << 20));
    assert_eq!(ws, 0b1111 << 10);
}

#[test]
fn quote_mask_is_prefix_parity() {
    assert_eq!(SimdInput::compute_quote_mask(0), 0);
    assert_eq!(SimdInput::compute_quote_mask(0b1001), 0b0111);
    assert_eq!(SimdInput::compute_quote_mask(1u64 << 60), !((1u64 << 60) - 1));
    assert_eq!(SimdInput::compute_quote_mask(0b10_0010_0001), 0b1_1111 | !((1u64 << 9) - 1));
}

#[test]
fn flatten_bits_appends_offsets() {
    let mut out = vec![7u32];
    SimdInput::flatten_bits(&mut out, 128, (1u64 << 63) | 0b101);
    assert_eq!(out, vec![7, 128, 130, 191]);
    SimdInput::flatten_bits(&mut out, 0, 0);
    assert_eq!(out, vec![7, 128, 130, 191]);
}

#[test]
fn first_set_bit_finds_lowest() {
    assert_eq!(first_set_bit(0), 64);
    assert_eq!(first_set_bit(0b1000), 3);
    assert_eq!(first_set_bit(1u64 << 63), 63);
}

#[test]
fn fill_s8_fills_every_lane() {
    let c = SimdInput::fill_s8(b'q' as i8);
    assert_eq!(c.cmp_mask_against_input(b'q'), u64::MAX);
}

#[test]
fn example_document_structural_class_mask() {
    let mut bytes = br#"{"a":"b\tc","x":[1,2]}"#.to_vec();
    bytes.resize(64, 0);
    let c = SimdInput::new(&bytes);
    let mut ws = 0u64;
    let mut st = 0u64;
    c.find_whitespace_and_structurals(&mut ws, &mut st);
    assert_eq!(st, 0x35DC3B);
    assert_eq!(ws, 0);
}

#[test]
fn quote_is_in_structural_class_but_neighbours_are_not() {
    let mut bytes = vec![0x7b, 0x7d, 0x5b, 0x5d, 0x3a, 0x2c, 0x22, 0x28, 0x3b, 0x5c, 0xfb, 0xdd];
    bytes.resize(64, 0x61);
    let c = SimdInput::new(&bytes);
    let mut ws = 0u64;
    let mut st = 0u64;
    c.find_whitespace_and_structurals(&mut ws, &mut st);
    assert_eq!(st, 0x7f);
    assert_eq!(ws, 0);
    let quotes = SimdInput::new(&[b'"'; 64]);
    quotes.find_whitespace_and_structurals(&mut ws, &mut st);
    assert_eq!(st, u64::MAX);
}

#[test]
fn quote_mask_carry_joins_two_chunks() {
    let lo: u64 = 1u64 << 60;
    let hi: u64 = 1u64 << 2;
    let rlo = SimdInput::compute_quote_mask(lo);
    let carry = rlo >> 63;
    let rhi = SimdInput::compute_quote_mask(hi) ^ if carry == 1 { u64::MAX } else { 0 };
    assert_eq!(rlo, !((1u64 << 60) - 1));
    assert_eq!(rhi, 0b11);
}
