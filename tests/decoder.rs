use simd_json::classify::SimdInput;
use simd_json::deser::{escape_map, parse_str};
use simd_json::error::{Error, ErrorType};
use simd_json::unicode::{codepoint_to_utf8, handle_unicode_codepoint, hex_to_u32};

/// Decodes the string whose opening quote is at `idx` of `doc`, returning
/// the decoded bytes.
fn decode(doc: &[u8], idx: usize) -> Result<Vec<u8>, Error> {
    let mut input = doc.to_vec();
    let mut buffer = vec![0u8; 64];
    let len = parse_str::<SimdInput>(&mut input, &mut buffer, idx)?;
    Ok(input[idx + 1..idx + 1 + len].to_vec())
}

#[test]
fn example_document_string() {
    let doc = br#"{"a":"b\tc","x":[1,2]}"#;
    assert_eq!(decode(doc, 5).unwrap(), vec![b'b', 0x09, b'c']);
}

#[test]
fn decoded_bytes_written_in_place() {
    let doc = br#"["b\tc", 1]"#;
    let mut input = doc.to_vec();
    let mut buffer = vec![0u8; 64];
    let len = parse_str::<SimdInput>(&mut input, &mut buffer, 1).unwrap();
    assert_eq!(len, 3);
    assert_eq!(&input[..5], b"[\"b\tc");
    // bytes after the decoded string are as they were
    assert_eq!(&input[5..], &doc[5..]);
}

#[test]
fn plain_string_unchanged() {
    let doc = br#"{"hello world / 123":0}"#;
    let mut input = doc.to_vec();
    let mut buffer = vec![0u8; 64];
    let len = parse_str::<SimdInput>(&mut input, &mut buffer, 1).unwrap();
    assert_eq!(&input[2..2 + len], b"hello world / 123");
    assert_eq!(input, doc.to_vec());
}

#[test]
fn long_plain_string_unchanged() {
    let mut doc = vec![b'"'];
    let body: Vec<u8> = (0..200).map(|i| b'a' + (i % 26) as u8).collect();
    doc.extend_from_slice(&body);
    doc.push(b'"');
    assert_eq!(decode(&doc, 0).unwrap(), body);
}

#[test]
fn empty_string_decodes_empty() {
    assert_eq!(decode(b"\"\"", 0).unwrap(), Vec::<u8>::new());
}

#[test]
fn short_escapes_round_trip() {
    let doc = br#""q\"b\\s\/n\nt\tr\rb\bf\f""#;
    assert_eq!(decode(doc, 0).unwrap(), b"q\"b\\s/n\nt\tr\rb\x08f\x0c".to_vec());
}

#[test]
fn escapes_across_chunk_boundaries() {
    let mut doc = vec![b'"'];
    let mut expected = Vec::new();
    for i in 0..40 {
        doc.extend_from_slice(b"ab\\n");
        expected.extend_from_slice(b"ab\n");
        if i % 7 == 0 {
            doc.extend_from_slice(b"\\u00e9");
            expected.extend_from_slice(&[0xc3, 0xa9]);
        }
    }
    doc.push(b'"');
    assert_eq!(decode(&doc, 0).unwrap(), expected);
}

#[test]
fn surrogate_pair_decodes_to_four_bytes() {
    let doc = br#""\uD83D\uDE00""#;
    assert_eq!(decode(doc, 0).unwrap(), vec![0xf0, 0x9f, 0x98, 0x80]);
}

#[test]
fn lone_high_surrogate_fails() {
    let doc = br#""\uD83D""#;
    let e = decode(doc, 0).unwrap_err();
    assert_eq!(e.error, ErrorType::InvalidUnicodeCodepoint);
    assert_eq!(e.index, 2);
}

#[test]
fn lone_low_surrogate_fails() {
    let e = decode(br#""x\uDC00""#, 0).unwrap_err();
    assert_eq!(e, Error { index: 3, character: b'u', error: ErrorType::InvalidUnicodeCodepoint });
}

#[test]
fn malformed_hex_fails() {
    let e = decode(br#""\u12G4""#, 0).unwrap_err();
    assert_eq!(e.error, ErrorType::InvalidUnicodeCodepoint);
}

#[test]
fn unicode_escapes_of_each_length() {
    let doc = br#""\u0041\u00e9\u20ac""#;
    assert_eq!(decode(doc, 0).unwrap(), vec![0x41, 0xc3, 0xa9, 0xe2, 0x82, 0xac]);
}

#[test]
fn unrecognized_escape_fails_at_its_character() {
    let e = decode(br#""\q""#, 0).unwrap_err();
    assert_eq!(e, Error { index: 2, character: b'q', error: ErrorType::InvalidEscape });
}

#[test]
fn unterminated_string_fails() {
    let e = decode(br#""abc"#, 0).unwrap_err();
    assert_eq!(e.error, ErrorType::Eof);
    assert_eq!(e.index, 4);
    let e2 = decode(br#""abc\"#, 0).unwrap_err();
    assert_eq!(e2.error, ErrorType::Eof);
}

#[test]
fn escape_map_table() {
    assert_eq!(escape_map(b'n'), b'\n');
    assert_eq!(escape_map(b'b'), 0x08);
    assert_eq!(escape_map(b'/'), b'/');
    assert_eq!(escape_map(b'q'), 0);
    assert_eq!(escape_map(b'u'), 0);
}

#[test]
fn hex_digits_parsed() {
    assert_eq!(hex_to_u32(b"xx00fF", 2), Some(0xff));
    assert_eq!(hex_to_u32(b"AbCd", 0), Some(0xabcd));
    assert_eq!(hex_to_u32(b"12g4", 0), None);
    assert_eq!(hex_to_u32(b"123", 0), None);
}

#[test]
fn unicode_codepoint_consumed_lengths() {
    assert_eq!(handle_unicode_codepoint(b"\\u00e9", 0), Some((0xe9, 6)));
    assert_eq!(handle_unicode_codepoint(b"\\uD83D\\uDE00", 0), Some((0x1f600, 12)));
    assert_eq!(handle_unicode_codepoint(b"\\uD83Dxx", 0), None);
}

#[test]
fn codepoint_encoding_lengths() {
    let mut out = vec![0u8; 6];
    assert_eq!(codepoint_to_utf8(0x24, &mut out, 1), 1);
    assert_eq!(out, vec![0, 0x24, 0, 0, 0, 0]);
    assert_eq!(codepoint_to_utf8(0x7ff, &mut out, 0), 2);
    assert_eq!(&out[..2], &[0xdf, 0xbf]);
    assert_eq!(codepoint_to_utf8(0xffff, &mut out, 0), 3);
    assert_eq!(&out[..3], &[0xef, 0xbf, 0xbf]);
    assert_eq!(codepoint_to_utf8(0x10ffff, &mut out, 2), 4);
    assert_eq!(&out[2..], &[0xf4, 0x8f, 0xbf, 0xbf]);
}

#[test]
fn failed_decode_keeps_bytes_outside_the_written_part() {
    let doc = br#"[1, "ab\tcd\q", 2]"#;
    let mut input = doc.to_vec();
    let mut buffer = vec![0u8; 64];
    let e = parse_str::<SimdInput>(&mut input, &mut buffer, 4).unwrap_err();
    assert_eq!(e, Error { index: 12, character: b'q', error: ErrorType::InvalidEscape });
    assert_eq!(&input[..5], &doc[..5]);
    assert_eq!(&input[12..], &doc[12..]);
}
