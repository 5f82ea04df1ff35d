use hexwords::stream::Converter;
use hexwords::words::{convert, push_hex_line, word_value};

fn listing_of(bytes: &[u8]) -> String {
    let mut output = Vec::new();
    convert(bytes, &mut output);
    String::from_utf8(output).unwrap()
}

fn streamed_of(chunks: &[&[u8]]) -> String {
    let mut converter = Converter::new();
    let mut output = Vec::new();
    for chunk in chunks {
        converter.feed(chunk, &mut output);
    }
    converter.finish(&mut output);
    String::from_utf8(output).unwrap()
}

#[test]
fn test_convert_exact_multiple() {
    // 8 bytes (2 words)
    let input_data = vec![0x01, 0x02, 0x03, 0x04, 0x05, 0x06, 0x07, 0x08];
    let mut output = Vec::new();

    convert(&input_data, &mut output);

    let output_str = String::from_utf8(output).unwrap();
    let expected = "04030201\n08070605\n";
    assert_eq!(output_str, expected);
}

#[test]
fn test_convert_padding() {
    // 5 bytes (1 word + 1 byte)
    let input_data = vec![0x01, 0x02, 0x03, 0x04, 0xAA];
    let mut output = Vec::new();

    convert(&input_data, &mut output);

    let output_str = String::from_utf8(output).unwrap();
    let expected = "04030201\n000000aa\n";
    assert_eq!(output_str, expected);
}

#[test]
fn test_convert_empty() {
    let input_data: Vec<u8> = vec![];
    let mut output = Vec::new();

    convert(&input_data, &mut output);

    let output_str = String::from_utf8(output).unwrap();
    let expected = "";
    assert_eq!(output_str, expected);
}

#[test]
fn single_byte() {
    assert_eq!(listing_of(&[0xFF]), "000000ff\n");
}

#[test]
fn three_bytes() {
    assert_eq!(listing_of(&[0xDE, 0xAD, 0xBE]), "00beadde\n");
}

#[test]
fn high_order_byte_set() {
    assert_eq!(listing_of(&[0x00, 0x00, 0x00, 0x80]), "80000000\n");
}

#[test]
fn two_trailing_bytes() {
    assert_eq!(listing_of(&[0x10, 0x20, 0x30, 0x40, 0x34, 0x12]), "40302010\n00001234\n");
}

#[test]
fn largest_word() {
    assert_eq!(listing_of(&[0xFF, 0xFF, 0xFF, 0xFF]), "ffffffff\n");
}

#[test]
fn convert_appends_to_existing_output() {
    let mut output = b"x\n".to_vec();
    convert(&[0x01], &mut output);
    assert_eq!(String::from_utf8(output).unwrap(), "x\n00000001\n");
}

#[test]
fn line_count_and_width() {
    for len in 0..=13usize {
        let input: Vec<u8> = (0..len).map(|i| (i * 37 + 5) as u8).collect();
        let text = listing_of(&input);
        assert_eq!(text.len(), 9 * ((len + 3) / 4));
        for (i, c) in text.bytes().enumerate() {
            assert_eq!(c == b'\n', i % 9 == 8);
        }
    }
}

#[test]
fn only_lowercase_hex_and_newlines() {
    let input: Vec<u8> = (0..=255u8).collect();
    let text = listing_of(&input);
    assert!(text
        .bytes()
        .all(|c| c.is_ascii_digit() || (b'a'..=b'f').contains(&c) || c == b'\n'));
}

#[test]
fn whole_words_decode_back() {
    let input: Vec<u8> = vec![0x00, 0x7F, 0x80, 0xFF, 0x12, 0x34, 0x56, 0x78, 0x9A, 0xBC, 0xDE, 0xF0];
    let text = listing_of(&input);
    let digits: String = text.chars().filter(|c| *c != '\n').collect();
    let mut decoded = Vec::new();
    for group in digits.as_bytes().chunks(8) {
        let value = u32::from_str_radix(std::str::from_utf8(group).unwrap(), 16).unwrap();
        decoded.extend_from_slice(&value.to_le_bytes());
    }
    assert_eq!(decoded, input);
}

#[test]
fn last_line_is_zero_extended_word() {
    let input = [0x01, 0x02, 0x03, 0x04, 0x05, 0x06, 0x07];
    let text = listing_of(&input);
    let last = &text[text.len() - 9..];
    assert_eq!(last, "00070605\n");
    let value = u32::from_le_bytes([0x05, 0x06, 0x07, 0x00]);
    assert_eq!(last, format!("{:08x}\n", value));
}

#[test]
fn one_byte_reads_match_single_read() {
    let input: Vec<u8> = (0..23u8).map(|b| b.wrapping_mul(91)).collect();
    let pieces: Vec<&[u8]> = input.chunks(1).collect();
    assert_eq!(streamed_of(&pieces), listing_of(&input));
}

#[test]
fn uneven_chunks_match_single_read() {
    let input: Vec<u8> = (0..30u8).collect();
    let pieces: Vec<&[u8]> = vec![&input[0..3], &input[3..3], &input[3..10], &input[10..11], &input[11..30]];
    assert_eq!(streamed_of(&pieces), listing_of(&input));
    assert_eq!(streamed_of(&[&input[..]]), listing_of(&input));
}

#[test]
fn streamed_empty_input() {
    assert_eq!(streamed_of(&[]), "");
    assert_eq!(streamed_of(&[&[], &[]]), "");
}

#[test]
fn streamed_partial_word_waits_for_finish() {
    let mut converter = Converter::new();
    let mut output = Vec::new();
    converter.feed(&[0xAA, 0xBB], &mut output);
    assert!(output.is_empty());
    converter.feed(&[0xCC, 0xDD, 0xEE], &mut output);
    assert_eq!(output, b"ddccbbaa\n".to_vec());
    converter.finish(&mut output);
    assert_eq!(String::from_utf8(output).unwrap(), "ddccbbaa\n000000ee\n");
}

#[test]
fn word_value_reads_little_endian() {
    let bytes = [0x99, 0x01, 0x02, 0x03, 0x04];
    assert_eq!(word_value(&bytes, 1, 4), 0x04030201);
    assert_eq!(word_value(&bytes, 1, 2), 0x0201);
    assert_eq!(word_value(&bytes, 0, 0), 0);
}

#[test]
fn hex_line_is_zero_padded_lowercase() {
    let mut out = Vec::new();
    push_hex_line(&mut out, 0xABC);
    push_hex_line(&mut out, 0);
    assert_eq!(String::from_utf8(out).unwrap(), "00000abc\n00000000\n");
}
