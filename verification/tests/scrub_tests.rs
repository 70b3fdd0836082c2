use mojibox::{scrub_invalid_utf8, CodecError, InputFormat};

#[test]
fn test_scrub_valid_utf8() {
    let result = scrub_invalid_utf8("Hello, 世界! 🍣", InputFormat::Binary).unwrap();
    assert_eq!(result, "Hello, 世界! 🍣");
}

#[test]
fn test_scrub_incomplete_sushi_emoji() {
    // 🍣 is F0 9F 8D A3, but F0 9F 8D is incomplete
    let result = scrub_invalid_utf8("F09F8D", InputFormat::Hex).unwrap();
    assert_eq!(result, "�");
}

#[test]
fn test_scrub_valid_emoji_plus_invalid_byte() {
    // 🍣 (F0 9F 8D A3) + invalid byte FF
    let result = scrub_invalid_utf8("F09F8DA3FF", InputFormat::Hex).unwrap();
    assert_eq!(result, "🍣�");
}

#[test]
fn test_scrub_overlong_encoding() {
    // C0 80 is overlong encoding of null byte
    let result = scrub_invalid_utf8("C080", InputFormat::Hex).unwrap();
    assert_eq!(result, "��");
}

#[test]
fn test_scrub_multiple_invalid_sequences() {
    // Multiple invalid sequences
    let result = scrub_invalid_utf8("F09F8D F09F8DA3 FF C080", InputFormat::Hex).unwrap();
    assert_eq!(result, "�🍣���");
}

#[test]
fn test_scrub_escaped_hex_format() {
    // Escaped format with incomplete emoji
    let result = scrub_invalid_utf8("\\xF0\\x9F\\x8D", InputFormat::Hex).unwrap();
    assert_eq!(result, "�");
}

#[test]
fn test_scrub_spaced_hex_format() {
    // Spaced format with incomplete emoji
    let result = scrub_invalid_utf8("F0 9F 8D", InputFormat::Hex).unwrap();
    assert_eq!(result, "�");
}

#[test]
fn test_scrub_empty_input() {
    let result = scrub_invalid_utf8("", InputFormat::Binary).unwrap();
    assert_eq!(result, "");

    let result = scrub_invalid_utf8("", InputFormat::Hex).unwrap();
    assert_eq!(result, "");
}

#[test]
fn test_scrub_invalid_hex_format() {
    // Invalid hex characters should cause error
    let result = scrub_invalid_utf8("GG", InputFormat::Hex);
    assert!(result.is_err());
}

#[test]
fn test_scrub_odd_length_hex() {
    // Odd length hex should cause error
    let result = scrub_invalid_utf8("F0F", InputFormat::Hex);
    assert!(result.is_err());
}

#[test]
fn test_scrub_various_invalid_sequences() {
    // Test various invalid UTF-8 sequences
    let test_cases = vec![
        ("80", "�"),           // Continuation byte without start
        ("C0", "�"),           // Incomplete 2-byte sequence
        ("E0", "�"),           // Incomplete 3-byte sequence
        ("F0", "�"),           // Incomplete 4-byte sequence
        ("FE", "�"),           // Invalid start byte
        ("FF", "�"),           // Invalid start byte
        ("C0C0", "��"),        // Two invalid bytes
        ("E080", "��"),        // Invalid 3-byte sequence
        ("F08080", "���"),     // Invalid 4-byte sequence
    ];

    for (input, expected) in test_cases {
        let result = scrub_invalid_utf8(input, InputFormat::Hex).unwrap();
        assert_eq!(result, expected, "Failed for input: {}", input);
    }
}

#[test]
fn test_scrub_mixed_valid_invalid() {
    // Test mixing valid and invalid UTF-8
    let result = scrub_invalid_utf8("48656C6C6F FF 576F726C64", InputFormat::Hex).unwrap();
    assert_eq!(result, "Hello�World");
}

#[test]
fn test_scrub_idempotent_on_scrubbed_output() {
    let once = scrub_invalid_utf8("C080", InputFormat::Hex).unwrap();
    let twice = scrub_invalid_utf8(&once, InputFormat::Binary).unwrap();
    assert_eq!(once, twice);
}

#[test]
fn test_scrub_error_kinds() {
    assert_eq!(
        scrub_invalid_utf8("F0F", InputFormat::Hex).unwrap_err(),
        CodecError::OddLength
    );
    assert_eq!(
        scrub_invalid_utf8("GG", InputFormat::Hex).unwrap_err(),
        CodecError::InvalidHexDigit
    );
}

#[test]
fn test_scrub_truncated_then_valid() {
    // A truncated lead followed by a complete character: one replacement,
    // then the character.
    let result = scrub_invalid_utf8("E28641", InputFormat::Hex).unwrap();
    assert_eq!(result, "�A");
}
