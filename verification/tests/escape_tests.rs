use mojibox::{escape_unicode, escape_unicode_with_format, unescape_unicode, EscapeFormat};

#[test]
fn test_escape_unicode_basic() {
    let result = escape_unicode("🍣🍺");
    assert_eq!(result, "\\u{1F363}\\u{1F37A}");
}

#[test]
fn test_escape_unicode_ascii() {
    let result = escape_unicode("ABC");
    assert_eq!(result, "\\u{41}\\u{42}\\u{43}");
}

#[test]
fn test_escape_unicode_japanese() {
    let result = escape_unicode("漢字");
    assert_eq!(result, "\\u{6F22}\\u{5B57}");
}

#[test]
fn test_escape_unicode_empty() {
    let result = escape_unicode("");
    assert_eq!(result, "");
}

#[test]
fn test_escape_unicode_mixed() {
    let result = escape_unicode("A🍣B");
    assert_eq!(result, "\\u{41}\\u{1F363}\\u{42}");
}

#[test]
fn test_unescape_unicode_basic() {
    let result = unescape_unicode("\\u{1F363}\\u{1F37A}");
    assert_eq!(result, "🍣🍺");
}

#[test]
fn test_unescape_unicode_ascii() {
    let result = unescape_unicode("\\u{41}\\u{42}\\u{43}");
    assert_eq!(result, "ABC");
}

#[test]
fn test_unescape_unicode_japanese() {
    let result = unescape_unicode("\\u{6F22}\\u{5B57}");
    assert_eq!(result, "漢字");
}

#[test]
fn test_unescape_unicode_empty() {
    let result = unescape_unicode("");
    assert_eq!(result, "");
}

#[test]
fn test_unescape_unicode_mixed() {
    let result = unescape_unicode("\\u{41}\\u{1F363}\\u{42}");
    assert_eq!(result, "A🍣B");
}

#[test]
fn test_unescape_unicode_4digit_format() {
    let result = unescape_unicode("\\u0041\\u0042\\u0043");
    assert_eq!(result, "ABC");
}

#[test]
fn test_unescape_unicode_surrogate_pair_valid() {
    // Valid surrogate pair for 🍣 (U+1F363)
    let result = unescape_unicode("\\uD83C\\uDF63");
    assert_eq!(result, "🍣");
}

#[test]
fn test_unescape_unicode_surrogate_pair_reversed() {
    // Reversed surrogate pair should produce replacement characters
    let result = unescape_unicode("\\uDF63\\uD83C");
    assert_eq!(result, "��");
}

#[test]
fn test_unescape_unicode_lone_high_surrogate() {
    // Lone high surrogate should produce replacement character
    let result = unescape_unicode("\\uD83C");
    assert_eq!(result, "�");
}

#[test]
fn test_unescape_unicode_lone_low_surrogate() {
    // Lone low surrogate should produce replacement character
    let result = unescape_unicode("\\uDF63");
    assert_eq!(result, "�");
}

#[test]
fn test_unescape_unicode_invalid_codepoint() {
    // Invalid Unicode code point (> U+10FFFF)
    let result = unescape_unicode("\\u{110000}");
    assert_eq!(result, "�");
}

#[test]
fn test_unescape_unicode_invalid_hex() {
    // Invalid hex characters
    let result = unescape_unicode("\\u{GGGG}");
    assert_eq!(result, "�");
}

#[test]
fn test_unescape_unicode_incomplete_sequence() {
    // Incomplete escape sequence
    let result = unescape_unicode("\\u{123");
    assert_eq!(result, "�");
}

#[test]
fn test_unescape_unicode_empty_hex() {
    // Empty hex sequence
    let result = unescape_unicode("\\u{}");
    assert_eq!(result, "�");
}

#[test]
fn test_unescape_unicode_not_escape() {
    // Not a unicode escape
    let result = unescape_unicode("\\x41");
    assert_eq!(result, "\\x41");
}

#[test]
fn test_unescape_unicode_backslash_at_end() {
    // Backslash at end of string
    let result = unescape_unicode("test\\");
    assert_eq!(result, "test\\");
}

#[test]
fn test_unescape_unicode_mixed_with_text() {
    // Mixed with regular text
    let result = unescape_unicode("Hello \\u{1F363} World");
    assert_eq!(result, "Hello 🍣 World");
}

#[test]
fn test_unescape_unicode_multiple_formats() {
    // Mix of \u{} and \u formats
    let result = unescape_unicode("\\u{41}\\u0042\\u{1F363}");
    assert_eq!(result, "AB🍣");
}

#[test]
fn test_escape_unescape_roundtrip() {
    let original = "🍣🍺漢字ABC";
    let escaped = escape_unicode(original);
    let unescaped = unescape_unicode(&escaped);
    assert_eq!(original, unescaped);
}

#[test]
fn test_escape_unescape_roundtrip_complex() {
    let original = "Hello 世界! 🍣🍺 Test";
    let escaped = escape_unicode(original);
    let unescaped = unescape_unicode(&escaped);
    assert_eq!(original, unescaped);
}

#[test]
fn test_escape_unescape_roundtrip_empty() {
    let original = "";
    let escaped = escape_unicode(original);
    let unescaped = unescape_unicode(&escaped);
    assert_eq!(original, unescaped);
}

#[test]
fn test_escape_unicode_with_format_default() {
    let result = escape_unicode_with_format("🍣🍺", EscapeFormat::Default);
    assert_eq!(result, "\\u{1F363}\\u{1F37A}");
}

#[test]
fn test_escape_unicode_with_format_json() {
    let result = escape_unicode_with_format("🍣🍺", EscapeFormat::Json);
    assert_eq!(result, "\\uD83C\\uDF63\\uD83C\\uDF7A");
}

#[test]
fn test_escape_unicode_with_format_json_bmp() {
    // BMP characters should not use surrogate pairs
    let result = escape_unicode_with_format("ABC漢字", EscapeFormat::Json);
    assert_eq!(result, "\\u0041\\u0042\\u0043\\u6F22\\u5B57");
}

#[test]
fn test_escape_unicode_with_format_json_mixed() {
    let result = escape_unicode_with_format("A🍣B", EscapeFormat::Json);
    assert_eq!(result, "\\u0041\\uD83C\\uDF63\\u0042");
}

#[test]
fn test_escape_unicode_with_format_json_empty() {
    let result = escape_unicode_with_format("", EscapeFormat::Json);
    assert_eq!(result, "");
}

#[test]
fn test_escape_unicode_with_format_json_complex_emoji() {
    // Test with various emoji that require surrogate pairs
    let result = escape_unicode_with_format("😀😁😂", EscapeFormat::Json);
    assert_eq!(result, "\\uD83D\\uDE00\\uD83D\\uDE01\\uD83D\\uDE02");
}

#[test]
fn test_json_format_roundtrip_emoji() {
    let original = "🍣🍺";
    let escaped = escape_unicode_with_format(original, EscapeFormat::Json);
    let unescaped = unescape_unicode(&escaped);
    assert_eq!(original, unescaped);
}

#[test]
fn test_json_format_roundtrip_mixed() {
    let original = "Hello 🍣 World!";
    let escaped = escape_unicode_with_format(original, EscapeFormat::Json);
    let unescaped = unescape_unicode(&escaped);
    assert_eq!(original, unescaped);
}

#[test]
fn test_json_format_roundtrip_bmp_only() {
    let original = "Hello 漢字 World!";
    let escaped = escape_unicode_with_format(original, EscapeFormat::Json);
    let unescaped = unescape_unicode(&escaped);
    assert_eq!(original, unescaped);
}

#[test]
fn test_surrogate_pair_calculation() {
    // U+1F363 (🍣) should become D83C DF63
    let result = escape_unicode_with_format("🍣", EscapeFormat::Json);
    assert_eq!(result, "\\uD83C\\uDF63");

    // U+1F37A (🍺) should become D83C DF7A
    let result = escape_unicode_with_format("🍺", EscapeFormat::Json);
    assert_eq!(result, "\\uD83C\\uDF7A");
}

#[test]
fn test_bmp_boundary_characters() {
    // Test characters at BMP boundary (U+FFFF)
    let result = escape_unicode_with_format("\u{FFFF}", EscapeFormat::Json);
    assert_eq!(result, "\\uFFFF");

    // Test first supplementary character (U+10000)
    let result = escape_unicode_with_format("\u{10000}", EscapeFormat::Json);
    assert_eq!(result, "\\uD800\\uDC00");
}

#[test]
fn test_unescape_unterminated_brace_consumes_rest() {
    // A brace token that never closes swallows the whole remainder.
    let result = unescape_unicode("\\u{41 and the rest");
    assert_eq!(result, "�");
}

#[test]
fn test_unescape_leading_zeros_in_brace() {
    assert_eq!(unescape_unicode("\\u{0000000041}"), "A");
}

#[test]
fn test_unescape_lone_surrogate_in_brace() {
    assert_eq!(unescape_unicode("\\u{D800}"), "�");
}

#[test]
fn test_escape_largest_codepoint_roundtrip() {
    let original = "\u{10FFFF}";
    assert_eq!(unescape_unicode(&escape_unicode(original)), original);
    let escaped = escape_unicode_with_format(original, EscapeFormat::Json);
    assert_eq!(escaped, "\\uDBFF\\uDFFF");
    assert_eq!(unescape_unicode(&escaped), original);
}
