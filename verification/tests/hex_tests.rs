use mojibox::{bin2hex, hex2bin, CodecError, HexFormat};

#[test]
fn test_bin2hex_default_format() {
    let result = bin2hex("🍣", false, HexFormat::Default).unwrap();
    assert_eq!(result, "F09F8DA3");
}

#[test]
fn test_bin2hex_lowercase() {
    let result = bin2hex("🍣", true, HexFormat::Default).unwrap();
    assert_eq!(result, "f09f8da3");
}

#[test]
fn test_bin2hex_spaced_format() {
    let result = bin2hex("🍣", false, HexFormat::Spaced).unwrap();
    assert_eq!(result, "F0 9F 8D A3");
}

#[test]
fn test_bin2hex_escaped_format() {
    let result = bin2hex("🍣", false, HexFormat::Escaped).unwrap();
    assert_eq!(result, "\\xF0\\x9F\\x8D\\xA3");
}

#[test]
fn test_bin2hex_ascii() {
    let result = bin2hex("ABC", false, HexFormat::Default).unwrap();
    assert_eq!(result, "414243");
}

#[test]
fn test_bin2hex_empty_string() {
    let result = bin2hex("", false, HexFormat::Default).unwrap();
    assert_eq!(result, "");
}

#[test]
fn test_hex2bin_default_format() {
    let result = hex2bin("F09F8DA3").unwrap();
    assert_eq!(result, "🍣");
}

#[test]
fn test_hex2bin_spaced_format() {
    let result = hex2bin("F0 9F 8D A3").unwrap();
    assert_eq!(result, "🍣");
}

#[test]
fn test_hex2bin_escaped_format() {
    let result = hex2bin("\\xF0\\x9F\\x8D\\xA3").unwrap();
    assert_eq!(result, "🍣");
}

#[test]
fn test_hex2bin_lowercase() {
    let result = hex2bin("f09f8da3").unwrap();
    assert_eq!(result, "🍣");
}

#[test]
fn test_hex2bin_ascii() {
    let result = hex2bin("414243").unwrap();
    assert_eq!(result, "ABC");
}

#[test]
fn test_hex2bin_empty_string() {
    let result = hex2bin("").unwrap();
    assert_eq!(result, "");
}

#[test]
fn test_hex2bin_invalid_hex() {
    let result = hex2bin("GG");
    assert!(result.is_err());
}

#[test]
fn test_hex2bin_odd_length() {
    let result = hex2bin("F0F");
    assert!(result.is_err());
}

#[test]
fn test_hex2bin_invalid_utf8() {
    let result = hex2bin("FF");
    assert!(result.is_err());
}

#[test]
fn test_roundtrip_default() {
    let original = "🍣🍺漢字";
    let hex = bin2hex(original, false, HexFormat::Default).unwrap();
    let restored = hex2bin(&hex).unwrap();
    assert_eq!(original, restored);
}

#[test]
fn test_roundtrip_spaced() {
    let original = "🍣🍺漢字";
    let hex = bin2hex(original, false, HexFormat::Spaced).unwrap();
    let restored = hex2bin(&hex).unwrap();
    assert_eq!(original, restored);
}

#[test]
fn test_roundtrip_escaped() {
    let original = "🍣🍺漢字";
    let hex = bin2hex(original, false, HexFormat::Escaped).unwrap();
    let restored = hex2bin(&hex).unwrap();
    assert_eq!(original, restored);
}

#[test]
fn test_roundtrip_ascii() {
    let original = "Hello, World!";
    let hex = bin2hex(original, false, HexFormat::Default).unwrap();
    let restored = hex2bin(&hex).unwrap();
    assert_eq!(original, restored);
}

#[test]
fn test_hex2bin_mixed_case() {
    assert_eq!(hex2bin("f09F8dA3").unwrap(), "🍣");
}

#[test]
fn test_hex2bin_decode_insensitive_across_formats() {
    let original = "aé🍣";
    let mut decoded = Vec::new();
    for lower in [false, true] {
        for format in [HexFormat::Default, HexFormat::Spaced, HexFormat::Escaped] {
            let hex = bin2hex(original, lower, format).unwrap();
            decoded.push(hex2bin(&hex).unwrap());
        }
    }
    for d in decoded {
        assert_eq!(d, original);
    }
}

#[test]
fn test_hex2bin_error_kinds() {
    assert_eq!(hex2bin("F0F").unwrap_err(), CodecError::OddLength);
    assert_eq!(hex2bin("GG").unwrap_err(), CodecError::InvalidHexDigit);
    assert_eq!(hex2bin("FF").unwrap_err(), CodecError::InvalidUtf8);
}

#[test]
fn test_hex2bin_odd_before_digit_check() {
    // An odd-length digit string is reported before the digits are judged.
    assert_eq!(hex2bin("GGG").unwrap_err(), CodecError::OddLength);
}

#[test]
fn test_bin2hex_single_byte_spaced() {
    assert_eq!(bin2hex("A", false, HexFormat::Spaced).unwrap(), "41");
}
