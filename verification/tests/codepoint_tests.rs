use mojibox::{chr_from_codepoints, ord_characters, CodecError};

#[test]
fn test_ord_default_format() {
    let result = ord_characters("漢字🍺", false, false);
    assert_eq!(result, vec!["0x6F22", "0x5B57", "0x1F37A"]);
}

#[test]
fn test_ord_lowercase() {
    let result = ord_characters("漢字🍺", true, false);
    assert_eq!(result, vec!["0x6f22", "0x5b57", "0x1f37a"]);
}

#[test]
fn test_ord_no_prefix() {
    let result = ord_characters("漢字🍺", false, true);
    assert_eq!(result, vec!["6F22", "5B57", "1F37A"]);
}

#[test]
fn test_ord_lowercase_no_prefix() {
    let result = ord_characters("漢字🍺", true, true);
    assert_eq!(result, vec!["6f22", "5b57", "1f37a"]);
}

#[test]
fn test_ord_ascii() {
    let result = ord_characters("ABC", false, false);
    assert_eq!(result, vec!["0x41", "0x42", "0x43"]);
}

#[test]
fn test_ord_empty_input() {
    let result = ord_characters("", false, false);
    assert_eq!(result, Vec::<String>::new());
}

#[test]
fn test_chr_with_0x_prefix() {
    let result = chr_from_codepoints(&[
        "0x6f22".to_string(),
        "0x5b57".to_string(),
        "0x1f37a".to_string(),
    ])
    .unwrap();
    assert_eq!(result, "漢字🍺");
}

#[test]
fn test_chr_without_prefix() {
    let result = chr_from_codepoints(&[
        "6F22".to_string(),
        "5B57".to_string(),
        "1F37A".to_string(),
    ])
    .unwrap();
    assert_eq!(result, "漢字🍺");
}

#[test]
fn test_chr_mixed_case() {
    let result = chr_from_codepoints(&[
        "0x6F22".to_string(),
        "5b57".to_string(),
        "1f37a".to_string(),
    ])
    .unwrap();
    assert_eq!(result, "漢字🍺");
}

#[test]
fn test_chr_ascii() {
    let result =
        chr_from_codepoints(&["0x41".to_string(), "0x42".to_string(), "0x43".to_string()])
            .unwrap();
    assert_eq!(result, "ABC");
}

#[test]
fn test_chr_invalid_hex() {
    let result = chr_from_codepoints(&["0xGGGG".to_string()]);
    assert!(result.is_err());
}

#[test]
fn test_chr_invalid_codepoint() {
    let result = chr_from_codepoints(&["0x110000".to_string()]); // > U+10FFFF
    assert!(result.is_err());
}

#[test]
fn test_chr_empty_input() {
    let result = chr_from_codepoints(&[]).unwrap();
    assert_eq!(result, "");
}

#[test]
fn test_chr_uppercase_prefix() {
    let result = chr_from_codepoints(&["0X41".to_string(), "0X42".to_string()]).unwrap();
    assert_eq!(result, "AB");
}

#[test]
fn test_chr_of_ord_round_trip() {
    let original = "héllo 世界 🍣\u{10FFFF}";
    for lower in [false, true] {
        for no_prefix in [false, true] {
            let tokens = ord_characters(original, lower, no_prefix);
            assert_eq!(chr_from_codepoints(&tokens).unwrap(), original);
        }
    }
}

#[test]
fn test_chr_error_kinds() {
    assert_eq!(
        chr_from_codepoints(&["0xGG".to_string()]).unwrap_err(),
        CodecError::InvalidHex
    );
    assert_eq!(
        chr_from_codepoints(&["0x".to_string()]).unwrap_err(),
        CodecError::InvalidHex
    );
    assert_eq!(
        chr_from_codepoints(&["110000".to_string()]).unwrap_err(),
        CodecError::InvalidCodepoint
    );
    assert_eq!(
        chr_from_codepoints(&["D800".to_string()]).unwrap_err(),
        CodecError::InvalidCodepoint
    );
}

#[test]
fn test_chr_stops_at_first_failure() {
    let result = chr_from_codepoints(&["41".to_string(), "zz".to_string(), "42".to_string()]);
    assert_eq!(result.unwrap_err(), CodecError::InvalidHex);
}

#[test]
fn test_chr_largest_codepoint() {
    let result = chr_from_codepoints(&["0x10FFFF".to_string()]).unwrap();
    assert_eq!(result, "\u{10FFFF}");
}

#[test]
fn test_ord_of_nul_is_single_zero() {
    let result = ord_characters("\u{0}", false, true);
    assert_eq!(result, vec!["0"]);
}
