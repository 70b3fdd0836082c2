use mojibox::{
    count_units, drop_units, iter_byte, iter_codepoint, iter_grapheme_icu4x, take_units,
    ProcessingMode,
};

#[test]
fn test_iter_grapheme_basic() {
    let result = iter_grapheme_icu4x("hello").unwrap();
    assert_eq!(result, vec!["h", "e", "l", "l", "o"]);
}

#[test]
fn test_iter_grapheme_japanese() {
    let result = iter_grapheme_icu4x("あいうえお").unwrap();
    assert_eq!(result, vec!["あ", "い", "う", "え", "お"]);
}

#[test]
fn test_iter_grapheme_emoji() {
    let result = iter_grapheme_icu4x("🍣🍺").unwrap();
    assert_eq!(result, vec!["🍣", "🍺"]);
}

#[test]
fn test_iter_grapheme_complex_emoji() {
    let result = iter_grapheme_icu4x("👨‍💻👩‍🍳").unwrap();
    assert_eq!(result, vec!["👨‍💻", "👩‍🍳"]);
}

#[test]
fn test_iter_grapheme_combining_characters() {
    let result = iter_grapheme_icu4x("が").unwrap();
    assert_eq!(result, vec!["が"]);
}

#[test]
fn test_iter_grapheme_mixed() {
    let result = iter_grapheme_icu4x("あいうえお🍣🍺").unwrap();
    assert_eq!(result, vec!["あ", "い", "う", "え", "お", "🍣", "🍺"]);
}

#[test]
fn test_iter_codepoint_basic() {
    let result = iter_codepoint("hello");
    assert_eq!(result, vec!["h", "e", "l", "l", "o"]);
}

#[test]
fn test_iter_codepoint_japanese() {
    let result = iter_codepoint("あいう");
    assert_eq!(result, vec!["あ", "い", "う"]);
}

#[test]
fn test_iter_codepoint_emoji() {
    let result = iter_codepoint("🍣🍺");
    assert_eq!(result, vec!["🍣", "🍺"]);
}

#[test]
fn test_iter_byte_basic() {
    let result = iter_byte("hello");
    assert_eq!(result, vec!["h", "e", "l", "l", "o"]);
}

#[test]
fn test_iter_byte_japanese() {
    let result = iter_byte("あ");
    assert_eq!(result.len(), 3);
}

#[test]
fn test_empty_string() {
    let result = iter_grapheme_icu4x("").unwrap();
    assert_eq!(result, Vec::<String>::new());

    let result = iter_codepoint("");
    assert_eq!(result, Vec::<String>::new());

    let result = iter_byte("");
    assert_eq!(result, Vec::<String>::new());
}

#[test]
fn test_count_units_grapheme() {
    let result = count_units("あいうえお🍣🍺", ProcessingMode::Grapheme).unwrap();
    assert_eq!(result, 7);
}

#[test]
fn test_count_units_codepoint() {
    let result = count_units("🍣🍺", ProcessingMode::Codepoint).unwrap();
    assert_eq!(result, 2);
}

#[test]
fn test_count_units_byte() {
    let result = count_units("hello", ProcessingMode::Byte).unwrap();
    assert_eq!(result, 5);
}

#[test]
fn test_count_units_empty() {
    let result = count_units("", ProcessingMode::Grapheme).unwrap();
    assert_eq!(result, 0);
}

#[test]
fn test_take_units_grapheme() {
    let result = take_units("あいうえお🍣🍺", ProcessingMode::Grapheme, 3).unwrap();
    assert_eq!(result, vec!["あ", "い", "う"]);
}

#[test]
fn test_take_units_codepoint() {
    let result = take_units("hello", ProcessingMode::Codepoint, 2).unwrap();
    assert_eq!(result, vec!["h", "e"]);
}

#[test]
fn test_take_units_byte() {
    let result = take_units("abc", ProcessingMode::Byte, 2).unwrap();
    assert_eq!(result, vec!["a", "b"]);
}

#[test]
fn test_take_units_n_greater_than_length() {
    let result = take_units("abc", ProcessingMode::Codepoint, 10).unwrap();
    assert_eq!(result, vec!["a", "b", "c"]);
}

#[test]
fn test_take_units_zero() {
    let result = take_units("abc", ProcessingMode::Codepoint, 0).unwrap();
    assert_eq!(result, Vec::<String>::new());
}

#[test]
fn test_take_units_empty_string() {
    let result = take_units("", ProcessingMode::Grapheme, 5).unwrap();
    assert_eq!(result, Vec::<String>::new());
}

#[test]
fn test_drop_units_grapheme() {
    let result = drop_units("あいうえお🍣🍺", ProcessingMode::Grapheme, 2).unwrap();
    assert_eq!(result, vec!["う", "え", "お", "🍣", "🍺"]);
}

#[test]
fn test_drop_units_codepoint() {
    let result = drop_units("hello", ProcessingMode::Codepoint, 1).unwrap();
    assert_eq!(result, vec!["e", "l", "l", "o"]);
}

#[test]
fn test_drop_units_byte() {
    let result = drop_units("abc", ProcessingMode::Byte, 1).unwrap();
    assert_eq!(result, vec!["b", "c"]);
}

#[test]
fn test_drop_units_n_greater_than_length() {
    let result = drop_units("abc", ProcessingMode::Codepoint, 10).unwrap();
    assert_eq!(result, Vec::<String>::new());
}

#[test]
fn test_drop_units_zero() {
    let result = drop_units("abc", ProcessingMode::Codepoint, 0).unwrap();
    assert_eq!(result, vec!["a", "b", "c"]);
}

#[test]
fn test_drop_units_empty_string() {
    let result = drop_units("", ProcessingMode::Grapheme, 5).unwrap();
    assert_eq!(result, Vec::<String>::new());
}

#[test]
fn test_complex_emoji_count() {
    let result = count_units("👨‍💻👩‍🍳", ProcessingMode::Grapheme).unwrap();
    assert_eq!(result, 2);
}

#[test]
fn test_complex_emoji_take() {
    let result = take_units("👨‍💻👩‍🍳", ProcessingMode::Grapheme, 1).unwrap();
    assert_eq!(result, vec!["👨‍💻"]);
}

#[test]
fn test_complex_emoji_drop() {
    let result = drop_units("👨‍💻👩‍🍳", ProcessingMode::Grapheme, 1).unwrap();
    assert_eq!(result, vec!["👩‍🍳"]);
}

#[test]
fn test_graphemes_concatenate_to_input() {
    let original = "あ🍣x👩‍🍳é";
    let segments = iter_grapheme_icu4x(original).unwrap();
    let rejoined: String = segments.concat();
    assert_eq!(rejoined, original);
}

#[test]
fn test_iter_byte_values_are_latin1() {
    // The bytes of "é" (C3 A9) read in isolation are 'Ã' and '©'.
    let result = iter_byte("é");
    assert_eq!(result, vec!["Ã", "©"]);
}
