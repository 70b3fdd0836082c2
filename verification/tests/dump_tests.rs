use mojibox::{dump_graphemes, get_unicode_name, DumpFormat};

#[test]
fn test_dump_graphemes_text_simple() {
    let result = dump_graphemes("🍣", DumpFormat::Text).unwrap();
    assert!(result.contains("Cluster 0: 🍣 (1 codepoint)"));
    assert!(result.contains("U+1F363"));
    assert!(result.contains("SUSHI"));
}

#[test]
fn test_dump_graphemes_json() {
    let result = dump_graphemes("🍣", DumpFormat::Json).unwrap();
    assert!(result.contains("cluster_index"));
    assert!(result.contains("codepoints"));
    assert!(result.contains("U+1F363"));
    assert!(result.contains("SUSHI"));
}

#[test]
fn test_dump_graphemes_jsonl() {
    let result = dump_graphemes("🍣🍺", DumpFormat::Jsonl).unwrap();
    let lines: Vec<&str> = result.trim().split('\n').collect();
    assert_eq!(lines.len(), 2);
    assert!(lines[0].contains("🍣"));
    assert!(lines[1].contains("🍺"));
}

#[test]
fn test_dump_complex_emoji() {
    let result = dump_graphemes("👩‍👩‍👧‍👦", DumpFormat::Text).unwrap();
    assert!(result.contains("Cluster 0: 👩‍👩‍👧‍👦 (7 codepoints)"));
    assert!(result.contains("WOMAN"));
    assert!(result.contains("ZERO WIDTH JOINER"));
    assert!(result.contains("GIRL"));
    assert!(result.contains("BOY"));
}

#[test]
fn test_get_unicode_name() {
    assert_eq!(get_unicode_name('A'), "LATIN CAPITAL LETTER A");
    assert_eq!(get_unicode_name('🍣'), "SUSHI");
    assert_eq!(get_unicode_name('\u{200D}'), "ZERO WIDTH JOINER");
}

#[test]
fn test_dump_empty_string() {
    let result = dump_graphemes("", DumpFormat::Text).unwrap();
    assert_eq!(result, "");
}

#[test]
fn test_dump_text_exact() {
    let result = dump_graphemes("A", DumpFormat::Text).unwrap();
    assert_eq!(
        result,
        "\nCluster 0: A (1 codepoint)\n  [0] A    U+0041  LATIN CAPITAL LETTER A\n\n"
    );
}

#[test]
fn test_dump_jsonl_exact() {
    let result = dump_graphemes("A", DumpFormat::Jsonl).unwrap();
    assert_eq!(
        result,
        "{\"cluster_index\":0,\"display\":\"A\",\"codepoints\":[{\"index\":0,\"char\":\"A\",\"codepoint\":\"U+0041\",\"name\":\"LATIN CAPITAL LETTER A\"}]}\n"
    );
}

#[test]
fn test_dump_json_empty_is_empty_array() {
    let result = dump_graphemes("", DumpFormat::Json).unwrap();
    assert_eq!(result, "[]");
}

#[test]
fn test_dump_text_control_character_is_escaped() {
    let result = dump_graphemes("\u{9}", DumpFormat::Text).unwrap();
    assert!(result.contains("\\u0009"));
    assert!(result.contains("U+0009"));
}

#[test]
fn test_dump_json_escapes_display() {
    let result = dump_graphemes("\"", DumpFormat::Jsonl).unwrap();
    assert!(result.contains("\"display\":\"\\\"\""));
}
