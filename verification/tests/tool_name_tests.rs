use skillscripts::tool_name::{
    build_auto_tool_name, sanitize_tool_name, short_path_hash, short_stable_hash,
    validate_explicit_tool_name,
};

#[test]
fn test_auto_tool_name_is_stable_and_safe() {
    let first = build_auto_tool_name("Image Resize", "/tmp/demo/image.py", Some("image"));
    let second = build_auto_tool_name("Image Resize", "/tmp/demo/image.py", Some("image"));
    assert_eq!(first, second);
    assert!(first.starts_with("image_resize_"));
    assert!(first.chars().all(|character| {
        character.is_ascii_lowercase() || character.is_ascii_digit() || character == '_' || character == '-'
    }));
}

#[test]
fn test_auto_tool_name_falls_back_when_name_is_non_ascii() {
    let tool_name = build_auto_tool_name("图片压缩", "/tmp/demo/图片压缩.py", Some("图片压缩"));
    assert!(tool_name.starts_with("skill_"));
}

#[test]
fn test_validate_explicit_tool_name_rejects_empty_after_normalization() {
    assert_eq!(validate_explicit_tool_name("🚀🚀"), None);
}

#[test]
fn test_validate_explicit_tool_name_normalizes_to_ascii() {
    assert_eq!(validate_explicit_tool_name("SQL Query@Prod"), Some("sql_query_prod".to_string()));
}

#[test]
fn sanitize_collapses_and_strips_separators() {
    assert_eq!(sanitize_tool_name("--Hello__World--"), "hello_world");
    assert_eq!(sanitize_tool_name("a - b"), "a_b");
    assert_eq!(sanitize_tool_name("9lives"), "skill_9lives");
    assert_eq!(sanitize_tool_name("_"), "");
    assert_eq!(sanitize_tool_name("Ünïcode"), "n_code");
}

#[test]
fn stable_hash_is_eight_hex_digits_of_fnv1() {
    // FNV-1 of the empty input is the offset basis; its low 32 bits are 84222325.
    assert_eq!(short_stable_hash(""), "84222325");
    let h = short_stable_hash("/tmp/echo.py");
    assert_eq!(h.len(), 8);
    assert!(h.chars().all(|c| c.is_ascii_hexdigit() && !c.is_ascii_uppercase()));
    assert_eq!(short_path_hash("/tmp/echo.py"), h);
}

#[test]
fn auto_name_uses_stem_then_skill() {
    let h = short_stable_hash("/x/y.py");
    assert_eq!(build_auto_tool_name("", "/x/y.py", Some("My Tool")), format!("my_tool_{h}"));
    assert_eq!(build_auto_tool_name("!!", "/x/y.py", None), format!("skill_{h}"));
}
