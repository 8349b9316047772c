use skillscripts::header::HeaderParser;

fn field(yaml: &str, key: &str) -> Option<String> {
    let value: serde_yaml::Value = serde_yaml::from_str(yaml).ok()?;
    value.get(key)?.as_str().map(str::to_string)
}

fn header_name(content: &str) -> String {
    let yaml = HeaderParser::extract_header(content).expect("a header");
    field(&yaml, "name").expect("a name")
}

#[test]
fn test_parse_python_header_with_shebang() {
    let content = "#!/usr/bin/env python3\n# ---\n# name: test_skill\n# description: A test skill\n# tags: [test]\n# ---\nprint(\"hello\")\n";
    let yaml = HeaderParser::extract_header(content).expect("a header");
    assert_eq!(field(&yaml, "name").as_deref(), Some("test_skill"));
    assert_eq!(field(&yaml, "description").as_deref(), Some("A test skill"));
}

#[test]
fn test_parse_header_without_comment_prefix() {
    let content = "---\nname: bare_skill\ndescription: Header without prefix\n---\necho hello\n";
    assert_eq!(header_name(content), "bare_skill");
}

#[test]
fn test_parse_line_comment_prefix() {
    let content = "// ---\n// name: js_skill\n// description: A JS skill\n// ---\nconsole.log(\"hello\");\n";
    assert_eq!(header_name(content), "js_skill");
}

#[test]
fn test_parse_wrapped_block_comment_prefix() {
    let content = "/**\n * ---\n * name: block_skill\n * description: Wrapped block comment skill\n * ---\n */\nfn main() {}\n";
    assert_eq!(header_name(content), "block_skill");
}

#[test]
fn test_parse_erlang_style_prefix() {
    let content = "% ---\n% name: erlang_skill\n% description: An Erlang-style skill\n% ---\n-module(test).\n";
    assert_eq!(header_name(content), "erlang_skill");
}

#[test]
fn test_parse_haskell_style_prefix() {
    let content = "-- ---\n-- name: haskell_skill\n-- description: A Haskell-style skill\n-- ---\nmain = putStrLn \"Hello\"\n";
    assert_eq!(header_name(content), "haskell_skill");
}

#[test]
fn parser_test_parse_custom_emoji_prefix() {
    let content = "🚀 ---\n🚀 name: emoji_skill\n🚀 description: A skill with emoji prefix\n🚀 ---\nprint(\"emoji!\")\n";
    assert_eq!(header_name(content), "emoji_skill");
}

#[test]
fn test_only_newlines_return_none() {
    assert_eq!(HeaderParser::extract_header("\n\n\n"), None);
}

#[test]
fn test_missing_end_marker_returns_none() {
    assert_eq!(HeaderParser::extract_header("# ---\n# name: incomplete\n"), None);
}

#[test]
fn test_malformed_yaml_returns_error() {
    let content = "# ---\n# name: broken\n# description: [unterminated\n# ---\n";
    let yaml = HeaderParser::extract_header(content).expect("the header text is found");
    assert!(serde_yaml::from_str::<serde_yaml::Value>(&yaml).is_err());
}

#[test]
fn header_text_keeps_indentation_and_crlf_lines() {
    let content = "# ---\r\n# name: x\r\n# args:\r\n#   a: 1\r\n# ---\r\n";
    assert_eq!(HeaderParser::extract_header(content).as_deref(), Some("name: x\nargs:\n  a: 1\n"));
}

#[test]
fn header_must_start_within_fifty_lines() {
    let mut content = String::new();
    for _ in 0..50 {
        content.push_str("x\n");
    }
    content.push_str("---\nname: late\n---\n");
    assert_eq!(HeaderParser::extract_header(&content), None);
}

#[test]
fn blank_header_is_ignored() {
    assert_eq!(HeaderParser::extract_header("# ---\n#   \n# ---\n"), None);
}

#[test]
fn test_parse_python_header() {
    let content = "#!/usr/bin/env python3\n# ---\n# name: test_skill\n# description: A test skill\n# tags: [test]\n# ---\nprint(\"hello\")\n";
    let result = HeaderParser::extract_header(content);
    assert!(result.is_some());
    let yaml = result.unwrap();
    assert_eq!(field(&yaml, "name").as_deref(), Some("test_skill"));
    assert_eq!(field(&yaml, "description").as_deref(), Some("A test skill"));
}

#[test]
fn test_parse_js_header() {
    let content = "// ---\n// name: js_skill\n// description: A JS skill\n// ---\nconsole.log(\"hello\");\n";
    let result = HeaderParser::extract_header(content);
    assert!(result.is_some());
    assert_eq!(field(&result.unwrap(), "name").as_deref(), Some("js_skill"));
}

#[test]
fn test_parse_block_comment_header() {
    let content = "/*\n---\nname: block_skill\ndescription: A block comment skill\n---\n*/\nint main() {}\n";
    let result = HeaderParser::extract_header(content);
    assert!(result.is_some());
    assert_eq!(field(&result.unwrap(), "name").as_deref(), Some("block_skill"));
}

#[test]
fn test_parse_erlang_style() {
    let content = "% ---\n% name: erlang_skill\n% description: An Erlang-style skill\n% ---\n-module(test).\n";
    let result = HeaderParser::extract_header(content);
    assert!(result.is_some());
    assert_eq!(field(&result.unwrap(), "name").as_deref(), Some("erlang_skill"));
}

#[test]
fn test_parse_haskell_style() {
    let content = "-- ---\n-- name: haskell_skill\n-- description: A Haskell-style skill\n-- ---\nmain = putStrLn \"Hello\"\n";
    let result = HeaderParser::extract_header(content);
    assert!(result.is_some());
    assert_eq!(field(&result.unwrap(), "name").as_deref(), Some("haskell_skill"));
}
