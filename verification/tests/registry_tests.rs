use skillscripts::mcp::{
    details_uri, parse_script_uri, search_message_text, search_scripts_response, source_mime, source_uri,
    route_resource, validate_search_request, ResourceRequest, SearchRequestError,
};
use skillscripts::portable::resolve_unix_relative;
use skillscripts::registry::{
    build_script, check_imported_config, default_global_config, finish_registry, normalize_tags, validate_mcp_config,
    ConfigFile, McpConfig, PathProblem, RegistryError, Script, ScriptName, ScriptRegistration,
};
use skillscripts::search::{is_stop_word, query_terms, search_skills};

fn script(id: &str, path: &str, comment: &str, tags: &[&str]) -> Script {
    Script {
        name: ScriptName::parse(id).expect("valid name"),
        path: path.to_string(),
        command: "python {{path}}".to_string(),
        comment: Some(comment.to_string()),
        tags: tags.iter().map(|tag| tag.to_string()).collect(),
    }
}

fn first_name(scripts: &[Script], matches: &[skillscripts::search::SearchMatch]) -> String {
    scripts[matches[0].index].name.name.clone()
}

#[test]
fn fuzzy_search_reuses_skim_matcher_and_orders_matches() {
    let skills = vec![
        script("notes", "notes.py", "Manage notes", &["text"]),
        script("markdown", "markdown-pdf.py", "Convert Markdown to PDF", &["pdf"]),
    ];
    let matches = search_skills(&skills, Some("markdown pdf"), &vec![], None);
    assert_eq!(first_name(&skills, &matches), "markdown");
}

#[test]
fn tags_are_optional_soft_signals_instead_of_hard_filters() {
    let skills = vec![
        script("pdf", "pdf.py", "Convert Markdown to PDF", &["PDF"]),
        script("image", "image.py", "Convert PNG images", &["image"]),
    ];
    let m = search_skills(&skills, Some("markdown pdf"), &vec![], None);
    assert_eq!(first_name(&skills, &m), "pdf");
    let m = search_skills(&skills, Some("markdown pdf"), &vec!["image".to_string()], None);
    assert_eq!(first_name(&skills, &m), "pdf");
}

#[test]
fn natural_language_query_recalls_scripts_without_tags() {
    let skills = vec![script("render", "render.py", "Convert Markdown documents into PDF files", &[])];
    assert_eq!(search_skills(&skills, Some("please find a tool to convert markdown to pdf"), &vec![], None).len(), 1);
}

#[test]
fn default_limit_returns_only_the_five_highest_value_matches() {
    let skills: Vec<Script> = (1..=8)
        .map(|id| script(&format!("pdf_{id}"), &format!("pdf-{id}.py"), "Create PDF documents", &[]))
        .collect();
    let matches = search_skills(&skills, Some("pdf"), &vec![], None);
    assert_eq!(matches.len(), 5);
    assert_eq!(first_name(&skills, &matches), "pdf_1");
}

#[test]
fn limits_are_clamped_and_scores_descend() {
    let skills: Vec<Script> = (1..=12)
        .map(|id| script(&format!("pdf_{id}"), &format!("pdf-{id}.py"), "Create PDF documents", &[]))
        .collect();
    assert_eq!(search_skills(&skills, Some("pdf"), &vec![], Some(50)).len(), 10);
    assert_eq!(search_skills(&skills, Some("pdf"), &vec![], Some(0)).len(), 1);
    let m = search_skills(&skills, Some("pdf"), &vec![], Some(10));
    assert!(m.windows(2).all(|w| w[0].score >= w[1].score));
    assert!(search_skills(&skills, Some("   "), &vec![], None).is_empty());
}

#[test]
fn query_terms_drop_stop_words_and_short_pieces() {
    assert_eq!(query_terms("please find a tool to convert markdown to pdf"), vec!["convert", "markdown", "pdf"]);
    assert_eq!(query_terms("x-ray, re_name!"), vec!["x-ray", "re_name"]);
    assert!(is_stop_word("THE"));
    assert!(!is_stop_word("pdf"));
}

#[test]
fn script_names_are_ascii_identifiers() {
    for ok in ["convert_csv", "_internal", "A1"] {
        assert!(ScriptName::parse(ok).is_some());
    }
    for bad in ["", "1abc", "a.b", "a-b", "a/b", "a b", "名前"] {
        assert!(ScriptName::parse(bad).is_none());
        assert!(matches!(ScriptName::from_str(bad), Err(RegistryError::InvalidScriptName { .. })));
    }
}

#[test]
fn tags_are_trimmed_and_deduplicated_ignoring_ascii_case() {
    let tags = vec![" PDF ".to_string(), "pdf".to_string(), "Text".to_string()];
    assert_eq!(normalize_tags("x", &tags).ok(), Some(vec!["PDF".to_string(), "Text".to_string()]));
    assert!(matches!(normalize_tags("x", &vec![" ".to_string()]), Err(RegistryError::EmptyTag { .. })));
}

fn registration(name: &str, command: &str, tags: &[&str]) -> ScriptRegistration {
    ScriptRegistration {
        name: name.to_string(),
        path: "tools/a.py".to_string(),
        command: command.to_string(),
        comment: None,
        tags: tags.iter().map(|t| t.to_string()).collect(),
    }
}

#[test]
fn registrations_are_checked_in_order() {
    assert!(matches!(build_script(&registration("1x", "python {{path}}", &[]), "/a.py".to_string(), true), Err(RegistryError::InvalidScriptName { .. })));
    assert!(matches!(build_script(&registration("x", "python {{path}}", &[]), "/a.py".to_string(), false), Err(RegistryError::MissingScriptFile { .. })));
    assert!(matches!(build_script(&registration("x", "  ", &[]), "/a.py".to_string(), true), Err(RegistryError::EmptyCommand { .. })));
    assert!(matches!(build_script(&registration("x", "python a.py", &[]), "/a.py".to_string(), true), Err(RegistryError::MissingPathPlaceholder { .. })));
    assert!(matches!(build_script(&registration("x", "python {{path}}", &[""]), "/a.py".to_string(), true), Err(RegistryError::EmptyTag { .. })));
    let s = build_script(&registration("x", "python {{path}}", &["a", "A"]), "/a.py".to_string(), true).ok().expect("ok");
    assert_eq!(s.tags, vec!["a"]);
    assert_eq!(s.path, "/a.py");
}

#[test]
fn registry_rejects_repeated_names_and_sorts() {
    let ok = finish_registry(vec![script("b", "/2.py", "", &[]), script("a", "/1.py", "", &[])], 5).ok().expect("ok");
    let names: Vec<&str> = ok.scripts.iter().map(|s| s.name.as_str()).collect();
    assert_eq!(names, vec!["a", "b"]);
    match finish_registry(vec![script("a", "/2.py", "", &[]), script("a", "/1.py", "", &[])], 5) {
        Err(RegistryError::DuplicateName { name, first, second }) => {
            assert_eq!(name, "a");
            assert_eq!(first, "/1.py");
            assert_eq!(second, "/2.py");
        }
        _ => panic!("expected a duplicate"),
    }
}

#[test]
fn mcp_options_and_imports_are_checked() {
    let mut c = default_global_config();
    assert!(validate_mcp_config(&c).is_ok());
    assert_eq!(c.imports, vec!["scripts.yaml"]);
    c.mcp = Some(McpConfig { search_limit: 11 });
    assert!(matches!(validate_mcp_config(&c), Err(RegistryError::SearchLimitOutOfRange { limit: 11 })));
    let imported = ConfigFile { mcp: None, imports: vec!["x.yaml".to_string()], scripts: vec![] };
    assert!(matches!(check_imported_config("/i.yaml", &imported), Err(RegistryError::ImportDeclaresImports { .. })));
    let imported = ConfigFile { mcp: Some(McpConfig { search_limit: 3 }), imports: vec![], scripts: vec![] };
    assert!(matches!(check_imported_config("/i.yaml", &imported), Err(RegistryError::ImportDeclaresMcp { .. })));
}

#[test]
fn rejects_platform_specific_paths_on_every_platform() {
    for value in ["/tmp/a.py", "C:/tools/a.py", "C:\\tools\\a.py", "\\\\host\\a.py"] {
        assert!(resolve_unix_relative("base", value, "path").is_err());
    }
    assert!(matches!(resolve_unix_relative("base", " ", "path"), Err(RegistryError::InvalidPath { problem: PathProblem::Empty, .. })));
}

#[test]
fn resolves_and_normalizes_unix_relative_paths() {
    assert_eq!(resolve_unix_relative("base", "scripts/../tools/a.py", "path").ok().as_deref(), Some("base/tools/a.py"));
    assert_eq!(resolve_unix_relative("base", "../shared/a.py", "path").ok().as_deref(), Some("base/../shared/a.py"));
}

#[test]
fn resource_uris_round_trip() {
    let n = ScriptName::parse("convert").expect("valid");
    assert_eq!(details_uri(&n), "sks://scripts/convert");
    assert_eq!(source_uri(&n), "sks://scripts/convert/source");
    let (name, source) = parse_script_uri("sks://scripts/convert/source").expect("parsed");
    assert_eq!(name.as_str(), "convert");
    assert!(source);
    let (name, source) = parse_script_uri("sks://scripts/convert").expect("parsed");
    assert_eq!(name.as_str(), "convert");
    assert!(!source);
    assert!(parse_script_uri("sks://scripts/convert/other").is_none());
    assert!(parse_script_uri("sks://scripts/bad-name").is_none());
    assert!(parse_script_uri("sks://registry").is_none());
}

#[test]
fn mime_types_follow_extensions() {
    assert_eq!(source_mime(&script("a", "/x/a.py", "", &[])), "text/x-python");
    assert_eq!(source_mime(&script("a", "/x/a.mjs", "", &[])), "text/javascript");
    assert_eq!(source_mime(&script("a", "/x/a.bash", "", &[])), "text/x-shellscript");
    assert_eq!(source_mime(&script("a", "/x/a", "", &[])), "text/plain");
}

#[test]
fn search_requests_are_checked_and_answered() {
    assert!(matches!(validate_search_request(Some("  "), &vec![" ".to_string()], None), Err(SearchRequestError::NothingToSearch)));
    assert!(matches!(validate_search_request(Some("pdf"), &vec![], Some(0)), Err(SearchRequestError::LimitOutOfRange)));
    assert_eq!(validate_search_request(Some("pdf"), &vec![], Some(11)).ok(), Some(vec![]));
    assert_eq!(validate_search_request(None, &vec![" pdf ".to_string(), "".to_string()], Some(3)).ok(), Some(vec!["pdf".to_string()]));
    let skills = vec![script("render", "render.py", "Convert Markdown documents into PDF files", &["pdf"])];
    let response = search_scripts_response(&skills, 5, Some("markdown"), &vec![], None);
    assert_eq!(response.matches.len(), 1);
    assert_eq!(response.matches[0].usage, "sks run render [args...]");
    assert_eq!(response.message, "Found 1 matching registered script(s).");
    assert_eq!(search_message_text(0), "No matching registered scripts found.");
}

#[test]
fn search_limit_above_ten_is_capped_at_ten() {
    let names: Vec<String> = (0..12).map(|i| format!("pdf_tool_{i}")).collect();
    let skills: Vec<Script> = names.iter().map(|n| script(n, "t.py", "Render PDF files", &["pdf"])).collect();
    assert!(validate_search_request(Some("pdf"), &vec![], Some(50)).is_ok());
    let response = search_scripts_response(&skills, 5, Some("pdf"), &vec![], Some(50));
    assert_eq!(response.matches.len(), 10);
}

#[test]
fn resource_uris_route_to_the_first_script_with_the_name() {
    let skills = vec![script("alpha", "a.py", "A", &[]), script("beta", "b.py", "B", &[])];
    assert!(matches!(route_resource("sks://registry", &skills), ResourceRequest::Registry));
    assert!(matches!(route_resource("sks://scripts/beta", &skills), ResourceRequest::Details(1)));
    assert!(matches!(route_resource("sks://scripts/alpha/source", &skills), ResourceRequest::Source(0)));
    assert!(matches!(route_resource("sks://scripts/gamma", &skills), ResourceRequest::UnknownScript));
    assert!(matches!(route_resource("file:///etc/passwd", &skills), ResourceRequest::UnknownUri));
}
