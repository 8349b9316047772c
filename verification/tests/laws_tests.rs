use skillscripts::portable::resolve_unix_relative;
use skillscripts::config::{format_duration, format_file_size, parse_duration_seconds, parse_file_size, Config};
use skillscripts::mcp::{details_uri, parse_script_uri, source_uri};
use skillscripts::paths::{resolve_scan_path, to_unix_style};
use skillscripts::picker::{highlight_segments, PickerState};
use skillscripts::registry::{finish_registry, normalize_tags, Script, ScriptName};
use skillscripts::search::search_skills;
use skillscripts::skill::Skill;
use skillscripts::sync::finalize_tool_names;
use skillscripts::tool_name::{build_auto_tool_name, sanitize_tool_name};

fn safe(s: &str) -> bool {
    s.chars().all(|c| c.is_ascii_lowercase() || c.is_ascii_digit() || c == '_' || c == '-')
}

#[test]
fn sanitizing_twice_changes_nothing() {
    for input in ["SQL Query@Prod", "--a--b--", "9 lives", "🚀x🚀", "", "ÄÖÜ tool"] {
        let once = sanitize_tool_name(input);
        assert_eq!(sanitize_tool_name(&once), once);
        assert!(safe(&once));
        assert!(!once.contains("__") && !once.contains("--") && !once.ends_with('_'));
        if let Some(c) = once.chars().next() {
            assert!(c.is_ascii_lowercase());
        }
    }
}

#[test]
fn auto_names_are_safe() {
    for (name, stem) in [("Image Resize", Some("image")), ("图片", None), ("", Some("--"))] {
        let n = build_auto_tool_name(name, "/p/x.py", stem);
        assert!(safe(&n));
        assert!(n.chars().next().map(|c| c.is_ascii_lowercase()).unwrap_or(false));
    }
}

fn skill(name: &str, path: &str, tool: Option<&str>) -> Skill {
    Skill {
        name: name.to_string(),
        description: String::new(),
        path: path.to_string(),
        tags: vec![],
        command_template: None,
        parameters: None,
        checksum: None,
        tool_name: tool.map(str::to_string),
    }
}

#[test]
fn finalisation_names_every_skill_or_keeps_names_unique() {
    let make = || vec![skill("A", "/a.py", Some("x")), skill("B", "/b.py", Some("x")), skill("C", "/c.py", Some("!!")), skill("D", "/d.py", None)];
    let mut lenient = make();
    finalize_tool_names(&mut lenient, false);
    assert!(lenient.iter().all(|s| s.tool_name.is_some()));
    let mut strict = make();
    finalize_tool_names(&mut strict, true);
    let names: Vec<&String> = strict.iter().filter_map(|s| s.tool_name.as_ref()).collect();
    for (i, a) in names.iter().enumerate() {
        for b in names.iter().skip(i + 1) {
            assert_ne!(a, b);
        }
    }
}

#[test]
fn merge_keeps_base_lists_first() {
    let mut base = Config::default_config();
    base.scan_paths = vec!["/g".to_string(), "/s".to_string()];
    let mut other = Config::default_config();
    other.scan_paths = vec!["/s".to_string(), "/l".to_string(), "/l".to_string()];
    let m = base.merge(&other);
    assert_eq!(&m.scan_paths[..2], &["/g".to_string(), "/s".to_string()]);
    assert!(other.scan_paths.iter().all(|p| m.scan_paths.contains(p)));
    assert_eq!(m.scan_paths.len(), 3);
    let kept = base.merge(&Config::default_config());
    assert_eq!(kept.max_file_size, base.max_file_size);
    assert_eq!(kept.search_limit, base.search_limit);
}

fn script(id: &str, path: &str, tags: &[&str]) -> Script {
    Script {
        name: ScriptName::parse(id).expect("valid"),
        path: path.to_string(),
        command: "sh {{path}}".to_string(),
        comment: Some("Create PDF documents".to_string()),
        tags: tags.iter().map(|t| t.to_string()).collect(),
    }
}

#[test]
fn loaded_registries_have_unique_names() {
    let r = finish_registry(vec![script("b", "/b", &[]), script("a", "/a", &[]), script("c", "/c", &[])], 3).ok().expect("ok");
    let names: Vec<&str> = r.scripts.iter().map(|s| s.name.as_str()).collect();
    assert_eq!(names, vec!["a", "b", "c"]);
    assert_eq!(r.mcp_search_limit, 3);
}

#[test]
fn tags_do_not_exclude_and_results_are_bounded() {
    let scripts: Vec<Script> = (0..12).map(|i| script(&format!("pdf_{i}"), &format!("/pdf-{i}.py"), &["x"])).collect();
    let plain = search_skills(&scripts, Some("pdf"), &vec![], Some(10));
    let tagged = search_skills(&scripts, Some("pdf"), &vec!["nothing".to_string()], Some(10));
    assert_eq!(plain.len(), 10);
    assert_eq!(tagged.len(), 10);
    assert!(tagged.windows(2).all(|w| w[0].score >= w[1].score));
}

#[test]
fn normalized_tags_are_distinct() {
    let tags: Vec<String> = ["a", "A", " a ", "B", "b"].iter().map(|s| s.to_string()).collect();
    assert_eq!(normalize_tags("x", &tags).ok(), Some(vec!["a".to_string(), "B".to_string()]));
}

#[test]
fn unix_style_and_highlight_pieces() {
    assert!(!to_unix_style("a\\b\\\\c").contains('\\'));
    let pieces = highlight_segments("hello", &vec![1, 3]);
    let joined: String = pieces.iter().map(|p| p.0.as_str()).collect();
    assert_eq!(joined, "hello");
    assert!(pieces.iter().filter(|p| p.1).all(|p| p.0.chars().count() == 1));
}

#[test]
fn uris_round_trip() {
    let n = ScriptName::parse("tool_1").expect("valid");
    let (a, s1) = parse_script_uri(&details_uri(&n)).expect("details");
    let (b, s2) = parse_script_uri(&source_uri(&n)).expect("source");
    assert_eq!(a.as_str(), "tool_1");
    assert_eq!(b.as_str(), "tool_1");
    assert!(!s1 && s2);
}

#[test]
fn picker_moves_undo_each_other() {
    let mut st = PickerState::new(vec![skill("a", "/a", None), skill("b", "/b", None), skill("c", "/c", None)]);
    for start in 0..3 {
        st.select_index(start);
        st.next();
        st.previous();
        assert_eq!(st.selected, Some(start));
        st.previous();
        st.next();
        assert_eq!(st.selected, Some(start));
    }
}

#[test]
fn saved_sizes_and_durations_read_back() {
    for size in [0u64, 1, 1023, 1024 * 1024, 5 * 1024 * 1024, 1024 * 1024 + 1] {
        assert_eq!(parse_file_size(&format_file_size(size)), Some(size));
    }
    assert_eq!(format_file_size(2 * 1024 * 1024), "2MB");
    for secs in [0u64, 59, 60, 3600, 7200, 86400, 90061, 120] {
        assert_eq!(parse_duration_seconds(&format_duration(secs)), Some(secs));
    }
    assert_eq!(format_duration(7200), "2h");
    assert_eq!(format_duration(120), "2m");
    assert_eq!(format_duration(172800), "2d");
}

#[test]
fn resolving_scan_paths_twice_is_stable() {
    for p in ["~", "~/x", "rel/y", "/abs"] {
        let once = resolve_scan_path("/base", "/home/u", p);
        assert_eq!(resolve_scan_path("/base", "/home/u", &once), once);
        assert!(once.starts_with('/'));
    }
}

#[test]
fn drive_letter_paths_are_refused() {
    assert!(resolve_unix_relative("/base", "C:tools/run.py", "path").is_err());
    assert!(resolve_unix_relative("/base", "tools/run.py", "path").is_ok());
}
