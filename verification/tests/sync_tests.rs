use skillscripts::skill::{ArgDef, Index, OpenAITool, ParseError, Skill, SkillHeader};
use skillscripts::sync::{build_index, finalize_tool_names, sort_by_name_and_path, sync_entry, SyncEntry};
use skillscripts::tool_name::{build_auto_tool_name, short_path_hash};

fn skill(name: &str, path: &str, tool_name: Option<&str>) -> Skill {
    Skill {
        name: name.to_string(),
        description: format!("{name} description"),
        path: path.to_string(),
        tags: Vec::new(),
        command_template: None,
        parameters: None,
        checksum: None,
        tool_name: tool_name.map(str::to_string),
    }
}

#[test]
fn test_finalize_tool_names_falls_back_for_invalid_explicit_name_in_non_strict_mode() {
    let mut skills = vec![skill("Echo Skill", "/tmp/echo.py", Some("🔥🔥"))];
    let errors = finalize_tool_names(&mut skills, false);
    assert!(errors.is_empty());
    assert_eq!(skills[0].tool_name, Some(build_auto_tool_name("Echo Skill", "/tmp/echo.py", Some("echo"))));
}

#[test]
fn test_finalize_tool_names_reports_invalid_explicit_name_in_strict_mode() {
    let mut skills = vec![skill("Echo Skill", "/tmp/echo.py", Some("🔥🔥"))];
    let errors = finalize_tool_names(&mut skills, true);
    assert_eq!(errors.len(), 1);
    assert!(skills[0].tool_name.is_none());
    assert!(errors[0].reason.contains("Invalid tool_name"));
}

#[test]
fn test_finalize_tool_names_deduplicates_collisions_in_non_strict_mode() {
    let mut skills = vec![
        skill("Echo One", "/tmp/echo_one.py", Some("echo_skill")),
        skill("Echo Two", "/tmp/echo_two.py", Some("echo_skill")),
    ];
    let errors = finalize_tool_names(&mut skills, false);
    assert!(errors.is_empty());
    assert_ne!(skills[0].tool_name, skills[1].tool_name);
    assert!(skills[0].tool_name.as_deref().expect("tool_name should be present").starts_with("echo_skill_"));
    assert!(skills[1].tool_name.as_deref().expect("tool_name should be present").starts_with("echo_skill_"));
    assert_eq!(skills[0].tool_name, Some(format!("echo_skill_{}", short_path_hash("/tmp/echo_one.py"))));
}

#[test]
fn test_finalize_tool_names_reports_collisions_in_strict_mode() {
    let mut skills = vec![
        skill("Echo One", "/tmp/echo_one.py", Some("echo_skill")),
        skill("Echo Two", "/tmp/echo_two.py", Some("echo_skill")),
    ];
    let errors = finalize_tool_names(&mut skills, true);
    assert_eq!(errors.len(), 2);
    assert!(skills.iter().all(|skill| skill.tool_name.is_none()));
    assert!(errors.iter().all(|error| error.reason.contains("Duplicate tool_name")));
    assert_eq!(errors[0].reason, "Duplicate tool_name 'echo_skill'.");
    assert_eq!(errors[0].path, "/tmp/echo_one.py");
    assert_eq!(errors[1].path, "/tmp/echo_two.py");
}

#[test]
fn strict_duplicate_errors_are_grouped_by_first_occurrence() {
    let mut skills = vec![
        skill("A", "/a1.py", Some("alpha")),
        skill("B", "/b1.py", Some("beta")),
        skill("C", "/a2.py", Some("alpha")),
        skill("D", "/b2.py", Some("beta")),
        skill("E", "/e.py", Some("unique")),
    ];
    let errors = finalize_tool_names(&mut skills, true);
    let paths: Vec<&str> = errors.iter().map(|e| e.path.as_str()).collect();
    assert_eq!(paths, vec!["/a1.py", "/a2.py", "/b1.py", "/b2.py"]);
    assert_eq!(skills[4].tool_name.as_deref(), Some("unique"));
}

#[test]
fn build_index_orders_by_name_then_path_and_collects_errors() {
    let entries = vec![
        SyncEntry::Parsed(skill("beta", "/z.py", None)),
        SyncEntry::Failed(ParseError::new("/bad.py".to_string(), "broken".to_string())),
        SyncEntry::Skipped,
        SyncEntry::Parsed(skill("alpha", "/y.py", None)),
        SyncEntry::Parsed(skill("alpha", "/x.py", None)),
    ];
    let (index, errors) = build_index(entries, false);
    let order: Vec<(&str, &str)> = index.skills.iter().map(|s| (s.name.as_str(), s.path.as_str())).collect();
    assert_eq!(order, vec![("alpha", "/x.py"), ("alpha", "/y.py"), ("beta", "/z.py")]);
    assert_eq!(errors.len(), 1);
    assert_eq!(errors[0].path, "/bad.py");
    assert_eq!(index.version, "1.0.0");
    assert!(index.last_sync.ends_with('Z'));
    assert!(index.skills.iter().all(|s| s.tool_name.is_some()));
}

#[test]
fn strict_build_index_drops_skills_without_tool_names() {
    let entries = vec![
        SyncEntry::Parsed(skill("One", "/one.py", Some("same"))),
        SyncEntry::Parsed(skill("Two", "/two.py", Some("same"))),
        SyncEntry::Parsed(skill("Three", "/three.py", None)),
    ];
    let (index, errors) = build_index(entries, true);
    assert_eq!(index.skills.len(), 1);
    assert_eq!(index.skills[0].name, "Three");
    assert_eq!(errors.len(), 2);
}

#[test]
fn sync_entries_follow_strict_mode() {
    match sync_entry("/f.py".to_string(), Err("bad yaml".to_string()), true) {
        SyncEntry::Failed(e) => {
            assert_eq!(e.path, "/f.py");
            assert_eq!(e.reason, "bad yaml");
        }
        _ => panic!("expected a failure"),
    }
    assert!(matches!(sync_entry("/f.py".to_string(), Err("bad".to_string()), false), SyncEntry::Skipped));
    assert!(matches!(sync_entry("/f.py".to_string(), Ok(None), true), SyncEntry::Skipped));
    let header = SkillHeader {
        name: "n".to_string(),
        description: "d".to_string(),
        tags: vec!["t".to_string()],
        version: None,
        command_template: None,
        tool_name: Some("Tool".to_string()),
        args: vec![
            ("zeta".to_string(), ArgDef { arg_type: "string".to_string(), description: "z".to_string(), required: true }),
            ("alpha".to_string(), ArgDef { arg_type: "number".to_string(), description: "a".to_string(), required: false }),
        ],
    };
    match sync_entry("/f.py".to_string(), Ok(Some(header)), true) {
        SyncEntry::Parsed(s) => {
            assert_eq!(s.name, "n");
            assert_eq!(s.path, "/f.py");
            let p = s.parameters.expect("parameters");
            let names: Vec<&str> = p.properties.iter().map(|x| x.name.as_str()).collect();
            assert_eq!(names, vec!["alpha", "zeta"]);
            assert_eq!(p.required, vec!["zeta"]);
            let tool = OpenAITool::from_skill(&Skill { tool_name: None, ..skill("n", "/f.py", None) });
            assert_eq!(tool.tool_type, "function");
            assert_eq!(tool.function.name, build_auto_tool_name("n", "/f.py", Some("f")));
        }
        _ => panic!("expected a skill"),
    }
}

#[test]
fn sorting_is_stable_for_equal_keys() {
    let mut a = skill("same", "/p.py", None);
    a.description = "first".to_string();
    let mut b = skill("same", "/p.py", None);
    b.description = "second".to_string();
    let sorted = sort_by_name_and_path(vec![a, b, skill("aaa", "/q.py", None)]);
    let d: Vec<&str> = sorted.iter().map(|s| s.description.as_str()).collect();
    assert_eq!(d, vec!["aaa description", "first", "second"]);
}

#[test]
fn index_stamps() {
    let ix = Index::at(42);
    assert_eq!(ix.last_sync, "42Z");
    assert_eq!(ix.version, "1.0.0");
    assert!(ix.skills.is_empty());
}
