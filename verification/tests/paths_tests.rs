use skillscripts::paths::{file_extension, file_name, file_stem, join_path, normalize_path, resolve_scan_path, to_unix_style};

#[test]
fn test_resolve_scan_path_expands_tilde_and_keeps_absolute_path() {
    let base = "/workspace/project";
    let home = "/home/demo";
    assert_eq!(resolve_scan_path(base, home, "~/skills"), "/home/demo/skills");
    assert_eq!(resolve_scan_path(base, home, "~"), "/home/demo");
    assert_eq!(resolve_scan_path(base, home, "relative/skills"), "/workspace/project/relative/skills");
    assert_eq!(resolve_scan_path(base, home, "/opt/shared-skills"), "/opt/shared-skills");
}

#[test]
fn test_to_unix_style() {
    let result = to_unix_style("folder/subfolder/file.txt");
    assert_eq!(result, "folder/subfolder/file.txt");
}

#[test]
fn test_normalize_returns_absolute() {
    // The relative path `.` with the working directory the file system reported.
    let result = normalize_path(".", None, Some("/home/demo/work".to_string()));
    assert!(result.starts_with('/'));
    assert!(!result.contains('\\'));
}

#[test]
fn backslashes_become_slashes() {
    assert_eq!(to_unix_style("a\\b\\c.txt"), "a/b/c.txt");
}

#[test]
fn normalize_keeps_absolute_and_prefers_canonical() {
    assert_eq!(normalize_path("/a/b", None, None), "/a/b");
    assert_eq!(normalize_path("x", Some("/real/x".to_string()), Some("/cwd".to_string())), "/real/x");
    assert_eq!(normalize_path("x/../y", None, Some("/cwd".to_string())), "/cwd/y");
    assert_eq!(normalize_path("rel", None, None), "rel");
}

#[test]
fn file_names_and_stems() {
    assert_eq!(file_name("/tmp/echo.py").as_deref(), Some("echo.py"));
    assert_eq!(file_name("a/b/").as_deref(), Some("b"));
    assert_eq!(file_name("a/.").as_deref(), Some("a"));
    assert_eq!(file_name("a/.."), None);
    assert_eq!(file_name("/"), None);
    assert_eq!(file_stem("/tmp/echo.py").as_deref(), Some("echo"));
    assert_eq!(file_stem("/tmp/.bashrc").as_deref(), Some(".bashrc"));
    assert_eq!(file_stem("/tmp/a.tar.gz").as_deref(), Some("a.tar"));
    assert_eq!(file_extension("/tmp/a.tar.gz").as_deref(), Some("gz"));
    assert_eq!(file_extension("/tmp/.bashrc"), None);
    assert_eq!(file_extension("/tmp/noext"), None);
}

#[test]
fn joining_paths() {
    assert_eq!(join_path("base", "tools"), "base/tools");
    assert_eq!(join_path("base/", "tools"), "base/tools");
    assert_eq!(join_path("", "tools"), "tools");
    assert_eq!(join_path("base", "/abs"), "/abs");
    assert_eq!(resolve_scan_path("/b", "/h", "~\\x"), "/h/x");
}

#[test]
fn normalized_absolute_paths_are_stable() {
    let once = normalize_path("x\\..\\y", None, Some("/cwd".to_string()));
    assert!(once.starts_with('/'));
    assert_eq!(normalize_path(&once, None, None), once);
    assert_eq!(normalize_path("/a\\b", Some("/other".to_string()), None), "/a/b");
}
