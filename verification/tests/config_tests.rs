use skillscripts::config::{
    parse_duration_seconds, parse_file_size, Config, DEFAULT_CACHE_TTL_SECONDS, DEFAULT_MAX_FILE_SIZE,
    DEFAULT_SEARCH_LIMIT,
};
use skillscripts::settings::{home_from_report, ConfigRead, nanoskills_dir_in, resolve_search_limit, ConfigResolver};

fn strings(v: &[&str]) -> Vec<String> {
    v.iter().map(|s| s.to_string()).collect()
}

#[test]
fn config_test_merge_combines_unique_paths_and_overrides_local_scalars() {
    // Scenario with a language on both sides.
    let global = Config {
        scan_paths: strings(&["/global/skills", "/shared"]),
        ignore_patterns: strings(&["target"]),
        max_file_size: DEFAULT_MAX_FILE_SIZE,
        search_limit: DEFAULT_SEARCH_LIMIT,
        cache_ttl_seconds: DEFAULT_CACHE_TTL_SECONDS,
        copy_to_clipboard_on_pick: false,
        language: Some("en".to_string()),
    };
    let local = Config {
        scan_paths: strings(&["/shared", "./local"]),
        ignore_patterns: strings(&["dist"]),
        max_file_size: 2 * 1024 * 1024,
        search_limit: 9,
        cache_ttl_seconds: DEFAULT_CACHE_TTL_SECONDS,
        copy_to_clipboard_on_pick: false,
        language: Some("zh-CN".to_string()),
    };
    let merged = global.merge(&local);
    assert_eq!(merged.scan_paths, vec!["/global/skills", "/shared", "./local"]);
    assert_eq!(merged.ignore_patterns, vec!["target", "dist"]);
    assert_eq!(merged.max_file_size, 2 * 1024 * 1024);
    assert_eq!(merged.search_limit, 9);
    assert_eq!(merged.language.as_deref(), Some("zh-CN"));

    // Scenario with cache lifetime and clipboard flag.
    let global = Config {
        scan_paths: strings(&["/global/skills", "/shared"]),
        ignore_patterns: strings(&["target"]),
        max_file_size: DEFAULT_MAX_FILE_SIZE,
        search_limit: DEFAULT_SEARCH_LIMIT,
        cache_ttl_seconds: DEFAULT_CACHE_TTL_SECONDS,
        copy_to_clipboard_on_pick: true,
        language: None,
    };
    let local = Config {
        scan_paths: strings(&["/shared", "./local"]),
        ignore_patterns: strings(&["dist"]),
        max_file_size: 2 * 1024 * 1024,
        search_limit: 9,
        cache_ttl_seconds: 120,
        copy_to_clipboard_on_pick: true,
        language: None,
    };
    let merged = global.merge(&local);
    assert_eq!(merged.scan_paths, vec!["/global/skills", "/shared", "./local"]);
    assert_eq!(merged.ignore_patterns, vec!["target", "dist"]);
    assert_eq!(merged.max_file_size, 2 * 1024 * 1024);
    assert_eq!(merged.search_limit, 9);
    assert_eq!(merged.cache_ttl_seconds, 120);
    assert!(merged.copy_to_clipboard_on_pick);
}

#[test]
fn config_test_merge_keeps_global_scalars_when_local_uses_defaults() {
    let global = Config {
        scan_paths: strings(&["/global/skills"]),
        ignore_patterns: vec![],
        max_file_size: 2 * 1024 * 1024,
        search_limit: 20,
        cache_ttl_seconds: 7200,
        copy_to_clipboard_on_pick: true,
        language: Some("en".to_string()),
    };
    let local = Config::default_config();
    let merged = global.merge(&local);
    assert_eq!(merged.max_file_size, 2 * 1024 * 1024);
    assert_eq!(merged.search_limit, 20);
    assert_eq!(merged.cache_ttl_seconds, 7200);
    assert!(merged.copy_to_clipboard_on_pick);
    assert_eq!(merged.language.as_deref(), Some("en"));
}

#[test]
fn default_config_has_no_scan_paths() {
    let c = Config::default_config();
    assert!(c.scan_paths.is_empty());
    assert!(c.ignore_patterns.is_empty());
    assert_eq!(c.max_file_size, 1024 * 1024);
    assert_eq!(c.search_limit, 5);
    assert_eq!(c.cache_ttl_seconds, 3600);
    assert!(!c.copy_to_clipboard_on_pick);
    assert_eq!(c.language, None);
}

#[test]
fn file_sizes_parse_with_units() {
    assert_eq!(parse_file_size("1024"), Some(1024));
    assert_eq!(parse_file_size(" 2MB "), Some(2 * 1024 * 1024));
    assert_eq!(parse_file_size("3kb"), Some(3 * 1024));
    assert_eq!(parse_file_size("1G"), Some(1024 * 1024 * 1024));
    assert_eq!(parse_file_size("5 M"), Some(5 * 1024 * 1024));
    assert_eq!(parse_file_size(""), None);
    assert_eq!(parse_file_size("MB"), None);
    assert_eq!(parse_file_size("12XB"), None);
}

#[test]
fn durations_parse_with_units() {
    assert_eq!(parse_duration_seconds("90"), Some(90));
    assert_eq!(parse_duration_seconds("2m"), Some(120));
    assert_eq!(parse_duration_seconds("1h"), Some(3600));
    assert_eq!(parse_duration_seconds("1d"), Some(86400));
    assert_eq!(parse_duration_seconds("soon"), None);
}

#[test]
fn resolver_puts_default_skills_path_first_once() {
    let resolver = ConfigResolver::with_dirs("/home/u/.config/nanoskills".to_string(), "/work".to_string());
    let global = Config {
        scan_paths: strings(&["/home/u/.config/nanoskills/shared"]),
        ignore_patterns: strings(&["target"]),
        max_file_size: DEFAULT_MAX_FILE_SIZE,
        search_limit: 8,
        cache_ttl_seconds: DEFAULT_CACHE_TTL_SECONDS,
        copy_to_clipboard_on_pick: false,
        language: None,
    };
    let local = Config {
        scan_paths: strings(&["/work/./skills"]),
        ignore_patterns: strings(&["dist"]),
        max_file_size: 2 * 1024 * 1024,
        search_limit: DEFAULT_SEARCH_LIMIT,
        cache_ttl_seconds: DEFAULT_CACHE_TTL_SECONDS,
        copy_to_clipboard_on_pick: false,
        language: Some("zh-CN".to_string()),
    };
    let config = resolver.resolve(Some(global), Some(local));
    assert_eq!(
        config.scan_paths,
        vec![
            "/home/u/.config/nanoskills/skills",
            "/home/u/.config/nanoskills/shared",
            "/work/./skills"
        ]
    );
    assert_eq!(config.ignore_patterns, vec!["target", "dist"]);
    assert_eq!(config.search_limit, 8);
    assert_eq!(config.max_file_size, 2 * 1024 * 1024);
    assert_eq!(config.language.as_deref(), Some("zh-CN"));

    let none = resolver.resolve(None, None);
    assert_eq!(none.scan_paths, vec!["/home/u/.config/nanoskills/skills"]);
    assert_eq!(resolve_search_limit(&none, Some(3)), 3);
    assert_eq!(resolve_search_limit(&none, None), 5);
}

#[test]
fn resolve_merges_global_local_and_absolutizes_relative_paths() {
    // The two configurations as the files in each directory hold them.
    let global_dir = "/tmp/demo/global";
    let local_dir = "/tmp/demo/workspace";
    let global = Config {
        scan_paths: strings(&["shared"]),
        ignore_patterns: strings(&["target"]),
        max_file_size: DEFAULT_MAX_FILE_SIZE,
        search_limit: 8,
        cache_ttl_seconds: DEFAULT_CACHE_TTL_SECONDS,
        copy_to_clipboard_on_pick: false,
        language: None,
    };
    let local = Config {
        scan_paths: strings(&["./skills"]),
        ignore_patterns: strings(&["dist"]),
        max_file_size: parse_file_size("2MB").unwrap(),
        search_limit: DEFAULT_SEARCH_LIMIT,
        cache_ttl_seconds: DEFAULT_CACHE_TTL_SECONDS,
        copy_to_clipboard_on_pick: false,
        language: Some("zh-CN".to_string()),
    };
    let resolver = ConfigResolver::with_dirs(global_dir.to_string(), local_dir.to_string());
    let config = resolver.resolve_reads("/home/demo", ConfigRead::Parsed(global), ConfigRead::Parsed(local));
    assert_eq!(
        config.scan_paths,
        vec!["/tmp/demo/global/skills", "/tmp/demo/global/shared", "/tmp/demo/workspace/./skills"]
    );
    assert_eq!(config.ignore_patterns, vec!["target", "dist"]);
    assert_eq!(config.search_limit, 8);
    assert_eq!(config.max_file_size, 2 * 1024 * 1024);
    assert_eq!(config.language.as_deref(), Some("zh-CN"));
}

#[test]
fn home_directory_falls_back_to_current_directory() {
    assert_eq!(home_from_report(Some("/home/demo".to_string())), "/home/demo");
    assert_eq!(home_from_report(None), ".");
}

#[test]
fn nanoskills_directory_sits_in_the_platform_directory() {
    assert_eq!(nanoskills_dir_in(Some("/home/demo/.config".to_string())), "/home/demo/.config/nanoskills");
    assert_eq!(nanoskills_dir_in(None), "./nanoskills");
}

#[test]
fn unusable_configuration_files_count_as_missing() {
    let resolver = ConfigResolver::with_dirs("/g".to_string(), "/w".to_string());
    let local = Config {
        scan_paths: strings(&["~/notes", "/abs", "rel"]),
        ignore_patterns: strings(&["dist"]),
        max_file_size: DEFAULT_MAX_FILE_SIZE,
        search_limit: DEFAULT_SEARCH_LIMIT,
        cache_ttl_seconds: DEFAULT_CACHE_TTL_SECONDS,
        copy_to_clipboard_on_pick: false,
        language: None,
    };
    let config = resolver.resolve_reads("/home/demo", ConfigRead::Unusable, ConfigRead::Parsed(local));
    assert_eq!(config.scan_paths, vec!["/g/skills", "/home/demo/notes", "/abs", "/w/rel"]);
    let missing = resolver.resolve_reads("/home/demo", ConfigRead::Missing, ConfigRead::Unusable);
    assert_eq!(missing.scan_paths, vec!["/g/skills"]);
}
