use skillscripts::scanner::{build_overrides, passes_size_limit, scan_files, sniff_contains_nul, FileProbe};
use skillscripts::config::Config;

const ONE_MB: u64 = 1024 * 1024;

#[test]
fn test_size_gate_rejects_zero_and_oversized_files() {
    assert!(!passes_size_limit(0, ONE_MB));
    assert!(!passes_size_limit(ONE_MB + 1, ONE_MB));
}

#[test]
fn test_size_gate_accepts_exact_max_size() {
    assert!(passes_size_limit(ONE_MB, ONE_MB));
}

#[test]
fn test_nul_sniff_rejects_binary_marker_within_first_512_bytes() {
    let mut bytes = vec![b'a'; 512];
    bytes[128] = 0x00;
    assert!(sniff_contains_nul(&bytes, 512));
}

#[test]
fn test_nul_sniff_ignores_nul_after_sniff_window() {
    let mut bytes = vec![b'a'; 600];
    bytes[513] = 0x00;
    assert!(!sniff_contains_nul(&bytes, 600));
}

#[test]
fn nul_sniff_looks_only_at_the_file_length() {
    let mut bytes = vec![b'a'; 20];
    bytes[10] = 0;
    assert!(!sniff_contains_nul(&bytes, 10));
    assert!(sniff_contains_nul(&bytes, 11));
}

fn probe(path: &str, is_file: bool, length: u64, head: Vec<u8>) -> FileProbe {
    FileProbe { path: path.to_string(), is_file, readable: true, length, head }
}

#[test]
fn scan_keeps_small_text_files_in_walk_order() {
    let config = Config::default_config();
    let probes = vec![
        probe("/a.py", true, 3, b"abc".to_vec()),
        probe("/dir", false, 0, vec![]),
        probe("/empty.py", true, 0, vec![]),
        probe("/bin", true, 4, vec![1, 0, 2, 3]),
        probe("/big", true, ONE_MB + 1, b"x".to_vec()),
        probe("/b.md", true, 2, b"hi".to_vec()),
    ];
    assert_eq!(scan_files(&config, probes), vec!["/a.py", "/b.md"]);
}

#[test]
fn ignore_patterns_become_exclusions() {
    let patterns = vec!["target".to_string(), "  !dist ".to_string(), "   ".to_string()];
    assert_eq!(build_overrides(&patterns), Some(vec!["!target".to_string(), "!dist".to_string()]));
    assert_eq!(build_overrides(&vec![" ".to_string()]), None);
    assert_eq!(build_overrides(&vec![]), None);
}
