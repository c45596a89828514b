use rtk_core::delta::{compute_delta, is_near_duplicate};
use rtk_core::lcs::lcs_indices;

const NEAR_DUPLICATE_A: &str = "use std::collections::HashMap;
use std::path::Path;

/// Application configuration loaded from disk.
pub struct Config {
    pub name: String,
    pub values: HashMap<String, String>,
}

pub fn read_config(path: &Path) -> Option<Config> {
    let text = std::fs::read_to_string(path).ok()?;
    parse_config(&text)
}

fn parse_config(text: &str) -> Option<Config> {
    let mut values = HashMap::new();
    for line in text.lines() {
        if let Some((key, value)) = line.split_once('=') {
            values.insert(key.trim().to_string(), value.trim().to_string());
        }
    }
    Some(Config { name: \"default\".to_string(), values })
}
";

const NEAR_DUPLICATE_B: &str = "use std::collections::HashMap;
use std::path::Path;

/// Application configuration loaded from disk.
pub struct Config {
    pub name: String,
    pub values: HashMap<String, String>,
}

pub fn load_config(path: &Path) -> Option<Config> {
    let text = std::fs::read_to_string(path).ok()?;
    parse_config(&text)
}

fn parse_config(text: &str) -> Option<Config> {
    let mut values = HashMap::new();
    for line in text.lines() {
        if let Some((key, value)) = line.split_once('=') {
            values.insert(key.trim().to_string(), value.trim().to_string());
        }
    }
    Some(Config { name: \"default\".to_string(), values })
}
";

#[test]
fn test_identical_texts_zero_delta() {
    let text = "line1\nline2\nline3\nline4\nline5";
    let delta = compute_delta("abc123", text, text);
    assert!(delta.starts_with("§delta:"));
    assert!(!delta.contains('+') || delta.contains("(unchanged)"));
}

#[test]
fn test_detects_added_line() {
    let old =
        "use anyhow::Result;\nuse std::path::Path;\n\npub fn foo() -> Result<()> { Ok(()) }";
    let new = "use anyhow::Result;\nuse std::path::Path;\nuse std::fs;\n\npub fn foo() -> Result<()> { Ok(()) }";
    assert!(is_near_duplicate(old, new), "should be near-duplicate");
    let delta = compute_delta("hash12", old, new);
    assert!(delta.contains("+use std::fs;"), "delta: {delta}");
}

#[test]
fn test_detects_modified_line() {
    let old = NEAR_DUPLICATE_A;
    let new = NEAR_DUPLICATE_B;
    assert!(is_near_duplicate(old, new));
    let delta = compute_delta("hashXY", old, new);
    assert!(delta.starts_with("§delta:hashXY§"), "delta: {delta}");
    assert!(
        delta.contains("+pub fn load_config") || delta.contains("-pub fn read_config"),
        "delta should mention the renamed function: {delta}"
    );
}

#[test]
fn test_delta_shorter_than_full_content() {
    let old = NEAR_DUPLICATE_A;
    let new = NEAR_DUPLICATE_B;
    let delta = compute_delta("hashZ", old, new);
    assert!(
        delta.len() < new.len(),
        "delta ({}) should be shorter than full content ({})",
        delta.len(),
        new.len()
    );
}

#[test]
fn test_guard_on_large_files() {
    let big = "line\n".repeat(6000);
    let result = compute_delta("bigfile", &big, &big);
    assert!(!result.is_empty());
}

#[test]
fn identical_texts_give_exact_unchanged_text() {
    let text = "line1\nline2\nline3\nline4\nline5";
    assert_eq!(compute_delta("abc123", text, text), "§delta:abc123§ (unchanged)");
}

#[test]
fn large_files_give_the_notice() {
    let big = "line\n".repeat(6000);
    assert_eq!(
        compute_delta("0123456789abcdef", &big, "a\nb"),
        "§delta:01234567§ [too large for delta, 2 lines]"
    );
    assert_eq!(
        compute_delta("h", "a", &big),
        "§delta:h§ [too large for delta, 6000 lines]"
    );
}

#[test]
fn exact_delta_text_removals_then_additions() {
    let old = "a\nb\nc\nd";
    let new = "a\nx\nc\nd\ne";
    assert_eq!(compute_delta("h", old, new), "§delta:h§\n-b\n+x\n+e");
}

#[test]
fn changed_line_ending_only_is_unchanged() {
    assert_eq!(compute_delta("h", "a\r\nb\r\n", "a\nb"), "§delta:h§ (unchanged)");
}

#[test]
fn different_lines_are_never_unchanged() {
    let delta = compute_delta("h", "a\nb", "a\nb\n\n");
    assert_eq!(delta, "§delta:h§\n+");
    let delta = compute_delta("h", "", "x");
    assert_eq!(delta, "§delta:h§\n+x");
}

#[test]
fn hash_prefix_is_cut_at_eight_bytes() {
    let delta = compute_delta("abcdefghijkl", "a", "a");
    assert_eq!(delta, "§delta:abcdefgh§ (unchanged)");
    let delta = compute_delta("abcdefé", "a", "a");
    assert_eq!(delta, "§delta:abcdefé§ (unchanged)");
}

fn owned(lines: &[&str]) -> Vec<String> {
    lines.iter().map(|s| s.to_string()).collect()
}

#[test]
fn lcs_indices_picks_a_longest_common_subsequence() {
    let a = owned(&["a", "b", "c", "b", "d", "a", "b"]);
    let b = owned(&["b", "d", "c", "a", "b", "a"]);
    let pairs = lcs_indices(&a, &b);
    assert_eq!(pairs.len(), 4);
    for w in pairs.windows(2) {
        assert!(w[0].0 < w[1].0 && w[0].1 < w[1].1);
    }
    for &(i, j) in &pairs {
        assert_eq!(a[i], b[j]);
    }
    assert_eq!(pairs, vec![(3, 0), (4, 1), (5, 3), (6, 4)]);
}

#[test]
fn lcs_indices_of_identical_sequences_is_the_diagonal() {
    let a = owned(&["x", "y", "x"]);
    assert_eq!(lcs_indices(&a, &a), vec![(0, 0), (1, 1), (2, 2)]);
    assert_eq!(lcs_indices(&a, &owned(&[])), vec![]);
}

#[test]
fn near_duplicate_is_reflexive_and_symmetric() {
    assert!(is_near_duplicate(NEAR_DUPLICATE_A, NEAR_DUPLICATE_A));
    assert!(is_near_duplicate("", ""));
    let x = "alpha beta gamma delta";
    let y = "completely different words in here today friends";
    assert_eq!(is_near_duplicate(x, y), is_near_duplicate(y, x));
}
