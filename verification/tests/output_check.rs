use rtk_core::output_check::{keys_check, has_diagnostic_marker, Detail, Ratio, Verifier, VerifyResult};
use rtk_core::text::chars_of;

fn confidence(result: &VerifyResult) -> f64 {
    result.confidence.numerator as f64 / result.confidence.denominator as f64
}

fn has_failed(result: &VerifyResult, name: &str) -> bool {
    result.failed.iter().any(|(k, _)| k == name)
}

fn default_threshold() -> Ratio {
    Ratio { numerator: 3, denominator: 5 }
}

#[test]
fn test_identical_input_full_confidence() {
    let v = Verifier::new();
    let text = "error: type mismatch at src/main.rs:42\nCompiling rtk v0.37.2";
    let result = v.verify(text, text);
    assert_eq!(confidence(&result), 1.0);
    assert!(result.failed.is_empty());
}

#[test]
fn test_fails_when_error_line_dropped() {
    let v = Verifier::new();
    let original = "Compiling foo\nerror: type mismatch\nCompiling bar";
    let compressed = "Compiling foo\nCompiling bar";
    let result = v.verify(original, compressed);
    assert!(
        result.failed.iter().any(|(k, _)| k == "error_lines"),
        "should flag missing error line"
    );
    assert!(!result.is_safe(default_threshold()));
}

#[test]
fn test_fails_on_too_short_output() {
    let v = Verifier::new();
    let original = "a".repeat(1000);
    let compressed = "x";
    let result = v.verify(&original, compressed);
    assert!(result.failed.iter().any(|(k, _)| k == "min_retention"));
}

#[test]
fn test_passes_on_normal_compressed_output() {
    let v = Verifier::new();
    let original = "Compiling foo v0.1\nCompiling bar v0.2\nFinished dev [unoptimized] in 3.5s";
    let compressed = "Finished dev in 3.5s";
    let result = v.verify(original, compressed);
    assert!(result.passed.contains(&"min_retention".to_string()));
}

#[test]
fn test_preserves_diff_hunk_headers() {
    let v = Verifier::new();
    let original = "@@ -1,5 +1,6 @@\n line1\n-old\n+new\n line2";
    let result = v.verify(original, original);
    assert!(result.passed.contains(&"diff_hunks".to_string()));
}

#[test]
fn test_fails_when_hunk_header_dropped() {
    let v = Verifier::new();
    let original = "@@ -1,5 +1,6 @@\n line1\n-old\n+new\n line2";
    let compressed = "line1\n-old\n+new\nline2";
    let result = v.verify(original, compressed);
    assert!(result.failed.iter().any(|(k, _)| k == "diff_hunks"));
}

#[test]
fn test_numeric_value_preserved() {
    let v = Verifier::new();
    let original = "tests: 42 passed, 0 failed, 100ms elapsed";
    let result = v.verify(original, original);
    assert!(result.passed.contains(&"numeric_values".to_string()));
}

#[test]
fn test_verified_compress_passthrough_on_bad_compress() {
    let v = Verifier::new();
    let input = "error: something failed\nCompiling foo\nCompiling bar\nFinished in 3.5s";
    let result = v.verified_compress(input, |_| "Finished in 3.5s".to_string());
    assert!(result.contains("error:"));
}

#[test]
fn retention_detail_is_the_kept_fraction() {
    let v = Verifier::new();
    let result = v.verify(&"a".repeat(1000), "x");
    assert_eq!(
        result.failed,
        vec![("min_retention".to_string(), Detail::Retention(Ratio { numerator: 1, denominator: 1000 }))]
    );
    assert_eq!(result.passed.len(), 5);
    assert_eq!(result.confidence.numerator, 5);
    assert_eq!(result.confidence.denominator, 6);
}

#[test]
fn retention_at_exactly_ten_percent_passes() {
    let v = Verifier::new();
    let result = v.verify(&"a".repeat(100), &"a".repeat(10));
    assert!(!has_failed(&result, "min_retention"));
    let result = v.verify(&"a".repeat(100), &"a".repeat(9));
    assert_eq!(result.failed[0].1, Detail::Retention(Ratio { numerator: 9, denominator: 100 }));
}

#[test]
fn every_check_reported_once_in_order() {
    let v = Verifier::new();
    let result = v.verify("plain words", "plain words");
    assert_eq!(
        result.passed,
        vec!["min_retention", "error_lines", "file_paths", "json_keys", "diff_hunks", "numeric_values"]
    );
    assert!(result.failed.is_empty());
}

#[test]
fn uppercase_diagnostics_are_detected() {
    let v = Verifier::new();
    let original = "WARNING: disk almost full\nok\nok\nFATAL: out of space\n";
    let result = v.verify(original, "ok ok ok ok ok ok ok ok ok ok ok");
    let detail = result.failed.iter().find(|(k, _)| k == "error_lines").unwrap();
    assert_eq!(detail.1, Detail::Message("2 critical line(s) dropped".to_string()));
    let kept = v.verify(original, "  WARNING: disk almost full ... FATAL: out of space");
    assert!(!has_failed(&kept, "error_lines"));
}

#[test]
fn missing_file_paths_are_counted() {
    let v = Verifier::new();
    let original = "reading src/lib.rs and src/main.rs now\nno paths here.";
    let result = v.verify(original, "reading src/lib.rs now, blah blah blah");
    let detail = result.failed.iter().find(|(k, _)| k == "file_paths").unwrap();
    assert_eq!(detail.1, Detail::Message("1 file path(s) missing".to_string()));
}

#[test]
fn json_keys_mostly_dropped_fail() {
    let v = Verifier::new();
    let original = r#"{"alpha": 1, "beta": 2, "gamma": 3, "delta": 4, "epsilon": 5, "zeta": 6, "eta": 7, "theta": 8}"#;
    let result = v.verify(original, r#"{"alpha": 1, "values hidden, more text here to keep size"}"#);
    let detail = result.failed.iter().find(|(k, _)| k == "json_keys").unwrap();
    assert_eq!(detail.1, Detail::KeysRetained(Ratio { numerator: 1, denominator: 8 }));
    let result = v.verify(original, r#"alpha beta gamma delta and 12345678 more text"#);
    assert!(!has_failed(&result, "json_keys"));
}

#[test]
fn json_that_does_not_parse_passes() {
    let v = Verifier::new();
    let result = v.verify("{not json at all", "{");
    assert!(!has_failed(&result, "json_keys"));
}

#[test]
fn numeric_tokens_only_count_numbers() {
    let v = Verifier::new();
    let original = "took 12 ms, -3.5 degrees, version 1.2.3, dash --, 7";
    let result = v.verify(original, "took ms degrees version dash nothing else here");
    let detail = result.failed.iter().find(|(k, _)| k == "numeric_values").unwrap();
    assert_eq!(detail.1, Detail::Message("2 numeric value(s) altered".to_string()));
}

#[test]
fn is_safe_uses_the_threshold() {
    let v = Verifier::new();
    let result = v.verify(&"a".repeat(1000), "x");
    assert!(result.is_safe(default_threshold()));
    assert!(!result.is_safe(Ratio { numerator: 1, denominator: 1 }));
}

#[test]
fn verified_compress_keeps_good_compression() {
    let v = Verifier::default();
    let input = "Compiling foo v0.1\nCompiling bar v0.2\nFinished dev [unoptimized] in 3.5s";
    let result = v.verified_compress(input, |s| s.replace("Compiling ", ""));
    assert_eq!(result, "foo v0.1\nbar v0.2\nFinished dev [unoptimized] in 3.5s");
    assert_eq!(v.compress_or_original(input, "x".to_string()), "x");
}

#[test]
fn lowering_the_threshold_keeps_a_result_safe() {
    let v = Verifier::new();
    let result = v.verify(&"a".repeat(1000), "x");
    assert!(result.is_safe(Ratio { numerator: 5, denominator: 6 }));
    assert!(result.is_safe(Ratio { numerator: 1, denominator: 2 }));
    assert!(result.is_safe(Ratio { numerator: 0, denominator: 1 }));
    assert!(!result.is_safe(Ratio { numerator: 11, denominator: 12 }));
}

#[test]
fn keeping_more_text_never_fails_more_checks() {
    let v = Verifier::new();
    let original = "error: bad thing at src/lib.rs:12\n@@ -1,2 +1,3 @@\nvalue 3.14 and 2718\n";
    let short = "src/lib.rs 3.14";
    let long = "error: bad thing at src/lib.rs:12 and @@ -1,2 +1,3 @@ plus 2718 src/lib.rs 3.14";
    assert!(long.contains(short));
    let r1 = v.verify(original, short);
    let r2 = v.verify(original, long);
    for name in &r1.passed {
        assert!(r2.passed.contains(name));
    }
    assert!(r2.passed.len() >= r1.passed.len());
    assert_eq!(r2.passed.len(), 6);
}

#[test]
fn key_count_on_a_given_key_list() {
    let keys: Vec<String> = ["a", "bb", "ccc", "dddd"].iter().map(|s| s.to_string()).collect();
    assert_eq!(keys_check(&keys, &chars_of("a bb")), None);
    assert_eq!(
        keys_check(&keys, &chars_of("bb")),
        Some(Detail::KeysRetained(Ratio { numerator: 1, denominator: 4 }))
    );
    assert_eq!(keys_check(&Vec::new(), &chars_of("")), None);
}

#[test]
fn diagnostic_markers_in_lowercased_lines() {
    assert!(has_diagnostic_marker("error: boom"));
    assert!(has_diagnostic_marker("x panic: y"));
    assert!(has_diagnostic_marker("unhandled exception: z"));
    assert!(!has_diagnostic_marker("error without colon"));
    assert!(!has_diagnostic_marker("ERROR: upper case is not lowercased here"));
}

#[test]
fn diagnostics_kept_follows_the_failed_list() {
    let v = Verifier::new();
    assert!(v.verify("a", "a").diagnostics_kept());
    assert!(!v.verify("x error: y", "x").diagnostics_kept());
}
