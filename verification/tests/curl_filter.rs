use rtk_core::curl::{failure_message, filter_curl_output, MAX_RESPONSE_SIZE};

/// The hint a forced tee of the full output hands back.
fn hint() -> Option<String> {
    Some("[full output: ~/.local/share/rtk/tee/curl.log]".to_string())
}

#[test]
fn test_filter_curl_json_small_no_tee_hint() {
    let output = r#"{"r2Ready":true,"status":"ok"}"#;
    let result = filter_curl_output(output, true, hint());
    assert_eq!(result.content, output);
    assert!(result.tee_hint.is_none());
}

#[test]
fn test_filter_curl_non_json() {
    let output = "Hello, World!\nThis is plain text.";
    let result = filter_curl_output(output, true, hint());
    assert_eq!(result.content, output);
}

#[test]
fn test_filter_curl_long_output_truncated() {
    let long: String = "x".repeat(1000);
    let result = filter_curl_output(&long, true, hint());
    assert!(result.content.starts_with('x'));
    assert!(result.content.contains("bytes total"));
    assert!(result.content.contains("1000"));
    assert!(result.content.len() < 600);
}

#[test]
fn test_filter_curl_multibyte_boundary() {
    let content = "a".repeat(499) + "é";
    let result = filter_curl_output(&content, true, hint());
    assert!(result.content.contains("bytes total"));
    assert!(result.content.len() < 600);
}

#[test]
fn test_filter_curl_exact_500_bytes() {
    let content = "a".repeat(500);
    let result = filter_curl_output(&content, true, hint());
    assert!(result.content.contains("bytes total"));
}

#[test]
fn test_filter_curl_large_json_object_passthrough() {
    let payload = "x".repeat(600);
    let json = format!(r#"{{"data":"{}"}}"#, payload);
    let result = filter_curl_output(&json, true, hint());
    assert!(!result.content.contains("bytes total"));
    assert!(result.content.starts_with('{'));
    assert!(result.content.ends_with('}'));
    assert!(result.tee_hint.is_none());
}

#[test]
fn test_filter_curl_large_json_array_passthrough() {
    let body = (0..50)
        .map(|i| format!(r#"{{"id":{},"name":"item-{:04}"}}"#, i, i))
        .collect::<Vec<_>>()
        .join(",");
    let json = format!("[{}]", body);
    assert!(
        json.len() >= MAX_RESPONSE_SIZE,
        "fixture must exceed cap, got {}",
        json.len()
    );
    let result = filter_curl_output(&json, true, hint());
    assert!(!result.content.contains("bytes total"));
    assert!(result.content.starts_with('['));
    assert!(result.content.ends_with(']'));
}

#[test]
fn test_filter_curl_pipe_no_truncation_for_non_json() {
    let long: String = "x".repeat(1000);
    let result = filter_curl_output(&long, false, hint());
    assert!(!result.content.contains("bytes total"));
    assert_eq!(result.content.len(), 1000);
    assert!(result.tee_hint.is_none());
}

#[test]
fn test_filter_curl_pipe_no_truncation_for_json() {
    let payload = "y".repeat(600);
    let json = format!(r#"{{"data":"{}"}}"#, payload);
    let result = filter_curl_output(&json, false, hint());
    assert!(!result.content.contains("bytes total"));
    assert!(result.content.ends_with('}'));
    assert!(result.tee_hint.is_none());
}

#[test]
fn truncated_body_exact_text_and_hint_kept() {
    let long: String = "x".repeat(1000);
    let result = filter_curl_output(&long, true, hint());
    assert_eq!(result.content, format!("{}... (1000 bytes total)", "x".repeat(500)));
    assert_eq!(result.tee_hint, hint());
}

#[test]
fn multibyte_boundary_cuts_before_the_character() {
    let content = "a".repeat(499) + "é";
    let result = filter_curl_output(&content, true, hint());
    assert_eq!(result.content, format!("{}... (501 bytes total)", "a".repeat(499)));
}

#[test]
fn no_hint_means_no_truncation() {
    let long: String = "x".repeat(1000);
    let result = filter_curl_output(&long, true, None);
    assert_eq!(result.content, long);
    assert!(result.tee_hint.is_none());
}

#[test]
fn body_is_trimmed() {
    let result = filter_curl_output("\n\t  hello world \r\n", true, hint());
    assert_eq!(result.content, "hello world");
    let result = filter_curl_output("\u{3000}wide\u{a0}", true, hint());
    assert_eq!(result.content, "wide");
}

#[test]
fn just_under_the_cap_is_kept() {
    let content = "a".repeat(499);
    let result = filter_curl_output(&content, true, hint());
    assert_eq!(result.content, content);
    assert!(result.tee_hint.is_none());
}

#[test]
fn failure_message_prefers_stderr() {
    assert_eq!(failure_message("  body \n", "  curl: (6) Could not resolve host\n"), "curl: (6) Could not resolve host");
    assert_eq!(failure_message("  <html>404</html>\n", " \n\t"), "<html>404</html>");
    assert_eq!(failure_message("", ""), "");
}
