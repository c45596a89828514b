use rtk_core::runner::{combine_output, filter_input, stderr_echo, with_hint, RunOptions};

#[test]
fn run_options_builders() {
    let d = RunOptions::default();
    assert!(d.tee_label.is_none());
    assert!(!d.filter_stdout_only);
    let t = RunOptions::with_tee("cargo");
    assert_eq!(t.tee_label, Some("cargo"));
    assert!(!t.filter_stdout_only);
    let s = RunOptions::stdout_only();
    assert!(s.tee_label.is_none());
    assert!(s.filter_stdout_only);
    let st = RunOptions::stdout_only().tee("git");
    assert_eq!(st.tee_label, Some("git"));
    assert!(st.filter_stdout_only);
}

#[test]
fn combined_output_and_filter_input() {
    let raw = combine_output("out", "err");
    assert_eq!(raw, "out\nerr");
    assert_eq!(filter_input(&RunOptions::default(), "out", &raw), "out\nerr");
    assert_eq!(filter_input(&RunOptions::stdout_only(), "out", &raw), "out");
}

#[test]
fn hint_goes_on_its_own_line() {
    assert_eq!(with_hint("filtered", Some("hint".to_string())), "filtered\nhint");
    assert_eq!(with_hint("filtered", None), "filtered");
}

#[test]
fn stderr_is_echoed_only_for_stdout_only_filters() {
    assert_eq!(stderr_echo(&RunOptions::stdout_only(), "  boom \n"), Some("boom".to_string()));
    assert_eq!(stderr_echo(&RunOptions::stdout_only(), " \n "), None);
    assert_eq!(stderr_echo(&RunOptions::default(), "boom"), None);
}
