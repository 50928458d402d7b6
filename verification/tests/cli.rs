use nanoclaw_core::cli::{parse_flag, parse_opt};

fn args(v: &[&str]) -> Vec<String> {
    v.iter().map(|s| s.to_string()).collect()
}

#[test]
fn finds_flags() {
    let a = args(&["prog", "--dry-run"]);
    assert!(parse_flag(&a, "--dry-run"));
    assert!(!parse_flag(&a, "--e2e"));
    assert!(!parse_flag(&[], "--e2e"));
}

#[test]
fn reads_option_after_first_occurrence() {
    let a = args(&["prog", "--input", "a.tsv", "--input", "b.tsv", "--output"]);
    assert_eq!(parse_opt(&a, "--input").as_deref(), Some("a.tsv"));
    assert_eq!(parse_opt(&a, "--output"), None);
    assert_eq!(parse_opt(&a, "--missing"), None);
}
