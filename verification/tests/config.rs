use nanoclaw_core::config::{parse_u64, RuntimeConfig};

#[test]
fn defaults_are_fixed() {
    let cfg = RuntimeConfig::default();
    assert_eq!(cfg.assistant_name, "Andy");
    assert_eq!(cfg.poll_interval_ms, 3000);
    assert_eq!(cfg.idle_timeout_ms, 180_000);
}

#[test]
fn loads_defaults_when_env_missing() {
    let cfg = RuntimeConfig::from_values(None, None, None);
    assert!(!cfg.assistant_name.is_empty());
    assert!(cfg.poll_interval_ms > 0);
    assert!(cfg.idle_timeout_ms > 0);
    assert_eq!(cfg, RuntimeConfig::default());
}

#[test]
fn reads_given_values_and_falls_back_on_bad_numbers() {
    let cfg = RuntimeConfig::from_values(Some("Bob".into()), Some("250".into()), Some("ten".into()));
    assert_eq!(cfg.assistant_name, "Bob");
    assert_eq!(cfg.poll_interval_ms, 250);
    assert_eq!(cfg.idle_timeout_ms, 180_000);
}

#[test]
fn parses_u64_like_std() {
    for s in ["0", "42", "+7", "007", "18446744073709551615"] {
        assert_eq!(parse_u64(s), s.parse::<u64>().ok(), "{}", s);
    }
    for s in ["", "+", "-1", " 1", "1 ", "1.5", "18446744073709551616", "99999999999999999999"] {
        assert_eq!(parse_u64(s), None, "{}", s);
        assert_eq!(s.parse::<u64>().ok(), None, "{}", s);
    }
}
