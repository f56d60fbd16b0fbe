use herdr::twin::{twin_argv, validate_twin_tokens, MetadataTokens};

fn tokens_from(pairs: &[(&str, &str)]) -> MetadataTokens {
    MetadataTokens {
        pairs: pairs
            .iter()
            .map(|(k, v)| (k.to_string(), v.to_string()))
            .collect(),
    }
}

#[test]
fn argv_clone_has_expected_shape() {
    let argv = twin_argv("clone", "w1:p3", "uuid-abc", "/run/herdr.sock");
    assert_eq!(argv[0], "pi-twin");
    assert_eq!(argv[1], "clone");
    assert_eq!(argv[2], "--pane");
    assert_eq!(argv[3], "w1:p3");
    assert_eq!(argv[4], "--expected-session");
    assert_eq!(argv[5], "uuid-abc");
    assert_eq!(argv[6], "--socket");
    assert_eq!(argv[7], "/run/herdr.sock");
}

#[test]
fn argv_merge_uses_merge_subcommand() {
    let argv = twin_argv("merge", "w2:p5", "uuid-xyz", "/run/herdr.sock");
    assert_eq!(argv[1], "merge");
    assert_eq!(argv[3], "w2:p5");
    assert_eq!(argv[5], "uuid-xyz");
}

#[test]
fn validation_accepts_valid_original_session() {
    let t = tokens_from(&[("twin", "1"), ("twin_session", "my-session-id")]);
    assert!(validate_twin_tokens(&t, "my-session-id", false).is_ok());
}

#[test]
fn validation_accepts_valid_clone_session_for_merge() {
    let t = tokens_from(&[
        ("twin", "1"),
        ("twin_session", "my-session-id"),
        ("twin_parent", "1"),
    ]);
    assert!(validate_twin_tokens(&t, "my-session-id", true).is_ok());
}

#[test]
fn validation_rejects_when_twin_token_gone() {
    let t = tokens_from(&[("twin_session", "my-session-id")]);
    let err = validate_twin_tokens(&t, "my-session-id", false).unwrap_err();
    assert!(err.contains("twin token"), "err: {err}");
}

#[test]
fn validation_rejects_wrong_session_id() {
    let t = tokens_from(&[("twin", "1"), ("twin_session", "new-session")]);
    let err = validate_twin_tokens(&t, "old-session", false).unwrap_err();
    assert!(err.contains("session"), "err: {err}");
}

#[test]
fn validation_rejects_empty_session_id_in_tokens() {
    let t = tokens_from(&[("twin", "1"), ("twin_session", "")]);
    let err = validate_twin_tokens(&t, "some-id", false).unwrap_err();
    assert!(err.contains("session"), "err: {err}");
}

#[test]
fn validation_rejects_merge_when_parent_token_gone() {
    let t = tokens_from(&[("twin", "1"), ("twin_session", "my-session-id")]);
    let err = validate_twin_tokens(&t, "my-session-id", true).unwrap_err();
    assert!(err.contains("twin_parent"), "err: {err}");
}

#[test]
fn token_lookup_takes_the_first_pair() {
    let t = tokens_from(&[("twin", "1"), ("twin", "0")]);
    assert_eq!(t.value("twin"), Some("1"));
    assert_eq!(t.value("other"), None);
    let err = validate_twin_tokens(&tokens_from(&[("twin", "yes")]), "s", false).unwrap_err();
    assert_eq!(err, "twin token no longer present");
}
