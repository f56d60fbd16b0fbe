use herdr::local_file::{
    local_path_token_to_file_uri, path_to_safe_file_uri, percent_decode_path, percent_encode_path,
    resolve_path_token, validate_file_uri, EntryKind, PathFacts,
};

/// A small stand-in filesystem: a few files and directories that exist, and
/// `/dev/null`, a character device. Canonical forms equal the paths.
fn fake_fs(path: &str) -> PathFacts {
    let files = [
        "/tmp/herdr-local-file-test-empty-auth.txt",
        "/tmp/herdr-local-file-test-abs.txt",
        "/tmp/fake-home/docs/test.txt",
        "/tmp/herdr test spaces/file.txt",
        "/tmp/herdr encoded dir/r.txt",
        "/tmp/herdr-punctuation-test.txt",
    ];
    let dirs = ["/tmp", "/tmp/herdr-local-file-test-dir", "/tmp/fake-home"];
    let kind = if files.contains(&path) {
        EntryKind::File
    } else if dirs.contains(&path) {
        EntryKind::Directory
    } else if path == "/dev/null" {
        EntryKind::Other
    } else {
        EntryKind::Missing
    };
    let canonical = if kind == EntryKind::Missing {
        None
    } else {
        Some(path.to_string())
    };
    PathFacts {
        kind,
        canonical,
        canonical_kind: kind,
    }
}

fn missing(_: &str) -> PathFacts {
    PathFacts {
        kind: EntryKind::Missing,
        canonical: None,
        canonical_kind: EntryKind::Missing,
    }
}

#[test]
fn local_file_uri_query_fragment_and_unc_regressions() {
    let clean = path_to_safe_file_uri("/tmp", &fake_fs("/tmp")).unwrap();
    assert_eq!(clean, "file:///tmp");
    for suffix in ["?query", "#fragment", "?query#fragment", "#fragment?query"] {
        let uri = format!("{clean}{suffix}");
        assert_eq!(validate_file_uri(&uri, &fake_fs), Some(clean.clone()));
        assert_eq!(
            local_path_token_to_file_uri(&uri, None, &fake_fs),
            Some(clean.clone())
        );
    }
    for uri in [
        "file:////tmp",
        "file:///%2Ftmp",
        "file:///tmp/%C2%85",
        "file:///tmp#\n",
    ] {
        assert_eq!(validate_file_uri(uri, &fake_fs), None, "{uri:?}");
        assert_eq!(local_path_token_to_file_uri(uri, None, &fake_fs), None, "{uri:?}");
    }
    assert_eq!(path_to_safe_file_uri(".", &fake_fs(".")), None);
}

#[test]
fn percent_encode_plain_ascii_path() {
    assert_eq!(
        percent_encode_path("/home/user/file.txt"),
        "/home/user/file.txt"
    );
}

#[test]
fn percent_encode_path_with_spaces() {
    assert_eq!(
        percent_encode_path("/home/user/my documents/report.pdf"),
        "/home/user/my%20documents/report.pdf"
    );
}

#[test]
fn percent_encode_path_with_unicode() {
    assert_eq!(
        percent_encode_path("/tmp/caf\u{e9}.txt"),
        "/tmp/caf%C3%A9.txt"
    );
}

#[test]
fn validate_file_uri_rejects_non_file_scheme() {
    assert_eq!(validate_file_uri("http://example.com/", &fake_fs), None);
    assert_eq!(validate_file_uri("ftp://localhost/etc/passwd", &fake_fs), None);
}

#[test]
fn validate_file_uri_rejects_remote_authority() {
    assert_eq!(validate_file_uri("file://server/share/file.txt", &fake_fs), None);
    assert_eq!(validate_file_uri("file://192.168.1.1/path", &fake_fs), None);
}

#[test]
fn validate_file_uri_accepts_empty_authority() {
    let path = "/tmp/herdr-local-file-test-empty-auth.txt";
    let uri = format!("file://{path}");
    let result = validate_file_uri(&uri, &fake_fs);
    assert!(result.is_some(), "expected Some, got None for {uri}");
    assert!(result.unwrap().starts_with("file:///"));
}

#[test]
fn validate_file_uri_accepts_localhost_authority() {
    let path = "/tmp/herdr-local-file-test-empty-auth.txt";
    let uri = format!("file://localhost{path}");
    let result = validate_file_uri(&uri, &fake_fs);
    assert!(result.is_some(), "expected Some for localhost URI");
    assert!(result.unwrap().starts_with("file:///"));
}

#[test]
fn validate_file_uri_rejects_nonexistent_path() {
    assert_eq!(
        validate_file_uri("file:///definitely/does/not/exist/xyz12345", &fake_fs),
        None
    );
}

#[test]
fn validate_file_uri_rejects_encoded_nul() {
    assert_eq!(validate_file_uri("file:///tmp/bad%00name", &fake_fs), None);
}

#[test]
fn validate_file_uri_rejects_malformed_percent_escape() {
    assert_eq!(validate_file_uri("file:///tmp/bad%GGname", &fake_fs), None);
    assert_eq!(validate_file_uri("file:///tmp/bad%2", &fake_fs), None);
}

#[test]
fn validate_file_uri_rejects_control_character() {
    assert_eq!(validate_file_uri("file:///tmp/bad\x01name", &fake_fs), None);
}

#[test]
fn validate_file_uri_directory_is_accepted() {
    let uri = "file:///tmp/herdr-local-file-test-dir";
    assert!(validate_file_uri(uri, &fake_fs).is_some(), "directories should be accepted");
}

#[test]
fn local_path_token_absolute_existing_file() {
    let result = local_path_token_to_file_uri("/tmp/herdr-local-file-test-abs.txt", None, &fake_fs);
    assert!(result.is_some());
    assert!(result.unwrap().starts_with("file:///"));
}

#[test]
fn local_path_token_nonexistent_returns_none() {
    assert_eq!(
        local_path_token_to_file_uri("/no/such/file/xyz9999", None, &fake_fs),
        None
    );
}

#[test]
fn local_path_token_tilde_expansion_with_override() {
    let result = local_path_token_to_file_uri("~/docs/test.txt", Some("/tmp/fake-home"), &fake_fs);
    assert!(result.is_some(), "~/path should expand via home override");
}

#[test]
fn local_path_token_tilde_alone_with_override() {
    let result = local_path_token_to_file_uri("~", Some("/tmp/fake-home"), &fake_fs);
    assert!(result.is_some(), "bare ~ should resolve to home directory");
}

#[test]
fn local_path_token_relative_paths_not_supported() {
    assert_eq!(local_path_token_to_file_uri("./relative/path", None, &fake_fs), None);
    assert_eq!(local_path_token_to_file_uri("../up", None, &fake_fs), None);
}

#[test]
fn local_path_token_rejects_unc_style() {
    assert_eq!(local_path_token_to_file_uri("//server/share", None, &fake_fs), None);
}

#[test]
fn local_path_token_rejects_device_file() {
    assert_eq!(local_path_token_to_file_uri("/dev/null", None, &fake_fs), None);
}

#[test]
fn local_path_token_path_with_spaces_encoded() {
    let result = local_path_token_to_file_uri("/tmp/herdr test spaces/file.txt", None, &fake_fs);
    let uri = result.expect("path with spaces should be accepted");
    assert!(uri.contains("%20"), "space not encoded in {uri}");
}

#[test]
fn local_path_token_file_uri_with_encoded_space() {
    let encoded_path = percent_encode_path("/tmp/herdr encoded dir/r.txt");
    let uri = format!("file://{encoded_path}");
    let result = local_path_token_to_file_uri(&uri, None, &fake_fs);
    assert!(result.is_some(), "file:// URI with %20 should resolve");
}

#[test]
fn local_path_token_rejects_file_uri_with_remote_authority() {
    assert_eq!(
        local_path_token_to_file_uri("file://server/share/file.txt", None, &fake_fs),
        None
    );
}

#[test]
fn path_punctuation_not_part_of_span_detection() {
    let file = "/tmp/herdr-punctuation-test.txt";
    assert!(path_to_safe_file_uri(file, &fake_fs(file)).is_some());
    let colon_path = format!("{file}:");
    assert!(path_to_safe_file_uri(&colon_path, &fake_fs(&colon_path)).is_none());
}

#[test]
fn encoded_then_decoded_path_round_trips() {
    for path in ["/tmp/caf\u{e9} x.txt", "/a/b%c", "/plain"] {
        let encoded = percent_encode_path(path);
        assert_eq!(percent_decode_path(&encoded).as_deref(), Some(path));
    }
}

#[test]
fn canonical_form_is_what_gets_encoded() {
    let facts = PathFacts {
        kind: EntryKind::File,
        canonical: Some("/real/target file".to_string()),
        canonical_kind: EntryKind::File,
    };
    assert_eq!(
        path_to_safe_file_uri("/link", &facts).as_deref(),
        Some("file:///real/target%20file")
    );
    let moved = PathFacts {
        kind: EntryKind::File,
        canonical: Some("/real/target".to_string()),
        canonical_kind: EntryKind::Other,
    };
    assert_eq!(path_to_safe_file_uri("/link", &moved), None);
    assert_eq!(validate_file_uri("file:///anything", &missing), None);
}

#[test]
fn home_tokens_resolve_against_the_given_home() {
    assert_eq!(resolve_path_token("~", Some("/h")).as_deref(), Some("/h"));
    assert_eq!(resolve_path_token("~/x", Some("/h/")).as_deref(), Some("/h/x"));
    assert_eq!(resolve_path_token("~/x", Some("/h")).as_deref(), Some("/h/x"));
    assert_eq!(resolve_path_token("~/x", None), None);
    assert_eq!(resolve_path_token("relative", Some("/h")), None);
    assert_eq!(
        resolve_path_token("file://localhost/a%20b", None).as_deref(),
        Some("/a b")
    );
}

#[test]
fn encoding_then_decoding_gives_the_path_back() {
    for p in [
        "/tmp/caf\u{e9}.txt",
        "/home/user/my documents/report.pdf",
        "/weird/%41 #?[]\u{7f}\u{1f600}",
        "",
    ] {
        let encoded = herdr::local_file::percent_encode_path(p);
        assert!(encoded
            .bytes()
            .all(|b| herdr::local_file::is_path_safe_byte(b) || b == b'%' || b.is_ascii_hexdigit()));
        assert_eq!(
            herdr::local_file::percent_decode_path(&encoded),
            Some(p.to_string())
        );
    }
    assert_eq!(
        herdr::local_file::percent_encode_path("/tmp/caf\u{e9}.txt"),
        "/tmp/caf%C3%A9.txt"
    );
}
