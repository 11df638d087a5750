//! Tests of the texts of errors.
use mvn_core::error::{MvnError, Result};

#[test]
fn display_pom_parse_error() {
    let err = MvnError::PomParseError {
        message: "unexpected tag".into(),
    };
    let msg = err.to_string();
    assert!(msg.contains("POM parse error"), "got: {msg}");
    assert!(msg.contains("unexpected tag"), "got: {msg}");
}

#[test]
fn display_version_parse_error() {
    let err = MvnError::VersionParseError {
        input: "abc".into(),
        message: "not numeric".into(),
    };
    let msg = err.to_string();
    assert!(msg.contains("invalid version"), "got: {msg}");
    assert!(msg.contains("abc"), "got: {msg}");
    assert!(msg.contains("not numeric"), "got: {msg}");
}

#[test]
fn display_coord_parse_error() {
    let err = MvnError::CoordParseError {
        input: "bad:coord".into(),
        message: "missing version".into(),
    };
    let msg = err.to_string();
    assert!(msg.contains("invalid coordinate"), "got: {msg}");
    assert!(msg.contains("bad:coord"), "got: {msg}");
}

#[test]
fn display_resolution_error() {
    let err = MvnError::ResolutionError {
        message: "cycle detected".into(),
    };
    let msg = err.to_string();
    assert!(msg.contains("dependency resolution failed"), "got: {msg}");
    assert!(msg.contains("cycle detected"), "got: {msg}");
}

#[test]
fn display_download_error() {
    let err = MvnError::DownloadError {
        url: "https://example.com/foo.jar".into(),
        message: "404".into(),
    };
    let msg = err.to_string();
    assert!(msg.contains("download failed"), "got: {msg}");
    assert!(msg.contains("https://example.com/foo.jar"), "got: {msg}");
}

#[test]
fn display_checksum_mismatch() {
    let err = MvnError::ChecksumMismatch {
        artifact: "commons-lang3-3.12.0.jar".into(),
        expected: "aaa".into(),
        actual: "bbb".into(),
    };
    let msg = err.to_string();
    assert!(msg.contains("checksum mismatch"), "got: {msg}");
    assert!(msg.contains("aaa"), "got: {msg}");
    assert!(msg.contains("bbb"), "got: {msg}");
}

#[test]
fn display_artifact_not_found() {
    let err = MvnError::ArtifactNotFound {
        coord: "org.example:foo:1.0".into(),
    };
    let msg = err.to_string();
    assert!(msg.contains("artifact not found"), "got: {msg}");
    assert!(msg.contains("org.example:foo:1.0"), "got: {msg}");
}

#[test]
fn display_network_error() {
    let err = MvnError::NetworkError("connection refused".into());
    let msg = err.to_string();
    assert!(msg.contains("network error"), "got: {msg}");
    assert!(msg.contains("connection refused"), "got: {msg}");
}

#[test]
fn result_type_alias_ok() {
    let r: Result<i32> = Ok(42);
    assert_eq!(r.unwrap(), 42);
}

#[test]
fn result_type_alias_err() {
    let r: Result<i32> = Err(MvnError::ResolutionError {
        message: "oops".into(),
    });
    assert!(r.is_err());
}

#[test]
fn display_special_chars_in_fields() {
    let err = MvnError::DownloadError {
        url: "https://example.com/path?a=1&b=2".into(),
        message: "error with \"quotes\" and <angle brackets>".into(),
    };
    let msg = err.to_string();
    assert!(msg.contains("a=1&b=2"), "got: {msg}");
    assert!(msg.contains("\"quotes\""), "got: {msg}");
    assert!(msg.contains("<angle brackets>"), "got: {msg}");
}

#[test]
fn display_unicode_in_fields() {
    let err = MvnError::PomParseError {
        message: "遇到意外标签 <données>".into(),
    };
    let msg = err.to_string();
    assert!(msg.contains("遇到意外标签"), "got: {msg}");
}

#[test]
fn display_settings_parse_error() {
    let err = MvnError::SettingsParseError {
        message: "invalid XML".into(),
    };
    let msg = err.to_string();
    assert!(msg.contains("settings parse error"), "got: {msg}");
    assert!(msg.contains("invalid XML"), "got: {msg}");
}

#[test]
fn every_error_has_its_text() {
    let cases = vec![
        (MvnError::PomParseError { message: "m".into() }, "POM parse error: m"),
        (
            MvnError::VersionParseError { input: "i".into(), message: "m".into() },
            "invalid version 'i': m",
        ),
        (
            MvnError::CoordParseError { input: "i".into(), message: "m".into() },
            "invalid coordinate 'i': m",
        ),
        (MvnError::ResolutionError { message: "m".into() }, "dependency resolution failed: m"),
        (
            MvnError::DownloadError { url: "u".into(), message: "m".into() },
            "download failed for 'u': m",
        ),
        (
            MvnError::ChecksumMismatch {
                artifact: "a".into(),
                expected: "x".into(),
                actual: "y".into(),
            },
            "checksum mismatch for 'a': expected x, got y",
        ),
        (MvnError::ArtifactNotFound { coord: "c".into() }, "artifact not found: c"),
        (MvnError::IoError("file missing".into()), "file missing"),
        (MvnError::NetworkError("n".into()), "network error: n"),
        (MvnError::XmlError("bad xml".into()), "bad xml"),
        (MvnError::SettingsParseError { message: "m".into() }, "settings parse error: m"),
        (MvnError::UploadError { url: "u".into(), message: "m".into() }, "upload failed for 'u': m"),
    ];
    for (error, text) in cases {
        assert_eq!(error.to_string(), text);
    }
}
