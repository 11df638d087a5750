//! Tests of downloading and uploading: what is retried, checksums and metadata of uploads.
use mvn_core::checksum::{
    compare_checksum, parse_sha1_checksum, sha1_hex, sha256_hex, verify_checksum,
};
use mvn_core::coord::ArtifactCoord;
use mvn_core::downloader::{
    after_fetch, after_source, artifact_not_found, checksum_url, first_source, is_passing_status,
    is_retryable, metadata_not_found, pom_coord, status_may_pass, with_jitter, FetchEvent, FetchStep, SourceEvent,
    SourceStep,
};
use mvn_core::error::MvnError;
use mvn_core::metadata::{MavenMetadata, Versioning, Versions};
use mvn_core::repository::{LocalRepository, RemoteRepository};
use mvn_core::timestamp::{is_leap, now_timestamp, timestamp};
use mvn_core::uploader::{
    after_put, build_fresh_metadata, checksum_files, is_retryable_upload, plan_upload,
    serialize_metadata, update_metadata, PutEvent, PutStep,
};

#[test]
fn url_generation_delegates_to_remote() {
    let remote = RemoteRepository::maven_central();
    let coord = ArtifactCoord::new("org.apache.commons", "commons-lang3", "3.12.0");
    assert_eq!(
        remote.artifact_url(&coord),
        "https://repo.maven.apache.org/maven2/org/apache/commons/commons-lang3/3.12.0/commons-lang3-3.12.0.jar"
    );
    assert_eq!(
        remote.pom_url(&coord),
        "https://repo.maven.apache.org/maven2/org/apache/commons/commons-lang3/3.12.0/commons-lang3-3.12.0.pom"
    );
}

#[test]
fn parse_sha1_hash_only() {
    let content = "a1b2c3d4e5f6a1b2c3d4e5f6a1b2c3d4e5f6a1b2";
    assert_eq!(
        parse_sha1_checksum(content),
        Some("a1b2c3d4e5f6a1b2c3d4e5f6a1b2c3d4e5f6a1b2".to_string())
    );
}

#[test]
fn parse_sha1_with_filename() {
    let content = "a1b2c3d4e5f6a1b2c3d4e5f6a1b2c3d4e5f6a1b2  commons-lang3-3.12.0.jar";
    assert_eq!(
        parse_sha1_checksum(content),
        Some("a1b2c3d4e5f6a1b2c3d4e5f6a1b2c3d4e5f6a1b2".to_string())
    );
}

#[test]
fn parse_sha1_with_trailing_whitespace() {
    let content = "  a1b2c3d4e5f6a1b2c3d4e5f6a1b2c3d4e5f6a1b2  \n";
    assert_eq!(
        parse_sha1_checksum(content),
        Some("a1b2c3d4e5f6a1b2c3d4e5f6a1b2c3d4e5f6a1b2".to_string())
    );
}

#[test]
fn parse_sha1_uppercase_normalized() {
    let content = "A1B2C3D4E5F6A1B2C3D4E5F6A1B2C3D4E5F6A1B2";
    assert_eq!(
        parse_sha1_checksum(content),
        Some("a1b2c3d4e5f6a1b2c3d4e5f6a1b2c3d4e5f6a1b2".to_string())
    );
}

#[test]
fn parse_sha1_empty_returns_none() {
    assert_eq!(parse_sha1_checksum(""), None);
    assert_eq!(parse_sha1_checksum("   "), None);
}

#[test]
fn parse_sha1_invalid_length_returns_none() {
    assert_eq!(parse_sha1_checksum("abc123"), None);
}

#[test]
fn parse_sha1_non_hex_returns_none() {
    assert_eq!(
        parse_sha1_checksum("g1b2c3d4e5f6a1b2c3d4e5f6a1b2c3d4e5f6a1b2"),
        None
    );
}

#[test]
fn is_retryable_network_error() {
    assert!(is_retryable(&MvnError::NetworkError("timeout".into())));
}

#[test]
fn is_retryable_5xx() {
    assert!(is_retryable(&MvnError::DownloadError {
        url: "test".into(),
        message: "HTTP 503".into(),
    }));
}

#[test]
fn is_retryable_429() {
    assert!(is_retryable(&MvnError::DownloadError {
        url: "test".into(),
        message: "HTTP 429".into(),
    }));
}

#[test]
fn not_retryable_404() {
    assert!(!is_retryable(&MvnError::ArtifactNotFound {
        coord: "test".into(),
    }));
}

#[test]
fn not_retryable_checksum() {
    assert!(!is_retryable(&MvnError::ChecksumMismatch {
        artifact: "test".into(),
        expected: "a".into(),
        actual: "b".into(),
    }));
}

#[test]
fn not_retryable_400() {
    assert!(!is_retryable(&MvnError::DownloadError {
        url: "test".into(),
        message: "HTTP 400".into(),
    }));
}

#[test]
fn now_timestamp_format() {
    let ts = now_timestamp();
    assert_eq!(ts.len(), 14, "timestamp should be 14 chars: {ts}");
    assert!(ts.chars().all(|c| c.is_ascii_digit()), "should be all digits: {ts}");
}

#[test]
fn is_leap_years() {
    assert!(is_leap(2000));
    assert!(is_leap(2024));
    assert!(!is_leap(1900));
    assert!(!is_leap(2023));
}

#[test]
fn serialize_metadata_snapshot() {
    let meta = MavenMetadata {
        group_id: Some("com.example".into()),
        artifact_id: Some("snap".into()),
        version: None,
        versioning: Some(Versioning {
            latest: Some("1.0-SNAPSHOT".into()),
            release: None,
            versions: Versions {
                version: vec!["1.0-SNAPSHOT".into()],
            },
            last_updated: Some("20240601120000".into()),
            snapshot: None,
        }),
    };

    let xml = serialize_metadata(&meta);
    assert!(xml.contains("<latest>1.0-SNAPSHOT</latest>"));
    assert!(!xml.contains("<release>"));
}

#[test]
fn serialize_metadata_minimal() {
    let meta = MavenMetadata {
        group_id: Some("g".into()),
        artifact_id: Some("a".into()),
        version: None,
        versioning: None,
    };
    let xml = serialize_metadata(&meta);
    assert!(xml.contains("<groupId>g</groupId>"));
    assert!(!xml.contains("<versioning>"));
}

#[test]
fn is_retryable_upload_errors() {
    assert!(is_retryable_upload(&MvnError::NetworkError("timeout".into())));
    assert!(is_retryable_upload(&MvnError::UploadError {
        url: "http://x".into(),
        message: "HTTP 500 — error".into(),
    }));
    assert!(is_retryable_upload(&MvnError::UploadError {
        url: "http://x".into(),
        message: "HTTP 429 — rate limited".into(),
    }));
    assert!(!is_retryable_upload(&MvnError::UploadError {
        url: "http://x".into(),
        message: "HTTP 403 — forbidden".into(),
    }));
    assert!(!is_retryable_upload(&MvnError::ArtifactNotFound {
        coord: "g:a:v".into(),
    }));
}

#[test]
fn build_fresh_metadata_release() {
    let coord = ArtifactCoord::new("org.example", "lib", "1.0");
    let meta = build_fresh_metadata(&coord, "20240601120000");
    assert_eq!(meta.group_id.as_deref(), Some("org.example"));
    assert_eq!(meta.artifact_id.as_deref(), Some("lib"));
    let v = meta.versioning.as_ref().unwrap();
    assert_eq!(v.latest.as_deref(), Some("1.0"));
    assert_eq!(v.release.as_deref(), Some("1.0"));
    assert_eq!(v.versions.version, vec!["1.0"]);
}

#[test]
fn build_fresh_metadata_snapshot() {
    let coord = ArtifactCoord::new("org.example", "lib", "1.0-SNAPSHOT");
    let meta = build_fresh_metadata(&coord, "20240601120000");
    let v = meta.versioning.as_ref().unwrap();
    assert_eq!(v.latest.as_deref(), Some("1.0-SNAPSHOT"));
    assert!(v.release.is_none(), "SNAPSHOT should not set release");
}

#[test]
fn upload_artifact_not_in_local_repo() {
    let local = LocalRepository::new("/tmp/repo");
    let target = RemoteRepository::new("test", "http://localhost:1/repo");
    let coord = ArtifactCoord::new("org.example", "nonexistent", "1.0");
    let result = plan_upload(&coord, &target, &local, false, false);
    assert!(result.is_err());
    let err = result.unwrap_err();
    let text = err.to_string();
    assert!(text.contains("not in local repo"), "got: {text}");
    assert_eq!(
        text,
        "artifact not found: org.example:nonexistent:1.0 (not in local repo at /tmp/repo)"
    );
}

#[test]
fn digests_are_those_of_the_algorithms() {
    assert_eq!(sha1_hex(&vec![]), "da39a3ee5e6b4b0d3255bfef95601890afd80709");
    assert_eq!(sha1_hex(&b"abc".to_vec()), "a9993e364706816aba3e25717850c26c9cd0d89d");
    assert_eq!(
        sha256_hex(&b"abc".to_vec()),
        "ba7816bf8f01cfea414140de5dae2223b00361a396177a9cb410ff61f20015ad"
    );
}

#[test]
fn checksums_are_verified() {
    let coord = ArtifactCoord::new("g", "a", "1");
    let data = b"abc".to_vec();
    let own = sha1_hex(&data);
    assert!(verify_checksum(&coord, &data, Some(own.clone())).unwrap());
    let upper = own.to_uppercase();
    assert!(verify_checksum(&coord, &data, Some(format!("{upper}  a-1.jar\n"))).unwrap());
    // Without a checksum there is nothing to compare
    assert!(!verify_checksum(&coord, &data, None).unwrap());
    assert!(!verify_checksum(&coord, &data, Some("not a checksum".into())).unwrap());
    let wrong = "da39a3ee5e6b4b0d3255bfef95601890afd80709";
    match verify_checksum(&coord, &data, Some(wrong.into())) {
        Err(MvnError::ChecksumMismatch { artifact, expected, actual }) => {
            assert_eq!(artifact, "g:a:1");
            assert_eq!(expected, wrong);
            assert_eq!(actual, own);
        }
        other => panic!("expected a mismatch, got: {other:?}"),
    }
    assert!(compare_checksum(&coord, Some("x".into()), "y".into()).is_err());
    assert!(compare_checksum(&coord, Some("x".into()), "x".into()).unwrap());
}

#[test]
fn fetching_decides_by_the_answer() {
    let response = |code: u16, status: &str| FetchEvent::Response { code, status: status.into() };
    assert!(matches!(after_fetch("u", 0, 3, response(200, "200 OK")), FetchStep::ReadBody));
    assert!(matches!(after_fetch("u", 0, 3, response(404, "404 Not Found")), FetchStep::Missing));
    assert!(matches!(
        after_fetch("u", 2, 3, response(503, "503 Service Unavailable")),
        FetchStep::Retry(_)
    ));
    match after_fetch("u", 3, 3, response(503, "503 Service Unavailable")) {
        FetchStep::Fail(MvnError::DownloadError { url, message }) => {
            assert_eq!(url, "u");
            assert_eq!(message, "HTTP 503 Service Unavailable");
        }
        other => panic!("expected a failure, got: {other:?}"),
    }
    assert!(matches!(
        after_fetch("u", 0, 3, response(403, "403 Forbidden")),
        FetchStep::Fail(MvnError::DownloadError { .. })
    ));
    assert!(matches!(
        after_fetch("u", 0, 1, FetchEvent::SendFailed("refused".into())),
        FetchStep::Retry(MvnError::NetworkError(_))
    ));
    assert!(matches!(
        after_fetch("u", 1, 1, FetchEvent::BodyFailed("cut off".into())),
        FetchStep::Fail(MvnError::NetworkError(_))
    ));
}

#[test]
fn passing_statuses_are_told_by_their_number() {
    assert!(is_passing_status("HTTP 500"));
    assert!(is_passing_status("HTTP 408 Request Timeout"));
    assert!(is_passing_status("HTTP 429 Too Many Requests"));
    assert!(!is_passing_status("HTTP 401"));
    assert!(!is_passing_status("http 500"));
}

#[test]
fn delays_vary_by_a_quarter() {
    assert_eq!(with_jitter(1000, 0), 750);
    assert_eq!(with_jitter(1000, 499), 1249);
    assert_eq!(with_jitter(1000, 500), 750);
    assert_eq!(with_jitter(3, 77), 3);
    assert_eq!(with_jitter(0, 77), 0);
}

#[test]
fn only_a_missing_artifact_is_looked_for_elsewhere() {
    let coord = ArtifactCoord::new("g", "a", "1");
    let missing = artifact_not_found(&coord);
    assert_eq!(missing.to_string(), "artifact not found: g:a:1");
    assert_eq!(metadata_not_found("g", "a").to_string(), "artifact not found: g:a");
    let missing = || MvnError::ArtifactNotFound { coord: "none has it".into() };
    assert!(matches!(first_source(2, missing()), SourceStep::Look(0)));
    assert!(matches!(first_source(0, missing()), SourceStep::GiveUp(_)));
    assert!(matches!(
        after_source(0, 2, SourceEvent::Failed(artifact_not_found(&coord)), missing()),
        SourceStep::Look(1)
    ));
    assert!(matches!(after_source(0, 2, SourceEvent::Missing, missing()), SourceStep::Look(1)));
    assert!(matches!(after_source(0, 2, SourceEvent::Found, missing()), SourceStep::Done));
    assert!(matches!(
        after_source(0, 2, SourceEvent::Failed(MvnError::NetworkError("n".into())), missing()),
        SourceStep::GiveUp(MvnError::NetworkError(_))
    ));
    match after_source(1, 2, SourceEvent::Missing, missing()) {
        SourceStep::GiveUp(MvnError::ArtifactNotFound { coord }) => {
            assert_eq!(coord, "none has it");
        }
        other => panic!("expected the end of the search, got: {other:?}"),
    }
    assert_eq!(checksum_url("https://x/a.jar"), "https://x/a.jar.sha1");
    let source = ArtifactCoord::with_classifier("g", "a", "1", "sources", "jar");
    assert_eq!(pom_coord(&source).to_string(), "g:a:pom:1");
}

#[test]
fn putting_decides_by_the_answer() {
    let response = |code: u16, status: &str, body: &str| PutEvent::Response {
        code,
        status: status.into(),
        body: body.into(),
    };
    assert!(matches!(after_put("u", 0, 3, response(201, "201 Created", "")), PutStep::Done));
    assert!(matches!(
        after_put("u", 0, 3, response(500, "500 Internal Server Error", "")),
        PutStep::Retry(_)
    ));
    let body: String = std::iter::repeat('x').take(300).collect();
    match after_put("u", 0, 3, response(403, "403 Forbidden", &body)) {
        PutStep::Fail(MvnError::UploadError { url, message }) => {
            assert_eq!(url, "u");
            let quoted: String = std::iter::repeat('x').take(200).collect();
            assert_eq!(message, format!("HTTP 403 Forbidden — {quoted}"));
        }
        other => panic!("expected a failure, got: {other:?}"),
    }
    assert!(matches!(
        after_put("u", 3, 3, PutEvent::SendFailed("refused".into())),
        PutStep::Fail(MvnError::NetworkError(_))
    ));
}

#[test]
fn uploads_are_planned_by_what_is_there() {
    let local = LocalRepository::new("/r");
    let target = RemoteRepository::new("t", "https://t");
    let coord = ArtifactCoord::new("g.h", "a", "1");
    let both = plan_upload(&coord, &target, &local, true, true).unwrap();
    assert_eq!(both.len(), 2);
    assert_eq!(both[0].path, "/r/g/h/a/1/a-1.jar");
    assert_eq!(both[0].url, "https://t/g/h/a/1/a-1.jar");
    assert_eq!(both[1].path, "/r/g/h/a/1/a-1.pom");
    assert_eq!(both[1].url, "https://t/g/h/a/1/a-1.pom");
    let pom = plan_upload(&coord, &target, &local, false, true).unwrap();
    assert_eq!(pom.len(), 1);
    assert_eq!(pom[0].url, "https://t/g/h/a/1/a-1.pom");
}

#[test]
fn checksum_files_go_beside_the_file() {
    let files = checksum_files("https://t/a.jar", &b"abc".to_vec());
    assert_eq!(files[0].url, "https://t/a.jar.sha1");
    assert_eq!(files[0].content, "a9993e364706816aba3e25717850c26c9cd0d89d");
    assert_eq!(files[1].url, "https://t/a.jar.sha256");
    assert_eq!(
        files[1].content,
        "ba7816bf8f01cfea414140de5dae2223b00361a396177a9cb410ff61f20015ad"
    );
}

#[test]
fn uploaded_version_becomes_the_latest() {
    let coord = ArtifactCoord::new("g", "a", "2.0");
    let first = update_metadata(None, &ArtifactCoord::new("g", "a", "1.0"), "20240101000000");
    let second = update_metadata(Some(first), &coord, "20240201000000");
    assert_eq!(second.available_versions(), vec!["1.0", "2.0"]);
    assert_eq!(second.latest_version(), Some("2.0"));
    assert_eq!(second.latest_release(), Some("2.0"));
    let again = update_metadata(Some(second), &coord, "20240301000000");
    assert_eq!(again.available_versions(), vec!["1.0", "2.0"]);
    let snapshot = ArtifactCoord::new("g", "a", "3.0-SNAPSHOT");
    let third = update_metadata(Some(again), &snapshot, "20240401000000");
    assert_eq!(third.latest_version(), Some("3.0-SNAPSHOT"));
    assert_eq!(third.latest_release(), Some("2.0"));
    assert_eq!(third.versioning.unwrap().last_updated.as_deref(), Some("20240401000000"));
}

#[test]
fn metadata_is_written_as_xml() {
    let meta = MavenMetadata {
        group_id: Some("org.example".into()),
        artifact_id: Some("test-lib".into()),
        version: None,
        versioning: Some(Versioning {
            latest: Some("2.0".into()),
            release: Some("2.0".into()),
            versions: Versions {
                version: vec!["1.0".into(), "1.5".into(), "2.0".into()],
            },
            last_updated: Some("20240601120000".into()),
            snapshot: None,
        }),
    };
    let expected = "<?xml version=\"1.0\" encoding=\"UTF-8\"?>\n<metadata>\n  \
        <groupId>org.example</groupId>\n  <artifactId>test-lib</artifactId>\n  \
        <versioning>\n    <latest>2.0</latest>\n    <release>2.0</release>\n    \
        <versions>\n      <version>1.0</version>\n      <version>1.5</version>\n      \
        <version>2.0</version>\n    </versions>\n    \
        <lastUpdated>20240601120000</lastUpdated>\n  </versioning>\n</metadata>\n";
    assert_eq!(serialize_metadata(&meta), expected);
}

#[test]
fn timestamps_follow_the_calendar() {
    assert_eq!(timestamp(0), "19700101000000");
    assert_eq!(timestamp(951_782_400), "20000229000000");
    assert_eq!(timestamp(1_717_243_199), "20240601115959");
    assert_eq!(timestamp(1_735_689_599), "20241231235959");
    assert_eq!(timestamp(4_107_542_400), "21000301000000");
    assert!(timestamp(1_700_000_000) < timestamp(1_700_000_001));
}

#[test]
fn retries_go_by_the_number_of_the_status() {
    for (code, passes) in [
        (500, true),
        (503, true),
        (599, true),
        (408, true),
        (429, true),
        (400, false),
        (404, false),
        (499, false),
        (600, false),
    ] {
        assert_eq!(status_may_pass(code), passes, "status {code}");
    }
    // The body may speak of another status
    let refused = PutEvent::Response {
        code: 400,
        status: "400 Bad Request".into(),
        body: "upstream said HTTP 500".into(),
    };
    assert!(matches!(after_put("u", 0, 3, refused), PutStep::Fail(_)));
    let odd = FetchEvent::Response { code: 400, status: "400 HTTP 5".into() };
    assert!(matches!(after_fetch("u", 0, 3, odd), FetchStep::Fail(_)));
}

#[test]
fn metadata_without_versions_lists_the_uploaded_one() {
    let bare = MavenMetadata {
        group_id: Some("g".into()),
        artifact_id: Some("a".into()),
        version: None,
        versioning: None,
    };
    let coord = ArtifactCoord::new("g", "a", "1.0");
    let updated = update_metadata(Some(bare), &coord, "20240101000000");
    assert_eq!(updated.available_versions(), vec!["1.0"]);
    assert_eq!(updated.latest_version(), Some("1.0"));
    assert_eq!(updated.latest_release(), Some("1.0"));
    assert_eq!(updated.versioning.unwrap().last_updated.as_deref(), Some("20240101000000"));
}
