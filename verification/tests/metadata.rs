//! Tests of Maven metadata.
use mvn_core::metadata::{merge_all, merge_metadata, MavenMetadata, Snapshot, Versioning, Versions};

fn artifact(group_id: &str, artifact_id: &str, versioning: Option<Versioning>) -> MavenMetadata {
    MavenMetadata {
        group_id: Some(group_id.into()),
        artifact_id: Some(artifact_id.into()),
        version: None,
        versioning,
    }
}

fn listing(versions: &[&str]) -> Versioning {
    Versioning {
        latest: None,
        release: None,
        versions: Versions { version: versions.iter().map(|v| v.to_string()).collect() },
        last_updated: None,
        snapshot: None,
    }
}

fn sample_metadata() -> MavenMetadata {
    let mut versioning = listing(&["3.0", "3.1", "3.12.0", "3.13.0", "3.14.0"]);
    versioning.latest = Some("3.14.0".into());
    versioning.release = Some("3.14.0".into());
    versioning.last_updated = Some("20231215123456".into());
    artifact("org.apache.commons", "commons-lang3", Some(versioning))
}

#[test]
fn available_versions_returns_correct_list() {
    let meta = sample_metadata();
    let versions = meta.available_versions();
    assert_eq!(versions, vec!["3.0", "3.1", "3.12.0", "3.13.0", "3.14.0"]);
}

#[test]
fn latest_release_returns_correct_value() {
    let meta = sample_metadata();
    assert_eq!(meta.latest_release(), Some("3.14.0"));
}

#[test]
fn latest_version_returns_correct_value() {
    let meta = sample_metadata();
    assert_eq!(meta.latest_version(), Some("3.14.0"));
}

#[test]
fn parse_empty_versioning() {
    let meta = artifact("com.example", "test", None);
    assert!(meta.versioning.is_none());
    assert!(meta.available_versions().is_empty());
    assert_eq!(meta.latest_release(), None);
    assert_eq!(meta.latest_version(), None);
}

#[test]
fn parse_metadata_empty_versions_list() {
    let mut versioning = listing(&[]);
    versioning.last_updated = Some("20240101000000".into());
    let meta = artifact("com.example", "empty", Some(versioning));
    assert!(meta.available_versions().is_empty());
}

#[test]
fn latest_version_differs_from_release() {
    let mut versioning = listing(&["1.0", "2.0-SNAPSHOT"]);
    versioning.latest = Some("2.0-SNAPSHOT".into());
    versioning.release = Some("1.0".into());
    let meta = artifact("com.example", "mixed", Some(versioning));
    assert_eq!(meta.latest_version(), Some("2.0-SNAPSHOT"));
    assert_eq!(meta.latest_release(), Some("1.0"));
}

#[test]
fn available_versions_large_list() {
    let versions: Vec<String> = (1..=100).map(|i| format!("1.{i}")).collect();
    let mut versioning = listing(&[]);
    versioning.versions = Versions { version: versions };
    let meta = artifact("com.example", "big", Some(versioning));
    let avail = meta.available_versions();
    assert_eq!(avail.len(), 100);
    assert_eq!(avail[0], "1.1");
    assert_eq!(avail[99], "1.100");
}

#[test]
fn merge_metadata_combines_versions() {
    let base = MavenMetadata {
        group_id: Some("org.example".into()),
        artifact_id: Some("lib".into()),
        version: None,
        versioning: Some(Versioning {
            latest: Some("1.2".into()),
            release: Some("1.2".into()),
            versions: Versions {
                version: vec!["1.0".into(), "1.1".into(), "1.2".into()],
            },
            last_updated: Some("20240101000000".into()),
            snapshot: None,
        }),
    };
    let other = MavenMetadata {
        group_id: Some("org.example".into()),
        artifact_id: Some("lib".into()),
        version: None,
        versioning: Some(Versioning {
            latest: Some("1.4".into()),
            release: Some("1.4".into()),
            versions: Versions {
                version: vec!["1.2".into(), "1.3".into(), "1.4".into()],
            },
            last_updated: Some("20240601000000".into()),
            snapshot: None,
        }),
    };

    let merged = merge_metadata(base, other);
    let versions = merged.available_versions();
    assert_eq!(versions.len(), 5); // 1.0, 1.1, 1.2, 1.3, 1.4 (deduplicated)
    assert!(versions.contains(&"1.0"));
    assert!(versions.contains(&"1.4"));
    assert_eq!(merged.latest_release(), Some("1.4")); // newer wins
}

#[test]
fn merge_metadata_base_only() {
    let base = MavenMetadata {
        group_id: Some("org.example".into()),
        artifact_id: Some("lib".into()),
        version: None,
        versioning: Some(Versioning {
            latest: Some("1.0".into()),
            release: Some("1.0".into()),
            versions: Versions {
                version: vec!["1.0".into()],
            },
            last_updated: Some("20240101000000".into()),
            snapshot: None,
        }),
    };
    let other = MavenMetadata {
        group_id: None,
        artifact_id: None,
        version: None,
        versioning: None,
    };

    let merged = merge_metadata(base, other);
    assert_eq!(merged.available_versions().len(), 1);
}

#[test]
fn merged_versions_keep_their_order() {
    let base = artifact("g", "a", Some(listing(&["2.0", "1.0"])));
    let other = artifact("g", "a", Some(listing(&["3.0", "1.0", "0.5"])));
    let merged = merge_metadata(base, other);
    assert_eq!(merged.available_versions(), vec!["2.0", "1.0", "3.0", "0.5"]);
}

#[test]
fn older_metadata_does_not_change_the_latest() {
    let mut newer = listing(&["2.0"]);
    newer.latest = Some("2.0".into());
    newer.release = Some("2.0".into());
    newer.last_updated = Some("20240601000000".into());
    let mut older = listing(&["1.0"]);
    older.latest = Some("1.0".into());
    older.release = Some("1.0".into());
    older.last_updated = Some("20240101000000".into());
    older.snapshot = Some(Snapshot {
        timestamp: Some("20231215.123456".into()),
        build_number: Some(42),
    });
    let merged = merge_metadata(
        artifact("g", "a", Some(newer)),
        artifact("h", "b", Some(older)),
    );
    assert_eq!(merged.group_id.as_deref(), Some("g"));
    assert_eq!(merged.latest_version(), Some("2.0"));
    assert_eq!(merged.latest_release(), Some("2.0"));
    let versioning = merged.versioning.unwrap();
    assert_eq!(versioning.last_updated.as_deref(), Some("20240601000000"));
    assert_eq!(versioning.snapshot.unwrap().build_number, Some(42));
}

#[test]
fn merging_into_nothing_takes_the_other() {
    let merged = merge_metadata(artifact("g", "a", None), sample_metadata());
    assert_eq!(merged.artifact_id.as_deref(), Some("a"));
    assert_eq!(merged.available_versions().len(), 5);
}

#[test]
fn merging_twice_is_merging_once() {
    let once = merge_metadata(sample_metadata(), sample_metadata());
    assert_eq!(once.available_versions(), sample_metadata().available_versions());
    assert_eq!(once.latest_version(), Some("3.14.0"));
}

#[test]
fn all_sources_are_merged_in_their_order() {
    assert!(merge_all(vec![]).is_none());
    let merged = merge_all(vec![
        artifact("g", "a", Some(listing(&["1.0", "2.0"]))),
        artifact("h", "b", None),
        artifact("i", "c", Some(listing(&["2.0", "3.0"]))),
    ])
    .unwrap();
    assert_eq!(merged.group_id.as_deref(), Some("g"));
    assert_eq!(merged.available_versions(), vec!["1.0", "2.0", "3.0"]);
}
