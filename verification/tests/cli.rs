//! Tests of what the command line takes and shows.
use mvn_core::cli::{
    coordinate_lines, dependency_rows, downloaded_paths, info_rows, parse_scope_filter,
    parse_search, repository_lines, upload_target, version_rows,
};
use mvn_core::coord::{ArtifactCoord, DependencyScope};
use mvn_core::metadata::{MavenMetadata, Versioning, Versions};
use mvn_core::pom::{Parent, Pom, PomRepository};
use mvn_core::resolver::ResolvedDependency;
use mvn_core::settings::{Server, Settings};

fn pom() -> Pom {
    Pom {
        model_version: None,
        group_id: None,
        artifact_id: None,
        version: None,
        packaging: None,
        name: None,
        description: None,
        url: None,
        parent: None,
        properties: Default::default(),
        dependency_management: None,
        dependencies: Default::default(),
        repositories: Default::default(),
        distribution_management: None,
    }
}

#[test]
fn scope_filters_are_read() {
    assert_eq!(parse_scope_filter("ALL"), Ok(None));
    assert_eq!(parse_scope_filter("Runtime"), Ok(Some(DependencyScope::Runtime)));
    assert_eq!(parse_scope_filter("bogus"), Err("unknown dependency scope 'bogus'".to_string()));
}

#[test]
fn searches_are_read() {
    assert_eq!(parse_search("g:a"), Ok(("g".to_string(), "a".to_string())));
    assert_eq!(parse_search("g:a:1.0"), Ok(("g".to_string(), "a".to_string())));
    assert_eq!(
        parse_search("g"),
        Err("expected at least groupId:artifactId, got 'g'".to_string())
    );
}

#[test]
fn coordinate_lists_are_read() {
    let content = "# tools\n g:a:1 \r\n\n  # more\ng:b:2";
    assert_eq!(coordinate_lines(content), vec!["g:a:1".to_string(), "g:b:2".to_string()]);
    assert!(coordinate_lines("").is_empty());
}

#[test]
fn upload_targets_have_their_credentials() {
    let mut settings = Settings::default();
    settings.servers.server.push(Server {
        id: "r".into(),
        username: Some("u".into()),
        password: Some("p".into()),
    });
    let given = upload_target("r", "https://r/", Some("x".into()), Some("y".into()), &settings);
    assert_eq!(given.credentials(), Some(("x", "y")));
    assert_eq!(given.url, "https://r");
    let configured = upload_target("r", "https://r", Some("x".into()), None, &settings);
    assert_eq!(configured.credentials(), Some(("u", "p")));
    let open = upload_target("other", "https://r", None, None, &settings);
    assert!(open.credentials().is_none());
}

#[test]
fn information_is_shown_in_rows() {
    let coord = ArtifactCoord::new("g", "a", "1");
    let mut p = pom();
    p.name = Some("Name".into());
    p.description = Some(format!("  {}  ", "d".repeat(101)));
    p.url = Some("https://a".into());
    p.parent = Some(Parent {
        group_id: "h".into(),
        artifact_id: "b".into(),
        version: "2".into(),
        relative_path: None,
    });
    let rows: Vec<(String, String)> =
        info_rows(&coord, &p).into_iter().map(|r| (r.name, r.value)).collect();
    let shortened = format!("{}...", "d".repeat(100));
    let expected = vec![
        ("Group ID", "g"),
        ("Artifact ID", "a"),
        ("Version", "1"),
        ("Packaging", "jar"),
        ("Name", "Name"),
        ("Description", shortened.as_str()),
        ("URL", "https://a"),
        ("Parent", "h:b:2"),
        ("Dependencies", "0"),
    ];
    assert_eq!(rows.len(), expected.len());
    for (row, (name, value)) in rows.iter().zip(expected) {
        assert_eq!(row.0, name);
        assert_eq!(row.1, value);
    }
    p.description = Some("   ".into());
    assert_eq!(info_rows(&coord, &p).len(), 8);
}

#[test]
fn repositories_are_shown_in_lines() {
    let mut p = pom();
    p.repositories.repository.push(PomRepository {
        id: Some("r".into()),
        url: "https://r".into(),
        name: None,
        layout: None,
    });
    p.repositories.repository.push(PomRepository {
        id: None,
        url: "https://s".into(),
        name: None,
        layout: None,
    });
    assert_eq!(
        repository_lines(&p),
        vec!["    - r: https://r".to_string(), "    - (none): https://s".to_string()]
    );
}

#[test]
fn dependencies_are_numbered() {
    let deps = vec![
        ResolvedDependency {
            coord: ArtifactCoord::with_extension("g", "a", "1", "war"),
            scope: DependencyScope::Test,
            path: None,
        },
        ResolvedDependency {
            coord: ArtifactCoord::new("g", "b", "2"),
            scope: DependencyScope::Compile,
            path: Some("/r/b.jar".into()),
        },
    ];
    let rows = dependency_rows(&deps);
    assert_eq!(rows[0].number, "1");
    assert_eq!(rows[0].artifact, "g:a:1");
    assert_eq!(rows[0].scope, DependencyScope::Test);
    assert_eq!(rows[1].number, "2");
    assert_eq!(downloaded_paths(&deps), vec!["/r/b.jar".to_string()]);
}

#[test]
fn latest_release_is_marked() {
    let meta = MavenMetadata {
        group_id: None,
        artifact_id: None,
        version: None,
        versioning: Some(Versioning {
            latest: None,
            release: Some("2".into()),
            versions: Versions { version: vec!["1".into(), "2".into()] },
            last_updated: None,
            snapshot: None,
        }),
    };
    let rows = version_rows(&meta);
    assert_eq!(rows[0].text, "1");
    assert!(!rows[0].is_latest);
    assert_eq!(rows[1].text, "→ 2 (latest release)");
    assert!(rows[1].is_latest);
}
