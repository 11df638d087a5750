//! Tests of repositories.
use mvn_core::coord::ArtifactCoord;
use mvn_core::repository::{
    apply_mirrors, join_path, LocalRepository, RemoteRepository, RepositorySystem,
};
use mvn_core::settings::{
    Mirror, Profile, Server, Settings, SettingsRepository, SettingsRepositoryList,
};

fn mirror(id: Option<&str>, mirror_of: &str, url: &str) -> Mirror {
    Mirror {
        id: id.map(String::from),
        name: None,
        url: url.into(),
        mirror_of: mirror_of.into(),
    }
}

fn server(id: &str, username: &str, password: &str) -> Server {
    Server {
        id: id.into(),
        username: Some(username.into()),
        password: Some(password.into()),
    }
}

#[test]
fn remote_artifact_url() {
    let repo = RemoteRepository::new("central", "https://repo.maven.apache.org/maven2");
    let coord = ArtifactCoord::new("org.apache.commons", "commons-lang3", "3.12.0");
    assert_eq!(
        repo.artifact_url(&coord),
        "https://repo.maven.apache.org/maven2/org/apache/commons/commons-lang3/3.12.0/commons-lang3-3.12.0.jar"
    );
}

#[test]
fn remote_pom_url() {
    let repo = RemoteRepository::new("central", "https://repo.maven.apache.org/maven2");
    let coord = ArtifactCoord::new("org.apache.commons", "commons-lang3", "3.12.0");
    assert_eq!(
        repo.pom_url(&coord),
        "https://repo.maven.apache.org/maven2/org/apache/commons/commons-lang3/3.12.0/commons-lang3-3.12.0.pom"
    );
}

#[test]
fn remote_metadata_url() {
    let repo = RemoteRepository::new("central", "https://repo.maven.apache.org/maven2");
    assert_eq!(
        repo.metadata_url("org.apache.commons", "commons-lang3"),
        "https://repo.maven.apache.org/maven2/org/apache/commons/commons-lang3/maven-metadata.xml"
    );
}

#[test]
fn remote_url_trailing_slash_trimmed() {
    let repo = RemoteRepository::new("test", "https://example.com/repo/");
    assert_eq!(repo.url, "https://example.com/repo");
}

#[test]
fn maven_central_defaults() {
    let repo = RemoteRepository::maven_central();
    assert_eq!(repo.id, "central");
    assert_eq!(repo.url, "https://repo.maven.apache.org/maven2");
}

#[test]
fn local_artifact_path() {
    let local = LocalRepository::new("/home/user/.m2/repository");
    let coord = ArtifactCoord::new("org.apache.commons", "commons-lang3", "3.12.0");
    let expected = "/home/user/.m2/repository/org/apache/commons/commons-lang3/3.12.0/commons-lang3-3.12.0.jar";
    assert_eq!(local.artifact_path(&coord), expected);
}

#[test]
fn local_pom_path() {
    let local = LocalRepository::new("/home/user/.m2/repository");
    let coord = ArtifactCoord::new("org.apache.commons", "commons-lang3", "3.12.0");
    let expected = "/home/user/.m2/repository/org/apache/commons/commons-lang3/3.12.0/commons-lang3-3.12.0.pom";
    assert_eq!(local.pom_path(&coord), expected);
}

#[test]
fn repository_system_creation() {
    let local = LocalRepository::new("/tmp/repo");
    let remotes = vec![RemoteRepository::maven_central()];
    let system = RepositorySystem::new(local, remotes);
    assert_eq!(system.remotes().len(), 1);
    assert_eq!(system.remotes()[0].id, "central");
}

#[test]
fn default_location_exists() {
    // Should not panic — just verify it constructs a valid path
    let local = LocalRepository::default_location().unwrap();
    assert!(local.root.ends_with("repository"));
}

#[test]
fn with_defaults_creates_system() {
    let system = RepositorySystem::with_defaults().unwrap();
    assert!(!system.remotes().is_empty());
    assert_eq!(system.remotes()[0].id, "central");
    assert!(system.local().root.ends_with("repository"));
}

#[test]
fn remote_url_multiple_trailing_slashes() {
    let repo = RemoteRepository::new("test", "https://example.com///");
    assert_eq!(repo.url, "https://example.com");
}

#[test]
fn remote_url_empty() {
    let repo = RemoteRepository::new("empty", "");
    assert_eq!(repo.url, "");
}

#[test]
fn remote_with_credentials() {
    let repo = RemoteRepository::with_credentials("my-repo", "https://example.com", "user", "pass");
    assert_eq!(repo.credentials(), Some(("user", "pass")));
}

#[test]
fn remote_no_credentials() {
    let repo = RemoteRepository::new("test", "https://example.com");
    assert!(repo.credentials().is_none());
}

#[test]
fn from_settings_custom_local_repo() {
    let mut settings = Settings::default();
    settings.local_repository = Some("/custom/repo".into());
    let system = RepositorySystem::from_settings(&settings).unwrap();
    assert_eq!(system.local().root, "/custom/repo");
}

#[test]
fn from_settings_default_local_when_empty() {
    let settings = Settings::default();
    let system = RepositorySystem::from_settings(&settings).unwrap();
    // Should default to ~/.m2/repository
    assert!(system.local().root.ends_with("repository"));
}

#[test]
fn from_settings_with_profiles_and_repos() {
    let mut settings = Settings::default();
    settings.profiles.profile.push(Profile {
        id: Some("nexus".into()),
        repositories: SettingsRepositoryList {
            repository: vec![SettingsRepository {
                id: Some("nexus-releases".into()),
                name: None,
                url: "https://nexus.example.com/releases".into(),
            }],
        },
    });
    settings.active_profiles.active_profile.push("nexus".into());
    let system = RepositorySystem::from_settings(&settings).unwrap();
    assert_eq!(system.remotes().len(), 1);
    assert_eq!(system.remotes()[0].id, "nexus-releases");
    assert_eq!(system.remotes()[0].url, "https://nexus.example.com/releases");
}

#[test]
fn from_settings_no_profiles_defaults_to_central() {
    let settings = Settings::default();
    let system = RepositorySystem::from_settings(&settings).unwrap();
    assert_eq!(system.remotes().len(), 1);
    assert_eq!(system.remotes()[0].id, "central");
}

#[test]
fn from_settings_with_mirror_replaces_repo() {
    let mut settings = Settings::default();
    settings.mirrors.mirror.push(mirror(
        Some("aliyun"),
        "central",
        "https://maven.aliyun.com/repository/central",
    ));
    let system = RepositorySystem::from_settings(&settings).unwrap();
    // Central should be replaced by aliyun mirror
    assert_eq!(system.remotes().len(), 1);
    assert_eq!(system.remotes()[0].id, "aliyun");
    assert_eq!(
        system.remotes()[0].url,
        "https://maven.aliyun.com/repository/central"
    );
}

#[test]
fn from_settings_mirror_with_server_credentials() {
    let mut settings = Settings::default();
    settings.mirrors.mirror.push(mirror(Some("nexus"), "*", "https://nexus.corp.com/maven"));
    settings.servers.server.push(server("nexus", "deploy", "secret"));
    let system = RepositorySystem::from_settings(&settings).unwrap();
    assert_eq!(system.remotes()[0].id, "nexus");
    assert_eq!(system.remotes()[0].credentials(), Some(("deploy", "secret")));
}

#[test]
fn apply_mirrors_no_match() {
    let repos = vec![RemoteRepository::new("my-repo", "https://my.repo.com")];
    let mirrors = vec![];
    let servers = vec![];
    let result = apply_mirrors(&repos, &mirrors, &servers);
    assert_eq!(result.len(), 1);
    assert_eq!(result[0].id, "my-repo");
}

#[test]
fn add_remote_if_absent_dedup_by_id() {
    let mut system = RepositorySystem::with_defaults().unwrap();
    // "central" already present
    let added = system.add_remote_if_absent(
        RemoteRepository::new("central", "https://other.url.com/repo"),
    );
    assert!(!added);
    assert_eq!(system.remotes().len(), 1);
}

#[test]
fn add_remote_if_absent_dedup_by_url() {
    let mut system = RepositorySystem::with_defaults().unwrap();
    let added = system.add_remote_if_absent(
        RemoteRepository::new("other-id", "https://repo.maven.apache.org/maven2"),
    );
    assert!(!added);
    assert_eq!(system.remotes().len(), 1);
}

#[test]
fn add_remote_if_absent_new_repo() {
    let mut system = RepositorySystem::with_defaults().unwrap();
    let added = system.add_remote_if_absent(
        RemoteRepository::new("jboss", "https://repository.jboss.org/nexus"),
    );
    assert!(added);
    assert_eq!(system.remotes().len(), 2);
    assert_eq!(system.remotes()[1].id, "jboss");
}

#[test]
fn version_metadata_url() {
    let remote =
        RemoteRepository::new("central", "https://repo.maven.apache.org/maven2");
    let coord = ArtifactCoord::new("org.example", "lib", "1.0-SNAPSHOT");
    assert_eq!(
        remote.version_metadata_url(&coord),
        "https://repo.maven.apache.org/maven2/org/example/lib/1.0-SNAPSHOT/maven-metadata.xml"
    );
}

#[test]
fn mirrored_repository_loses_its_credentials() {
    let repos = vec![
        RemoteRepository::with_credentials("a", "https://a.example.com", "user", "pass"),
        RemoteRepository::with_credentials("b", "https://b.example.com", "user", "pass"),
    ];
    let mirrors = vec![
        mirror(None, "a", "https://first.example.com/"),
        mirror(Some("second"), "a,b", "https://second.example.com"),
    ];
    let result = apply_mirrors(&repos, &mirrors, &vec![server("second", "u", "p")]);
    assert_eq!(result[0].id, "a");
    assert_eq!(result[0].url, "https://first.example.com");
    assert!(result[0].credentials().is_none());
    assert_eq!(result[1].id, "second");
    assert_eq!(result[1].credentials(), Some(("u", "p")));
}

#[test]
fn profile_repositories_have_their_credentials() {
    let mut settings = Settings::default();
    settings.local_repository = Some("/r".into());
    settings.servers.server.push(server("team", "u", "p"));
    settings.profiles.profile.push(Profile {
        id: Some("p".into()),
        repositories: SettingsRepositoryList {
            repository: vec![
                SettingsRepository {
                    id: Some("team".into()),
                    name: None,
                    url: "https://team.example.com//".into(),
                },
                SettingsRepository { id: None, name: None, url: "https://x".into() },
            ],
        },
    });
    settings.active_profiles.active_profile.push("p".into());
    let system = RepositorySystem::from_settings_in(&settings, None).unwrap();
    assert_eq!(system.local().root, "/r");
    assert_eq!(system.remotes()[0].credentials(), Some(("u", "p")));
    assert_eq!(system.remotes()[0].url, "https://team.example.com");
    assert_eq!(system.remotes()[1].id, "unnamed");
    settings.local_repository = Some(" ".into());
    assert!(RepositorySystem::from_settings_in(&settings, None).is_none());
    let at_home = RepositorySystem::from_settings_in(&settings, Some("/home/u")).unwrap();
    assert_eq!(at_home.local().root, "/home/u/.m2/repository");
}

#[test]
fn defaults_need_a_home_directory() {
    let local = LocalRepository::default_location_in(Some("/home/u")).unwrap();
    assert_eq!(local.root, "/home/u/.m2/repository");
    assert!(LocalRepository::default_location_in(None).is_none());
    assert!(RepositorySystem::with_defaults_in(None).is_none());
}

#[test]
fn defaults_lie_in_the_home_directory() {
    let system = RepositorySystem::with_defaults_in(Some("/home/u")).unwrap();
    assert_eq!(system.local().root, "/home/u/.m2/repository");
    assert_eq!(
        system.local().artifact_dir("org.example", "lib"),
        "/home/u/.m2/repository/org/example/lib"
    );
}

#[test]
fn adding_twice_adds_once() {
    let mut system = RepositorySystem::with_defaults_in(Some("/home/u")).unwrap();
    assert!(system.add_remote_if_absent(RemoteRepository::new("x", "https://x.example.com/")));
    assert!(!system.add_remote_if_absent(RemoteRepository::new("x", "https://x.example.com")));
    assert!(!system.add_remote_if_absent(RemoteRepository::new("y", "https://x.example.com/")));
    assert_eq!(system.remotes().len(), 2);
}

#[test]
fn paths_are_joined_like_directories() {
    assert_eq!(join_path("/a", "b"), "/a/b");
    assert_eq!(join_path("/a/", "b"), "/a/b");
    assert_eq!(join_path("", "b"), "b");
    assert_eq!(join_path("/a", "/b"), "/b");
}

#[test]
fn central_has_the_credentials_of_its_server() {
    let mut settings = Settings::default();
    settings.servers.server.push(server("central", "u", "p"));
    let system = RepositorySystem::from_settings_in(&settings, Some("/home/u")).unwrap();
    assert_eq!(system.remotes().len(), 1);
    assert_eq!(system.remotes()[0].id, "central");
    assert_eq!(system.remotes()[0].credentials(), Some(("u", "p")));
}
