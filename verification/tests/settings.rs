//! Tests of settings.
use mvn_core::settings::{
    mirror_of_matches, Mirror, Profile, Proxy, Server, Settings, SettingsRepository,
    SettingsRepositoryList,
};

fn repository(id: &str, url: &str) -> SettingsRepository {
    SettingsRepository { id: Some(id.into()), name: None, url: url.into() }
}

fn profile(id: &str, repository: Vec<SettingsRepository>) -> Profile {
    Profile { id: Some(id.into()), repositories: SettingsRepositoryList { repository } }
}

fn proxy(id: &str, active: bool, protocol: &str, host: &str, port: u16) -> Proxy {
    Proxy {
        id: Some(id.into()),
        active,
        protocol: protocol.into(),
        host: host.into(),
        port,
        username: None,
        password: None,
        non_proxy_hosts: None,
    }
}

fn mirror(id: &str, mirror_of: &str, url: &str) -> Mirror {
    Mirror { id: Some(id.into()), name: None, url: url.into(), mirror_of: mirror_of.into() }
}

#[test]
fn mirror_wildcard_matches_all() {
    assert!(mirror_of_matches("*", "central"));
    assert!(mirror_of_matches("*", "my-repo"));
}

#[test]
fn mirror_exact_match() {
    assert!(mirror_of_matches("central", "central"));
    assert!(!mirror_of_matches("central", "my-repo"));
}

#[test]
fn mirror_comma_separated() {
    assert!(mirror_of_matches("central,my-repo", "central"));
    assert!(mirror_of_matches("central,my-repo", "my-repo"));
    assert!(!mirror_of_matches("central,my-repo", "other"));
}

#[test]
fn mirror_wildcard_with_exclusion() {
    assert!(mirror_of_matches("*,!my-repo", "central"));
    assert!(!mirror_of_matches("*,!my-repo", "my-repo"));
}

#[test]
fn mirror_external_wildcard() {
    assert!(mirror_of_matches("external:*", "central"));
    assert!(mirror_of_matches("external:*", "my-repo"));
}

#[test]
fn mirror_external_with_exclusion() {
    assert!(mirror_of_matches("external:*,!central", "my-repo"));
    assert!(!mirror_of_matches("external:*,!central", "central"));
}

#[test]
fn mirror_no_match_empty_pattern_part() {
    assert!(!mirror_of_matches("", "central"));
}

#[test]
fn parse_minimal_settings() {
    let settings = Settings::default();
    assert!(settings.local_repository.is_none());
    assert!(settings.mirrors.mirror.is_empty());
    assert!(settings.servers.server.is_empty());
    assert!(settings.proxies.proxy.is_empty());
}

#[test]
fn parse_local_repository() {
    let mut settings = Settings::default();
    settings.local_repository = Some("/custom/repo".into());
    assert_eq!(
        settings.local_repository.as_deref(),
        Some("/custom/repo")
    );
    assert_eq!(
        settings.local_repository_path(),
        Some("/custom/repo".to_string())
    );
}

#[test]
fn parse_profiles_and_active() {
    let mut settings = Settings::default();
    settings.profiles.profile.push(profile(
        "nexus",
        vec![
            repository("nexus-releases", "https://nexus.example.com/releases"),
            repository("nexus-snapshots", "https://nexus.example.com/snapshots"),
        ],
    ));
    settings.profiles.profile.push(profile(
        "inactive",
        vec![repository("inactive-repo", "https://inactive.example.com")],
    ));
    settings.active_profiles.active_profile.push("nexus".into());

    assert_eq!(settings.profiles.profile.len(), 2);
    assert_eq!(settings.active_profiles.active_profile, vec!["nexus"]);

    let repos = settings.active_repositories();
    assert_eq!(repos.len(), 2);
    assert_eq!(repos[0].id.as_deref(), Some("nexus-releases"));
    assert_eq!(repos[1].id.as_deref(), Some("nexus-snapshots"));
}

#[test]
fn parse_full_settings() {
    let mut settings = Settings::default();
    settings.local_repository = Some("/opt/maven/repo".into());
    settings.mirrors.mirror.push(mirror("nexus", "*", "https://nexus.corp.com/maven"));
    settings.servers.server.push(Server {
        id: "nexus".into(),
        username: Some("deploy".into()),
        password: Some("deploy123".into()),
    });
    settings.proxies.proxy.push(proxy("corp-proxy", true, "https", "proxy.corp.com", 8080));
    settings.profiles.profile.push(profile(
        "corp",
        vec![repository("corp-releases", "https://nexus.corp.com/releases")],
    ));
    settings.active_profiles.active_profile.push("corp".into());

    assert_eq!(
        settings.local_repository.as_deref(),
        Some("/opt/maven/repo")
    );
    assert_eq!(settings.mirrors.mirror.len(), 1);
    assert_eq!(settings.mirrors.mirror[0].mirror_of, "*");
    assert_eq!(settings.servers.server.len(), 1);
    assert_eq!(settings.servers.server[0].username.as_deref(), Some("deploy"));
    assert!(settings.active_proxy().is_some());
    assert_eq!(settings.active_proxy().unwrap().port, 8080);

    let server = settings.find_server("nexus");
    assert!(server.is_some());
    assert_eq!(server.unwrap().username.as_deref(), Some("deploy"));
    assert!(settings.find_server("nonexistent").is_none());

    let mirror = settings.find_mirror("central");
    assert!(mirror.is_some());
    assert_eq!(mirror.unwrap().url, "https://nexus.corp.com/maven");
}

#[test]
fn proxy_url_format() {
    let proxy = Proxy {
        id: Some("test".into()),
        active: true,
        protocol: "https".into(),
        host: "proxy.example.com".into(),
        port: 3128,
        username: None,
        password: None,
        non_proxy_hosts: None,
    };
    assert_eq!(proxy.url(), "https://proxy.example.com:3128");
}

#[test]
fn proxy_non_proxy_hosts() {
    let proxy = Proxy {
        id: None,
        active: true,
        protocol: "http".into(),
        host: "proxy.example.com".into(),
        port: 8080,
        username: None,
        password: None,
        non_proxy_hosts: Some("localhost|*.internal.com|10.0.0.1".into()),
    };
    assert!(proxy.is_non_proxy_host("localhost"));
    assert!(proxy.is_non_proxy_host("foo.internal.com"));
    assert!(proxy.is_non_proxy_host("10.0.0.1"));
    assert!(!proxy.is_non_proxy_host("external.com"));
}

#[test]
fn proxy_no_non_proxy_hosts() {
    let proxy = Proxy {
        id: None,
        active: true,
        protocol: "http".into(),
        host: "proxy.example.com".into(),
        port: 8080,
        username: None,
        password: None,
        non_proxy_hosts: None,
    };
    assert!(!proxy.is_non_proxy_host("anything"));
}

#[test]
fn active_proxy_none() {
    let settings = Settings::default();
    assert!(settings.active_proxy().is_none());
}

#[test]
fn active_proxy_selects_first_active() {
    let mut settings = Settings::default();
    settings.proxies.proxy.push(proxy("inactive", false, "http", "proxy1.example.com", 8080));
    settings.proxies.proxy.push(proxy("active", true, "http", "proxy2.example.com", 8080));
    let proxy = settings.active_proxy().unwrap();
    assert_eq!(proxy.host, "proxy2.example.com");
}

#[test]
fn local_repository_path_empty_string() {
    let mut settings = Settings::default();
    settings.local_repository = Some("  ".into());
    assert!(settings.local_repository_path().is_none());
}

#[test]
fn active_repositories_no_profiles() {
    let settings = Settings::default();
    assert!(settings.active_repositories().is_empty());
}

#[test]
fn parse_settings_multiple_mirrors() {
    let mut settings = Settings::default();
    settings.mirrors.mirror.push(mirror("m1", "central", "https://mirror1.example.com"));
    settings.mirrors.mirror.push(mirror("m2", "*", "https://mirror2.example.com"));
    assert_eq!(settings.mirrors.mirror.len(), 2);
    // find_mirror should return first match
    let m = settings.find_mirror("central").unwrap();
    assert_eq!(m.id.as_deref(), Some("m1"));
    // "other" matches the wildcard (m2)
    let m = settings.find_mirror("other").unwrap();
    assert_eq!(m.id.as_deref(), Some("m2"));
}

#[test]
fn exclusion_wins_over_every_other_part() {
    assert!(!mirror_of_matches("central,*,external:*, !central ", "central"));
    assert!(mirror_of_matches(" central , other", "other"));
    assert!(!mirror_of_matches("external:central", "central"));
    assert!(!mirror_of_matches("!central", "other"));
}

#[test]
fn hosts_match_by_their_ending() {
    let mut p = proxy("p", true, "http", "h", 1);
    p.non_proxy_hosts = Some(" *.corp.com | exact ".into());
    assert!(p.is_non_proxy_host("a.corp.com"));
    assert!(p.is_non_proxy_host("exact"));
    assert!(!p.is_non_proxy_host("corp.com"));
    assert!(!p.is_non_proxy_host("exact.corp"));
    p.non_proxy_hosts = Some("*".into());
    assert!(p.is_non_proxy_host("anything"));
}

#[test]
fn settings_are_cloned_whole() {
    let mut settings = Settings::default();
    settings.local_repository = Some("/r".into());
    settings.mirrors.mirror.push(mirror("m", "*", "u"));
    settings.servers.server.push(Server { id: "s".into(), username: None, password: None });
    settings.proxies.proxy.push(proxy("p", true, "http", "h", 7));
    settings.profiles.profile.push(profile("q", vec![repository("r", "v")]));
    settings.active_profiles.active_profile.push("q".into());
    assert_eq!(format!("{:?}", settings.clone()), format!("{:?}", settings));
    assert_eq!(settings.active_profile_ids(), &vec!["q".to_string()]);
}
