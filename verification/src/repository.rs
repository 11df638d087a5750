//! Remote repositories, the local repository, and how settings configure them.
use crate::coord;
use crate::coord::ArtifactCoord;
use crate::coord::CoordModel;
use crate::settings;
use crate::settings::Mirror;
use crate::settings::MirrorModel;
use crate::settings::Server;
use crate::settings::ServerModel;
use crate::settings::Settings;
use crate::settings::SettingsModel;
use crate::settings::SettingsRepository;
use crate::settings::SettingsRepositoryModel;
use crate::text;
use vstd::prelude::*;

verus! {

// ---------------------------------------------------------------------------
// RemoteRepository
// ---------------------------------------------------------------------------

/// A repository that is reached by URL, with the credentials for it.
#[derive(Debug)]
pub struct RemoteRepository {
    pub id: String,
    pub url: String,
    pub username: Option<String>,
    pub password: Option<String>,
}

/// A remote repository over texts.
#[verifier::ext_equal]
pub struct RemoteModel {
    pub id: Seq<char>,
    pub url: Seq<char>,
    pub username: Option<Seq<char>>,
    pub password: Option<Seq<char>>,
}

impl View for RemoteRepository {
    type V = RemoteModel;

    open spec fn view(&self) -> RemoteModel {
        RemoteModel {
            id: self.id@,
            url: self.url@,
            username: text::opt_view(self.username),
            password: text::opt_view(self.password),
        }
    }
}

/// `s` without the slashes it ends with.
pub open spec fn without_slashes(s: Seq<char>) -> Seq<char>
    decreases s.len(),
{
    if s.len() > 0 && s.last() == '/' {
        without_slashes(s.drop_last())
    } else {
        s
    }
}

/// A remote repository without credentials.
pub open spec fn open_remote(id: Seq<char>, url: Seq<char>) -> RemoteModel {
    RemoteModel { id, url: without_slashes(url), username: None, password: None }
}

/// The URL of an artifact in a repository.
pub open spec fn artifact_url_of(r: RemoteModel, c: CoordModel) -> Seq<char> {
    r.url + "/"@ + coord::artifact_path_of(c)
}

/// The URL of a POM in a repository.
pub open spec fn pom_url_of(r: RemoteModel, c: CoordModel) -> Seq<char> {
    r.url + "/"@ + coord::pom_path_of(c)
}

/// The URL of the metadata of an artifact in a repository.
pub open spec fn metadata_url_of(r: RemoteModel, g: Seq<char>, a: Seq<char>) -> Seq<char> {
    r.url + "/"@ + text::replace_of(g, '.', '/') + "/"@ + a + "/maven-metadata.xml"@
}

/// The URL of the metadata of one version of an artifact in a repository.
pub open spec fn version_metadata_url_of(r: RemoteModel, c: CoordModel) -> Seq<char> {
    r.url + "/"@ + coord::version_dir(c) + "/maven-metadata.xml"@
}

/// `s` without the slashes it ends with.
pub fn trim_slashes(s: &str) -> (r: String)
    ensures
        r@ == without_slashes(s@),
{
    let chars = text::chars_of(s);
    let mut n: usize = chars.len();
    assert(chars@.take(chars@.len() as int) =~= chars@);
    while n > 0 && chars[n - 1] == '/'
        invariant
            n <= chars@.len(),
            without_slashes(chars@) == without_slashes(chars@.take(n as int)),
        decreases n,
    {
        assert(chars@.take(n as int).drop_last() =~= chars@.take(n - 1));
        n -= 1;
    }
    assert(chars@.subrange(0, n as int) =~= chars@.take(n as int));
    text::string_of(&chars, 0, n)
}

impl RemoteRepository {
    /// A repository without credentials.
    pub fn new(id: &str, url: &str) -> (r: RemoteRepository)
        ensures
            r@ == open_remote(id@, url@),
    {
        RemoteRepository {
            id: id.to_owned(),
            url: trim_slashes(url),
            username: None,
            password: None,
        }
    }

    /// A repository with basic-auth credentials.
    pub fn with_credentials(id: &str, url: &str, username: &str, password: &str) -> (r:
        RemoteRepository)
        ensures
            r@ == (RemoteModel {
                username: Some(username@),
                password: Some(password@),
                ..open_remote(id@, url@)
            }),
    {
        RemoteRepository {
            id: id.to_owned(),
            url: trim_slashes(url),
            username: Some(username.to_owned()),
            password: Some(password.to_owned()),
        }
    }

    /// Maven Central.
    pub fn maven_central() -> (r: RemoteRepository)
        ensures
            r@ == open_remote("central"@, "https://repo.maven.apache.org/maven2"@),
    {
        RemoteRepository::new("central", "https://repo.maven.apache.org/maven2")
    }

    /// The user name and password, where both are configured.
    pub fn credentials(&self) -> (r: Option<(&str, &str)>)
        ensures
            match r {
                Some((u, p)) => self@.username == Some(u@) && self@.password == Some(p@),
                None => self@.username is None || self@.password is None,
            },
    {
        match (&self.username, &self.password) {
            (Some(u), Some(p)) => Some((u.as_str(), p.as_str())),
            _ => None,
        }
    }

    /// The URL of an artifact.
    pub fn artifact_url(&self, coord: &ArtifactCoord) -> (r: String)
        ensures
            r@ == artifact_url_of(self@, coord@),
    {
        let mut out = self.url.clone();
        out.append("/");
        out.append(coord.repository_path().as_str());
        out
    }

    /// The URL of the POM of an artifact.
    pub fn pom_url(&self, coord: &ArtifactCoord) -> (r: String)
        ensures
            r@ == pom_url_of(self@, coord@),
    {
        let mut out = self.url.clone();
        out.append("/");
        out.append(coord.pom_path().as_str());
        out
    }

    /// The URL of the metadata of an artifact.
    pub fn metadata_url(&self, group_id: &str, artifact_id: &str) -> (r: String)
        ensures
            r@ == metadata_url_of(self@, group_id@, artifact_id@),
    {
        let mut out = self.url.clone();
        out.append("/");
        out.append(text::replace_char(group_id, '.', '/').as_str());
        out.append("/");
        out.append(artifact_id);
        out.append("/maven-metadata.xml");
        out
    }

    /// The URL of version-level metadata, which tells the time stamp of a snapshot.
    pub fn version_metadata_url(&self, coord: &ArtifactCoord) -> (r: String)
        ensures
            r@ == version_metadata_url_of(self@, coord@),
    {
        let mut out = self.url.clone();
        let mut dir = text::replace_char(coord.group_id.as_str(), '.', '/');
        dir.append("/");
        dir.append(coord.artifact_id.as_str());
        dir.append("/");
        dir.append(coord.version.as_str());
        out.append("/");
        out.append(dir.as_str());
        out.append("/maven-metadata.xml");
        out
    }
}

impl Clone for RemoteRepository {
    fn clone(&self) -> (r: Self)
        ensures
            r@ == self@,
    {
        RemoteRepository {
            id: self.id.clone(),
            url: self.url.clone(),
            username: text::clone_opt(&self.username),
            password: text::clone_opt(&self.password),
        }
    }
}

// ---------------------------------------------------------------------------
// LocalRepository
// ---------------------------------------------------------------------------

/// The repository on disk, by the path of its root.
#[derive(Debug)]
pub struct LocalRepository {
    pub root: String,
}

impl View for LocalRepository {
    type V = Seq<char>;

    open spec fn view(&self) -> Seq<char> {
        self.root@
    }
}

/// A path below a directory. An absolute path stands for itself.
pub open spec fn joined(dir: Seq<char>, path: Seq<char>) -> Seq<char> {
    if path.len() > 0 && path[0] == '/' {
        path
    } else if dir.len() == 0 || dir.last() == '/' {
        dir + path
    } else {
        dir + "/"@ + path
    }
}

/// The local repository of a home directory.
pub open spec fn repository_in(home: Seq<char>) -> Seq<char> {
    joined(joined(home, ".m2"@), "repository"@)
}

/// A path below a directory.
pub fn join_path(dir: &str, path: &str) -> (r: String)
    ensures
        r@ == joined(dir@, path@),
{
    let d = text::chars_of(dir);
    let p = text::chars_of(path);
    if p.len() > 0 && p[0] == '/' {
        return path.to_owned();
    }
    let mut out = dir.to_owned();
    if d.len() > 0 && d[d.len() - 1] != '/' {
        out.append("/");
    }
    out.append(path);
    out
}

/// The home directory of the user, by `dirs::home_dir`, with what is not Unicode in its path
/// replaced. Nothing is said of the result, which the environment decides.
#[verifier::external_body]
fn home_directory() -> (r: Option<String>) {
    match dirs::home_dir() {
        Some(path) => Some(path.to_string_lossy().into_owned()),
        None => None,
    }
}

impl LocalRepository {
    /// The repository with a root.
    pub fn new(root: &str) -> (r: LocalRepository)
        ensures
            r@ == root@,
    {
        LocalRepository { root: root.to_owned() }
    }

    /// The repository in a home directory.
    pub fn in_home(home: &str) -> (r: LocalRepository)
        ensures
            r@ == repository_in(home@),
    {
        let m2 = join_path(home, ".m2");
        LocalRepository { root: join_path(m2.as_str(), "repository") }
    }

    /// The repository in a home directory; nothing where none is given.
    pub fn default_location_in(home: Option<&str>) -> (r: Option<LocalRepository>)
        ensures
            match home {
                Some(dir) => r matches Some(local) && local@ == repository_in(dir@),
                None => r is None,
            },
    {
        match home {
            Some(dir) => Some(LocalRepository::in_home(dir)),
            None => None,
        }
    }

    /// The repository in the user's home directory, where there is one.
    pub fn default_location() -> (r: Option<LocalRepository>)
        ensures
            r matches Some(local) ==> exists|home: Seq<char>| local@ == #[trigger]
                repository_in(home),
    {
        let home = home_directory();
        let dir = match &home {
            Some(h) => Some(h.as_str()),
            None => None,
        };
        LocalRepository::default_location_in(dir)
    }

    /// The path of an artifact.
    pub fn artifact_path(&self, coord: &ArtifactCoord) -> (r: String)
        ensures
            r@ == joined(self@, coord::artifact_path_of(coord@)),
    {
        join_path(self.root.as_str(), coord.repository_path().as_str())
    }

    /// The path of the POM of an artifact.
    pub fn pom_path(&self, coord: &ArtifactCoord) -> (r: String)
        ensures
            r@ == joined(self@, coord::pom_path_of(coord@)),
    {
        join_path(self.root.as_str(), coord.pom_path().as_str())
    }

    /// The directory that holds the versions of an artifact.
    pub fn artifact_dir(&self, group_id: &str, artifact_id: &str) -> (r: String)
        ensures
            r@ == joined(joined(self@, text::replace_of(group_id@, '.', '/')), artifact_id@),
    {
        let group = text::replace_char(group_id, '.', '/');
        let dir = join_path(self.root.as_str(), group.as_str());
        join_path(dir.as_str(), artifact_id)
    }
}

impl Clone for LocalRepository {
    fn clone(&self) -> (r: Self)
        ensures
            r@ == self@,
    {
        LocalRepository { root: self.root.clone() }
    }
}

// ---------------------------------------------------------------------------
// Mirrors
// ---------------------------------------------------------------------------

/// A repository with the credentials of the server of its ID, where there is one.
pub open spec fn with_server(r: RemoteModel, servers: Seq<ServerModel>) -> RemoteModel {
    match settings::server_from(servers, r.id, 0) {
        Some(s) => RemoteModel { username: s.username, password: s.password, ..r },
        None => r,
    }
}

/// The repository that stands in for a repository: the first mirror that matches it, under the
/// mirror's ID, or the repository itself.
pub open spec fn mirrored(
    r: RemoteModel,
    mirrors: Seq<MirrorModel>,
    servers: Seq<ServerModel>,
) -> RemoteModel {
    match settings::mirror_from(mirrors, r.id, 0) {
        Some(m) => {
            let id = match m.id {
                Some(id) => id,
                None => r.id,
            };
            with_server(open_remote(id, m.url), servers)
        },
        None => r,
    }
}

/// The repositories that stand in for repositories.
pub open spec fn all_mirrored(
    rs: Seq<RemoteModel>,
    mirrors: Seq<MirrorModel>,
    servers: Seq<ServerModel>,
) -> Seq<RemoteModel> {
    Seq::new(rs.len(), |i: int| mirrored(rs[i], mirrors, servers))
}

fn add_credentials(remote: RemoteRepository, servers: &Vec<Server>) -> (r: RemoteRepository)
    ensures
        r@ == with_server(remote@, text::views(servers@)),
{
    let mut remote = remote;
    if let Some(server) = settings::server_by_id(servers, remote.id.as_str()) {
        remote.username = text::clone_opt(&server.username);
        remote.password = text::clone_opt(&server.password);
    }
    remote
}

/// Replaces repositories by mirrors where `mirrorOf` patterns match.
///
/// For each remote repository, if a mirror pattern matches its ID, the mirror takes its place,
/// with the mirror's URL and the credentials of the mirror's server.
pub fn apply_mirrors(
    repos: &Vec<RemoteRepository>,
    mirrors: &Vec<Mirror>,
    servers: &Vec<Server>,
) -> (r: Vec<RemoteRepository>)
    ensures
        text::views(r@) == all_mirrored(
            text::views(repos@),
            text::views(mirrors@),
            text::views(servers@),
        ),
{
    let mut out: Vec<RemoteRepository> = Vec::new();
    for i in 0..repos.len()
        invariant
            out@.len() == i,
            forall|j: int|
                0 <= j < i ==> (#[trigger] out@[j])@ == mirrored(
                    repos@[j]@,
                    text::views(mirrors@),
                    text::views(servers@),
                ),
    {
        let repo = &repos[i];
        let next = match settings::mirror_for(mirrors, repo.id.as_str()) {
            Some(mirror) => {
                let id = match &mirror.id {
                    Some(id) => id.as_str(),
                    None => repo.id.as_str(),
                };
                add_credentials(RemoteRepository::new(id, mirror.url.as_str()), servers)
            },
            None => repo.clone(),
        };
        out.push(next);
    }
    assert(text::views(out@) =~= all_mirrored(
        text::views(repos@),
        text::views(mirrors@),
        text::views(servers@),
    ));
    out
}

// ---------------------------------------------------------------------------
// RepositorySystem
// ---------------------------------------------------------------------------

/// The local repository and the remote ones that artifacts come from.
#[derive(Debug)]
pub struct RepositorySystem {
    pub local: LocalRepository,
    remotes: Vec<RemoteRepository>,
}

/// A repository system over texts.
#[verifier::ext_equal]
pub struct SystemModel {
    pub local: Seq<char>,
    pub remotes: Seq<RemoteModel>,
}

impl View for RepositorySystem {
    type V = SystemModel;

    closed spec fn view(&self) -> SystemModel {
        SystemModel { local: self.local@, remotes: text::views(self.remotes@) }
    }
}

/// Maven Central alone.
pub open spec fn central_only() -> Seq<RemoteModel> {
    seq![open_remote("central"@, "https://repo.maven.apache.org/maven2"@)]
}

/// A repository of a profile, with the credentials for its ID.
pub open spec fn profile_remote(
    r: SettingsRepositoryModel,
    servers: Seq<ServerModel>,
) -> RemoteModel {
    let id = match r.id {
        Some(id) => id,
        None => "unnamed"@,
    };
    with_server(open_remote(id, r.url), servers)
}

/// The repositories of the active profiles; Maven Central where there is none. Each has the
/// credentials for its ID.
pub open spec fn profile_remotes(s: SettingsModel) -> Seq<RemoteModel> {
    let repos = settings::repositories_from(s.profiles, s.active_profiles, 0);
    if repos.len() == 0 {
        seq![with_server(central_only()[0], s.servers)]
    } else {
        Seq::new(repos.len(), |i: int| profile_remote(repos[i], s.servers))
    }
}

/// The repositories that the settings configure.
pub open spec fn configured_remotes(s: SettingsModel) -> Seq<RemoteModel> {
    all_mirrored(profile_remotes(s), s.mirrors, s.servers)
}

/// Whether repositories are taken to be the same: by ID, or by URL regardless of slashes at its
/// end.
pub open spec fn same_remote(a: RemoteModel, b: RemoteModel) -> bool {
    a.id == b.id || without_slashes(a.url) == without_slashes(b.url)
}

/// Whether a repository is among others.
pub open spec fn has_remote(rs: Seq<RemoteModel>, r: RemoteModel) -> bool {
    exists|i: int| 0 <= i < rs.len() && same_remote(#[trigger] rs[i], r)
}

/// The repositories after one was added unless it was there.
pub open spec fn with_remote(rs: Seq<RemoteModel>, r: RemoteModel) -> Seq<RemoteModel> {
    if has_remote(rs, r) {
        rs
    } else {
        rs.push(r)
    }
}

impl RepositorySystem {
    /// A system of a local repository and remote ones.
    pub fn new(local: LocalRepository, remotes: Vec<RemoteRepository>) -> (r: RepositorySystem)
        ensures
            r@ == (SystemModel { local: local@, remotes: text::views(remotes@) }),
    {
        RepositorySystem { local, remotes }
    }

    /// The repository in a home directory, with Maven Central; nothing where none is given.
    pub fn with_defaults_in(home: Option<&str>) -> (r: Option<RepositorySystem>)
        ensures
            match home {
                Some(dir) => r matches Some(system) && system@ == (SystemModel {
                    local: repository_in(dir@),
                    remotes: central_only(),
                }),
                None => r is None,
            },
    {
        match LocalRepository::default_location_in(home) {
            Some(local) => {
                let mut remotes: Vec<RemoteRepository> = Vec::new();
                remotes.push(RemoteRepository::maven_central());
                assert(text::views(remotes@) =~= central_only());
                Some(RepositorySystem::new(local, remotes))
            },
            None => None,
        }
    }

    /// The repository in the user's home directory, where there is one, with Maven Central.
    pub fn with_defaults() -> (r: Option<RepositorySystem>)
        ensures
            r matches Some(system) ==> system@.remotes == central_only() && exists|
                home: Seq<char>,
            | system@.local == #[trigger] repository_in(home),
    {
        let home = home_directory();
        let dir = match &home {
            Some(h) => Some(h.as_str()),
            None => None,
        };
        RepositorySystem::with_defaults_in(dir)
    }

    /// The system that settings configure, with a home directory for the local repository where
    /// the settings name none; nothing where neither is given.
    ///
    /// - The repositories are those of the active profiles.
    /// - Mirrors take the place of the repositories they match.
    /// - The credentials are those of the servers with the IDs that result.
    pub fn from_settings_in(settings: &Settings, home: Option<&str>) -> (r: Option<
        RepositorySystem,
    >)
        ensures
            match (settings::local_path_of(settings@), home) {
                (Some(path), _) => r matches Some(system) && system@ == (SystemModel {
                    local: path,
                    remotes: configured_remotes(settings@),
                }),
                (None, Some(dir)) => r matches Some(system) && system@ == (SystemModel {
                    local: repository_in(dir@),
                    remotes: configured_remotes(settings@),
                }),
                (None, None) => r is None,
            },
    {
        let local = match settings.local_repository_path() {
            Some(path) => LocalRepository::new(path.as_str()),
            None => match home {
                Some(dir) => LocalRepository::in_home(dir),
                None => {
                    return None;
                },
            },
        };
        let repos = settings.active_repositories();
        let ghost rs = settings::repositories_from(
            settings@.profiles,
            settings@.active_profiles,
            0,
        );
        let mut remotes: Vec<RemoteRepository> = Vec::new();
        for i in 0..repos.len()
            invariant
                rs == text::views(repos@),
                remotes@.len() == i,
                forall|j: int|
                    0 <= j < i ==> (#[trigger] remotes@[j])@ == profile_remote(
                        rs[j],
                        settings@.servers,
                    ),
        {
            let repo: &SettingsRepository = repos[i];
            assert(rs[i as int] == repo@);
            let id = match &repo.id {
                Some(id) => id.as_str(),
                None => "unnamed",
            };
            remotes.push(
                add_credentials(
                    RemoteRepository::new(id, repo.url.as_str()),
                    &settings.servers.server,
                ),
            );
        }
        if remotes.len() == 0 {
            remotes.push(
                add_credentials(RemoteRepository::maven_central(), &settings.servers.server),
            );
        }
        assert(text::views(remotes@) =~= profile_remotes(settings@));
        let remotes = apply_mirrors(
            &remotes,
            &settings.mirrors.mirror,
            &settings.servers.server,
        );
        Some(RepositorySystem::new(local, remotes))
    }

    /// The system that settings configure, in the user's home directory where the settings name
    /// no local repository; nothing where there is no home directory either.
    pub fn from_settings(settings: &Settings) -> (r: Option<RepositorySystem>)
        ensures
            r matches Some(system) ==> system@.remotes == configured_remotes(settings@),
            settings::local_path_of(settings@) matches Some(path) ==> (r matches Some(system)
                && system@.local == path),
            settings::local_path_of(settings@) is None ==> (r matches Some(system) ==> exists|
                home: Seq<char>,
            | system@.local == #[trigger] repository_in(home)),
    {
        let home = home_directory();
        let dir = match &home {
            Some(h) => Some(h.as_str()),
            None => None,
        };
        RepositorySystem::from_settings_in(settings, dir)
    }

    /// The local repository.
    pub fn local(&self) -> (r: &LocalRepository)
        ensures
            r@ == self@.local,
    {
        &self.local
    }

    /// The remote repositories.
    pub fn remotes(&self) -> (r: Vec<RemoteRepository>)
        ensures
            text::views(r@) == self@.remotes,
    {
        let mut out: Vec<RemoteRepository> = Vec::new();
        for i in 0..self.remotes.len()
            invariant
                out@.len() == i,
                forall|j: int| 0 <= j < i ==> (#[trigger] out@[j])@ == self.remotes@[j]@,
        {
            out.push(self.remotes[i].clone());
        }
        assert(text::views(out@) =~= self@.remotes);
        out
    }

    /// Adds a remote repository if no existing remote has the same ID or URL.
    /// Returns `true` if the repository was added.
    pub fn add_remote_if_absent(&mut self, repo: RemoteRepository) -> (r: bool)
        ensures
            r == !has_remote(old(self)@.remotes, repo@),
            final(self)@ == (SystemModel {
                remotes: with_remote(old(self)@.remotes, repo@),
                ..old(self)@
            }),
    {
        let url = trim_slashes(repo.url.as_str());
        let ghost before = self@;
        for i in 0..self.remotes.len()
            invariant
                before == self@,
                before == old(self)@,
                url@ == without_slashes(repo@.url),
                forall|j: int| 0 <= j < i ==> !same_remote(#[trigger] before.remotes[j], repo@),
        {
            let known = &self.remotes[i];
            assert(before.remotes[i as int] == known@);
            if known.id == repo.id || trim_slashes(known.url.as_str()) == url {
                assert(same_remote(before.remotes[i as int], repo@));
                return false;
            }
        }
        let ghost rm = repo@;
        self.remotes.push(repo);
        assert(self@.remotes =~= before.remotes.push(rm));
        true
    }
}

impl Clone for RepositorySystem {
    fn clone(&self) -> (r: Self)
        ensures
            r@ == self@,
    {
        RepositorySystem::new(self.local.clone(), self.remotes())
    }
}

} // verus!
