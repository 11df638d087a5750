//! User settings: mirrors, servers, proxies and profiles.
use crate::text;
use vstd::prelude::*;

verus! {

// ---------------------------------------------------------------------------
// Data
// ---------------------------------------------------------------------------

/// The content of a `settings.xml`.
#[derive(Debug)]
pub struct Settings {
    pub local_repository: Option<String>,
    pub mirrors: MirrorList,
    pub servers: ServerList,
    pub proxies: ProxyList,
    pub profiles: ProfileList,
    pub active_profiles: ActiveProfileList,
}

/// The mirrors of the settings.
#[derive(Debug)]
pub struct MirrorList {
    pub mirror: Vec<Mirror>,
}

/// The servers of the settings.
#[derive(Debug)]
pub struct ServerList {
    pub server: Vec<Server>,
}

/// The proxies of the settings.
#[derive(Debug)]
pub struct ProxyList {
    pub proxy: Vec<Proxy>,
}

/// The profiles of the settings.
#[derive(Debug)]
pub struct ProfileList {
    pub profile: Vec<Profile>,
}

/// The names of the active profiles.
#[derive(Debug)]
pub struct ActiveProfileList {
    pub active_profile: Vec<String>,
}

/// The repositories of a profile.
#[derive(Debug)]
pub struct SettingsRepositoryList {
    pub repository: Vec<SettingsRepository>,
}

/// A repository that stands in for others.
#[derive(Debug)]
pub struct Mirror {
    pub id: Option<String>,
    pub name: Option<String>,
    pub url: String,
    pub mirror_of: String,
}

/// The credentials for a repository.
#[derive(Debug)]
pub struct Server {
    pub id: String,
    pub username: Option<String>,
    pub password: Option<String>,
}

/// A network proxy.
#[derive(Debug)]
pub struct Proxy {
    pub id: Option<String>,
    pub active: bool,
    pub protocol: String,
    pub host: String,
    pub port: u16,
    pub username: Option<String>,
    pub password: Option<String>,
    pub non_proxy_hosts: Option<String>,
}

/// A named group of repositories.
#[derive(Debug)]
pub struct Profile {
    pub id: Option<String>,
    pub repositories: SettingsRepositoryList,
}

/// A repository of a profile.
#[derive(Debug)]
pub struct SettingsRepository {
    pub id: Option<String>,
    pub name: Option<String>,
    pub url: String,
}

// ---------------------------------------------------------------------------
// Models
// ---------------------------------------------------------------------------

/// A mirror over texts.
#[verifier::ext_equal]
pub struct MirrorModel {
    pub id: Option<Seq<char>>,
    pub name: Option<Seq<char>>,
    pub url: Seq<char>,
    pub mirror_of: Seq<char>,
}

/// Credentials over texts.
#[verifier::ext_equal]
pub struct ServerModel {
    pub id: Seq<char>,
    pub username: Option<Seq<char>>,
    pub password: Option<Seq<char>>,
}

/// A proxy over texts.
#[verifier::ext_equal]
pub struct ProxyModel {
    pub id: Option<Seq<char>>,
    pub active: bool,
    pub protocol: Seq<char>,
    pub host: Seq<char>,
    pub port: u16,
    pub username: Option<Seq<char>>,
    pub password: Option<Seq<char>>,
    pub non_proxy_hosts: Option<Seq<char>>,
}

/// A profile's repository over texts.
#[verifier::ext_equal]
pub struct SettingsRepositoryModel {
    pub id: Option<Seq<char>>,
    pub name: Option<Seq<char>>,
    pub url: Seq<char>,
}

/// A profile over texts.
#[verifier::ext_equal]
pub struct ProfileModel {
    pub id: Option<Seq<char>>,
    pub repositories: Seq<SettingsRepositoryModel>,
}

/// Settings over texts.
#[verifier::ext_equal]
pub struct SettingsModel {
    pub local_repository: Option<Seq<char>>,
    pub mirrors: Seq<MirrorModel>,
    pub servers: Seq<ServerModel>,
    pub proxies: Seq<ProxyModel>,
    pub profiles: Seq<ProfileModel>,
    pub active_profiles: Seq<Seq<char>>,
}

impl View for Mirror {
    type V = MirrorModel;

    open spec fn view(&self) -> MirrorModel {
        MirrorModel {
            id: text::opt_view(self.id),
            name: text::opt_view(self.name),
            url: self.url@,
            mirror_of: self.mirror_of@,
        }
    }
}

impl View for Server {
    type V = ServerModel;

    open spec fn view(&self) -> ServerModel {
        ServerModel {
            id: self.id@,
            username: text::opt_view(self.username),
            password: text::opt_view(self.password),
        }
    }
}

impl View for Proxy {
    type V = ProxyModel;

    open spec fn view(&self) -> ProxyModel {
        ProxyModel {
            id: text::opt_view(self.id),
            active: self.active,
            protocol: self.protocol@,
            host: self.host@,
            port: self.port,
            username: text::opt_view(self.username),
            password: text::opt_view(self.password),
            non_proxy_hosts: text::opt_view(self.non_proxy_hosts),
        }
    }
}

impl View for SettingsRepository {
    type V = SettingsRepositoryModel;

    open spec fn view(&self) -> SettingsRepositoryModel {
        SettingsRepositoryModel {
            id: text::opt_view(self.id),
            name: text::opt_view(self.name),
            url: self.url@,
        }
    }
}

impl View for Profile {
    type V = ProfileModel;

    open spec fn view(&self) -> ProfileModel {
        ProfileModel {
            id: text::opt_view(self.id),
            repositories: text::views(self.repositories.repository@),
        }
    }
}

impl View for Settings {
    type V = SettingsModel;

    open spec fn view(&self) -> SettingsModel {
        SettingsModel {
            local_repository: text::opt_view(self.local_repository),
            mirrors: text::views(self.mirrors.mirror@),
            servers: text::views(self.servers.server@),
            proxies: text::views(self.proxies.proxy@),
            profiles: text::views(self.profiles.profile@),
            active_profiles: text::views(self.active_profiles.active_profile@),
        }
    }
}

impl Clone for Mirror {
    fn clone(&self) -> (r: Self)
        ensures
            r@ == self@,
    {
        Mirror {
            id: text::clone_opt(&self.id),
            name: text::clone_opt(&self.name),
            url: self.url.clone(),
            mirror_of: self.mirror_of.clone(),
        }
    }
}

impl Clone for Server {
    fn clone(&self) -> (r: Self)
        ensures
            r@ == self@,
    {
        Server {
            id: self.id.clone(),
            username: text::clone_opt(&self.username),
            password: text::clone_opt(&self.password),
        }
    }
}

impl Clone for Proxy {
    fn clone(&self) -> (r: Self)
        ensures
            r@ == self@,
    {
        Proxy {
            id: text::clone_opt(&self.id),
            active: self.active,
            protocol: self.protocol.clone(),
            host: self.host.clone(),
            port: self.port,
            username: text::clone_opt(&self.username),
            password: text::clone_opt(&self.password),
            non_proxy_hosts: text::clone_opt(&self.non_proxy_hosts),
        }
    }
}

impl Clone for SettingsRepository {
    fn clone(&self) -> (r: Self)
        ensures
            r@ == self@,
    {
        SettingsRepository {
            id: text::clone_opt(&self.id),
            name: text::clone_opt(&self.name),
            url: self.url.clone(),
        }
    }
}

impl Clone for SettingsRepositoryList {
    fn clone(&self) -> (r: Self)
        ensures
            text::views(r.repository@) == text::views(self.repository@),
    {
        let mut out: Vec<SettingsRepository> = Vec::new();
        for i in 0..self.repository.len()
            invariant
                out@.len() == i,
                forall|j: int| 0 <= j < i ==> (#[trigger] out@[j])@ == self.repository@[j]@,
        {
            out.push(self.repository[i].clone());
        }
        assert(text::views(out@) =~= text::views(self.repository@));
        SettingsRepositoryList { repository: out }
    }
}

impl Default for SettingsRepositoryList {
    fn default() -> (r: Self)
        ensures
            r.repository@.len() == 0,
    {
        SettingsRepositoryList { repository: Vec::new() }
    }
}

impl Clone for Profile {
    fn clone(&self) -> (r: Self)
        ensures
            r@ == self@,
    {
        Profile { id: text::clone_opt(&self.id), repositories: self.repositories.clone() }
    }
}

impl Default for Profile {
    fn default() -> (r: Self)
        ensures
            r@ == (ProfileModel { id: None, repositories: Seq::empty() }),
    {
        let r = Profile { id: None, repositories: SettingsRepositoryList::default() };
        assert(r@.repositories =~= Seq::empty());
        r
    }
}

impl Clone for MirrorList {
    fn clone(&self) -> (r: Self)
        ensures
            text::views(r.mirror@) == text::views(self.mirror@),
    {
        let mut out: Vec<Mirror> = Vec::new();
        for i in 0..self.mirror.len()
            invariant
                out@.len() == i,
                forall|j: int| 0 <= j < i ==> (#[trigger] out@[j])@ == self.mirror@[j]@,
        {
            out.push(self.mirror[i].clone());
        }
        assert(text::views(out@) =~= text::views(self.mirror@));
        MirrorList { mirror: out }
    }
}

impl Default for MirrorList {
    fn default() -> (r: Self)
        ensures
            r.mirror@.len() == 0,
    {
        MirrorList { mirror: Vec::new() }
    }
}

impl Clone for ServerList {
    fn clone(&self) -> (r: Self)
        ensures
            text::views(r.server@) == text::views(self.server@),
    {
        let mut out: Vec<Server> = Vec::new();
        for i in 0..self.server.len()
            invariant
                out@.len() == i,
                forall|j: int| 0 <= j < i ==> (#[trigger] out@[j])@ == self.server@[j]@,
        {
            out.push(self.server[i].clone());
        }
        assert(text::views(out@) =~= text::views(self.server@));
        ServerList { server: out }
    }
}

impl Default for ServerList {
    fn default() -> (r: Self)
        ensures
            r.server@.len() == 0,
    {
        ServerList { server: Vec::new() }
    }
}

impl Clone for ProxyList {
    fn clone(&self) -> (r: Self)
        ensures
            text::views(r.proxy@) == text::views(self.proxy@),
    {
        let mut out: Vec<Proxy> = Vec::new();
        for i in 0..self.proxy.len()
            invariant
                out@.len() == i,
                forall|j: int| 0 <= j < i ==> (#[trigger] out@[j])@ == self.proxy@[j]@,
        {
            out.push(self.proxy[i].clone());
        }
        assert(text::views(out@) =~= text::views(self.proxy@));
        ProxyList { proxy: out }
    }
}

impl Default for ProxyList {
    fn default() -> (r: Self)
        ensures
            r.proxy@.len() == 0,
    {
        ProxyList { proxy: Vec::new() }
    }
}

impl Clone for ProfileList {
    fn clone(&self) -> (r: Self)
        ensures
            text::views(r.profile@) == text::views(self.profile@),
    {
        let mut out: Vec<Profile> = Vec::new();
        for i in 0..self.profile.len()
            invariant
                out@.len() == i,
                forall|j: int| 0 <= j < i ==> (#[trigger] out@[j])@ == self.profile@[j]@,
        {
            out.push(self.profile[i].clone());
        }
        assert(text::views(out@) =~= text::views(self.profile@));
        ProfileList { profile: out }
    }
}

impl Default for ProfileList {
    fn default() -> (r: Self)
        ensures
            r.profile@.len() == 0,
    {
        ProfileList { profile: Vec::new() }
    }
}

impl Clone for ActiveProfileList {
    fn clone(&self) -> (r: Self)
        ensures
            text::views(r.active_profile@) == text::views(self.active_profile@),
    {
        ActiveProfileList { active_profile: text::clone_strings(&self.active_profile) }
    }
}

impl Default for ActiveProfileList {
    fn default() -> (r: Self)
        ensures
            r.active_profile@.len() == 0,
    {
        ActiveProfileList { active_profile: Vec::new() }
    }
}

impl Clone for Settings {
    fn clone(&self) -> (r: Self)
        ensures
            r@ == self@,
    {
        Settings {
            local_repository: text::clone_opt(&self.local_repository),
            mirrors: self.mirrors.clone(),
            servers: self.servers.clone(),
            proxies: self.proxies.clone(),
            profiles: self.profiles.clone(),
            active_profiles: self.active_profiles.clone(),
        }
    }
}

/// Settings that say nothing.
pub open spec fn no_settings() -> SettingsModel {
    SettingsModel {
        local_repository: None,
        mirrors: Seq::empty(),
        servers: Seq::empty(),
        proxies: Seq::empty(),
        profiles: Seq::empty(),
        active_profiles: Seq::empty(),
    }
}

impl Default for Settings {
    fn default() -> (r: Self)
        ensures
            r@ == no_settings(),
    {
        let r = Settings {
            local_repository: None,
            mirrors: MirrorList::default(),
            servers: ServerList::default(),
            proxies: ProxyList::default(),
            profiles: ProfileList::default(),
            active_profiles: ActiveProfileList::default(),
        };
        assert(r@ =~= no_settings());
        r
    }
}

// ---------------------------------------------------------------------------
// Mirrors
// ---------------------------------------------------------------------------

/// Whether one part of a mirror pattern takes a repository in: any repository, any external
/// one (which counts as any), or the repository itself.
pub open spec fn part_matches(part: Seq<char>, id: Seq<char>) -> bool {
    let p = text::trim_of(part);
    if text::begins(p, "!"@) {
        false
    } else if p == "*"@ {
        true
    } else if text::begins(p, "external:"@) {
        p.skip(9) == "*"@
    } else {
        p == id
    }
}

/// Whether one part of a mirror pattern keeps a repository out.
pub open spec fn part_excludes(part: Seq<char>, id: Seq<char>) -> bool {
    let p = text::trim_of(part);
    text::begins(p, "!"@) && p.skip(1) == id
}

/// Whether a mirror pattern matches a repository: one of its parts takes it in and none keeps
/// it out.
pub open spec fn mirrors_id(pattern: Seq<char>, id: Seq<char>) -> bool {
    let parts = text::split_of(pattern, ',');
    &&& exists|i: int| 0 <= i < parts.len() && part_matches(#[trigger] parts[i], id)
    &&& forall|i: int| 0 <= i < parts.len() ==> !part_excludes(#[trigger] parts[i], id)
}

/// The rest of a text that begins with a prefix.
fn strip_prefix(s: &str, prefix: &str) -> (r: Option<String>)
    ensures
        match r {
            Some(rest) => text::begins(s@, prefix@) && rest@ == s@.skip(prefix@.len() as int),
            None => !text::begins(s@, prefix@),
        },
{
    if text::starts_with(s, prefix) {
        Some(text::skip(s, text::length(prefix)))
    } else {
        None
    }
}

/// Whether a `mirrorOf` pattern matches a repository.
///
/// Supported patterns:
/// - `*`: matches all repositories
/// - `central`: exact match by repository ID
/// - `repo1,repo2`: matches any of the listed IDs
/// - `*,!repo1`: matches all except `repo1`
/// - `external:*`: matches all
pub fn mirror_of_matches(pattern: &str, repo_id: &str) -> (r: bool)
    ensures
        r == mirrors_id(pattern@, repo_id@),
{
    let parts = text::split(pattern, ',');
    let ghost ps = text::split_of(pattern@, ',');
    let mut matched = false;
    let mut excluded = false;
    proof {
        reveal_strlit("!");
        reveal_strlit("external:");
    }
    for i in 0..parts.len()
        invariant
            ps == text::views(parts@),
            "!"@.len() == 1,
            "external:"@.len() == 9,
            matched == exists|j: int| 0 <= j < i && part_matches(#[trigger] ps[j], repo_id@),
            excluded == exists|j: int| 0 <= j < i && part_excludes(#[trigger] ps[j], repo_id@),
    {
        let part = text::trim(parts[i].as_str());
        let p = part.as_str();
        assert(part@ == text::trim_of(ps[i as int]));
        let mut takes = false;
        let mut keeps_out = false;
        if let Some(negated) = strip_prefix(p, "!") {
            keeps_out = text::str_eq(negated.as_str(), repo_id);
        } else if text::str_eq(p, "*") {
            takes = true;
        } else if let Some(kind) = strip_prefix(p, "external:") {
            takes = text::str_eq(kind.as_str(), "*");
        } else {
            takes = text::str_eq(p, repo_id);
        }
        assert(takes == part_matches(ps[i as int], repo_id@));
        assert(keeps_out == part_excludes(ps[i as int], repo_id@));
        if takes {
            matched = true;
        }
        if keeps_out {
            excluded = true;
        }
    }
    matched && !excluded
}

// ---------------------------------------------------------------------------
// Lookups
// ---------------------------------------------------------------------------

/// The first active proxy from position `i` on.
pub open spec fn active_from(ps: Seq<ProxyModel>, i: int) -> Option<ProxyModel>
    decreases ps.len() - i,
{
    if i >= ps.len() {
        None
    } else if ps[i].active {
        Some(ps[i])
    } else {
        active_from(ps, i + 1)
    }
}

/// The first server with an ID, from position `i` on.
pub open spec fn server_from(ss: Seq<ServerModel>, id: Seq<char>, i: int) -> Option<ServerModel>
    decreases ss.len() - i,
{
    if i >= ss.len() {
        None
    } else if ss[i].id == id {
        Some(ss[i])
    } else {
        server_from(ss, id, i + 1)
    }
}

/// The first mirror for a repository, from position `i` on.
pub open spec fn mirror_from(ms: Seq<MirrorModel>, id: Seq<char>, i: int) -> Option<MirrorModel>
    decreases ms.len() - i,
{
    if i >= ms.len() {
        None
    } else if mirrors_id(ms[i].mirror_of, id) {
        Some(ms[i])
    } else {
        mirror_from(ms, id, i + 1)
    }
}

/// The repositories of the active profiles from position `i` on.
pub open spec fn repositories_from(
    ps: Seq<ProfileModel>,
    active: Seq<Seq<char>>,
    i: int,
) -> Seq<SettingsRepositoryModel>
    decreases ps.len() - i,
{
    if i >= ps.len() {
        Seq::empty()
    } else if is_active(ps[i], active) {
        ps[i].repositories + repositories_from(ps, active, i + 1)
    } else {
        repositories_from(ps, active, i + 1)
    }
}

/// Whether a profile is among the active ones.
pub open spec fn is_active(p: ProfileModel, active: Seq<Seq<char>>) -> bool {
    match p.id {
        Some(id) => active.contains(id),
        None => false,
    }
}

/// The local repository that the settings name; white space names none.
pub open spec fn local_path_of(s: SettingsModel) -> Option<Seq<char>> {
    match s.local_repository {
        Some(p) => if text::trim_of(p).len() > 0 {
            Some(p)
        } else {
            None
        },
        None => None,
    }
}

/// The first server with an ID.
pub fn server_by_id<'a>(servers: &'a Vec<Server>, id: &str) -> (r: Option<&'a Server>)
    ensures
        match r {
            Some(s) => server_from(text::views(servers@), id@, 0) == Some(s@),
            None => server_from(text::views(servers@), id@, 0) is None,
        },
{
    let ghost m = text::views(servers@);
    for i in 0..servers.len()
        invariant
            m == text::views(servers@),
            server_from(m, id@, 0) == server_from(m, id@, i as int),
    {
        assert(m[i as int] == servers@[i as int]@);
        if text::str_eq(servers[i].id.as_str(), id) {
            return Some(&servers[i]);
        }
    }
    None
}

/// The first mirror for a repository.
pub fn mirror_for<'a>(mirrors: &'a Vec<Mirror>, repo_id: &str) -> (r: Option<&'a Mirror>)
    ensures
        match r {
            Some(m) => mirror_from(text::views(mirrors@), repo_id@, 0) == Some(m@),
            None => mirror_from(text::views(mirrors@), repo_id@, 0) is None,
        },
{
    let ghost ms = text::views(mirrors@);
    for i in 0..mirrors.len()
        invariant
            ms == text::views(mirrors@),
            mirror_from(ms, repo_id@, 0) == mirror_from(ms, repo_id@, i as int),
    {
        assert(ms[i as int] == mirrors@[i as int]@);
        if mirror_of_matches(mirrors[i].mirror_of.as_str(), repo_id) {
            return Some(&mirrors[i]);
        }
    }
    None
}

impl Settings {
    /// The first active proxy.
    pub fn active_proxy(&self) -> (r: Option<&Proxy>)
        ensures
            match r {
                Some(p) => active_from(self@.proxies, 0) == Some(p@),
                None => active_from(self@.proxies, 0) is None,
            },
    {
        let list = &self.proxies.proxy;
        let ghost ps = text::views(list@);
        for i in 0..list.len()
            invariant
                ps == text::views(list@),
                ps == self@.proxies,
                active_from(ps, 0) == active_from(ps, i as int),
        {
            assert(ps[i as int] == list@[i as int]@);
            if list[i].active {
                return Some(&list[i]);
            }
        }
        None
    }

    /// The credentials for a server or repository ID.
    pub fn find_server(&self, id: &str) -> (r: Option<&Server>)
        ensures
            match r {
                Some(s) => server_from(self@.servers, id@, 0) == Some(s@),
                None => server_from(self@.servers, id@, 0) is None,
            },
    {
        server_by_id(&self.servers.server, id)
    }

    /// The mirror that applies to a repository.
    pub fn find_mirror(&self, repo_id: &str) -> (r: Option<&Mirror>)
        ensures
            match r {
                Some(m) => mirror_from(self@.mirrors, repo_id@, 0) == Some(m@),
                None => mirror_from(self@.mirrors, repo_id@, 0) is None,
            },
    {
        mirror_for(&self.mirrors.mirror, repo_id)
    }

    /// The IDs of the active profiles.
    pub fn active_profile_ids(&self) -> (r: &Vec<String>)
        ensures
            text::views(r@) == self@.active_profiles,
    {
        &self.active_profiles.active_profile
    }

    /// All repositories of active profiles.
    pub fn active_repositories(&self) -> (r: Vec<&SettingsRepository>)
        ensures
            text::views(r@) == repositories_from(self@.profiles, self@.active_profiles, 0),
    {
        let mut out: Vec<&SettingsRepository> = Vec::new();
        let list = &self.profiles.profile;
        let ghost ps = text::views(list@);
        let ghost active = self@.active_profiles;
        assert(text::views(out@) + repositories_from(ps, active, 0) =~= repositories_from(
            ps,
            active,
            0,
        ));
        for i in 0..list.len()
            invariant
                ps == text::views(list@),
                active == self@.active_profiles,
                text::views(out@) + repositories_from(ps, active, i as int) == repositories_from(
                    ps,
                    active,
                    0,
                ),
        {
            let p = &list[i];
            assert(ps[i as int] == p@);
            let chosen = match &p.id {
                Some(id) => text::contains_string(
                    &self.active_profiles.active_profile,
                    id.as_str(),
                ),
                None => false,
            };
            if chosen {
                let repos = &p.repositories.repository;
                let ghost before = text::views(out@);
                let ghost rs = text::views(repos@);
                for j in 0..repos.len()
                    invariant
                        rs == text::views(repos@),
                        text::views(out@) =~= before + rs.take(j as int),
                {
                    let ghost mid = text::views(out@);
                    out.push(&repos[j]);
                    assert(text::views(out@) =~= mid.push(rs[j as int]));
                }
                proof {
                    assert(rs.take(rs.len() as int) =~= rs);
                    assert(before + (rs + repositories_from(ps, active, i + 1)) =~= text::views(
                        out@,
                    ) + repositories_from(ps, active, i + 1));
                }
            }
        }
        assert(text::views(out@) =~= repositories_from(ps, active, 0));
        out
    }

    /// The local repository that the settings name, or none for the default.
    pub fn local_repository_path(&self) -> (r: Option<String>)
        ensures
            text::opt_view(r) == local_path_of(self@),
    {
        match &self.local_repository {
            Some(p) => if text::trim(p.as_str()).as_str().is_empty() {
                None
            } else {
                Some(p.clone())
            },
            None => None,
        }
    }
}

// ---------------------------------------------------------------------------
// Proxies
// ---------------------------------------------------------------------------

/// The URL of a proxy.
pub open spec fn proxy_url(p: ProxyModel) -> Seq<char> {
    p.protocol + "://"@ + p.host + ":"@ + text::decimal_of(p.port as nat)
}

/// Whether a host pattern, which a leading `*` lets begin with anything, matches a host.
pub open spec fn host_matches(pattern: Seq<char>, host: Seq<char>) -> bool {
    let p = text::trim_of(pattern);
    if text::begins(p, "*"@) {
        text::ends(host, p.skip(1))
    } else {
        host == p
    }
}

/// Whether one of the patterns matches a host.
pub open spec fn any_host_matches(patterns: Seq<Seq<char>>, host: Seq<char>) -> bool {
    exists|i: int| 0 <= i < patterns.len() && host_matches(#[trigger] patterns[i], host)
}

/// Whether a host bypasses a proxy.
pub open spec fn bypasses(p: ProxyModel, host: Seq<char>) -> bool {
    match p.non_proxy_hosts {
        Some(list) => any_host_matches(text::split_of(list, '|'), host),
        None => false,
    }
}

impl Proxy {
    /// The proxy as a URL such as `http://host:port`.
    pub fn url(&self) -> (r: String)
        ensures
            r@ == proxy_url(self@),
    {
        let mut out = self.protocol.clone();
        out.append("://");
        out.append(self.host.as_str());
        out.append(":");
        out.append(text::decimal(self.port as u64).as_str());
        out
    }

    /// Whether a host should bypass this proxy.
    pub fn is_non_proxy_host(&self, host: &str) -> (r: bool)
        ensures
            r == bypasses(self@, host@),
    {
        match &self.non_proxy_hosts {
            None => false,
            Some(list) => {
                let patterns = text::split(list.as_str(), '|');
                let ghost ps = text::split_of(list@, '|');
                proof {
                    reveal_strlit("*");
                }
                for i in 0..patterns.len()
                    invariant
                        ps == text::views(patterns@),
                        self@.non_proxy_hosts == Some(list@),
                        ps == text::split_of(list@, '|'),
                        "*"@.len() == 1,
                        forall|j: int| 0 <= j < i ==> !host_matches(#[trigger] ps[j], host@),
                {
                    let pattern = text::trim(patterns[i].as_str());
                    assert(pattern@ == text::trim_of(ps[i as int]));
                    let matched = match strip_prefix(pattern.as_str(), "*") {
                        Some(suffix) => text::ends_with(host, suffix.as_str()),
                        None => text::str_eq(host, pattern.as_str()),
                    };
                    if matched {
                        assert(host_matches(ps[i as int], host@));
                        assert(any_host_matches(ps, host@));
                        return true;
                    }
                }
                false
            },
        }
    }
}

} // verus!
