//! Laws of what the settings configure: mirrors, servers, proxies, profiles and repositories.
use crate::cli;
use crate::laws::words;
use crate::repository;
use crate::repository::RemoteModel;
use crate::settings;
use crate::settings::MirrorModel;
use crate::settings::ProfileModel;
use crate::settings::ProxyModel;
use crate::settings::ServerModel;
use crate::settings::SettingsModel;
use crate::settings::SettingsRepositoryModel;
use crate::text;
use vstd::prelude::*;

verus! {

// ---------------------------------------------------------------------------
// Lookups
// ---------------------------------------------------------------------------

/// Of the proxies the first active one is used, and none where none is active.
pub proof fn first_active_proxy_is_used(ps: Seq<ProxyModel>, from: int)
    requires
        0 <= from <= ps.len(),
    ensures
        match settings::active_from(ps, from) {
            Some(p) => exists|k: int|
                from <= k < ps.len() && p == ps[k] && p.active && (forall|j: int|
                    from <= j < k ==> !(#[trigger] ps[j]).active),
            None => forall|j: int| from <= j < ps.len() ==> !(#[trigger] ps[j]).active,
        },
    decreases ps.len() - from,
{
    if from < ps.len() {
        if ps[from].active {
            assert(settings::active_from(ps, from) == Some(ps[from]));
        } else {
            first_active_proxy_is_used(ps, from + 1);
        }
    }
}

/// Of the servers the first one with an ID is found, and none where none has it.
pub proof fn first_server_of_an_id_is_found(ss: Seq<ServerModel>, id: Seq<char>, from: int)
    requires
        0 <= from <= ss.len(),
    ensures
        match settings::server_from(ss, id, from) {
            Some(s) => exists|k: int|
                from <= k < ss.len() && s == ss[k] && s.id == id && (forall|j: int|
                    from <= j < k ==> (#[trigger] ss[j]).id != id),
            None => forall|j: int| from <= j < ss.len() ==> (#[trigger] ss[j]).id != id,
        },
    decreases ss.len() - from,
{
    if from < ss.len() {
        if ss[from].id == id {
            assert(settings::server_from(ss, id, from) == Some(ss[from]));
        } else {
            first_server_of_an_id_is_found(ss, id, from + 1);
        }
    }
}

/// Of the mirrors the first one whose pattern matches a repository is found, and none where none
/// matches.
pub proof fn first_matching_mirror_is_found(ms: Seq<MirrorModel>, id: Seq<char>, from: int)
    requires
        0 <= from <= ms.len(),
    ensures
        match settings::mirror_from(ms, id, from) {
            Some(m) => exists|k: int|
                from <= k < ms.len() && m == ms[k] && pattern_takes(m.mirror_of, id) && (forall|
                    j: int,
                |
                    from <= j < k ==> !pattern_takes((#[trigger] ms[j]).mirror_of, id)),
            None => forall|j: int|
                from <= j < ms.len() ==> !pattern_takes((#[trigger] ms[j]).mirror_of, id),
        },
    decreases ms.len() - from,
{
    if from < ms.len() {
        patterns_take_and_keep_out(ms[from].mirror_of, id);
        if settings::mirrors_id(ms[from].mirror_of, id) {
            assert(settings::mirror_from(ms, id, from) == Some(ms[from]));
        } else {
            first_matching_mirror_is_found(ms, id, from + 1);
        }
    }
}

// ---------------------------------------------------------------------------
// Patterns
// ---------------------------------------------------------------------------

/// Whether a word of a mirror pattern takes a repository in: `*` and `external:*` take all in,
/// and any other word the repository of that ID, unless it begins like an exclusion or like
/// `external:`.
pub open spec fn word_takes(word: Seq<char>, id: Seq<char>) -> bool {
    ||| word == "*"@
    ||| word == "external:*"@
    ||| word == id && !text::begins(word, "!"@) && !text::begins(word, "external:"@)
}

/// Whether a mirror pattern takes a repository in: one of its words does, and none is the
/// repository's ID behind an exclamation mark.
pub open spec fn pattern_takes(pattern: Seq<char>, id: Seq<char>) -> bool {
    let words = text::split_of(pattern, ',');
    &&& exists|i: int| 0 <= i < words.len() && word_takes(text::trim_of(#[trigger] words[i]), id)
    &&& forall|i: int| 0 <= i < words.len() ==> text::trim_of(#[trigger] words[i]) != "!"@ + id
}

proof fn lemma_word(part: Seq<char>, id: Seq<char>)
    ensures
        settings::part_matches(part, id) <==> word_takes(text::trim_of(part), id),
        settings::part_excludes(part, id) <==> text::trim_of(part) == "!"@ + id,
{
    let p = text::trim_of(part);
    reveal_strlit("*");
    reveal_strlit("!");
    reveal_strlit("external:");
    reveal_strlit("external:*");
    assert("external:*"@ =~= "external:"@ + "*"@);
    words::parts_are_held(p, "!"@, Seq::empty(), id);
    words::parts_are_held(p, "external:"@, Seq::empty(), "*"@);
    words::parts_are_held("*"@, "!"@, Seq::empty(), id);
    words::parts_are_held("external:*"@, "!"@, Seq::empty(), id);
    assert(("!"@ + id).skip(1) =~= id);
    assert("external:*"@.skip(9) =~= "*"@);
    if text::begins(p, "!"@) {
        assert(p[0] == "!"@[0]);
        assert("*"@[0] == '*' && "external:*"@[0] == 'e' && "!"@[0] == '!');
    }
    if text::begins(p, "external:"@) {
        assert(p[0] == "external:"@[0]);
    }
}

/// A mirror pattern is a list of words: a repository is mirrored just where one of them takes it
/// in and none keeps it out.
pub proof fn patterns_take_and_keep_out(pattern: Seq<char>, id: Seq<char>)
    ensures
        settings::mirrors_id(pattern, id) <==> pattern_takes(pattern, id),
{
    let words = text::split_of(pattern, ',');
    assert forall|i: int| 0 <= i < words.len() implies (settings::part_matches(
        #[trigger] words[i],
        id,
    ) <==> word_takes(text::trim_of(words[i]), id)) && (settings::part_excludes(words[i], id) <==>
        text::trim_of(words[i]) == "!"@ + id) by {
        lemma_word(words[i], id);
    }
}

/// Whether a word of a proxy's list of exceptions means a host: with a star it means all hosts
/// that end in what follows the star, and otherwise the host of that name.
pub open spec fn word_means_host(word: Seq<char>, host: Seq<char>) -> bool {
    if word.len() > 0 && word[0] == '*' {
        exists|front: Seq<char>| host == #[trigger] (front + word.skip(1))
    } else {
        word == host
    }
}

/// A host bypasses a proxy just where one of the words of the proxy's list of exceptions means
/// it, and never where there is no list.
pub proof fn exceptions_bypass_the_proxy(p: ProxyModel, host: Seq<char>)
    ensures
        p.non_proxy_hosts is None ==> !settings::bypasses(p, host),
        p.non_proxy_hosts matches Some(list) ==> (settings::bypasses(p, host) <==> exists|i: int|
            0 <= i < text::split_of(list, '|').len() && word_means_host(
                text::trim_of(#[trigger] text::split_of(list, '|')[i]),
                host,
            )),
{
    if let Some(list) = p.non_proxy_hosts {
        let words = text::split_of(list, '|');
        assert forall|i: int| 0 <= i < words.len() implies (settings::host_matches(
            #[trigger] words[i],
            host,
        ) <==> word_means_host(text::trim_of(words[i]), host)) by {
            lemma_host(words[i], host);
        }
    }
}

proof fn lemma_host(pattern: Seq<char>, host: Seq<char>)
    ensures
        settings::host_matches(pattern, host) <==> word_means_host(text::trim_of(pattern), host),
{
    let w = text::trim_of(pattern);
    reveal_strlit("*");
    if w.len() > 0 && w[0] == '*' {
        assert(w.take(1) =~= "*"@);
        let rest = w.skip(1);
        if text::ends(host, rest) {
            let front = host.take(host.len() - rest.len());
            words::parts_are_held(host, rest, Seq::empty(), Seq::empty());
            assert(host == front + rest);
        }
        if word_means_host(w, host) {
            let front = choose|front: Seq<char>| host == #[trigger] (front + rest);
            words::parts_are_held(host, rest, front, Seq::empty());
        }
    } else if text::begins(w, "*"@) {
        assert(w.take(1)[0] == "*"@[0]);
    }
}

/// The URL of a proxy names its protocol, its host and its port.
pub proof fn proxies_are_reached_by_host_and_port(p: ProxyModel)
    ensures
        settings::proxy_url(p) == p.protocol + ("://"@ + (p.host + (":"@ + text::decimal_of(
            p.port as nat,
        )))),
{
    assert(settings::proxy_url(p) =~= p.protocol + ("://"@ + (p.host + (":"@ + text::decimal_of(
        p.port as nat,
    )))));
}

// ---------------------------------------------------------------------------
// Profiles
// ---------------------------------------------------------------------------

proof fn lemma_profiles(ps: Seq<ProfileModel>, p: ProfileModel, active: Seq<Seq<char>>, i: int)
    requires
        0 <= i <= ps.len(),
    ensures
        settings::repositories_from(ps.push(p), active, i) == settings::repositories_from(
            ps,
            active,
            i,
        ) + (if p.id is Some && active.contains(p.id->0) {
            p.repositories
        } else {
            Seq::empty()
        }),
    decreases ps.len() - i,
{
    let all = ps.push(p);
    let last = if p.id is Some && active.contains(p.id->0) {
        p.repositories
    } else {
        Seq::empty()
    };
    if i < ps.len() {
        lemma_profiles(ps, p, active, i + 1);
        assert(all[i] == ps[i]);
        let more = settings::repositories_from(ps, active, i + 1);
        assert(ps[i].repositories + (more + last) =~= (ps[i].repositories + more) + last);
    } else {
        assert(all[i] == p);
        assert(settings::repositories_from(all, active, i + 1) =~= Seq::empty());
        assert(settings::repositories_from(ps, active, i) =~= Seq::empty());
        assert(settings::repositories_from(all, active, i) =~= last);
        assert(Seq::empty() + last =~= last);
    }
}

/// The profiles give their repositories in their order, just those whose ID is among the active
/// ones. One more profile adds all of its repositories at the end where it is active, and none
/// where it is not.
pub proof fn active_profiles_give_their_repositories(
    ps: Seq<ProfileModel>,
    p: ProfileModel,
    active: Seq<Seq<char>>,
)
    ensures
        settings::repositories_from(Seq::empty(), active, 0) == Seq::<
            SettingsRepositoryModel,
        >::empty(),
        settings::repositories_from(ps.push(p), active, 0) == settings::repositories_from(
            ps,
            active,
            0,
        ) + (if p.id is Some && active.contains(p.id->0) {
            p.repositories
        } else {
            Seq::empty()
        }),
{
    lemma_profiles(ps, p, active, 0);
}

/// The local repository is the one that the settings name, as they name it, unless they name it
/// by white space alone.
pub proof fn named_local_repository_is_used(s: SettingsModel)
    ensures
        s.local_repository is None ==> settings::local_path_of(s) is None,
        s.local_repository matches Some(p) ==> settings::local_path_of(s) == (if words::is_blank(
            p,
        ) {
            None
        } else {
            Some(p)
        }),
{
    if let Some(p) = s.local_repository {
        let ends = words::trimming_leaves_the_middle(p);
    }
}

// ---------------------------------------------------------------------------
// Repositories
// ---------------------------------------------------------------------------

/// A repository gets the user name and the password of the first server with its ID, keeps its
/// own where there is none, and keeps its ID and URL.
pub proof fn servers_give_credentials(r: RemoteModel, servers: Seq<ServerModel>, k: int)
    requires
        0 <= k <= servers.len(),
        forall|j: int| 0 <= j < k ==> (#[trigger] servers[j]).id != r.id,
        k < servers.len() ==> servers[k].id == r.id,
    ensures
        ({
            let w = repository::with_server(r, servers);
            &&& w.id == r.id
            &&& w.url == r.url
            &&& k < servers.len() ==> w.username == servers[k].username && w.password
                == servers[k].password
            &&& k == servers.len() ==> w.username == r.username && w.password == r.password
        }),
{
    first_server_of_an_id_is_found(servers, r.id, 0);
    if let Some(s) = settings::server_from(servers, r.id, 0) {
        let i = choose|i: int|
            0 <= i < servers.len() && s == servers[i] && s.id == r.id && (forall|j: int|
                0 <= j < i ==> (#[trigger] servers[j]).id != r.id);
        assert(servers[i].id == r.id);
        assert(i >= k);
        if k < servers.len() && i > k {
            assert(servers[k].id != r.id);
        }
    } else if k < servers.len() {
        assert(servers[k].id != r.id);
    }
}

/// A mirror that has no ID of its own stands in for a repository under the repository's ID.
pub proof fn nameless_mirror_keeps_the_name(
    r: RemoteModel,
    mirrors: Seq<MirrorModel>,
    servers: Seq<ServerModel>,
)
    requires
        settings::mirror_from(mirrors, r.id, 0) matches Some(m) && m.id is None,
    ensures
        ({
            let m = settings::mirror_from(mirrors, r.id, 0)->0;
            repository::mirrored(r, mirrors, servers) == repository::with_server(
                RemoteModel {
                    id: r.id,
                    url: repository::without_slashes(m.url),
                    username: None,
                    password: None,
                },
                servers,
            )
        }),
{
}

/// Whether settings name a repository: an active profile holds it.
pub open spec fn names_repositories(s: SettingsModel) -> bool {
    settings::repositories_from(s.profiles, s.active_profiles, 0).len() > 0
}

/// The ID of a repository of a profile, `unnamed` where it has none.
pub open spec fn id_of(r: SettingsRepositoryModel) -> Seq<char> {
    if r.id is Some {
        r.id->0
    } else {
        "unnamed"@
    }
}

/// The repositories that settings configure are those of the active profiles, each in its place,
/// with the credentials of the server of its ID, or Maven Central where there is none; and where
/// a mirror matches the ID of one of them, the mirror stands in its place.
pub proof fn profiles_or_central_are_configured(s: SettingsModel, i: int)
    requires
        0 <= i < settings::repositories_from(s.profiles, s.active_profiles, 0).len() || (i == 0
            && !names_repositories(s)),
    ensures
        ({
            let given = settings::repositories_from(s.profiles, s.active_profiles, 0);
            let all = repository::configured_remotes(s);
            let (id, url) = if names_repositories(s) {
                (id_of(given[i]), given[i].url)
            } else {
                ("central"@, "https://repo.maven.apache.org/maven2"@)
            };
            let plain = repository::with_server(
                RemoteModel {
                    id,
                    url: repository::without_slashes(url),
                    username: None,
                    password: None,
                },
                s.servers,
            );
            &&& all.len() == if names_repositories(s) {
                given.len()
            } else {
                1
            }
            &&& settings::mirror_from(s.mirrors, id, 0) is None ==> all[i] == plain
            &&& all[i] == repository::mirrored(plain, s.mirrors, s.servers)
        }),
{
    let given = settings::repositories_from(s.profiles, s.active_profiles, 0);
    let all = repository::configured_remotes(s);
    if !names_repositories(s) {
        assert(given.len() == 0);
        assert(repository::profile_remotes(s)[0] == repository::with_server(
            repository::central_only()[0],
            s.servers,
        ));
    } else {
        assert(repository::profile_remotes(s)[i] == repository::profile_remote(
            given[i],
            s.servers,
        ));
    }
}

/// A repository is added behind the others, unless one of them has its ID, or its URL but for
/// slashes at the end.
pub proof fn unknown_repositories_are_added(rs: Seq<RemoteModel>, r: RemoteModel)
    ensures
        (exists|i: int|
            0 <= i < rs.len() && ((#[trigger] rs[i]).id == r.id || repository::without_slashes(
                rs[i].url,
            ) == repository::without_slashes(r.url))) ==> repository::with_remote(rs, r) == rs,
        (forall|i: int|
            0 <= i < rs.len() ==> (#[trigger] rs[i]).id != r.id && repository::without_slashes(
                rs[i].url,
            ) != repository::without_slashes(r.url)) ==> repository::with_remote(rs, r) == rs.push(
            r,
        ),
{
    if exists|i: int|
        0 <= i < rs.len() && ((#[trigger] rs[i]).id == r.id || repository::without_slashes(
            rs[i].url,
        ) == repository::without_slashes(r.url)) {
        let i = choose|i: int|
            0 <= i < rs.len() && ((#[trigger] rs[i]).id == r.id || repository::without_slashes(
                rs[i].url,
            ) == repository::without_slashes(r.url));
        assert(repository::same_remote(rs[i], r));
    }
}

/// An upload goes to the given repository, with the user name and the password that are given
/// where both are, and otherwise with those of the server of its ID.
pub proof fn given_credentials_are_used(
    id: Seq<char>,
    url: Seq<char>,
    username: Option<Seq<char>>,
    password: Option<Seq<char>>,
    s: SettingsModel,
)
    ensures
        ({
            let target = cli::upload_target_of(id, url, username, password, s);
            let bare = RemoteModel {
                id,
                url: repository::without_slashes(url),
                username: None,
                password: None,
            };
            &&& target.id == id
            &&& target.url == repository::without_slashes(url)
            &&& username is Some && password is Some ==> target.username == username
                && target.password == password
            &&& !(username is Some && password is Some) ==> target == repository::with_server(
                bare,
                s.servers,
            )
        }),
{
}

/// Without settings there is one repository, Maven Central, which takes no credentials.
pub proof fn central_is_the_only_default()
    ensures
        repository::central_only().len() == 1,
        repository::central_only()[0].id == "central"@,
        repository::central_only()[0].url == "https://repo.maven.apache.org/maven2"@,
        repository::central_only()[0].username is None,
        repository::central_only()[0].password is None,
{
    reveal_strlit("https://repo.maven.apache.org/maven2");
    let url = "https://repo.maven.apache.org/maven2"@;
    assert(url.last() == '2');
    assert(repository::without_slashes(url) == url);
}

} // verus!
