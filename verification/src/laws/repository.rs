//! Laws of repositories and of the mirrors that stand in for them.
use crate::coord::CoordModel;
use crate::repository;
use crate::repository::RemoteModel;
use crate::settings;
use crate::settings::MirrorModel;
use crate::settings::ServerModel;
use crate::text;
use vstd::prelude::*;

verus! {

// ---------------------------------------------------------------------------
// URLs
// ---------------------------------------------------------------------------

/// Removing the slashes at the end leaves none, and removing them again changes nothing.
pub proof fn no_slash_is_left(s: Seq<char>)
    ensures
        repository::without_slashes(s).len() > 0 ==> repository::without_slashes(s).last() != '/',
        repository::without_slashes(repository::without_slashes(s)) == repository::without_slashes(
            s,
        ),
    decreases s.len(),
{
    if s.len() > 0 && s.last() == '/' {
        no_slash_is_left(s.drop_last());
    }
}

/// A slash at the end of a repository's URL makes no difference.
pub proof fn trailing_slash_does_not_matter(id: Seq<char>, url: Seq<char>)
    ensures
        repository::open_remote(id, url.push('/')) == repository::open_remote(id, url),
{
    assert(url.push('/').drop_last() =~= url);
}

/// Every URL in a repository begins with the URL of the repository.
pub proof fn urls_lie_in_the_repository(
    r: RemoteModel,
    c: CoordModel,
    group_id: Seq<char>,
    artifact_id: Seq<char>,
)
    ensures
        text::begins(repository::artifact_url_of(r, c), r.url),
        text::begins(repository::pom_url_of(r, c), r.url),
        text::begins(repository::metadata_url_of(r, group_id, artifact_id), r.url),
        text::begins(repository::version_metadata_url_of(r, c), r.url),
{
    let n = r.url.len() as int;
    assert(repository::artifact_url_of(r, c).take(n) =~= r.url);
    assert(repository::pom_url_of(r, c).take(n) =~= r.url);
    assert(repository::metadata_url_of(r, group_id, artifact_id).take(n) =~= r.url);
    assert(repository::version_metadata_url_of(r, c).take(n) =~= r.url);
}

// ---------------------------------------------------------------------------
// Mirrors
// ---------------------------------------------------------------------------

/// The pattern `*` takes in every repository.
pub proof fn star_mirrors_all(id: Seq<char>)
    ensures
        settings::mirrors_id("*"@, id),
{
    let pattern = "*"@;
    reveal_strlit("*");
    reveal_strlit("!");
    let parts = text::split_of(pattern, ',');
    text::lemma_find_from(pattern, ',', 0);
    assert(text::find_from(pattern, ',', 0) == 1) by {
        let i = text::find_from(pattern, ',', 0);
        if i < 1 {
            assert(pattern[i] == ',');
        }
    }
    assert(parts == seq![pattern]);
    assert(text::trim_of(pattern) == pattern);
    assert(pattern.take(1)[0] == '*');
    assert("!"@[0] == '!');
    assert(settings::part_matches(parts[0], id));
}

/// A part such as `!central` keeps a repository out, whatever the other parts take in.
pub proof fn exclusion_wins(pattern: Seq<char>, id: Seq<char>, i: int)
    requires
        0 <= i < text::split_of(pattern, ',').len(),
        settings::part_excludes(text::split_of(pattern, ',')[i], id),
    ensures
        !settings::mirrors_id(pattern, id),
{
}

proof fn lemma_no_mirror(mirrors: Seq<MirrorModel>, id: Seq<char>, i: int)
    requires
        0 <= i,
        forall|k: int|
            0 <= k < mirrors.len() ==> !settings::mirrors_id(
                (#[trigger] mirrors[k]).mirror_of,
                id,
            ),
    ensures
        settings::mirror_from(mirrors, id, i) is None,
    decreases mirrors.len() - i,
{
    if i < mirrors.len() {
        lemma_no_mirror(mirrors, id, i + 1);
    }
}

/// A repository that no mirror matches stays as it is.
pub proof fn unmatched_repository_stays(
    r: RemoteModel,
    mirrors: Seq<MirrorModel>,
    servers: Seq<ServerModel>,
)
    requires
        forall|k: int|
            0 <= k < mirrors.len() ==> !settings::mirrors_id(
                (#[trigger] mirrors[k]).mirror_of,
                r.id,
            ),
    ensures
        repository::mirrored(r, mirrors, servers) == r,
{
    lemma_no_mirror(mirrors, r.id, 0);
}

proof fn lemma_first_mirror(mirrors: Seq<MirrorModel>, id: Seq<char>, i: int, k: int)
    requires
        0 <= i <= k < mirrors.len(),
        settings::mirrors_id(mirrors[k].mirror_of, id),
        forall|j: int|
            i <= j < k ==> !settings::mirrors_id((#[trigger] mirrors[j]).mirror_of, id),
    ensures
        settings::mirror_from(mirrors, id, i) == Some(mirrors[k]),
    decreases k - i,
{
    if i < k {
        lemma_first_mirror(mirrors, id, i + 1, k);
    }
}

/// The first mirror that matches a repository stands in for it, with its URL and never with the
/// credentials of the repository itself.
pub proof fn first_matching_mirror_wins(
    r: RemoteModel,
    mirrors: Seq<MirrorModel>,
    servers: Seq<ServerModel>,
    k: int,
)
    requires
        0 <= k < mirrors.len(),
        settings::mirrors_id(mirrors[k].mirror_of, r.id),
        forall|j: int|
            0 <= j < k ==> !settings::mirrors_id((#[trigger] mirrors[j]).mirror_of, r.id),
    ensures
        repository::mirrored(r, mirrors, servers).url == repository::without_slashes(
            mirrors[k].url,
        ),
        mirrors[k].id matches Some(id) ==> repository::mirrored(r, mirrors, servers).id == id
            && repository::mirrored(r, mirrors, servers) == repository::with_server(
            repository::open_remote(id, mirrors[k].url),
            servers,
        ),
{
    lemma_first_mirror(mirrors, r.id, 0, k);
}

// ---------------------------------------------------------------------------
// Adding repositories
// ---------------------------------------------------------------------------

/// Whether no repository is among the others.
pub open spec fn distinct(rs: Seq<RemoteModel>) -> bool {
    forall|i: int, j: int|
        0 <= i < j < rs.len() ==> !repository::same_remote(#[trigger] rs[i], #[trigger] rs[j])
}

/// Adding repositories that are not there yet leaves none twice.
pub proof fn adding_keeps_repositories_distinct(rs: Seq<RemoteModel>, r: RemoteModel)
    requires
        distinct(rs),
    ensures
        distinct(repository::with_remote(rs, r)),
{
}

/// Adding a repository a second time changes nothing.
pub proof fn adding_twice_is_adding_once(rs: Seq<RemoteModel>, r: RemoteModel)
    ensures
        repository::has_remote(repository::with_remote(rs, r), r),
        repository::with_remote(repository::with_remote(rs, r), r) == repository::with_remote(rs, r),
{
    if !repository::has_remote(rs, r) {
        assert(repository::same_remote(rs.push(r)[rs.len() as int], r));
    }
}

} // verus!
