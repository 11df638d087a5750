//! Laws of how coordinates are written, and of where things lie in a repository.
use crate::collect;
use crate::coord;
use crate::coord::CoordModel;
use crate::coord::DependencyScope;
use crate::effective;
use crate::laws::coord::split_first;
use crate::laws::words;
use crate::repository;
use crate::repository::RemoteModel;
use crate::text;
use vstd::prelude::*;

verus! {

// ---------------------------------------------------------------------------
// Coordinates
// ---------------------------------------------------------------------------

/// A text stands for coordinates just where it holds two, three or four colons, and any other is
/// refused with a text that quotes it.
pub proof fn coordinates_have_three_to_five_parts(s: Seq<char>)
    ensures
        coord::coord_of(s) is Ok <==> 2 <= s.filter(|x: char| x == ':').len() <= 4,
        coord::coord_of(s) matches Err(e) ==> text::holds_text(e, s),
{
    words::pieces_hold_no_separator(s, ':');
    if let Err(e) = coord::coord_of(s) {
        words::parts_are_held(
            s,
            s,
            "invalid artifact coordinates '"@,
            "': expected 3, 4, or 5 colon-separated parts"@,
        );
    }
}

/// The parts of coordinates are the group, the artifact and the version, with the extension
/// before the version where there are four, and with the extension and the classifier before it
/// where there are five. Without an extension it is `jar`.
pub proof fn parts_are_read_in_their_order(
    g: Seq<char>,
    a: Seq<char>,
    e: Seq<char>,
    k: Seq<char>,
    v: Seq<char>,
)
    requires
        !g.contains(':') && !a.contains(':') && !e.contains(':') && !k.contains(':')
            && !v.contains(':'),
    ensures
        coord::coord_of(g + ":"@ + a + ":"@ + v) matches Ok(c) && c.group_id == g && c.artifact_id
            == a && c.version == v && c.classifier is None && c.extension == "jar"@,
        coord::coord_of(g + ":"@ + a + ":"@ + e + ":"@ + v) matches Ok(c) && c.group_id == g
            && c.artifact_id == a && c.version == v && c.classifier is None && c.extension == e,
        coord::coord_of(g + ":"@ + a + ":"@ + e + ":"@ + k + ":"@ + v) matches Ok(c) && c.group_id
            == g && c.artifact_id == a && c.version == v && c.classifier == Some(k) && c.extension
            == e,
{
    reveal_strlit(":");
    let s = seq![':'];
    assert(":"@ =~= s);
    split_first(v, ':', Seq::empty());
    split_first(a, ':', v);
    split_first(g, ':', a + s + v);
    assert(g + ":"@ + a + ":"@ + v =~= g + s + (a + s + v));
    assert(text::split_of(g + s + (a + s + v), ':') =~= seq![g, a, v]);
    split_first(e, ':', v);
    split_first(a, ':', e + s + v);
    split_first(g, ':', a + s + (e + s + v));
    assert(g + ":"@ + a + ":"@ + e + ":"@ + v =~= g + s + (a + s + (e + s + v)));
    assert(text::split_of(g + s + (a + s + (e + s + v)), ':') =~= seq![g, a, e, v]);
    split_first(k, ':', v);
    split_first(e, ':', k + s + v);
    split_first(a, ':', e + s + (k + s + v));
    split_first(g, ':', a + s + (e + s + (k + s + v)));
    assert(g + ":"@ + a + ":"@ + e + ":"@ + k + ":"@ + v =~= g + s + (a + s + (e + s + (k + s
        + v))));
    assert(text::split_of(g + s + (a + s + (e + s + (k + s + v))), ':') =~= seq![g, a, e, k, v]);
}

/// A text names a scope just where it is one of the six names, in capitals or not, and then it
/// names the scope of that name.
pub proof fn scopes_have_their_names(s: Seq<char>)
    ensures
        coord::scope_named(s) == Some(DependencyScope::Compile) <==> text::lower_of(s)
            == "compile"@,
        coord::scope_named(s) == Some(DependencyScope::Runtime) <==> text::lower_of(s)
            == "runtime"@,
        coord::scope_named(s) == Some(DependencyScope::Test) <==> text::lower_of(s) == "test"@,
        coord::scope_named(s) == Some(DependencyScope::Provided) <==> text::lower_of(s)
            == "provided"@,
        coord::scope_named(s) == Some(DependencyScope::System) <==> text::lower_of(s) == "system"@,
        coord::scope_named(s) == Some(DependencyScope::Import) <==> text::lower_of(s) == "import"@,
{
    reveal_strlit("compile");
    reveal_strlit("runtime");
    reveal_strlit("test");
    reveal_strlit("provided");
    reveal_strlit("system");
    reveal_strlit("import");
    assert("compile"@[0] == 'c' && "runtime"@[0] == 'r' && "test"@[0] == 't' && "provided"@[0]
        == 'p' && "system"@[0] == 's' && "import"@[0] == 'i');
}

// ---------------------------------------------------------------------------
// Keys
// ---------------------------------------------------------------------------

/// Two POMs are known under one name only where their groups, artifacts and versions are the
/// same, and the metadata of two artifacts only where their groups and artifacts are.
pub proof fn names_tell_documents_apart(
    g: Seq<char>,
    a: Seq<char>,
    v: Seq<char>,
    h: Seq<char>,
    b: Seq<char>,
    w: Seq<char>,
)
    requires
        !g.contains(':') && !a.contains(':') && !v.contains(':'),
        !h.contains(':') && !b.contains(':') && !w.contains(':'),
    ensures
        effective::pom_key(g, a, v) == effective::pom_key(h, b, w) <==> (g == h && a == b && v
            == w),
        collect::ga_key(g, a) == collect::ga_key(h, b) <==> (g == h && a == b),
{
    lemma_key_parts(g, a, v);
    lemma_key_parts(h, b, w);
    if effective::pom_key(g, a, v) == effective::pom_key(h, b, w) {
        let p = seq![g, a, v];
        let q = seq![h, b, w];
        assert(p == q);
        assert(p[0] == q[0] && p[1] == q[1] && p[2] == q[2]);
    }
    if collect::ga_key(g, a) == collect::ga_key(h, b) {
        let p = seq![g, a];
        let q = seq![h, b];
        assert(p == q);
        assert(p[0] == q[0] && p[1] == q[1]);
    }
}

proof fn lemma_key_parts(g: Seq<char>, a: Seq<char>, v: Seq<char>)
    requires
        !g.contains(':') && !a.contains(':') && !v.contains(':'),
    ensures
        text::split_of(effective::pom_key(g, a, v), ':') == seq![g, a, v],
        text::split_of(collect::ga_key(g, a), ':') == seq![g, a],
{
    reveal_strlit(":");
    let s = seq![':'];
    assert(":"@ =~= s);
    split_first(v, ':', Seq::empty());
    split_first(a, ':', v);
    split_first(g, ':', a + s + v);
    split_first(g, ':', a);
    assert(effective::pom_key(g, a, v) =~= g + s + (a + s + v));
    assert(collect::ga_key(g, a) =~= g + s + a);
    assert(text::split_of(g + s + (a + s + v), ':') =~= seq![g, a, v]);
    assert(text::split_of(g + s + a, ':') =~= seq![g, a]);
}

// ---------------------------------------------------------------------------
// Paths
// ---------------------------------------------------------------------------

/// Each level of a group is a directory: what follows its first dot lies below what precedes it.
/// Below the last one lie the artifact and, below that, the version.
pub proof fn groups_are_directories(c: CoordModel, g: Seq<char>, h: Seq<char>)
    requires
        !g.contains('.'),
    ensures
        coord::version_dir(CoordModel { group_id: g + "."@ + h, ..c }) == g + "/"@
            + coord::version_dir(CoordModel { group_id: h, ..c }),
        coord::version_dir(CoordModel { group_id: g, ..c }) == g + "/"@ + c.artifact_id + "/"@
            + c.version,
{
    reveal_strlit(".");
    reveal_strlit("/");
    assert("."@ =~= seq!['.']);
    assert("/"@ =~= seq!['/']);
    assert forall|i: int| 0 <= i < g.len() implies g[i] != '.' by {
        assert(g.contains(g[i]));
    }
    assert(text::replace_of(g, '.', '/') =~= g);
    assert(text::replace_of(g + "."@ + h, '.', '/') =~= g + "/"@ + text::replace_of(h, '.', '/'));
    assert(coord::version_dir(CoordModel { group_id: g + "."@ + h, ..c }) =~= g + "/"@
        + coord::version_dir(CoordModel { group_id: h, ..c }));
}

/// In the directory of its version an artifact is called by its ID and version, and by its
/// classifier where it has one, with its extension, and its POM by the ID and version with the
/// extension `pom`, whatever classifier and extension the artifact has.
pub proof fn files_are_called_by_their_coordinates(c: CoordModel)
    ensures
        c.classifier is None ==> coord::artifact_path_of(c) == coord::version_dir(c) + ("/"@
            + c.artifact_id + "-"@ + c.version + "."@ + c.extension),
        c.classifier matches Some(k) ==> coord::artifact_path_of(c) == coord::version_dir(c) + ("/"@
            + c.artifact_id + "-"@ + c.version + "-"@ + k + "."@ + c.extension),
        coord::pom_path_of(c) == coord::version_dir(c) + ("/"@ + c.artifact_id + "-"@ + c.version
            + ".pom"@),
        coord::pom_path_of(c) == coord::artifact_path_of(
            CoordModel { classifier: None, extension: "pom"@, ..c },
        ),
{
    reveal_strlit(".");
    reveal_strlit("pom");
    reveal_strlit(".pom");
    assert(".pom"@ =~= "."@ + "pom"@);
    let p = CoordModel { classifier: None, extension: "pom"@, ..c };
    assert(coord::version_dir(p) == coord::version_dir(c));
    assert(coord::pom_path_of(c) =~= coord::version_dir(c) + ("/"@ + c.artifact_id + "-"@
        + c.version + ".pom"@));
    assert(coord::artifact_path_of(p) =~= coord::pom_path_of(c));
    match c.classifier {
        None => {
            assert(coord::artifact_path_of(c) =~= coord::version_dir(c) + ("/"@ + c.artifact_id
                + "-"@ + c.version + "."@ + c.extension));
        },
        Some(k) => {
            assert(coord::artifact_path_of(c) =~= coord::version_dir(c) + ("/"@ + c.artifact_id
                + "-"@ + c.version + "-"@ + k + "."@ + c.extension));
        },
    }
}

/// The URL of a document is that of the repository, a slash and the path of the document. The
/// metadata of an artifact lies beside the directories of its versions, and that of a version in
/// its directory.
pub proof fn urls_are_paths_below_the_repository(r: RemoteModel, c: CoordModel) -> (dir: Seq<char>)
    ensures
        repository::artifact_url_of(r, c) == r.url + ("/"@ + coord::artifact_path_of(c)),
        repository::pom_url_of(r, c) == r.url + ("/"@ + coord::pom_path_of(c)),
        coord::version_dir(c) == dir + "/"@ + c.version,
        repository::version_metadata_url_of(r, c) == r.url + ("/"@ + coord::version_dir(c)
            + "/maven-metadata.xml"@),
        repository::metadata_url_of(r, c.group_id, c.artifact_id) == r.url + ("/"@ + dir
            + "/maven-metadata.xml"@),
{
    let dir = text::replace_of(c.group_id, '.', '/') + "/"@ + c.artifact_id;
    assert(repository::artifact_url_of(r, c) =~= r.url + ("/"@ + coord::artifact_path_of(c)));
    assert(repository::pom_url_of(r, c) =~= r.url + ("/"@ + coord::pom_path_of(c)));
    assert(repository::version_metadata_url_of(r, c) =~= r.url + ("/"@ + coord::version_dir(c)
        + "/maven-metadata.xml"@));
    assert(repository::metadata_url_of(r, c.group_id, c.artifact_id) =~= r.url + ("/"@ + dir
        + "/maven-metadata.xml"@));
    dir
}

/// The URL of a repository is the one that was given without the slashes at its end, and it has
/// no credentials.
pub proof fn repositories_are_open_at_first(id: Seq<char>, url: Seq<char>, n: nat)
    requires
        url.len() > 0 ==> url.last() != '/',
    ensures
        ({
            let r = repository::open_remote(id, url + Seq::new(n, |i: int| '/'));
            r.id == id && r.url == url && r.username is None && r.password is None
        }),
    decreases n,
{
    let s = url + Seq::new(n, |i: int| '/');
    if n > 0 {
        assert(s.last() == '/');
        assert(s.drop_last() =~= url + Seq::new((n - 1) as nat, |i: int| '/'));
        repositories_are_open_at_first(id, url, (n - 1) as nat);
    } else {
        assert(s =~= url);
    }
}

/// A path below a directory follows it behind one slash, whether the directory was given with a
/// slash at its end or not; an absolute path stands for itself, and so does one below no
/// directory.
pub proof fn paths_follow_their_directory(dir: Seq<char>, path: Seq<char>)
    requires
        dir.len() > 0,
        dir.last() != '/',
        path.len() > 0 ==> path[0] != '/',
    ensures
        repository::joined(dir, path) == dir + "/"@ + path,
        repository::joined(dir + "/"@, path) == dir + "/"@ + path,
        repository::joined(Seq::empty(), path) == path,
        repository::joined(dir, "/"@ + path) == "/"@ + path,
        repository::repository_in(dir) == dir + "/.m2/repository"@,
        repository::repository_in(dir + "/"@) == dir + "/.m2/repository"@,
{
    reveal_strlit("/");
    reveal_strlit(".m2");
    reveal_strlit("repository");
    reveal_strlit("/.m2/repository");
    assert((dir + "/"@).last() == '/');
    assert(("/"@ + path)[0] == '/');
    assert(Seq::<char>::empty() + path =~= path);
    let m = dir + "/"@ + ".m2"@;
    assert(repository::joined(dir, ".m2"@) =~= m);
    assert(repository::joined(dir + "/"@, ".m2"@) =~= m);
    assert(m.last() == ".m2"@[2]);
    assert(".m2"@[2] == '2');
    assert(m + "/"@ + "repository"@ =~= dir + "/.m2/repository"@);
}

} // verus!
