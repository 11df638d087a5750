//! Laws of what the command line reads and shows.
use crate::cli;
use crate::coord::CoordModel;
use crate::laws::coord::split_first;
use crate::laws::words;
use crate::pom::PomModel;
use crate::pom::PomRepositoryModel;
use crate::resolver::ResolvedModel;
use crate::text;
use vstd::prelude::*;

verus! {

// ---------------------------------------------------------------------------
// Reading
// ---------------------------------------------------------------------------

/// A search is for the group before the first colon and the artifact behind it, up to the second
/// one where there is one, whatever follows that; a text without a colon is refused.
pub proof fn searches_are_for_group_and_artifact(g: Seq<char>, a: Seq<char>, rest: Seq<char>)
    requires
        !g.contains(':'),
        !a.contains(':'),
    ensures
        cli::search_parts(g + ":"@ + a) == Ok::<(Seq<char>, Seq<char>), Seq<char>>((g, a)),
        cli::search_parts(g + ":"@ + a + ":"@ + rest) == Ok::<
            (Seq<char>, Seq<char>),
            Seq<char>,
        >((g, a)),
        cli::search_parts(g) == Err::<(Seq<char>, Seq<char>), Seq<char>>(
            "expected at least groupId:artifactId, got '"@ + g + "'"@,
        ),
{
    reveal_strlit(":");
    let s = seq![':'];
    assert(":"@ =~= s);
    split_first(a, ':', rest);
    split_first(g, ':', a);
    split_first(g, ':', a + s + rest);
    assert(g + ":"@ + a =~= g + s + a);
    assert(g + ":"@ + a + ":"@ + rest =~= g + s + (a + s + rest));
    let p = text::split_of(g + s + (a + s + rest), ':');
    assert(p[0] == g);
    assert(p[1] == a);
    let q = text::split_of(g + s + a, ':');
    assert(q =~= seq![g, a]);
}

proof fn lemma_lines_push(lines: Seq<Seq<char>>, line: Seq<char>, i: int)
    requires
        0 <= i <= lines.len(),
    ensures
        cli::coords_from(lines.push(line), i) == cli::coords_from(lines, i) + (if words::is_blank(
            line,
        ) || text::trim_of(line)[0] == '#' {
            Seq::empty()
        } else {
            seq![text::trim_of(line)]
        }),
    decreases lines.len() - i,
{
    let all = lines.push(line);
    let ends = words::trimming_leaves_the_middle(line);
    let last = if words::is_blank(line) || text::trim_of(line)[0] == '#' {
        Seq::empty()
    } else {
        seq![text::trim_of(line)]
    };
    if i < lines.len() {
        assert(all[i] == lines[i]);
        lemma_lines_push(lines, line, i + 1);
        let more = cli::coords_from(lines, i + 1);
        let here = seq![text::trim_of(lines[i])];
        assert(here + (more + last) =~= (here + more) + last);
    } else {
        assert(all[i] == line);
        assert(cli::coords_from(all, i + 1) =~= Seq::empty());
        assert(cli::coords_from(lines, i) =~= Seq::empty());
        assert(cli::coords_from(all, i) =~= last);
        assert(Seq::empty() + last =~= last);
    }
}

/// A list of coordinates gives what each line holds without the white space at its ends, in the
/// order of the lines, but nothing for blank lines and for comments, which begin with `#`.
pub proof fn lines_give_their_coordinates(lines: Seq<Seq<char>>, line: Seq<char>)
    ensures
        cli::coords_from(Seq::empty(), 0) == Seq::<Seq<char>>::empty(),
        cli::coords_from(lines.push(line), 0) == cli::coords_from(lines, 0)
            + (if words::is_blank(line) || text::trim_of(line)[0] == '#' {
            Seq::empty()
        } else {
            seq![text::trim_of(line)]
        }),
{
    lemma_lines_push(lines, line, 0);
}

// ---------------------------------------------------------------------------
// Descriptions
// ---------------------------------------------------------------------------

/// How many bytes the characters of a text take.
pub open spec fn bytes_of(s: Seq<char>) -> nat
    decreases s.len(),
{
    if s.len() == 0 {
        0
    } else {
        bytes_of(s.drop_last()) + (if (s.last() as int) < 128 {
            1nat
        } else if (s.last() as int) < 2048 {
            2
        } else if (s.last() as int) < 65536 {
            3
        } else {
            4
        })
    }
}

proof fn lemma_fitting(s: Seq<char>, i: int, room: int)
    requires
        0 <= i <= s.len(),
        room >= 0,
    ensures
        ({
            let n = cli::fitting(s, i, room);
            &&& i <= n <= s.len()
            &&& bytes_of(s.take(n)) <= bytes_of(s.take(i)) + room
            &&& n < s.len() ==> bytes_of(s.take(n + 1)) > bytes_of(s.take(i)) + room
        }),
    decreases s.len() - i,
{
    if i < s.len() {
        assert(s.take(i + 1).drop_last() =~= s.take(i));
        assert(s.take(i + 1).last() == s[i]);
        if cli::char_bytes(s[i]) <= room {
            lemma_fitting(s, i + 1, room - cli::char_bytes(s[i]));
        }
    }
}

/// A description is shown without white space at its ends, whole where it takes at most a hundred
/// bytes, and otherwise as the longest beginning that does, with three dots.
pub proof fn long_descriptions_are_cut(s: Seq<char>) -> (n: int)
    ensures
        0 <= n <= text::trim_of(s).len(),
        bytes_of(text::trim_of(s).take(n)) <= 100,
        n < text::trim_of(s).len() ==> bytes_of(text::trim_of(s).take(n + 1)) > 100
            && cli::shown_description(s) == text::trim_of(s).take(n) + "..."@,
        n == text::trim_of(s).len() ==> cli::shown_description(s) == text::trim_of(s),
{
    let t = text::trim_of(s);
    lemma_fitting(t, 0, 100);
    assert(t.take(0) =~= Seq::empty());
    cli::fitting(t, 0, 100)
}

// ---------------------------------------------------------------------------
// Rows
// ---------------------------------------------------------------------------

/// A row where there is something to show, and none otherwise.
pub open spec fn row_if(
    there: bool,
    name: Seq<char>,
    value: Seq<char>,
) -> Seq<(Seq<char>, Seq<char>)> {
    if there {
        seq![(name, value)]
    } else {
        Seq::empty()
    }
}

/// An artifact is told of by its coordinates and packaging, then by the name, the description,
/// the URL and the parent of its POM, each as far as it is there, and then by the number of its
/// dependencies. A blank description is none.
pub proof fn rows_tell_of_the_artifact(c: CoordModel, p: PomModel)
    ensures
        cli::info_rows_of(c, p) == seq![
            ("Group ID"@, c.group_id),
            ("Artifact ID"@, c.artifact_id),
            ("Version"@, c.version),
            (
                "Packaging"@,
                if p.packaging is Some {
                    p.packaging->0
                } else {
                    "jar"@
                },
            ),
        ] + row_if(p.name is Some, "Name"@, p.name->0) + row_if(
            p.description is Some && !words::is_blank(p.description->0),
            "Description"@,
            cli::shown_description(p.description->0),
        ) + row_if(p.url is Some, "URL"@, p.url->0) + row_if(
            p.parent is Some,
            "Parent"@,
            p.parent->0.group_id + ":"@ + p.parent->0.artifact_id + ":"@ + p.parent->0.version,
        ) + seq![("Dependencies"@, text::decimal_of(p.dependencies.len()))],
{
    if let Some(d) = p.description {
        let ends = words::trimming_leaves_the_middle(d);
    }
}

/// A dependency is shown by its number, counted from one, its group, artifact and version, and
/// its scope; a repository by its ID and URL; and a version as it is, the latest release with an
/// arrow and a remark.
pub proof fn rows_name_what_they_show(
    d: ResolvedModel,
    i: int,
    r: PomRepositoryModel,
    v: Seq<char>,
    w: Seq<char>,
)
    requires
        i >= 0,
        v != w,
    ensures
        ({
            let (number, artifact, scope) = cli::dependency_row(d, i);
            &&& number == text::decimal_of((i + 1) as nat)
            &&& artifact == d.coord.group_id + ":"@ + d.coord.artifact_id + ":"@ + d.coord.version
            &&& scope == d.scope
        }),
        r.id matches Some(id) ==> cli::repository_line(r) == "    - "@ + id + ": "@ + r.url,
        r.id is None ==> cli::repository_line(r) == "    - (none): "@ + r.url,
        cli::version_row(v, Some(v)) == ("→ "@ + v + " (latest release)"@, true),
        cli::version_row(v, Some(w)) == (v, false),
        cli::version_row(v, None) == (v, false),
{
    reveal_strlit("    - ");
    reveal_strlit("(none)");
    reveal_strlit(": ");
    reveal_strlit("    - (none): ");
    assert("    - (none): "@ =~= "    - "@ + "(none)"@ + ": "@);
}

proof fn lemma_paths_push(ds: Seq<ResolvedModel>, d: ResolvedModel, i: int)
    requires
        0 <= i <= ds.len(),
    ensures
        cli::paths_from(ds.push(d), i) == cli::paths_from(ds, i) + (if d.path is Some {
            seq![d.path->0]
        } else {
            Seq::empty()
        }),
    decreases ds.len() - i,
{
    let all = ds.push(d);
    let last = if d.path is Some {
        seq![d.path->0]
    } else {
        Seq::empty()
    };
    if i < ds.len() {
        assert(all[i] == ds[i]);
        lemma_paths_push(ds, d, i + 1);
        if let Some(p) = ds[i].path {
            let more = cli::paths_from(ds, i + 1);
            assert(seq![p] + (more + last) =~= (seq![p] + more) + last);
        }
    } else {
        assert(all[i] == d);
        assert(cli::paths_from(all, i + 1) =~= Seq::empty());
        assert(cli::paths_from(ds, i) =~= Seq::empty());
        assert(cli::paths_from(all, i) =~= last);
        assert(Seq::empty() + last =~= last);
    }
}

/// The paths of dependencies are those of all whose files were downloaded, in their order.
pub proof fn downloaded_files_give_their_paths(ds: Seq<ResolvedModel>, d: ResolvedModel)
    ensures
        cli::paths_from(Seq::empty(), 0) == Seq::<Seq<char>>::empty(),
        cli::paths_from(ds.push(d), 0) == cli::paths_from(ds, 0) + (if d.path is Some {
            seq![d.path->0]
        } else {
            Seq::empty()
        }),
{
    lemma_paths_push(ds, d, 0);
}

} // verus!
