//! What the command line takes and shows.
use crate::coord;
use crate::coord::ArtifactCoord;
use crate::coord::CoordModel;
use crate::coord::DependencyScope;
use crate::metadata;
use crate::metadata::MavenMetadata;
use crate::metadata::MetadataModel;
use crate::pom;
use crate::pom::Pom;
use crate::pom::PomModel;
use crate::pom::PomRepositoryModel;
use crate::repository;
use crate::repository::RemoteModel;
use crate::repository::RemoteRepository;
use crate::resolver::ResolvedDependency;
use crate::resolver::ResolvedModel;
use crate::settings;
use crate::settings::Settings;
use crate::settings::SettingsModel;
use crate::text;
use vstd::prelude::*;

verus! {

// ---------------------------------------------------------------------------
// Arguments
// ---------------------------------------------------------------------------

/// Reads a scope filter: `all` in any case for none, or the name of a scope.
pub fn parse_scope_filter(s: &str) -> (r: Result<Option<DependencyScope>, String>)
    ensures
        match r {
            Ok(None) => text::lower_of(s@) == "all"@,
            Ok(Some(scope)) => text::lower_of(s@) != "all"@ && coord::scope_named(s@) == Some(
                scope,
            ),
            Err(e) => text::lower_of(s@) != "all"@ && coord::scope_named(s@) is None && e@
                == "unknown dependency scope '"@ + s@ + "'"@,
        },
{
    if text::str_eq(text::to_lower(s).as_str(), "all") {
        return Ok(None);
    }
    match DependencyScope::parse(s) {
        Ok(scope) => Ok(Some(scope)),
        Err(e) => Err(e),
    }
}

/// The group and the artifact that a search is for: the first two parts of coordinates.
pub open spec fn search_parts(s: Seq<char>) -> Result<(Seq<char>, Seq<char>), Seq<char>> {
    let parts = text::split_of(s, ':');
    if parts.len() < 2 {
        Err("expected at least groupId:artifactId, got '"@ + s + "'"@)
    } else {
        Ok((parts[0], parts[1]))
    }
}

/// Reads what a search is for. A version is not needed, and is passed over.
pub fn parse_search(s: &str) -> (r: Result<(String, String), String>)
    ensures
        match r {
            Ok((g, a)) => search_parts(s@) == Ok::<(Seq<char>, Seq<char>), Seq<char>>((g@, a@)),
            Err(e) => search_parts(s@) == Err::<(Seq<char>, Seq<char>), Seq<char>>(e@),
        },
{
    let parts = text::split(s, ':');
    let ghost ps = text::split_of(s@, ':');
    assert(ps.len() == parts@.len());
    if parts.len() < 2 {
        let mut e = "expected at least groupId:artifactId, got '".to_owned();
        e.append(s);
        e.append("'");
        return Err(e);
    }
    assert(ps[0] == parts@[0]@ && ps[1] == parts@[1]@);
    Ok((parts[0].clone(), parts[1].clone()))
}

/// Whether a line of a list of coordinates holds coordinates: it is neither empty nor a comment.
pub open spec fn holds_coords(line: Seq<char>) -> bool {
    let t = text::trim_of(line);
    t.len() > 0 && t[0] != '#'
}

/// The coordinates in the lines from position `i` on.
pub open spec fn coords_from(lines: Seq<Seq<char>>, i: int) -> Seq<Seq<char>>
    decreases lines.len() - i,
{
    if i >= lines.len() {
        Seq::empty()
    } else if holds_coords(lines[i]) {
        seq![text::trim_of(lines[i])] + coords_from(lines, i + 1)
    } else {
        coords_from(lines, i + 1)
    }
}

/// Reads a list of coordinates, one on each line. Empty lines and lines that begin with `#` are
/// passed over.
pub fn coordinate_lines(content: &str) -> (r: Vec<String>)
    ensures
        text::views(r@) == coords_from(text::split_of(content@, '\n'), 0),
{
    let lines = text::split(content, '\n');
    let ghost ls = text::split_of(content@, '\n');
    let mut out: Vec<String> = Vec::new();
    assert(text::views(out@) + coords_from(ls, 0) =~= coords_from(ls, 0));
    for i in 0..lines.len()
        invariant
            ls == text::views(lines@),
            text::views(out@) + coords_from(ls, i as int) == coords_from(ls, 0),
    {
        assert(ls[i as int] == lines@[i as int]@);
        let t = text::trim(lines[i].as_str());
        let chars = text::chars_of(t.as_str());
        if chars.len() > 0 && chars[0] != '#' {
            let ghost before = text::views(out@);
            let ghost tm = t@;
            out.push(t);
            assert(text::views(out@) =~= before.push(tm));
            assert(before + (seq![tm] + coords_from(ls, i + 1)) =~= text::views(out@)
                + coords_from(ls, i + 1));
        }
    }
    assert(text::views(out@) =~= coords_from(ls, 0));
    out
}

/// The repository that is uploaded to: with the given user name and password where both are
/// given, and otherwise with those of the server of its ID.
pub open spec fn upload_target_of(
    id: Seq<char>,
    url: Seq<char>,
    username: Option<Seq<char>>,
    password: Option<Seq<char>>,
    s: SettingsModel,
) -> RemoteModel {
    let open = repository::open_remote(id, url);
    if username is Some && password is Some {
        RemoteModel { username, password, ..open }
    } else {
        repository::with_server(open, s.servers)
    }
}

/// The repository that is uploaded to.
pub fn upload_target(
    id: &str,
    url: &str,
    username: Option<String>,
    password: Option<String>,
    settings: &Settings,
) -> (r: RemoteRepository)
    ensures
        r@ == upload_target_of(
            id@,
            url@,
            text::opt_view(username),
            text::opt_view(password),
            settings@,
        ),
{
    let mut remote = RemoteRepository::new(id, url);
    if username.is_some() && password.is_some() {
        remote.username = username;
        remote.password = password;
    } else if let Some(server) = settings.find_server(id) {
        remote.username = text::clone_opt(&server.username);
        remote.password = text::clone_opt(&server.password);
    }
    remote
}

// ---------------------------------------------------------------------------
// Tables
// ---------------------------------------------------------------------------

/// A row of a table of names and values.
#[derive(Debug)]
pub struct InfoRow {
    pub name: String,
    pub value: String,
}

impl View for InfoRow {
    type V = (Seq<char>, Seq<char>);

    open spec fn view(&self) -> (Seq<char>, Seq<char>) {
        (self.name@, self.value@)
    }
}

/// How many bytes of a description are shown.
pub const DESCRIPTION_LENGTH: usize = 100;

/// How many bytes a character takes.
pub open spec fn char_bytes(c: char) -> nat {
    let n = c as int;
    if n < 0x80 {
        1
    } else if n < 0x800 {
        2
    } else if n < 0x10000 {
        3
    } else {
        4
    }
}

/// How many of the characters from position `i` on fit into a number of bytes.
pub open spec fn fitting(s: Seq<char>, i: int, room: int) -> int
    decreases s.len() - i,
{
    if i >= s.len() || char_bytes(s[i]) > room {
        i
    } else {
        fitting(s, i + 1, room - char_bytes(s[i]))
    }
}

/// A description as it is shown: without white space at either end, and cut off where it is too
/// long.
pub open spec fn shown_description(s: Seq<char>) -> Seq<char> {
    let t = text::trim_of(s);
    let n = fitting(t, 0, DESCRIPTION_LENGTH as int);
    if n < t.len() {
        t.take(n) + "..."@
    } else {
        t
    }
}

/// A row for a value that is there.
pub open spec fn opt_row(name: Seq<char>, value: Option<Seq<char>>) -> Seq<(Seq<char>, Seq<char>)> {
    match value {
        Some(v) => seq![(name, v)],
        None => Seq::empty(),
    }
}

/// The description row of a POM.
pub open spec fn description_row(p: PomModel) -> Seq<(Seq<char>, Seq<char>)> {
    match p.description {
        Some(d) => if text::trim_of(d).len() > 0 {
            seq![("Description"@, shown_description(d))]
        } else {
            Seq::empty()
        },
        None => Seq::empty(),
    }
}

/// The parent row of a POM.
pub open spec fn parent_row(p: PomModel) -> Seq<(Seq<char>, Seq<char>)> {
    match p.parent {
        Some(q) => seq![("Parent"@, q.group_id + ":"@ + q.artifact_id + ":"@ + q.version)],
        None => Seq::empty(),
    }
}

/// The rows that tell of an artifact.
pub open spec fn info_rows_of(c: CoordModel, p: PomModel) -> Seq<(Seq<char>, Seq<char>)> {
    seq![
        ("Group ID"@, c.group_id),
        ("Artifact ID"@, c.artifact_id),
        ("Version"@, c.version),
        ("Packaging"@, pom::packaging_of(p)),
    ] + opt_row("Name"@, p.name) + description_row(p) + opt_row("URL"@, p.url) + parent_row(p)
        + seq![("Dependencies"@, text::decimal_of(p.dependencies.len()))]
}

fn bytes_of(c: char) -> (r: u64)
    ensures
        r == char_bytes(c),
        r <= 4,
{
    let n: u32 = c as u32;
    if n < 0x80 {
        1
    } else if n < 0x800 {
        2
    } else if n < 0x10000 {
        3
    } else {
        4
    }
}

fn shorten(description: &str) -> (r: String)
    ensures
        r@ == shown_description(description@),
{
    let t = text::trim(description);
    let chars = text::chars_of(t.as_str());
    let mut n: usize = 0;
    let mut room: u64 = DESCRIPTION_LENGTH as u64;
    while n < chars.len() && bytes_of(chars[n]) <= room
        invariant
            n <= chars@.len(),
            fitting(chars@, 0, DESCRIPTION_LENGTH as int) == fitting(
                chars@,
                n as int,
                room as int,
            ),
        decreases chars@.len() - n,
    {
        room -= bytes_of(chars[n]);
        n += 1;
    }
    if n < chars.len() {
        let mut out = text::string_of(&chars, 0, n);
        assert(out@ =~= chars@.take(n as int));
        out.append("...");
        out
    } else {
        t
    }
}

fn add_row(rows: &mut Vec<InfoRow>, name: &str, value: &str)
    ensures
        text::views(final(rows)@) == text::views(old(rows)@).push((name@, value@)),
{
    let ghost before = text::views(rows@);
    rows.push(InfoRow { name: name.to_owned(), value: value.to_owned() });
    assert(text::views(rows@) =~= before.push((name@, value@)));
}

fn add_opt_row(rows: &mut Vec<InfoRow>, name: &str, value: &Option<String>)
    ensures
        text::views(final(rows)@) == text::views(old(rows)@) + opt_row(
            name@,
            text::opt_view(*value),
        ),
{
    let ghost before = text::views(rows@);
    if let Some(v) = value {
        add_row(rows, name, v.as_str());
    }
    assert(text::views(rows@) =~= before + opt_row(name@, text::opt_view(*value)));
}

/// The rows that tell of an artifact.
pub fn info_rows(coord: &ArtifactCoord, pom: &Pom) -> (r: Vec<InfoRow>)
    ensures
        text::views(r@) == info_rows_of(coord@, pom@),
{
    let mut rows: Vec<InfoRow> = Vec::new();
    add_row(&mut rows, "Group ID", coord.group_id.as_str());
    add_row(&mut rows, "Artifact ID", coord.artifact_id.as_str());
    add_row(&mut rows, "Version", coord.version.as_str());
    add_row(&mut rows, "Packaging", pom.effective_packaging());
    let ghost first = seq![
        ("Group ID"@, coord@.group_id),
        ("Artifact ID"@, coord@.artifact_id),
        ("Version"@, coord@.version),
        ("Packaging"@, pom::packaging_of(pom@)),
    ];
    assert(text::views(rows@) =~= first);
    add_opt_row(&mut rows, "Name", &pom.name);
    let ghost named = text::views(rows@);
    if let Some(d) = &pom.description {
        if !text::trim(d.as_str()).as_str().is_empty() {
            add_row(&mut rows, "Description", shorten(d.as_str()).as_str());
        }
    }
    assert(text::views(rows@) =~= named + description_row(pom@));
    add_opt_row(&mut rows, "URL", &pom.url);
    let ghost linked = text::views(rows@);
    if let Some(q) = &pom.parent {
        let mut text = q.group_id.clone();
        text.append(":");
        text.append(q.artifact_id.as_str());
        text.append(":");
        text.append(q.version.as_str());
        add_row(&mut rows, "Parent", text.as_str());
    }
    assert(text::views(rows@) =~= linked + parent_row(pom@));
    let count = text::decimal(pom.dependencies.dependency.len() as u64);
    let ghost before = text::views(rows@);
    add_row(&mut rows, "Dependencies", count.as_str());
    assert(text::views(rows@) =~= before + seq![
        ("Dependencies"@, text::decimal_of(pom@.dependencies.len())),
    ]);
    rows
}

/// The line for a repository of a POM.
pub open spec fn repository_line(r: PomRepositoryModel) -> Seq<char> {
    let id = match r.id {
        Some(id) => id,
        None => "(none)"@,
    };
    "    - "@ + id + ": "@ + r.url
}

/// The lines for the repositories of a POM.
pub fn repository_lines(pom: &Pom) -> (r: Vec<String>)
    ensures
        text::views(r@) == pom@.repositories.map_values(
            |r: PomRepositoryModel| repository_line(r),
        ),
{
    let mut out: Vec<String> = Vec::new();
    let list = &pom.repositories.repository;
    for i in 0..list.len()
        invariant
            out@.len() == i,
            forall|j: int| 0 <= j < i ==> (#[trigger] out@[j])@ == repository_line(list@[j]@),
    {
        let mut line = "    - ".to_owned();
        match &list[i].id {
            Some(id) => line.append(id.as_str()),
            None => line.append("(none)"),
        }
        line.append(": ");
        line.append(list[i].url.as_str());
        out.push(line);
    }
    assert(text::views(out@) =~= pom@.repositories.map_values(
        |r: PomRepositoryModel| repository_line(r),
    ));
    out
}

/// A row of the table of dependencies.
#[derive(Debug)]
pub struct DependencyRow {
    pub number: String,
    pub artifact: String,
    pub scope: DependencyScope,
}

impl View for DependencyRow {
    type V = (Seq<char>, Seq<char>, DependencyScope);

    open spec fn view(&self) -> (Seq<char>, Seq<char>, DependencyScope) {
        (self.number@, self.artifact@, self.scope)
    }
}

/// The row for the dependency at a position.
pub open spec fn dependency_row(d: ResolvedModel, i: int) -> (
    Seq<char>,
    Seq<char>,
    DependencyScope,
) {
    (
        text::decimal_of((i + 1) as nat),
        d.coord.group_id + ":"@ + d.coord.artifact_id + ":"@ + d.coord.version,
        d.scope,
    )
}

/// The rows for dependencies, numbered from one.
pub fn dependency_rows(deps: &Vec<ResolvedDependency>) -> (r: Vec<DependencyRow>)
    ensures
        text::views(r@) == text::views(deps@).map(
            |i: int, d: ResolvedModel| dependency_row(d, i),
        ),
{
    let mut out: Vec<DependencyRow> = Vec::new();
    for i in 0..deps.len()
        invariant
            out@.len() == i,
            forall|j: int| 0 <= j < i ==> (#[trigger] out@[j])@ == dependency_row(deps@[j]@, j),
    {
        let d = &deps[i];
        let mut artifact = d.coord.group_id.clone();
        artifact.append(":");
        artifact.append(d.coord.artifact_id.as_str());
        artifact.append(":");
        artifact.append(d.coord.version.as_str());
        let number = text::decimal(i as u64 + 1);
        out.push(DependencyRow { number, artifact, scope: d.scope });
    }
    assert(text::views(out@) =~= text::views(deps@).map(
        |i: int, d: ResolvedModel| dependency_row(d, i),
    ));
    out
}

/// A row of the table of versions, and whether it is that of the latest release.
#[derive(Debug)]
pub struct VersionRow {
    pub text: String,
    pub is_latest: bool,
}

impl View for VersionRow {
    type V = (Seq<char>, bool);

    open spec fn view(&self) -> (Seq<char>, bool) {
        (self.text@, self.is_latest)
    }
}

/// The row for a version.
pub open spec fn version_row(v: Seq<char>, latest: Option<Seq<char>>) -> (Seq<char>, bool) {
    if latest == Some(v) {
        ("→ "@ + v + " (latest release)"@, true)
    } else {
        (v, false)
    }
}

/// The rows for the versions that metadata lists.
pub fn version_rows(meta: &MavenMetadata) -> (r: Vec<VersionRow>)
    ensures
        text::views(r@) == metadata::versions_of(meta@).map_values(
            |v: Seq<char>| version_row(v, metadata::release_of(meta@)),
        ),
{
    let mut out: Vec<VersionRow> = Vec::new();
    let versions = meta.available_versions();
    let ghost vs = metadata::versions_of(meta@);
    let latest = meta.latest_release();
    let ghost lm = metadata::release_of(meta@);
    for i in 0..versions.len()
        invariant
            vs == text::views(versions@),
            match latest {
                Some(l) => lm == Some(l@),
                None => lm is None,
            },
            out@.len() == i,
            forall|j: int| 0 <= j < i ==> (#[trigger] out@[j])@ == version_row(vs[j], lm),
    {
        let v = versions[i];
        assert(vs[i as int] == v@);
        let is_latest = match latest {
            Some(l) => text::str_eq(l, v),
            None => false,
        };
        let row = if is_latest {
            let mut line = "→ ".to_owned();
            line.append(v);
            line.append(" (latest release)");
            line
        } else {
            v.to_owned()
        };
        out.push(VersionRow { text: row, is_latest });
    }
    assert(text::views(out@) =~= vs.map_values(|v: Seq<char>| version_row(v, lm)));
    out
}

/// The paths of the dependencies, from position `i` on, whose files were downloaded.
pub open spec fn paths_from(ds: Seq<ResolvedModel>, i: int) -> Seq<Seq<char>>
    decreases ds.len() - i,
{
    if i >= ds.len() {
        Seq::empty()
    } else {
        match ds[i].path {
            Some(p) => seq![p] + paths_from(ds, i + 1),
            None => paths_from(ds, i + 1),
        }
    }
}

/// The paths of the dependencies whose files were downloaded.
pub fn downloaded_paths(deps: &Vec<ResolvedDependency>) -> (r: Vec<String>)
    ensures
        text::views(r@) == paths_from(text::views(deps@), 0),
{
    let mut out: Vec<String> = Vec::new();
    let ghost ds = text::views(deps@);
    assert(text::views(out@) + paths_from(ds, 0) =~= paths_from(ds, 0));
    for i in 0..deps.len()
        invariant
            ds == text::views(deps@),
            text::views(out@) + paths_from(ds, i as int) == paths_from(ds, 0),
    {
        assert(ds[i as int] == deps@[i as int]@);
        if let Some(p) = &deps[i].path {
            let ghost before = text::views(out@);
            out.push(p.clone());
            assert(text::views(out@) =~= before.push(p@));
            assert(before + (seq![p@] + paths_from(ds, i + 1)) =~= text::views(out@) + paths_from(
                ds,
                i + 1,
            ));
        }
    }
    assert(text::views(out@) =~= paths_from(ds, 0));
    out
}

} // verus!
