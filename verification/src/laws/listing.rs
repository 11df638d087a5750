//! Laws of metadata: what it tells, how sources are merged, what an upload changes, and how it is
//! written.
use crate::coord::CoordModel;
use crate::metadata;
use crate::metadata::MetadataModel;
use crate::metadata::VersioningModel;
use crate::text;
use crate::text::Order;
use crate::uploader;
use vstd::prelude::*;

verus! {

// ---------------------------------------------------------------------------
// Reading
// ---------------------------------------------------------------------------

/// Metadata tells the versions, the latest release and the latest version that its versioning
/// part has, and none where it has no such part.
pub proof fn versioning_is_told(m: MetadataModel)
    ensures
        m.versioning matches Some(v) ==> metadata::versions_of(m) == v.versions
            && metadata::release_of(m) == v.release && metadata::latest_of(m) == v.latest,
        m.versioning is None ==> metadata::versions_of(m).len() == 0 && metadata::release_of(m)
            is None && metadata::latest_of(m) is None,
{
}

// ---------------------------------------------------------------------------
// Merging
// ---------------------------------------------------------------------------

/// Whether a source was updated after another one, by the order of their time stamps; one with a
/// time stamp was updated after one without.
pub open spec fn updated_after(o: VersioningModel, b: VersioningModel) -> bool {
    o.last_updated is Some && (b.last_updated is None || text::text_order(
        o.last_updated->0,
        b.last_updated->0,
    ) == Order::Greater)
}

/// Merged metadata is about what the first source is about, and tells the release and the latest
/// version of the source that was updated last, as far as it names them. The build of a snapshot
/// is that of the first source that has one.
pub proof fn later_source_names_the_latest(
    base: MetadataModel,
    other: MetadataModel,
    b: VersioningModel,
    o: VersioningModel,
)
    requires
        base.versioning == Some(b),
        other.versioning == Some(o),
    ensures
        ({
            let m = metadata::merged(base, other);
            let newer = updated_after(o, b);
            &&& m.group_id == base.group_id
            &&& m.artifact_id == base.artifact_id
            &&& m.version == base.version
            &&& m.versioning matches Some(v) && {
                &&& newer && o.release is Some ==> v.release == o.release
                &&& !newer || o.release is None ==> v.release == b.release
                &&& newer && o.latest is Some ==> v.latest == o.latest
                &&& !newer || o.latest is None ==> v.latest == b.latest
                &&& newer ==> v.last_updated == o.last_updated
                &&& !newer ==> v.last_updated == b.last_updated
                &&& b.snapshot is Some ==> v.snapshot == b.snapshot
                &&& b.snapshot is None ==> v.snapshot == o.snapshot
            }
        }),
{
}

/// A source that says nothing of versions changes nothing in another one, and takes over what the
/// other one says of them.
pub proof fn empty_source_adds_nothing(m: MetadataModel, empty: MetadataModel)
    requires
        empty.versioning is None,
    ensures
        metadata::merged(m, empty) == m,
        metadata::merged(empty, m).versioning == m.versioning,
        metadata::merged(empty, m).group_id == empty.group_id,
        metadata::merged(empty, m).artifact_id == empty.artifact_id,
        metadata::merged(empty, m).version == empty.version,
{
}

proof fn lemma_union_push(list: Seq<Seq<char>>, more: Seq<Seq<char>>, x: Seq<char>, i: int)
    requires
        0 <= i <= more.len(),
    ensures
        ({
            let all = metadata::union_from(list, more, i);
            metadata::union_from(list, more.push(x), i) == if all.contains(x) {
                all
            } else {
                all.push(x)
            }
        }),
    decreases more.len() - i,
{
    let longer = more.push(x);
    if i < more.len() {
        assert(longer[i] == more[i]);
        if list.contains(more[i]) {
            lemma_union_push(list, more, x, i + 1);
        } else {
            lemma_union_push(list.push(more[i]), more, x, i + 1);
        }
    } else {
        assert(longer[i] == x);
        assert(metadata::union_from(list, longer, i + 1) == list);
        assert(metadata::union_from(list.push(x), longer, i + 1) == list.push(x));
    }
}

/// Merging lists of versions adds those of the second one behind the first one in their order,
/// each unless it is there already.
pub proof fn versions_are_added_in_order(list: Seq<Seq<char>>, more: Seq<Seq<char>>, x: Seq<char>)
    ensures
        metadata::union_from(list, Seq::empty(), 0) == list,
        ({
            let all = metadata::union_from(list, more, 0);
            metadata::union_from(list, more.push(x), 0) == if all.contains(x) {
                all
            } else {
                all.push(x)
            }
        }),
{
    lemma_union_push(list, more, x, 0);
}

/// Several sources are merged one after the other, from the first one on.
pub proof fn sources_are_merged_in_order(sources: Seq<MetadataModel>, m: MetadataModel)
    ensures
        metadata::merged_all(Seq::empty()) is None,
        metadata::merged_all(seq![m]) == Some(m),
        sources.len() > 0 ==> metadata::merged_all(sources) is Some && metadata::merged_all(
            sources.push(m),
        ) == Some(metadata::merged(metadata::merged_all(sources)->0, m)),
{
    reveal_with_fuel(metadata::merged_all, 2);
    assert(seq![m].drop_last() =~= Seq::empty());
    assert(sources.push(m).drop_last() =~= sources);
    assert(sources.push(m).last() == m);
}

// ---------------------------------------------------------------------------
// Uploading
// ---------------------------------------------------------------------------

/// An upload makes its version the latest one, at the given time, puts it behind the versions
/// that were listed unless it was among them, and makes it the release unless it is a snapshot,
/// after which the release is what it was. What metadata says beside that stays, and where there
/// was none it is about the artifact.
pub proof fn uploads_bring_metadata_up_to_date(
    existing: Option<MetadataModel>,
    c: CoordModel,
    timestamp: Seq<char>,
)
    ensures
        ({
            let m = uploader::metadata_after(existing, c, timestamp);
            let snapshot = text::holds_text(c.version, "SNAPSHOT"@);
            let told = existing is Some && existing->0.versioning is Some;
            let old_versions = if told {
                existing->0.versioning->0.versions
            } else {
                Seq::empty()
            };
            let old_release = if told {
                existing->0.versioning->0.release
            } else {
                None
            };
            &&& existing is None ==> m.group_id == Some(c.group_id) && m.artifact_id == Some(
                c.artifact_id,
            ) && m.version is None
            &&& existing is Some ==> m.group_id == existing->0.group_id && m.artifact_id
                == existing->0.artifact_id && m.version == existing->0.version
            &&& m.versioning is Some
            &&& m.versioning->0.latest == Some(c.version)
            &&& m.versioning->0.last_updated == Some(timestamp)
            &&& snapshot ==> m.versioning->0.release == old_release
            &&& !snapshot ==> m.versioning->0.release == Some(c.version)
            &&& old_versions.contains(c.version) ==> m.versioning->0.versions == old_versions
            &&& !old_versions.contains(c.version) ==> m.versioning->0.versions
                == old_versions.push(c.version)
            &&& told ==> m.versioning->0.snapshot == existing->0.versioning->0.snapshot
            &&& !told ==> m.versioning->0.snapshot is None
        }),
{
    let none = Seq::<Seq<char>>::empty();
    assert(none.push(c.version) =~= seq![c.version]);
}

// ---------------------------------------------------------------------------
// Writing
// ---------------------------------------------------------------------------

/// A value between its tags, on a line of its own; nothing where there is none.
pub open spec fn line_for(
    before: Seq<char>,
    value: Option<Seq<char>>,
    after: Seq<char>,
) -> Seq<char> {
    if value is Some {
        before + value->0 + after
    } else {
        Seq::empty()
    }
}

proof fn lemma_element(indent: Seq<char>, name: Seq<char>, value: Option<Seq<char>>)
    ensures
        uploader::opt_element(indent, name, value) == line_for(
            indent + "<"@ + name + ">"@,
            value,
            "</"@ + name + ">\n"@,
        ),
{
    if let Some(v) = value {
        assert(uploader::opt_element(indent, name, value) =~= indent + "<"@ + name + ">"@ + v
            + ("</"@ + name + ">\n"@));
    }
}

/// Each version is written on a line of its own, one behind the other.
pub proof fn versions_are_written_in_order(versions: Seq<Seq<char>>, v: Seq<char>)
    ensures
        uploader::version_elements(Seq::empty()) == Seq::<char>::empty(),
        uploader::version_elements(versions.push(v)) == uploader::version_elements(versions)
            + ("      <version>"@ + v + "</version>\n"@),
{
    reveal_strlit("      ");
    reveal_strlit("<");
    reveal_strlit("version");
    reveal_strlit(">");
    reveal_strlit("</");
    reveal_strlit(">\n");
    reveal_strlit("      <version>");
    reveal_strlit("</version>\n");
    assert("      <version>"@ =~= "      "@ + "<"@ + "version"@ + ">"@);
    assert("</version>\n"@ =~= "</"@ + "version"@ + ">\n"@);
    assert(versions.push(v).drop_last() =~= versions);
    assert(uploader::element("      "@, "version"@, v) =~= "      <version>"@ + v
        + "</version>\n"@);
}

/// What metadata says of versions is written as the latest version, the release, the versions and
/// the time of the last update, each as far as it is there, in this order.
pub proof fn versioning_is_written_in_order(v: VersioningModel)
    ensures
        uploader::versioning_xml(v) == "  <versioning>\n"@ + line_for(
            "    <latest>"@,
            v.latest,
            "</latest>\n"@,
        ) + line_for("    <release>"@, v.release, "</release>\n"@) + "    <versions>\n"@
            + uploader::version_elements(v.versions) + "    </versions>\n"@ + line_for(
            "    <lastUpdated>"@,
            v.last_updated,
            "</lastUpdated>\n"@,
        ) + "  </versioning>\n"@,
{
    reveal_strlit("    ");
    reveal_strlit("<");
    reveal_strlit(">");
    reveal_strlit("</");
    reveal_strlit(">\n");
    reveal_strlit("latest");
    reveal_strlit("release");
    reveal_strlit("lastUpdated");
    reveal_strlit("    <latest>");
    reveal_strlit("</latest>\n");
    reveal_strlit("    <release>");
    reveal_strlit("</release>\n");
    reveal_strlit("    <lastUpdated>");
    reveal_strlit("</lastUpdated>\n");
    lemma_element("    "@, "latest"@, v.latest);
    lemma_element("    "@, "release"@, v.release);
    lemma_element("    "@, "lastUpdated"@, v.last_updated);
    assert("    <latest>"@ =~= "    "@ + "<"@ + "latest"@ + ">"@);
    assert("</latest>\n"@ =~= "</"@ + "latest"@ + ">\n"@);
    assert("    <release>"@ =~= "    "@ + "<"@ + "release"@ + ">"@);
    assert("</release>\n"@ =~= "</"@ + "release"@ + ">\n"@);
    assert("    <lastUpdated>"@ =~= "    "@ + "<"@ + "lastUpdated"@ + ">"@);
    assert("</lastUpdated>\n"@ =~= "</"@ + "lastUpdated"@ + ">\n"@);
}

/// Metadata is written as the group, the artifact and the version, each as far as it is there,
/// and what it says of versions, in this order, within a `metadata` element.
pub proof fn metadata_is_written_in_order(m: MetadataModel)
    ensures
        uploader::metadata_xml(m)
            == "<?xml version=\"1.0\" encoding=\"UTF-8\"?>\n<metadata>\n"@ + line_for(
            "  <groupId>"@,
            m.group_id,
            "</groupId>\n"@,
        ) + line_for("  <artifactId>"@, m.artifact_id, "</artifactId>\n"@) + line_for(
            "  <version>"@,
            m.version,
            "</version>\n"@,
        ) + (if m.versioning is Some {
            uploader::versioning_xml(m.versioning->0)
        } else {
            Seq::empty()
        }) + "</metadata>\n"@,
{
    reveal_strlit("  ");
    reveal_strlit("<");
    reveal_strlit(">");
    reveal_strlit("</");
    reveal_strlit(">\n");
    reveal_strlit("groupId");
    reveal_strlit("artifactId");
    reveal_strlit("version");
    reveal_strlit("  <groupId>");
    reveal_strlit("</groupId>\n");
    reveal_strlit("  <artifactId>");
    reveal_strlit("</artifactId>\n");
    reveal_strlit("  <version>");
    reveal_strlit("</version>\n");
    lemma_element("  "@, "groupId"@, m.group_id);
    lemma_element("  "@, "artifactId"@, m.artifact_id);
    lemma_element("  "@, "version"@, m.version);
    assert("  <groupId>"@ =~= "  "@ + "<"@ + "groupId"@ + ">"@);
    assert("</groupId>\n"@ =~= "</"@ + "groupId"@ + ">\n"@);
    assert("  <artifactId>"@ =~= "  "@ + "<"@ + "artifactId"@ + ">"@);
    assert("</artifactId>\n"@ =~= "</"@ + "artifactId"@ + ">\n"@);
    assert("  <version>"@ =~= "  "@ + "<"@ + "version"@ + ">"@);
    assert("</version>\n"@ =~= "</"@ + "version"@ + ">\n"@);
}

} // verus!
