//! What a repository says of the versions of an artifact.
use crate::text;
use crate::text::Order;
use vstd::prelude::*;

verus! {

/// The content of a `maven-metadata.xml`.
#[derive(Debug)]
pub struct MavenMetadata {
    pub group_id: Option<String>,
    pub artifact_id: Option<String>,
    pub version: Option<String>,
    pub versioning: Option<Versioning>,
}

/// The versions of an artifact.
#[derive(Debug)]
pub struct Versioning {
    pub latest: Option<String>,
    pub release: Option<String>,
    pub versions: Versions,
    pub last_updated: Option<String>,
    pub snapshot: Option<Snapshot>,
}

/// A list of versions.
#[derive(Debug)]
pub struct Versions {
    pub version: Vec<String>,
}

/// The build that a snapshot version stands for.
#[derive(Debug)]
pub struct Snapshot {
    pub timestamp: Option<String>,
    pub build_number: Option<u32>,
}

/// A snapshot's build over texts.
#[verifier::ext_equal]
pub struct SnapshotModel {
    pub timestamp: Option<Seq<char>>,
    pub build_number: Option<u32>,
}

/// The versions of an artifact over texts.
#[verifier::ext_equal]
pub struct VersioningModel {
    pub latest: Option<Seq<char>>,
    pub release: Option<Seq<char>>,
    pub versions: Seq<Seq<char>>,
    pub last_updated: Option<Seq<char>>,
    pub snapshot: Option<SnapshotModel>,
}

/// Metadata over texts.
#[verifier::ext_equal]
pub struct MetadataModel {
    pub group_id: Option<Seq<char>>,
    pub artifact_id: Option<Seq<char>>,
    pub version: Option<Seq<char>>,
    pub versioning: Option<VersioningModel>,
}

impl View for Snapshot {
    type V = SnapshotModel;

    open spec fn view(&self) -> SnapshotModel {
        SnapshotModel {
            timestamp: text::opt_view(self.timestamp),
            build_number: self.build_number,
        }
    }
}

impl View for Versions {
    type V = Seq<Seq<char>>;

    open spec fn view(&self) -> Seq<Seq<char>> {
        text::views(self.version@)
    }
}

impl View for Versioning {
    type V = VersioningModel;

    open spec fn view(&self) -> VersioningModel {
        VersioningModel {
            latest: text::opt_view(self.latest),
            release: text::opt_view(self.release),
            versions: self.versions@,
            last_updated: text::opt_view(self.last_updated),
            snapshot: text::opt_view(self.snapshot),
        }
    }
}

impl View for MavenMetadata {
    type V = MetadataModel;

    open spec fn view(&self) -> MetadataModel {
        MetadataModel {
            group_id: text::opt_view(self.group_id),
            artifact_id: text::opt_view(self.artifact_id),
            version: text::opt_view(self.version),
            versioning: text::opt_view(self.versioning),
        }
    }
}

impl Clone for Snapshot {
    fn clone(&self) -> (r: Self)
        ensures
            r@ == self@,
    {
        Snapshot {
            timestamp: text::clone_opt(&self.timestamp),
            build_number: self.build_number,
        }
    }
}

impl Clone for Versions {
    fn clone(&self) -> (r: Self)
        ensures
            r@ == self@,
    {
        Versions { version: text::clone_strings(&self.version) }
    }
}

impl Default for Versions {
    fn default() -> (r: Self)
        ensures
            r@ == Seq::<Seq<char>>::empty(),
    {
        let r = Versions { version: Vec::new() };
        assert(r@ =~= Seq::<Seq<char>>::empty());
        r
    }
}

impl Clone for Versioning {
    fn clone(&self) -> (r: Self)
        ensures
            r@ == self@,
    {
        let snapshot = match &self.snapshot {
            Some(s) => Some(s.clone()),
            None => None,
        };
        Versioning {
            latest: text::clone_opt(&self.latest),
            release: text::clone_opt(&self.release),
            versions: self.versions.clone(),
            last_updated: text::clone_opt(&self.last_updated),
            snapshot,
        }
    }
}

impl Clone for MavenMetadata {
    fn clone(&self) -> (r: Self)
        ensures
            r@ == self@,
    {
        let versioning = match &self.versioning {
            Some(v) => Some(v.clone()),
            None => None,
        };
        MavenMetadata {
            group_id: text::clone_opt(&self.group_id),
            artifact_id: text::clone_opt(&self.artifact_id),
            version: text::clone_opt(&self.version),
            versioning,
        }
    }
}

/// The versions that metadata lists.
pub open spec fn versions_of(m: MetadataModel) -> Seq<Seq<char>> {
    match m.versioning {
        Some(v) => v.versions,
        None => Seq::empty(),
    }
}

/// The latest release that metadata names.
pub open spec fn release_of(m: MetadataModel) -> Option<Seq<char>> {
    match m.versioning {
        Some(v) => v.release,
        None => None,
    }
}

/// The latest version that metadata names.
pub open spec fn latest_of(m: MetadataModel) -> Option<Seq<char>> {
    match m.versioning {
        Some(v) => v.latest,
        None => None,
    }
}

impl MavenMetadata {
    /// All versions that are listed.
    pub fn available_versions(&self) -> (r: Vec<&str>)
        ensures
            text::views(r@) == versions_of(self@),
    {
        let mut out: Vec<&str> = Vec::new();
        if let Some(v) = &self.versioning {
            let list = &v.versions.version;
            for i in 0..list.len()
                invariant
                    out@.len() == i,
                    forall|j: int| 0 <= j < i ==> (#[trigger] out@[j])@ == list@[j]@,
            {
                out.push(list[i].as_str());
            }
        }
        assert(text::views(out@) =~= versions_of(self@));
        out
    }

    /// The latest release version.
    pub fn latest_release(&self) -> (r: Option<&str>)
        ensures
            match r {
                Some(v) => release_of(self@) == Some(v@),
                None => release_of(self@) is None,
            },
    {
        match &self.versioning {
            Some(v) => match &v.release {
                Some(s) => Some(s.as_str()),
                None => None,
            },
            None => None,
        }
    }

    /// The latest version, snapshots included.
    pub fn latest_version(&self) -> (r: Option<&str>)
        ensures
            match r {
                Some(v) => latest_of(self@) == Some(v@),
                None => latest_of(self@) is None,
            },
    {
        match &self.versioning {
            Some(v) => match &v.latest {
                Some(s) => Some(s.as_str()),
                None => None,
            },
            None => None,
        }
    }
}

// ---------------------------------------------------------------------------
// Merging
// ---------------------------------------------------------------------------

/// Whether one time stamp is later than another; none is the earliest.
pub open spec fn is_later(a: Option<Seq<char>>, b: Option<Seq<char>>) -> bool {
    match (a, b) {
        (Some(x), Some(y)) => text::text_order(x, y) == Order::Greater,
        (Some(_), None) => true,
        (None, _) => false,
    }
}

/// `list` with those of `more`, from position `i` on, that are not in it.
pub open spec fn union_from(list: Seq<Seq<char>>, more: Seq<Seq<char>>, i: int) -> Seq<Seq<char>>
    decreases more.len() - i,
{
    if i >= more.len() {
        list
    } else if list.contains(more[i]) {
        union_from(list, more, i + 1)
    } else {
        union_from(list.push(more[i]), more, i + 1)
    }
}

/// What two sources say of an artifact's versions: all versions, and the latest values from the
/// source that was updated later.
pub open spec fn merged_versioning(b: VersioningModel, o: VersioningModel) -> VersioningModel {
    let newer = is_later(o.last_updated, b.last_updated);
    VersioningModel {
        versions: union_from(b.versions, o.versions, 0),
        release: if newer && o.release is Some {
            o.release
        } else {
            b.release
        },
        latest: if newer && o.latest is Some {
            o.latest
        } else {
            b.latest
        },
        last_updated: if newer {
            o.last_updated
        } else {
            b.last_updated
        },
        snapshot: if b.snapshot is Some {
            b.snapshot
        } else {
            o.snapshot
        },
    }
}

/// What two sources say of an artifact.
pub open spec fn merged(base: MetadataModel, other: MetadataModel) -> MetadataModel {
    MetadataModel {
        versioning: match (base.versioning, other.versioning) {
            (Some(b), Some(o)) => Some(merged_versioning(b, o)),
            (None, o) => o,
            (b, None) => b,
        },
        ..base
    }
}

fn is_after(a: &Option<String>, b: &Option<String>) -> (r: bool)
    ensures
        r == is_later(text::opt_view(*a), text::opt_view(*b)),
{
    match (a, b) {
        (Some(x), Some(y)) => text::compare_text(x.as_str(), y.as_str()) == Order::Greater,
        (Some(_), None) => true,
        (None, _) => false,
    }
}

fn merge_versions(list: Vec<String>, more: &Vec<String>) -> (r: Vec<String>)
    ensures
        text::views(r@) == union_from(text::views(list@), text::views(more@), 0),
{
    let mut out = list;
    let ghost start = text::views(list@);
    let ghost m = text::views(more@);
    for i in 0..more.len()
        invariant
            m == text::views(more@),
            union_from(start, m, 0) == union_from(text::views(out@), m, i as int),
    {
        let ghost before = text::views(out@);
        if !text::contains_string(&out, more[i].as_str()) {
            out.push(more[i].clone());
            assert(text::views(out@) =~= before.push(m[i as int]));
        }
    }
    out
}

/// Merges what two sources say of an artifact: all versions that either lists, and the latest
/// `release`, `latest` and `lastUpdated` values.
pub fn merge_metadata(base: MavenMetadata, other: MavenMetadata) -> (r: MavenMetadata)
    ensures
        r@ == merged(base@, other@),
{
    let versioning = match (base.versioning, other.versioning) {
        (Some(b), Some(o)) => {
            let newer = is_after(&o.last_updated, &b.last_updated);
            let versions = Versions {
                version: merge_versions(b.versions.version, &o.versions.version),
            };
            let release = if newer && o.release.is_some() {
                o.release
            } else {
                b.release
            };
            let latest = if newer && o.latest.is_some() {
                o.latest
            } else {
                b.latest
            };
            let last_updated = if newer {
                o.last_updated
            } else {
                b.last_updated
            };
            let snapshot = if b.snapshot.is_some() {
                b.snapshot
            } else {
                o.snapshot
            };
            Some(Versioning { latest, release, versions, last_updated, snapshot })
        },
        (None, o) => o,
        (b, None) => b,
    };
    MavenMetadata {
        group_id: base.group_id,
        artifact_id: base.artifact_id,
        version: base.version,
        versioning,
    }
}

/// What several sources say of an artifact, merged in their order; nothing where there is none.
pub open spec fn merged_all(sources: Seq<MetadataModel>) -> Option<MetadataModel>
    decreases sources.len(),
{
    if sources.len() == 0 {
        None
    } else {
        match merged_all(sources.drop_last()) {
            None => Some(sources.last()),
            Some(m) => Some(merged(m, sources.last())),
        }
    }
}

/// Merges what several sources say of an artifact, in their order.
pub fn merge_all(sources: Vec<MavenMetadata>) -> (r: Option<MavenMetadata>)
    ensures
        text::opt_view(r) == merged_all(text::views(sources@)),
{
    let ghost all = text::views(sources@);
    let ghost mut n: int = 0;
    let mut rest = sources;
    let mut out: Option<MavenMetadata> = None;
    proof {
        assert(all.skip(0) =~= all);
        assert(all.take(0) =~= Seq::empty());
    }
    while rest.len() > 0
        invariant
            0 <= n <= all.len(),
            text::views(rest@) == all.skip(n),
            text::opt_view(out) == merged_all(all.take(n)),
        decreases rest@.len(),
    {
        let ghost before = rest@;
        let m = rest.remove(0);
        proof {
            assert(text::views(before).len() == before.len());
            assert(text::views(before)[0] == m@);
            assert(text::views(rest@) =~= all.skip(n + 1)) by {
                assert forall|i: int| 0 <= i < rest@.len() implies (#[trigger] rest@[i])@
                    == all.skip(n + 1)[i] by {
                    assert(rest@[i] == before[i + 1]);
                    assert(text::views(before)[i + 1] == all.skip(n)[i + 1]);
                }
            }
            assert(all.take(n + 1).drop_last() =~= all.take(n));
            assert(all.take(n + 1).last() == m@);
            n = n + 1;
        }
        out = match out {
            None => Some(m),
            Some(base) => Some(merge_metadata(base, m)),
        };
    }
    proof {
        assert(text::views(rest@).len() == rest@.len());
        assert(all.take(n) =~= all);
    }
    out
}

} // verus!
