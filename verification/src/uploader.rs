//! Decisions of uploading: what is uploaded where, which answers are retried, and how the
//! metadata of a repository is brought up to date.
use crate::checksum;
use crate::coord;
use crate::coord::ArtifactCoord;
use crate::coord::CoordModel;
use crate::downloader;
use crate::error::ErrorModel;
use crate::error::MvnError;
use crate::metadata::MavenMetadata;
use crate::metadata::MetadataModel;
use crate::metadata::Versioning;
use crate::metadata::VersioningModel;
use crate::metadata::Versions;
use crate::repository;
use crate::repository::LocalRepository;
use crate::repository::RemoteModel;
use crate::repository::RemoteRepository;
use crate::text;
use vstd::prelude::*;

verus! {

// ---------------------------------------------------------------------------
// Results
// ---------------------------------------------------------------------------

/// Result of uploading a single artifact.
#[derive(Debug)]
pub struct UploadResult {
    pub coord: ArtifactCoord,
    /// Files that were uploaded (artifact, pom).
    pub uploaded_files: Vec<String>,
    /// Whether the artifact was skipped (already exists remotely).
    pub skipped: bool,
}

impl Clone for UploadResult {
    fn clone(&self) -> (r: Self)
        ensures
            r.coord@ == self.coord@,
            text::views(r.uploaded_files@) == text::views(self.uploaded_files@),
            r.skipped == self.skipped,
    {
        UploadResult {
            coord: self.coord.clone(),
            uploaded_files: text::clone_strings(&self.uploaded_files),
            skipped: self.skipped,
        }
    }
}

// ---------------------------------------------------------------------------
// Retrying
// ---------------------------------------------------------------------------

/// Whether an upload that failed with an error is worth another attempt.
pub open spec fn retryable_upload(e: ErrorModel) -> bool {
    match e {
        ErrorModel::NetworkError(_) => true,
        ErrorModel::UploadError { url, message } => downloader::tells_passing_status(message),
        _ => false,
    }
}

/// Whether an upload that failed with an error is worth another attempt.
pub fn is_retryable_upload(err: &MvnError) -> (r: bool)
    ensures
        r == retryable_upload(err@),
{
    match err {
        MvnError::NetworkError(_) => true,
        MvnError::UploadError { message, .. } => downloader::is_passing_status(message.as_str()),
        _ => false,
    }
}

/// What came of one attempt to put a document: a response with its status, by number and as
/// text, and its body, or a failure to send the request, with the reason.
#[derive(Debug)]
pub enum PutEvent {
    Response { code: u16, status: String, body: String },
    SendFailed(String),
}

/// What to do after an attempt.
#[derive(Debug)]
pub enum PutStep {
    /// The document is there.
    Done,
    /// Try again; this is what went wrong.
    Retry(MvnError),
    /// Give up.
    Fail(MvnError),
}

/// What to do after an attempt, over texts.
#[verifier::ext_equal]
pub enum PutStepModel {
    Done,
    Retry(ErrorModel),
    Fail(ErrorModel),
}

impl View for PutStep {
    type V = PutStepModel;

    open spec fn view(&self) -> PutStepModel {
        match self {
            PutStep::Done => PutStepModel::Done,
            PutStep::Retry(e) => PutStepModel::Retry(e@),
            PutStep::Fail(e) => PutStepModel::Fail(e@),
        }
    }
}

/// How much of a response's body an error quotes.
pub const QUOTE_LENGTH: usize = 200;

/// The part of a response's body that an error quotes.
pub open spec fn quoted_part(body: Seq<char>) -> Seq<char> {
    if body.len() > QUOTE_LENGTH {
        body.take(QUOTE_LENGTH as int)
    } else {
        body
    }
}

/// The error for a response that is no success.
pub open spec fn upload_error(url: Seq<char>, status: Seq<char>, body: Seq<char>) -> ErrorModel {
    ErrorModel::UploadError { url, message: "HTTP "@ + status + " — "@ + quoted_part(body) }
}

/// What to do after attempt number `attempt`, counted from zero, to put a document. Whether
/// another attempt is worth it is told by the number of the status, whatever the body says; a
/// failure to send always is.
pub open spec fn put_step(
    url: Seq<char>,
    attempt: u32,
    max_retries: u32,
    event: PutEvent,
) -> PutStepModel {
    match event {
        PutEvent::Response { code, status, body } => if downloader::is_success(code) {
            PutStepModel::Done
        } else {
            let e = upload_error(url, status@, body@);
            if downloader::may_pass(code) && attempt < max_retries {
                PutStepModel::Retry(e)
            } else {
                PutStepModel::Fail(e)
            }
        },
        PutEvent::SendFailed(reason) => if attempt < max_retries {
            PutStepModel::Retry(ErrorModel::NetworkError(reason@))
        } else {
            PutStepModel::Fail(ErrorModel::NetworkError(reason@))
        },
    }
}

fn quote(body: &str) -> (r: String)
    ensures
        r@ == quoted_part(body@),
{
    if text::length(body) > QUOTE_LENGTH {
        text::take(body, QUOTE_LENGTH)
    } else {
        body.to_owned()
    }
}

/// Decides what to do after an attempt to put a document. Failures are retried where that is
/// worth it, at most `max_retries` times.
pub fn after_put(url: &str, attempt: u32, max_retries: u32, event: PutEvent) -> (r: PutStep)
    ensures
        r@ == put_step(url@, attempt, max_retries, event),
{
    match event {
        PutEvent::Response { code, status, body } => {
            if 200 <= code && code <= 299 {
                return PutStep::Done;
            }
            let mut message = "HTTP ".to_owned();
            message.append(status.as_str());
            message.append(" — ");
            message.append(quote(body.as_str()).as_str());
            let err = MvnError::UploadError { url: url.to_owned(), message };
            if downloader::status_may_pass(code) && attempt < max_retries {
                PutStep::Retry(err)
            } else {
                PutStep::Fail(err)
            }
        },
        PutEvent::SendFailed(reason) => {
            let err = MvnError::NetworkError(reason);
            if attempt < max_retries {
                PutStep::Retry(err)
            } else {
                PutStep::Fail(err)
            }
        },
    }
}

// ---------------------------------------------------------------------------
// What is uploaded
// ---------------------------------------------------------------------------

/// A file of the local repository and where it goes.
#[derive(Debug)]
pub struct FileUpload {
    pub path: String,
    pub url: String,
}

impl View for FileUpload {
    type V = (Seq<char>, Seq<char>);

    open spec fn view(&self) -> (Seq<char>, Seq<char>) {
        (self.path@, self.url@)
    }
}

/// The files of an artifact that are uploaded, each with its URL: the artifact and its POM, as
/// far as the local repository has them. With neither there is nothing to upload.
pub open spec fn files_to_upload(
    c: CoordModel,
    target: RemoteModel,
    root: Seq<char>,
    has_artifact: bool,
    has_pom: bool,
) -> Result<Seq<(Seq<char>, Seq<char>)>, ErrorModel> {
    let artifact = (
        repository::joined(root, coord::artifact_path_of(c)),
        repository::artifact_url_of(target, c),
    );
    let pom = (
        repository::joined(root, coord::pom_path_of(c)),
        repository::pom_url_of(target, c),
    );
    if has_artifact && has_pom {
        Ok(seq![artifact, pom])
    } else if has_artifact {
        Ok(seq![artifact])
    } else if has_pom {
        Ok(seq![pom])
    } else {
        Err(
            ErrorModel::ArtifactNotFound {
                coord: coord::coord_text(c) + " (not in local repo at "@ + root + ")"@,
            },
        )
    }
}

/// Plans the upload of an artifact: its file and its POM, as far as they are there.
pub fn plan_upload(
    coord: &ArtifactCoord,
    target: &RemoteRepository,
    local: &LocalRepository,
    has_artifact: bool,
    has_pom: bool,
) -> (r: Result<Vec<FileUpload>, MvnError>)
    ensures
        match r {
            Ok(files) => files_to_upload(coord@, target@, local@, has_artifact, has_pom) == Ok::<
                Seq<(Seq<char>, Seq<char>)>,
                ErrorModel,
            >(text::views(files@)),
            Err(e) => files_to_upload(coord@, target@, local@, has_artifact, has_pom) == Err::<
                Seq<(Seq<char>, Seq<char>)>,
                ErrorModel,
            >(e@),
        },
{
    let mut files: Vec<FileUpload> = Vec::new();
    if has_artifact {
        files.push(
            FileUpload { path: local.artifact_path(coord), url: target.artifact_url(coord) },
        );
    }
    if has_pom {
        files.push(FileUpload { path: local.pom_path(coord), url: target.pom_url(coord) });
    }
    if files.len() == 0 {
        let mut text = coord.to_string();
        text.append(" (not in local repo at ");
        text.append(local.root.as_str());
        text.append(")");
        return Err(MvnError::ArtifactNotFound { coord: text });
    }
    proof {
        let plan = files_to_upload(coord@, target@, local@, has_artifact, has_pom)->Ok_0;
        assert(text::views(files@) =~= plan);
    }
    Ok(files)
}

/// A text and where it goes.
#[derive(Debug)]
pub struct TextUpload {
    pub url: String,
    pub content: String,
}

impl View for TextUpload {
    type V = (Seq<char>, Seq<char>);

    open spec fn view(&self) -> (Seq<char>, Seq<char>) {
        (self.url@, self.content@)
    }
}

/// The checksum files that go with a file: SHA-1 first, then SHA-256.
pub fn checksum_files(url: &str, data: &Vec<u8>) -> (r: Vec<TextUpload>)
    ensures
        text::views(r@) == seq![
            (url@ + ".sha1"@, checksum::hex_of(checksum::sha1_digest(data@))),
            (url@ + ".sha256"@, checksum::hex_of(checksum::sha256_digest(data@))),
        ],
{
    let mut out: Vec<TextUpload> = Vec::new();
    out.push(
        TextUpload { url: downloader::checksum_url(url), content: checksum::sha1_hex(data) },
    );
    let mut sha256_url = url.to_owned();
    sha256_url.append(".sha256");
    out.push(TextUpload { url: sha256_url, content: checksum::sha256_hex(data) });
    assert(text::views(out@) =~= seq![
        (url@ + ".sha1"@, checksum::hex_of(checksum::sha1_digest(data@))),
        (url@ + ".sha256"@, checksum::hex_of(checksum::sha256_digest(data@))),
    ]);
    out
}

// ---------------------------------------------------------------------------
// Metadata
// ---------------------------------------------------------------------------

/// The release that a version is: itself, unless it is a snapshot.
pub open spec fn as_release(v: Seq<char>, before: Option<Seq<char>>) -> Option<Seq<char>> {
    if text::holds_text(v, "SNAPSHOT"@) {
        before
    } else {
        Some(v)
    }
}

/// Metadata that knows one version.
pub open spec fn fresh_metadata(c: CoordModel, timestamp: Seq<char>) -> MetadataModel {
    MetadataModel {
        group_id: Some(c.group_id),
        artifact_id: Some(c.artifact_id),
        version: None,
        versioning: Some(
            VersioningModel {
                latest: Some(c.version),
                release: as_release(c.version, None),
                versions: seq![c.version],
                last_updated: Some(timestamp),
                snapshot: None,
            },
        ),
    }
}

/// What metadata says of versions, with one more that is now the latest.
pub open spec fn with_version(
    v: VersioningModel,
    version: Seq<char>,
    timestamp: Seq<char>,
) -> VersioningModel {
    VersioningModel {
        latest: Some(version),
        release: as_release(version, v.release),
        versions: if v.versions.contains(version) {
            v.versions
        } else {
            v.versions.push(version)
        },
        last_updated: Some(timestamp),
        ..v
    }
}

/// The metadata of a repository after an upload. Metadata that says nothing of versions gets what
/// fresh metadata says of them.
pub open spec fn metadata_after(
    existing: Option<MetadataModel>,
    c: CoordModel,
    timestamp: Seq<char>,
) -> MetadataModel {
    match existing {
        None => fresh_metadata(c, timestamp),
        Some(m) => match m.versioning {
            None => MetadataModel { versioning: fresh_metadata(c, timestamp).versioning, ..m },
            Some(v) => MetadataModel {
                versioning: Some(with_version(v, c.version, timestamp)),
                ..m
            },
        },
    }
}

/// Metadata for an artifact that has none yet.
pub fn build_fresh_metadata(coord: &ArtifactCoord, timestamp: &str) -> (r: MavenMetadata)
    ensures
        r@ == fresh_metadata(coord@, timestamp@),
{
    let mut version: Vec<String> = Vec::new();
    version.push(coord.version.clone());
    assert(text::views(version@) =~= seq![coord@.version]);
    let release = if text::contains(coord.version.as_str(), "SNAPSHOT") {
        None
    } else {
        Some(coord.version.clone())
    };
    MavenMetadata {
        group_id: Some(coord.group_id.clone()),
        artifact_id: Some(coord.artifact_id.clone()),
        version: None,
        versioning: Some(
            Versioning {
                latest: Some(coord.version.clone()),
                release,
                versions: Versions { version },
                last_updated: Some(timestamp.to_owned()),
                snapshot: None,
            },
        ),
    }
}

/// Brings the metadata of a repository up to date with an uploaded version.
pub fn update_metadata(
    existing: Option<MavenMetadata>,
    coord: &ArtifactCoord,
    timestamp: &str,
) -> (r: MavenMetadata)
    ensures
        r@ == metadata_after(text::opt_view(existing), coord@, timestamp@),
{
    match existing {
        None => build_fresh_metadata(coord, timestamp),
        Some(meta) => match meta.versioning {
            None => {
                let fresh = build_fresh_metadata(coord, timestamp);
                MavenMetadata {
                    group_id: meta.group_id,
                    artifact_id: meta.artifact_id,
                    version: meta.version,
                    versioning: fresh.versioning,
                }
            },
            Some(v) => {
                let mut version = v.versions.version;
                if !text::contains_string(&version, coord.version.as_str()) {
                    let ghost before = text::views(version@);
                    version.push(coord.version.clone());
                    assert(text::views(version@) =~= before.push(coord@.version));
                }
                let release = if text::contains(coord.version.as_str(), "SNAPSHOT") {
                    v.release
                } else {
                    Some(coord.version.clone())
                };
                MavenMetadata {
                    group_id: meta.group_id,
                    artifact_id: meta.artifact_id,
                    version: meta.version,
                    versioning: Some(
                        Versioning {
                            latest: Some(coord.version.clone()),
                            release,
                            versions: Versions { version },
                            last_updated: Some(timestamp.to_owned()),
                            snapshot: v.snapshot,
                        },
                    ),
                }
            },
        },
    }
}

// ---------------------------------------------------------------------------
// Writing metadata
// ---------------------------------------------------------------------------

/// An element on a line of its own.
pub open spec fn element(indent: Seq<char>, name: Seq<char>, value: Seq<char>) -> Seq<char> {
    indent + "<"@ + name + ">"@ + value + "</"@ + name + ">\n"@
}

/// An element for a value that is there.
pub open spec fn opt_element(
    indent: Seq<char>,
    name: Seq<char>,
    value: Option<Seq<char>>,
) -> Seq<char> {
    match value {
        Some(v) => element(indent, name, v),
        None => Seq::empty(),
    }
}

/// The elements for a list of versions.
pub open spec fn version_elements(versions: Seq<Seq<char>>) -> Seq<char>
    decreases versions.len(),
{
    if versions.len() == 0 {
        Seq::empty()
    } else {
        version_elements(versions.drop_last()) + element(
            "      "@,
            "version"@,
            versions.last(),
        )
    }
}

/// The XML of what metadata says of versions.
pub open spec fn versioning_xml(v: VersioningModel) -> Seq<char> {
    "  <versioning>\n"@ + opt_element("    "@, "latest"@, v.latest) + opt_element(
        "    "@,
        "release"@,
        v.release,
    ) + "    <versions>\n"@ + version_elements(v.versions) + "    </versions>\n"@ + opt_element(
        "    "@,
        "lastUpdated"@,
        v.last_updated,
    ) + "  </versioning>\n"@
}

/// The XML of metadata.
pub open spec fn metadata_xml(m: MetadataModel) -> Seq<char> {
    let versioning = match m.versioning {
        Some(v) => versioning_xml(v),
        None => Seq::empty(),
    };
    "<?xml version=\"1.0\" encoding=\"UTF-8\"?>\n<metadata>\n"@ + opt_element(
        "  "@,
        "groupId"@,
        m.group_id,
    ) + opt_element("  "@, "artifactId"@, m.artifact_id) + opt_element(
        "  "@,
        "version"@,
        m.version,
    ) + versioning + "</metadata>\n"@
}

fn write_element(out: &mut String, indent: &str, name: &str, value: &str)
    ensures
        final(out)@ == old(out)@ + element(indent@, name@, value@),
{
    let ghost start = out@;
    out.append(indent);
    out.append("<");
    out.append(name);
    out.append(">");
    out.append(value);
    out.append("</");
    out.append(name);
    out.append(">\n");
    assert(out@ =~= start + element(indent@, name@, value@));
}

fn write_opt(out: &mut String, indent: &str, name: &str, value: &Option<String>)
    ensures
        final(out)@ == old(out)@ + opt_element(indent@, name@, text::opt_view(*value)),
{
    let ghost start = out@;
    match value {
        Some(v) => write_element(out, indent, name, v.as_str()),
        None => {
            assert(out@ =~= start + Seq::<char>::empty());
        },
    }
}

fn write_versioning(v: &Versioning) -> (r: String)
    ensures
        r@ == versioning_xml(v@),
{
    let mut out = "  <versioning>\n".to_owned();
    write_opt(&mut out, "    ", "latest", &v.latest);
    write_opt(&mut out, "    ", "release", &v.release);
    out.append("    <versions>\n");
    let list = &v.versions.version;
    let ghost m = text::views(list@);
    let ghost start = out@;
    assert(m.take(0) =~= Seq::empty());
    assert(out@ =~= start + version_elements(m.take(0)));
    for i in 0..list.len()
        invariant
            m == text::views(list@),
            out@ == start + version_elements(m.take(i as int)),
    {
        let ghost before = out@;
        write_element(&mut out, "      ", "version", list[i].as_str());
        proof {
            assert(m.take(i + 1).drop_last() =~= m.take(i as int));
            assert(m.take(i + 1).last() == m[i as int]);
            assert(out@ =~= start + version_elements(m.take(i + 1)));
        }
    }
    assert(m.take(m.len() as int) =~= m);
    out.append("    </versions>\n");
    write_opt(&mut out, "    ", "lastUpdated", &v.last_updated);
    out.append("  </versioning>\n");
    out
}

/// Writes metadata as XML.
pub fn serialize_metadata(meta: &MavenMetadata) -> (r: String)
    ensures
        r@ == metadata_xml(meta@),
{
    let mut out = "<?xml version=\"1.0\" encoding=\"UTF-8\"?>\n<metadata>\n".to_owned();
    write_opt(&mut out, "  ", "groupId", &meta.group_id);
    write_opt(&mut out, "  ", "artifactId", &meta.artifact_id);
    write_opt(&mut out, "  ", "version", &meta.version);
    let ghost start = out@;
    if let Some(v) = &meta.versioning {
        out.append(write_versioning(v).as_str());
    } else {
        assert(out@ =~= start + Seq::<char>::empty());
    }
    out.append("</metadata>\n");
    out
}

} // verus!
