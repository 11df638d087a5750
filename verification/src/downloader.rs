//! Decisions of downloading: which answers are retried, where to look next, and how long to
//! wait.
use crate::coord;
use crate::coord::ArtifactCoord;
use crate::coord::CoordModel;
use crate::error::ErrorModel;
use crate::error::MvnError;
use crate::text;
use vstd::prelude::*;

verus! {

// ---------------------------------------------------------------------------
// Retrying
// ---------------------------------------------------------------------------

/// Whether a message tells of a status that may pass: a server error, a time-out or a rate
/// limit.
pub open spec fn tells_passing_status(message: Seq<char>) -> bool {
    text::holds_text(message, "HTTP 5"@) || text::holds_text(message, "HTTP 408"@)
        || text::holds_text(message, "HTTP 429"@)
}

/// Whether a message tells of a status that may pass.
pub fn is_passing_status(message: &str) -> (r: bool)
    ensures
        r == tells_passing_status(message@),
{
    text::contains(message, "HTTP 5") || text::contains(message, "HTTP 408") || text::contains(
        message,
        "HTTP 429",
    )
}

/// Whether a status may pass: a server error, a time-out or a rate limit.
pub open spec fn may_pass(code: u16) -> bool {
    500 <= code <= 599 || code == 408 || code == 429
}

/// Whether a status may pass.
pub fn status_may_pass(code: u16) -> (r: bool)
    ensures
        r == may_pass(code),
{
    (500 <= code && code <= 599) || code == 408 || code == 429
}

/// Whether a download that failed with an error is worth another attempt.
pub open spec fn retryable(e: ErrorModel) -> bool {
    match e {
        ErrorModel::NetworkError(_) => true,
        ErrorModel::DownloadError { url, message } => tells_passing_status(message),
        _ => false,
    }
}

/// Whether a download that failed with an error is worth another attempt: network errors,
/// server errors, time-outs and rate limits are.
pub fn is_retryable(err: &MvnError) -> (r: bool)
    ensures
        r == retryable(err@),
{
    match err {
        MvnError::NetworkError(_) => true,
        MvnError::DownloadError { message, .. } => is_passing_status(message.as_str()),
        _ => false,
    }
}

/// A delay with a random part: the delay itself where it is too short to vary, and otherwise
/// between three quarters and five quarters of it.
pub open spec fn jittered(delay: int, noise: int) -> int {
    let range = delay / 4;
    if range > 0 {
        delay - range + noise % (range * 2)
    } else {
        delay
    }
}

/// A delay with a random part of at most a quarter of it either way, drawn from `noise`.
pub fn with_jitter(delay: u64, noise: u64) -> (r: u64)
    requires
        delay + delay / 4 <= u64::MAX,
    ensures
        r == jittered(delay as int, noise as int),
{
    let range: u64 = delay / 4;
    if range > 0 {
        let jitter: u64 = noise % (range * 2);
        (delay - range) + jitter
    } else {
        delay
    }
}

// ---------------------------------------------------------------------------
// Fetching
// ---------------------------------------------------------------------------

/// What came of one attempt to fetch a URL: a response with its status, by number and as text,
/// or a failure to read the body or to send the request, with the reason.
#[derive(Debug)]
pub enum FetchEvent {
    Response { code: u16, status: String },
    BodyFailed(String),
    SendFailed(String),
}

/// What to do after an attempt.
#[derive(Debug)]
pub enum FetchStep {
    /// The body is the document.
    ReadBody,
    /// There is no such document.
    Missing,
    /// Try again; this is what went wrong.
    Retry(MvnError),
    /// Give up.
    Fail(MvnError),
}

/// What to do after an attempt, over texts.
#[verifier::ext_equal]
pub enum FetchStepModel {
    ReadBody,
    Missing,
    Retry(ErrorModel),
    Fail(ErrorModel),
}

impl View for FetchStep {
    type V = FetchStepModel;

    open spec fn view(&self) -> FetchStepModel {
        match self {
            FetchStep::ReadBody => FetchStepModel::ReadBody,
            FetchStep::Missing => FetchStepModel::Missing,
            FetchStep::Retry(e) => FetchStepModel::Retry(e@),
            FetchStep::Fail(e) => FetchStepModel::Fail(e@),
        }
    }
}

/// Whether a status means success.
pub open spec fn is_success(code: u16) -> bool {
    200 <= code <= 299
}

/// Another attempt where one is left and worth it, and the error otherwise.
pub open spec fn retry_or_fail(
    e: ErrorModel,
    worth_it: bool,
    attempt: u32,
    max_retries: u32,
) -> FetchStepModel {
    if worth_it && attempt < max_retries {
        FetchStepModel::Retry(e)
    } else {
        FetchStepModel::Fail(e)
    }
}

/// What to do after attempt number `attempt`, counted from zero, to fetch a URL. Whether another
/// attempt is worth it is told by the number of the status; a failure of the network always is.
pub open spec fn fetch_step(
    url: Seq<char>,
    attempt: u32,
    max_retries: u32,
    event: FetchEvent,
) -> FetchStepModel {
    match event {
        FetchEvent::Response { code, status } => if code == 404 {
            FetchStepModel::Missing
        } else if is_success(code) {
            FetchStepModel::ReadBody
        } else {
            retry_or_fail(
                ErrorModel::DownloadError { url, message: "HTTP "@ + status@ },
                may_pass(code),
                attempt,
                max_retries,
            )
        },
        FetchEvent::BodyFailed(reason) => retry_or_fail(
            ErrorModel::NetworkError(reason@),
            true,
            attempt,
            max_retries,
        ),
        FetchEvent::SendFailed(reason) => retry_or_fail(
            ErrorModel::NetworkError(reason@),
            true,
            attempt,
            max_retries,
        ),
    }
}

fn decide(err: MvnError, worth_it: bool, attempt: u32, max_retries: u32) -> (r: FetchStep)
    ensures
        r@ == retry_or_fail(err@, worth_it, attempt, max_retries),
{
    if worth_it && attempt < max_retries {
        FetchStep::Retry(err)
    } else {
        FetchStep::Fail(err)
    }
}

/// Decides what to do after an attempt to fetch a URL. A document that is not there is missing;
/// other failures are retried where that is worth it, at most `max_retries` times.
pub fn after_fetch(url: &str, attempt: u32, max_retries: u32, event: FetchEvent) -> (r: FetchStep)
    ensures
        r@ == fetch_step(url@, attempt, max_retries, event),
{
    match event {
        FetchEvent::Response { code, status } => {
            if code == 404 {
                FetchStep::Missing
            } else if 200 <= code && code <= 299 {
                FetchStep::ReadBody
            } else {
                let mut message = "HTTP ".to_owned();
                message.append(status.as_str());
                decide(
                    MvnError::DownloadError { url: url.to_owned(), message },
                    status_may_pass(code),
                    attempt,
                    max_retries,
                )
            }
        },
        FetchEvent::BodyFailed(reason) => decide(
            MvnError::NetworkError(reason),
            true,
            attempt,
            max_retries,
        ),
        FetchEvent::SendFailed(reason) => decide(
            MvnError::NetworkError(reason),
            true,
            attempt,
            max_retries,
        ),
    }
}

// ---------------------------------------------------------------------------
// Looking in several repositories
// ---------------------------------------------------------------------------

/// The error for an artifact that no repository has.
pub open spec fn missing_artifact(c: CoordModel) -> ErrorModel {
    ErrorModel::ArtifactNotFound { coord: coord::coord_text(c) }
}

/// The error for an artifact that no repository has.
pub fn artifact_not_found(coord: &ArtifactCoord) -> (r: MvnError)
    ensures
        r@ == missing_artifact(coord@),
{
    MvnError::ArtifactNotFound { coord: coord.to_string() }
}

/// The error for metadata that no repository has.
pub fn metadata_not_found(group_id: &str, artifact_id: &str) -> (r: MvnError)
    ensures
        r@ == (ErrorModel::ArtifactNotFound { coord: group_id@ + ":"@ + artifact_id@ }),
{
    let mut coord = group_id.to_owned();
    coord.append(":");
    coord.append(artifact_id);
    MvnError::ArtifactNotFound { coord }
}

/// What came of looking for a document in one repository.
#[derive(Debug)]
pub enum SourceEvent {
    /// The repository has it.
    Found,
    /// The repository does not have it.
    Missing,
    /// It could not be had.
    Failed(MvnError),
}

/// Where to look next for a document.
#[derive(Debug)]
pub enum SourceStep {
    /// In the repository at this position.
    Look(usize),
    /// Nowhere: the document was found.
    Done,
    /// Nowhere: this is what went wrong.
    GiveUp(MvnError),
}

/// What came of looking for a document in one repository, over texts.
#[verifier::ext_equal]
pub enum SourceEventModel {
    Found,
    Missing,
    Failed(ErrorModel),
}

/// Where to look next for a document, over texts.
#[verifier::ext_equal]
pub enum SourceStepModel {
    Look(int),
    Done,
    GiveUp(ErrorModel),
}

impl View for SourceEvent {
    type V = SourceEventModel;

    open spec fn view(&self) -> SourceEventModel {
        match self {
            SourceEvent::Found => SourceEventModel::Found,
            SourceEvent::Missing => SourceEventModel::Missing,
            SourceEvent::Failed(e) => SourceEventModel::Failed(e@),
        }
    }
}

impl View for SourceStep {
    type V = SourceStepModel;

    open spec fn view(&self) -> SourceStepModel {
        match self {
            SourceStep::Look(i) => SourceStepModel::Look(*i as int),
            SourceStep::Done => SourceStepModel::Done,
            SourceStep::GiveUp(e) => SourceStepModel::GiveUp(e@),
        }
    }
}

/// The repository at a position, or the error for a document that none has.
pub open spec fn look_at(i: int, count: int, missing: ErrorModel) -> SourceStepModel {
    if i < count {
        SourceStepModel::Look(i)
    } else {
        SourceStepModel::GiveUp(missing)
    }
}

/// Where to look after the repository at position `i` of `count`. Only what is not there is
/// looked for in the next one; any other error ends the search.
pub open spec fn source_step(
    i: int,
    count: int,
    event: SourceEventModel,
    missing: ErrorModel,
) -> SourceStepModel {
    match event {
        SourceEventModel::Found => SourceStepModel::Done,
        SourceEventModel::Missing => look_at(i + 1, count, missing),
        SourceEventModel::Failed(e) => if e is ArtifactNotFound {
            look_at(i + 1, count, missing)
        } else {
            SourceStepModel::GiveUp(e)
        },
    }
}

/// Decides where to look first for a document among `count` repositories.
pub fn first_source(count: usize, missing: MvnError) -> (r: SourceStep)
    ensures
        r@ == look_at(0, count as int, missing@),
{
    if count > 0 {
        SourceStep::Look(0)
    } else {
        SourceStep::GiveUp(missing)
    }
}

/// Decides where to look for a document after the repository at position `i` of `count`.
pub fn after_source(i: usize, count: usize, event: SourceEvent, missing: MvnError) -> (r:
    SourceStep)
    ensures
        r@ == source_step(i as int, count as int, event@, missing@),
{
    match event {
        SourceEvent::Found => SourceStep::Done,
        SourceEvent::Failed(e) if !matches!(e, MvnError::ArtifactNotFound { .. }) => {
            SourceStep::GiveUp(e)
        },
        _ => {
            if i < count && i + 1 < count {
                SourceStep::Look(i + 1)
            } else {
                SourceStep::GiveUp(missing)
            }
        },
    }
}

/// The URL of the SHA-1 checksum of a document.
pub fn checksum_url(url: &str) -> (r: String)
    ensures
        r@ == url@ + ".sha1"@,
{
    let mut out = url.to_owned();
    out.append(".sha1");
    out
}

/// The coordinates under which the POM of an artifact is stored.
pub fn pom_coord(coord: &ArtifactCoord) -> (r: ArtifactCoord)
    ensures
        r@ == coord::plain_coord(
            coord@.group_id,
            coord@.artifact_id,
            coord@.version,
            "pom"@,
        ),
{
    ArtifactCoord::with_extension(
        coord.group_id.as_str(),
        coord.artifact_id.as_str(),
        coord.version.as_str(),
        "pom",
    )
}

} // verus!
