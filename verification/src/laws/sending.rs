//! Laws of the answers of servers, of checksum files and of the texts of errors.
use crate::checksum;
use crate::coord;
use crate::coord::CoordModel;
use crate::downloader;
use crate::downloader::FetchEvent;
use crate::downloader::FetchStepModel;
use crate::downloader::SourceEventModel;
use crate::downloader::SourceStepModel;
use crate::error;
use crate::error::ErrorModel;
use crate::laws::transfer;
use crate::laws::words;
use crate::repository;
use crate::repository::RemoteModel;
use crate::text;
use crate::uploader;
use crate::uploader::PutEvent;
use crate::uploader::PutStepModel;
use vstd::prelude::*;

verus! {

// ---------------------------------------------------------------------------
// Answers
// ---------------------------------------------------------------------------

/// Whether another attempt may help after a status: after the server errors, from 500 to 599,
/// after a time-out, 408, and after too many requests, 429.
pub open spec fn may_help(code: u16) -> bool {
    (code >= 500 && code < 600) || code == 408 || code == 429
}

/// A download reads the body after the statuses from 200 to 299 and finds nothing after 404.
/// After any other one it fails, with the URL and the status, or tries again where that may help
/// and an attempt is left.
pub proof fn statuses_decide_downloads(
    url: Seq<char>,
    attempt: u32,
    max_retries: u32,
    code: u16,
    status: String,
)
    ensures
        ({
            let step = downloader::fetch_step(
                url,
                attempt,
                max_retries,
                FetchEvent::Response { code, status },
            );
            let e = ErrorModel::DownloadError { url, message: "HTTP "@ + status@ };
            if code >= 200 && code < 300 {
                step == FetchStepModel::ReadBody
            } else if code == 404 {
                step == FetchStepModel::Missing
            } else if may_help(code) && attempt < max_retries {
                step == FetchStepModel::Retry(e)
            } else {
                step == FetchStepModel::Fail(e)
            }
        }),
{
}

/// An upload is done after the statuses from 200 to 299. After any other one it fails, with the
/// URL, the status and the first 200 characters of the body, or tries again where that may help
/// and an attempt is left.
pub proof fn statuses_decide_uploads(
    url: Seq<char>,
    attempt: u32,
    max_retries: u32,
    code: u16,
    status: String,
    body: String,
)
    ensures
        ({
            let step = uploader::put_step(
                url,
                attempt,
                max_retries,
                PutEvent::Response { code, status, body },
            );
            let quoted = if body@.len() < 200 {
                body@
            } else {
                body@.take(200)
            };
            let e = ErrorModel::UploadError {
                url,
                message: "HTTP "@ + status@ + " — "@ + quoted,
            };
            if code >= 200 && code < 300 {
                step == PutStepModel::Done
            } else if may_help(code) && attempt < max_retries {
                step == PutStepModel::Retry(e)
            } else {
                step == PutStepModel::Fail(e)
            }
        }),
{
    if body@.len() == 200 {
        assert(body@.take(200) =~= body@);
    }
}

/// A failure of the network is tried again as long as an attempt is left, in downloads and in
/// uploads, and is then the error, with its reason.
pub proof fn network_failures_are_retried(
    url: Seq<char>,
    attempt: u32,
    max_retries: u32,
    reason: String,
)
    ensures
        ({
            let e = ErrorModel::NetworkError(reason@);
            let body = downloader::fetch_step(
                url,
                attempt,
                max_retries,
                FetchEvent::BodyFailed(reason),
            );
            let sent = downloader::fetch_step(
                url,
                attempt,
                max_retries,
                FetchEvent::SendFailed(reason),
            );
            let put = uploader::put_step(url, attempt, max_retries, PutEvent::SendFailed(reason));
            if attempt < max_retries {
                body == FetchStepModel::Retry(e) && sent == FetchStepModel::Retry(e) && put
                    == PutStepModel::Retry(e)
            } else {
                body == FetchStepModel::Fail(e) && sent == FetchStepModel::Fail(e) && put
                    == PutStepModel::Fail(e)
            }
        }),
{
}

/// An error is worth another attempt just where it is one of the network, or the failure of a
/// download, or of an upload, whose message tells of a status after which that may help.
pub proof fn passing_errors_are_retryable(e: ErrorModel)
    ensures
        downloader::retryable(e) <==> match e {
            ErrorModel::NetworkError(_) => true,
            ErrorModel::DownloadError { url, message } => text::holds_text(message, "HTTP 5"@)
                || text::holds_text(message, "HTTP 408"@) || text::holds_text(
                message,
                "HTTP 429"@,
            ),
            _ => false,
        },
        uploader::retryable_upload(e) <==> match e {
            ErrorModel::NetworkError(_) => true,
            ErrorModel::UploadError { url, message } => text::holds_text(message, "HTTP 5"@)
                || text::holds_text(message, "HTTP 408"@) || text::holds_text(
                message,
                "HTTP 429"@,
            ),
            _ => false,
        },
{
}

/// The random part of a delay begins a quarter below it, rises with the noise, and begins again
/// behind twice a quarter; delays below four do not vary.
pub proof fn jitter_rises_with_the_noise(delay: int, noise: int)
    requires
        0 <= delay,
        0 <= noise,
    ensures
        delay < 4 ==> downloader::jittered(delay, noise) == delay,
        delay >= 4 ==> downloader::jittered(delay, 0) == delay - delay / 4,
        delay >= 4 && noise < 2 * (delay / 4) ==> downloader::jittered(delay, noise) == delay
            - delay / 4 + noise,
        delay >= 4 ==> downloader::jittered(delay, noise + 2 * (delay / 4))
            == downloader::jittered(delay, noise),
{
    let range = delay / 4;
    if delay >= 4 {
        assert(range > 0);
        let m = range * 2;
        vstd::arithmetic::div_mod::lemma_small_mod(0, m as nat);
        if noise < m {
            vstd::arithmetic::div_mod::lemma_small_mod(noise as nat, m as nat);
        }
        vstd::arithmetic::div_mod::lemma_mod_add_multiples_vanish(noise, m);
        assert(m + noise == noise + 2 * range);
    }
}

/// A document is looked for in one repository after the other. Where it is found the search is
/// done; where it is not there the next one is looked in, and behind the last one it is missing;
/// any other error ends the search with that error.
pub proof fn repositories_are_searched_in_order(
    i: int,
    count: int,
    e: ErrorModel,
    missing: ErrorModel,
)
    requires
        0 <= i < count,
    ensures
        downloader::look_at(0, count, missing) == SourceStepModel::Look(0),
        downloader::look_at(0, 0, missing) == SourceStepModel::GiveUp(missing),
        downloader::source_step(i, count, SourceEventModel::Found, missing)
            == SourceStepModel::Done,
        downloader::source_step(i, count, SourceEventModel::Missing, missing) == (if i + 1
            == count {
            SourceStepModel::GiveUp(missing)
        } else {
            SourceStepModel::Look(i + 1)
        }),
        !(e is ArtifactNotFound) ==> downloader::source_step(
            i,
            count,
            SourceEventModel::Failed(e),
            missing,
        ) == SourceStepModel::GiveUp(e),
        e is ArtifactNotFound ==> downloader::source_step(
            i,
            count,
            SourceEventModel::Failed(e),
            missing,
        ) == downloader::source_step(i, count, SourceEventModel::Missing, missing),
{
}

// ---------------------------------------------------------------------------
// Checksums
// ---------------------------------------------------------------------------

/// Whether a text is a checksum: forty hexadecimal digits, in capitals or not.
pub open spec fn is_checksum(word: Seq<char>) -> bool {
    word.len() == 40 && forall|i: int|
        0 <= i < word.len() ==> ('0' <= #[trigger] word[i] <= '9' || 'a' <= word[i] <= 'f' || 'A'
            <= word[i] <= 'F')
}

/// A checksum file is read by its first word: as that word in lower case where it is a checksum,
/// and as none where it is not. White space before it and what follows behind white space does
/// not matter.
pub proof fn first_word_is_the_checksum(blank: Seq<char>, word: Seq<char>, tail: Seq<char>)
    requires
        words::is_blank(blank),
        word.len() > 0,
        forall|i: int| 0 <= i < word.len() ==> !text::is_white(#[trigger] word[i]),
        tail.len() > 0 ==> text::is_white(tail[0]),
    ensures
        checksum::checksum_in(blank + word + tail) == (if is_checksum(word) {
            Some(text::lower_of(word))
        } else {
            None
        }),
        checksum::checksum_in(blank) is None,
{
    let content = blank + word + tail;
    lemma_blank_before(blank, word + tail);
    assert(blank + (word + tail) =~= content);
    assert((word + tail)[0] == word[0]);
    assert(text::trim_start_of(content) == word + tail);
    assert(word.last() == word[word.len() - 1]);
    transfer::lemma_trim_end_keeps(word, tail);
    let n = choose|n: int|
        0 <= n <= tail.len() && text::trim_end_of(word + tail) == word + #[trigger] tail.take(n);
    let t = text::trim_of(content);
    assert(t == word + tail.take(n));
    let len = word.len() as int;
    assert forall|i: int| 0 <= i < len implies !text::is_white(#[trigger] t[i]) by {
        assert(t[i] == word[i]);
    }
    if n > 0 {
        assert(t[len] == tail[0]);
    }
    transfer::lemma_word_end(t, 0, len);
    assert(t.take(len) =~= word);
    let none = Seq::<char>::empty();
    lemma_blank_before(blank, none);
    assert(blank + none =~= blank);
    assert(text::trim_of(blank) =~= none);
}

proof fn lemma_blank_before(blank: Seq<char>, s: Seq<char>)
    requires
        words::is_blank(blank),
        s.len() > 0 ==> !text::is_white(s[0]),
    ensures
        text::trim_start_of(blank + s) == s,
    decreases blank.len(),
{
    let t = blank + s;
    if blank.len() > 0 {
        assert(t[0] == blank[0]);
        assert(t.skip(1) =~= blank.skip(1) + s);
        assert forall|i: int| 0 <= i < blank.skip(1).len() implies text::is_white(
            #[trigger] blank.skip(1)[i],
        ) by {
            assert(blank.skip(1)[i] == blank[i + 1]);
        }
        lemma_blank_before(blank.skip(1), s);
    } else {
        assert(t =~= s);
    }
}

/// A document is refused just where a checksum is expected of it and its own is another one, with
/// both of them and its coordinates. Where none is expected it passes unverified.
pub proof fn only_other_checksums_are_refused(
    c: CoordModel,
    expected: Seq<char>,
    actual: Seq<char>,
)
    ensures
        checksum::checked(c, None, actual) == Ok::<bool, ErrorModel>(false),
        expected == actual ==> checksum::checked(c, Some(expected), actual) == Ok::<
            bool,
            ErrorModel,
        >(true),
        expected != actual ==> checksum::checked(c, Some(expected), actual) == Err::<
            bool,
            ErrorModel,
        >(
            ErrorModel::ChecksumMismatch { artifact: coord::coord_text(c), expected, actual },
        ),
        checksum::expected_in(None) is None,
        checksum::expected_in(Some(expected)) == checksum::checksum_in(expected),
{
}

/// The hexadecimal notation of bytes is that of the first ones and then that of the others, and a
/// single byte has two digits, for its sixteens and for its ones.
pub proof fn bytes_are_written_in_hexadecimal(a: Seq<u8>, b: Seq<u8>, byte: u8)
    ensures
        checksum::hex_of(a + b) == checksum::hex_of(a) + checksum::hex_of(b),
        checksum::hex_of(seq![byte]) == seq![
            "0123456789abcdef"@[byte as int / 16],
            "0123456789abcdef"@[byte as int % 16],
        ],
{
    let h = checksum::hex_of(a + b);
    let g = checksum::hex_of(a) + checksum::hex_of(b);
    assert forall|i: int| 0 <= i < h.len() implies h[i] == g[i] by {
        if i >= 2 * a.len() {
            let j = i - 2 * a.len();
            assert(i % 2 == j % 2);
            assert(i / 2 == a.len() + j / 2);
            assert((a + b)[i / 2] == b[j / 2]);
        } else {
            assert((a + b)[i / 2] == a[i / 2]);
        }
    }
    assert(h =~= g);
    lemma_hex_digit(byte as int / 16);
    lemma_hex_digit(byte as int % 16);
    let one = checksum::hex_of(seq![byte]);
    assert(one.len() == 2);
    assert(one[0] == checksum::hex_digit(byte as int / 16));
    assert(one[1] == checksum::hex_digit(byte as int % 16));
    assert(one =~= seq![
        "0123456789abcdef"@[byte as int / 16],
        "0123456789abcdef"@[byte as int % 16],
    ]);
}

proof fn lemma_hex_digit(n: int)
    requires
        0 <= n < 16,
    ensures
        checksum::hex_digit(n) == "0123456789abcdef"@[n],
{
    reveal_strlit("0123456789abcdef");
    let d = "0123456789abcdef"@;
    assert(d[0] == '0' && d[1] == '1' && d[2] == '2' && d[3] == '3' && d[4] == '4' && d[5] == '5'
        && d[6] == '6' && d[7] == '7');
    assert(d[8] == '8' && d[9] == '9' && d[10] == 'a' && d[11] == 'b' && d[12] == 'c' && d[13]
        == 'd' && d[14] == 'e' && d[15] == 'f');
    assert(checksum::hex_digit(n) as int == if n < 10 {
        48 + n
    } else {
        87 + n
    });
}

// ---------------------------------------------------------------------------
// Uploads
// ---------------------------------------------------------------------------

/// Of an artifact and its POM just those are uploaded that are there, the artifact first, each
/// from its path in the local repository to its URL; where neither is there, the artifact is
/// missing, with its coordinates and the local repository.
pub proof fn files_that_are_there_are_uploaded(
    c: CoordModel,
    target: RemoteModel,
    root: Seq<char>,
    has_artifact: bool,
    has_pom: bool,
)
    ensures
        ({
            let plan = uploader::files_to_upload(c, target, root, has_artifact, has_pom);
            let artifact = (
                repository::joined(root, coord::artifact_path_of(c)),
                target.url + "/"@ + coord::artifact_path_of(c),
            );
            let pom = (
                repository::joined(root, coord::pom_path_of(c)),
                target.url + "/"@ + coord::pom_path_of(c),
            );
            let first = if has_artifact {
                seq![artifact]
            } else {
                Seq::empty()
            };
            let second = if has_pom {
                seq![pom]
            } else {
                Seq::empty()
            };
            if has_artifact || has_pom {
                plan matches Ok(files) && files == first + second
            } else {
                plan matches Err(e) && e == (ErrorModel::ArtifactNotFound {
                    coord: coord::coord_text(c) + " (not in local repo at "@ + root + ")"@,
                })
            }
        }),
{
    if let Ok(files) = uploader::files_to_upload(c, target, root, has_artifact, has_pom) {
        let artifact = (
            repository::joined(root, coord::artifact_path_of(c)),
            target.url + "/"@ + coord::artifact_path_of(c),
        );
        let pom = (
            repository::joined(root, coord::pom_path_of(c)),
            target.url + "/"@ + coord::pom_path_of(c),
        );
        let none = Seq::<(Seq<char>, Seq<char>)>::empty();
        assert(seq![artifact] + seq![pom] =~= seq![artifact, pom]);
        assert(seq![artifact] + none =~= seq![artifact]);
        assert(none + seq![pom] =~= seq![pom]);
    }
}

// ---------------------------------------------------------------------------
// Errors
// ---------------------------------------------------------------------------

/// The text of an error says what kind it is and what it is about.
pub proof fn errors_say_what_went_wrong(x: Seq<char>, y: Seq<char>, z: Seq<char>)
    ensures
        error::error_text(ErrorModel::PomParseError { message: x }) == "POM parse error: "@ + x,
        error::error_text(ErrorModel::VersionParseError { input: x, message: y })
            == "invalid version '"@ + x + "': "@ + y,
        error::error_text(ErrorModel::CoordParseError { input: x, message: y })
            == "invalid coordinate '"@ + x + "': "@ + y,
        error::error_text(ErrorModel::ResolutionError { message: x })
            == "dependency resolution failed: "@ + x,
        error::error_text(ErrorModel::DownloadError { url: x, message: y })
            == "download failed for '"@ + x + "': "@ + y,
        error::error_text(
            ErrorModel::ChecksumMismatch { artifact: x, expected: y, actual: z },
        ) == "checksum mismatch for '"@ + x + "': expected "@ + y + ", got "@ + z,
        error::error_text(ErrorModel::ArtifactNotFound { coord: x }) == "artifact not found: "@
            + x,
        error::error_text(ErrorModel::IoError(x)) == x,
        error::error_text(ErrorModel::NetworkError(x)) == "network error: "@ + x,
        error::error_text(ErrorModel::XmlError(x)) == x,
        error::error_text(ErrorModel::SettingsParseError { message: x })
            == "settings parse error: "@ + x,
        error::error_text(ErrorModel::UploadError { url: x, message: y })
            == "upload failed for '"@ + x + "': "@ + y,
{
}

/// An artifact that no repository has is missing under the text of its coordinates.
pub proof fn missing_artifacts_are_named(c: CoordModel)
    ensures
        error::error_text(downloader::missing_artifact(c)) == "artifact not found: "@
            + coord::coord_text(c),
        downloader::missing_artifact(c) is ArtifactNotFound,
{
}

} // verus!
