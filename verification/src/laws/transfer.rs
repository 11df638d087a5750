//! Laws of downloading, uploading, checksums and metadata.
use crate::checksum;
use crate::coord::CoordModel;
use crate::downloader;
use crate::downloader::FetchEvent;
use crate::downloader::FetchStepModel;
use crate::downloader::SourceEventModel;
use crate::downloader::SourceStepModel;
use crate::error::ErrorModel;
use crate::metadata;
use crate::metadata::MetadataModel;
use crate::text;
use crate::uploader;
use crate::uploader::PutEvent;
use crate::uploader::PutStepModel;
use vstd::prelude::*;

verus! {

// ---------------------------------------------------------------------------
// Retrying
// ---------------------------------------------------------------------------

/// A delay varies by at most a quarter of it either way.
pub proof fn jitter_is_bounded(delay: int, noise: int)
    requires
        delay >= 0,
        noise >= 0,
    ensures
        delay - delay / 4 <= downloader::jittered(delay, noise) <= delay + delay / 4,
{
    let range = delay / 4;
    if range > 0 {
        assert(0 <= noise % (range * 2) < range * 2) by {
            vstd::arithmetic::div_mod::lemma_mod_bound(noise, range * 2);
        }
    }
}

/// A document that is not there is never retried, and a success is read at once.
pub proof fn clear_answers_are_not_retried(
    url: Seq<char>,
    attempt: u32,
    max_retries: u32,
    code: u16,
    status: String,
)
    ensures
        code == 404 ==> downloader::fetch_step(
            url,
            attempt,
            max_retries,
            FetchEvent::Response { code, status },
        ) == FetchStepModel::Missing,
        200 <= code <= 299 ==> downloader::fetch_step(
            url,
            attempt,
            max_retries,
            FetchEvent::Response { code, status },
        ) == FetchStepModel::ReadBody,
{
}

/// Fetching is retried only after a status that may pass or a failure of the network, and at most
/// `max_retries` times; it is given up only where that does not hold.
pub proof fn fetching_ends(url: Seq<char>, attempt: u32, max_retries: u32, event: FetchEvent)
    ensures
        downloader::fetch_step(url, attempt, max_retries, event) is Retry ==> attempt < max_retries
            && (event matches FetchEvent::Response { code, .. } ==> downloader::may_pass(code)),
        downloader::fetch_step(url, attempt, max_retries, event) is Fail ==> attempt >= max_retries
            || event is Response && !downloader::may_pass(event->code),
{
}

/// Uploading is retried only after a status that may pass or a failure to send, and at most
/// `max_retries` times; it is given up only where that does not hold.
pub proof fn uploading_ends(url: Seq<char>, attempt: u32, max_retries: u32, event: PutEvent)
    ensures
        uploader::put_step(url, attempt, max_retries, event) is Retry ==> attempt < max_retries
            && (event matches PutEvent::Response { code, .. } ==> downloader::may_pass(code)),
        uploader::put_step(url, attempt, max_retries, event) is Fail ==> attempt >= max_retries
            || event is Response && !downloader::may_pass(event->code),
{
}

/// An error that is retried after a response is one that is retryable, where the text of the
/// status begins with its number, in downloads and in uploads.
pub proof fn retried_errors_are_retryable(
    url: Seq<char>,
    attempt: u32,
    max_retries: u32,
    code: u16,
    status: String,
    body: String,
)
    requires
        status@.len() >= 3,
        status@.take(3) == text::decimal_of(code as nat),
    ensures
        downloader::fetch_step(
            url,
            attempt,
            max_retries,
            FetchEvent::Response { code, status },
        ) matches FetchStepModel::Retry(e) ==> downloader::retryable(e),
        uploader::put_step(
            url,
            attempt,
            max_retries,
            PutEvent::Response { code, status, body },
        ) matches PutStepModel::Retry(e) ==> uploader::retryable_upload(e),
{
    if downloader::may_pass(code) {
        let message = "HTTP "@ + status@;
        let rest = " — "@ + uploader::quoted_part(body@);
        lemma_status_is_told(code, status@, Seq::empty());
        lemma_status_is_told(code, status@, rest);
        assert(message + Seq::<char>::empty() =~= message);
        assert(message + rest =~= "HTTP "@ + status@ + " — "@ + uploader::quoted_part(body@));
    }
}

proof fn lemma_status_is_told(code: u16, status: Seq<char>, rest: Seq<char>)
    requires
        downloader::may_pass(code),
        status.len() >= 3,
        status.take(3) == text::decimal_of(code as nat),
    ensures
        downloader::tells_passing_status("HTTP "@ + status + rest),
{
    reveal_with_fuel(text::decimal_of, 3);
    reveal_strlit("HTTP ");
    reveal_strlit("HTTP 5");
    reveal_strlit("HTTP 408");
    reveal_strlit("HTTP 429");
    let m = "HTTP "@ + status + rest;
    let d = text::decimal_of(code as nat);
    assert(d[0] == status[0] && d[1] == status[1] && d[2] == status[2]) by {
        assert(status.take(3)[0] == status[0]);
        assert(status.take(3)[1] == status[1]);
        assert(status.take(3)[2] == status[2]);
    }
    let word = if code == 408 {
        "HTTP 408"@
    } else if code == 429 {
        "HTTP 429"@
    } else {
        "HTTP 5"@
    };
    assert(m.subrange(0, word.len() as int) =~= word);
    assert(text::stands_at(m, word, 0));
}

/// A server error is worth another attempt, in downloads and in uploads.
pub proof fn server_errors_are_retryable(url: Seq<char>, rest: Seq<char>)
    ensures
        downloader::retryable(ErrorModel::DownloadError { url, message: "HTTP 5"@ + rest }),
        uploader::retryable_upload(ErrorModel::UploadError { url, message: "HTTP 5"@ + rest }),
{
    let m = "HTTP 5"@ + rest;
    assert(m.subrange(0, "HTTP 5"@.len() as int) =~= "HTTP 5"@);
    assert(text::stands_at(m, "HTTP 5"@, 0));
}

/// The search for a document goes through the repositories in their order, so that it ends, and
/// it gives the document up as missing only behind the last one.
pub proof fn search_ends(i: int, count: int, event: SourceEventModel, missing: ErrorModel)
    requires
        0 <= i < count,
    ensures
        downloader::source_step(i, count, event, missing) matches SourceStepModel::Look(j) ==> j
            == i + 1 && j < count,
        event is Missing && i + 1 < count ==> downloader::source_step(i, count, event, missing)
            == SourceStepModel::Look(i + 1),
        event is Missing && i + 1 == count ==> downloader::source_step(i, count, event, missing)
            == SourceStepModel::GiveUp(missing),
{
}

// ---------------------------------------------------------------------------
// Checksums
// ---------------------------------------------------------------------------

proof fn lemma_hex_digit(n: int)
    requires
        0 <= n < 16,
    ensures
        checksum::is_hex(checksum::hex_digit(n)),
        !text::is_white(checksum::hex_digit(n)),
        text::lower_char(checksum::hex_digit(n)) == checksum::hex_digit(n),
{
}

proof fn lemma_hex_of(data: Seq<u8>)
    ensures
        checksum::hex_of(data).len() == 2 * data.len(),
        forall|i: int|
            0 <= i < 2 * data.len() ==> checksum::is_hex(#[trigger] checksum::hex_of(data)[i])
                && !text::is_white(checksum::hex_of(data)[i]) && text::lower_char(
                checksum::hex_of(data)[i],
            ) == checksum::hex_of(data)[i],
{
    assert forall|i: int| 0 <= i < 2 * data.len() implies checksum::is_hex(
        #[trigger] checksum::hex_of(data)[i],
    ) && !text::is_white(checksum::hex_of(data)[i]) && text::lower_char(checksum::hex_of(data)[i])
        == checksum::hex_of(data)[i] by {
        lemma_hex_digit(data[i / 2] as int / 16);
        lemma_hex_digit(data[i / 2] as int % 16);
    }
}

/// A word stays whatever white space is taken off behind it.
pub proof fn lemma_trim_end_keeps(word: Seq<char>, tail: Seq<char>)
    requires
        word.len() > 0,
        !text::is_white(word.last()),
        tail.len() > 0 ==> text::is_white(tail[0]),
    ensures
        exists|n: int|
            0 <= n <= tail.len() && text::trim_end_of(word + tail) == word + #[trigger] tail.take(n),
    decreases tail.len(),
{
    let s = word + tail;
    if tail.len() == 0 {
        assert(s =~= word);
        assert(tail.take(0) =~= tail);
        assert(text::trim_end_of(s) == word + tail.take(0));
    } else if text::is_white(tail.last()) {
        let shorter = tail.drop_last();
        assert(s.drop_last() =~= word + shorter);
        lemma_trim_end_keeps(word, shorter);
        let n = choose|n: int|
            0 <= n <= shorter.len() && text::trim_end_of(word + shorter) == word
                + #[trigger] shorter.take(n);
        assert(shorter.take(n) =~= tail.take(n));
    } else {
        assert(tail.take(tail.len() as int) =~= tail);
        assert(s.last() == tail.last());
    }
}

/// A word ends where white space follows.
pub proof fn lemma_word_end(s: Seq<char>, from: int, end: int)
    requires
        0 <= from <= end <= s.len(),
        forall|i: int| from <= i < end ==> !text::is_white(#[trigger] s[i]),
        end < s.len() ==> text::is_white(s[end]),
    ensures
        checksum::word_end(s, from) == end,
    decreases end - from,
{
    if from < end {
        lemma_word_end(s, from + 1, end);
    }
}

/// A checksum file that holds the checksum of a document, alone or with a file name after white
/// space, is read as that checksum.
pub proof fn checksum_files_are_read_back(digest: Seq<u8>, tail: Seq<char>)
    requires
        digest.len() == 20,
        tail.len() > 0 ==> text::is_white(tail[0]),
    ensures
        checksum::checksum_in(checksum::hex_of(digest) + tail) == Some(checksum::hex_of(digest)),
{
    let word = checksum::hex_of(digest);
    lemma_hex_of(digest);
    assert(word.last() == word[39]);
    lemma_trim_end_keeps(word, tail);
    let n = choose|n: int|
        0 <= n <= tail.len() && text::trim_end_of(word + tail) == word + #[trigger] tail.take(n);
    let content = word + tail;
    assert(content[0] == word[0]);
    assert(text::trim_start_of(content) == content);
    let t = text::trim_of(content);
    assert(t == word + tail.take(n));
    assert forall|i: int| 0 <= i < 40 implies !text::is_white(#[trigger] t[i]) by {
        assert(t[i] == word[i]);
    }
    if n > 0 {
        assert(t[40] == tail[0]);
    }
    lemma_word_end(t, 0, 40);
    assert(t.take(40) =~= word);
    assert(text::lower_of(word) =~= word);
}

/// A document passes the check against the checksum that was written for it, and a document with
/// another checksum does not.
pub proof fn checksum_detects_changes(c: CoordModel, data: Seq<u8>, other: Seq<u8>)
    ensures
        checksum::checked(
            c,
            Some(checksum::hex_of(checksum::sha1_digest(data))),
            checksum::hex_of(checksum::sha1_digest(data)),
        ) == Ok::<bool, ErrorModel>(true),
        checksum::hex_of(checksum::sha1_digest(other)) != checksum::hex_of(
            checksum::sha1_digest(data),
        ) ==> checksum::checked(
            c,
            Some(checksum::hex_of(checksum::sha1_digest(data))),
            checksum::hex_of(checksum::sha1_digest(other)),
        ) is Err,
{
}

proof fn lemma_hex_digit_distinct(a: int, b: int)
    requires
        0 <= a < 16,
        0 <= b < 16,
        checksum::hex_digit(a) == checksum::hex_digit(b),
    ensures
        a == b,
{
    assert(a < 10 ==> checksum::hex_digit(a) as int == 48 + a);
    assert(a >= 10 ==> checksum::hex_digit(a) as int == 87 + a);
    assert(b < 10 ==> checksum::hex_digit(b) as int == 48 + b);
    assert(b >= 10 ==> checksum::hex_digit(b) as int == 87 + b);
}

/// Different bytes have different hexadecimal notations.
pub proof fn hex_is_injective(a: Seq<u8>, b: Seq<u8>)
    requires
        checksum::hex_of(a) == checksum::hex_of(b),
    ensures
        a == b,
{
    let h = checksum::hex_of(a);
    assert(h.len() == 2 * a.len());
    assert(checksum::hex_of(b).len() == 2 * b.len());
    assert forall|i: int| 0 <= i < a.len() implies a[i] == b[i] by {
        assert((2 * i) / 2 == i && (2 * i) % 2 == 0);
        assert((2 * i + 1) / 2 == i && (2 * i + 1) % 2 == 1);
        assert(h[2 * i] == checksum::hex_of(b)[2 * i]);
        assert(h[2 * i + 1] == checksum::hex_of(b)[2 * i + 1]);
        lemma_hex_digit_distinct(a[i] as int / 16, b[i] as int / 16);
        lemma_hex_digit_distinct(a[i] as int % 16, b[i] as int % 16);
    }
    assert(a =~= b);
}

// ---------------------------------------------------------------------------
// Metadata
// ---------------------------------------------------------------------------

/// Merging version lists keeps the first list as it is, adds all versions of the second, and adds
/// none twice nor any other.
pub proof fn union_holds_all(list: Seq<Seq<char>>, more: Seq<Seq<char>>, i: int, v: Seq<char>)
    requires
        0 <= i <= more.len(),
    ensures
        list.is_prefix_of(metadata::union_from(list, more, i)),
        metadata::union_from(list, more, i).contains(v) <==> list.contains(v) || more.skip(
            i,
        ).contains(v),
        list.no_duplicates() ==> metadata::union_from(list, more, i).no_duplicates(),
    decreases more.len() - i,
{
    if i < more.len() {
        assert(more.skip(i) =~= seq![more[i]] + more.skip(i + 1));
        let here = more.skip(i);
        let rest = more.skip(i + 1);
        assert(here.contains(v) <==> more[i] == v || rest.contains(v)) by {
            if here.contains(v) {
                let k = choose|k: int| 0 <= k < here.len() && here[k] == v;
                if k > 0 {
                    assert(rest[k - 1] == v);
                }
            }
            if rest.contains(v) {
                let k = choose|k: int| 0 <= k < rest.len() && rest[k] == v;
                assert(here[k + 1] == v);
            }
            assert(here[0] == more[i]);
        }
        if list.contains(more[i]) {
            union_holds_all(list, more, i + 1, v);
        } else {
            let next = list.push(more[i]);
            union_holds_all(next, more, i + 1, v);
            assert(next.contains(v) <==> list.contains(v) || more[i] == v) by {
                if list.contains(v) {
                    let k = choose|k: int| 0 <= k < list.len() && list[k] == v;
                    assert(next[k] == v);
                }
                assert(next[list.len() as int] == more[i]);
            }
            let all = metadata::union_from(next, more, i + 1);
            assert(all.subrange(0, list.len() as int) =~= all.subrange(
                0,
                next.len() as int,
            ).subrange(0, list.len() as int));
            assert(next.subrange(0, list.len() as int) =~= list);
        }
    } else {
        assert(more.skip(i) =~= Seq::empty());
        assert(list.subrange(0, list.len() as int) =~= list);
    }
}

proof fn lemma_union_same(list: Seq<Seq<char>>, i: int)
    requires
        0 <= i <= list.len(),
    ensures
        metadata::union_from(list, list, i) == list,
    decreases list.len() - i,
{
    if i < list.len() {
        assert(list.contains(list[i]));
        lemma_union_same(list, i + 1);
    }
}

/// Merging metadata with itself changes nothing.
pub proof fn merging_with_itself_changes_nothing(m: MetadataModel)
    ensures
        metadata::merged(m, m) == m,
{
    if let Some(v) = m.versioning {
        lemma_union_same(v.versions, 0);
        if let Some(t) = v.last_updated {
            text::lemma_text_order_equal(t, t);
        }
    }
}

/// Merged metadata lists just the versions that either source lists.
pub proof fn merged_metadata_lists_both(base: MetadataModel, other: MetadataModel, v: Seq<char>)
    ensures
        metadata::versions_of(metadata::merged(base, other)).contains(v) <==>
            metadata::versions_of(base).contains(v) || metadata::versions_of(other).contains(v),
{
    if let (Some(b), Some(o)) = (base.versioning, other.versioning) {
        union_holds_all(b.versions, o.versions, 0, v);
        assert(o.versions.skip(0) =~= o.versions);
    }
}

/// Metadata merged from several sources lists just the versions that one of them lists.
pub proof fn merged_sources_list_all(sources: Seq<MetadataModel>, v: Seq<char>)
    requires
        sources.len() > 0,
    ensures
        metadata::merged_all(sources) matches Some(m) && (metadata::versions_of(m).contains(v)
            <==> exists|i: int|
            0 <= i < sources.len() && metadata::versions_of(#[trigger] sources[i]).contains(v)),
    decreases sources.len(),
{
    let front = sources.drop_last();
    let last = sources.last();
    assert(sources[sources.len() - 1] == last);
    if front.len() > 0 {
        merged_sources_list_all(front, v);
        merged_metadata_lists_both(metadata::merged_all(front)->0, last, v);
        assert forall|i: int| 0 <= i < front.len() implies #[trigger] front[i] == sources[i] by {}
        if exists|i: int|
            0 <= i < sources.len() && metadata::versions_of(#[trigger] sources[i]).contains(v) {
            let i = choose|i: int|
                0 <= i < sources.len() && metadata::versions_of(#[trigger] sources[i]).contains(v);
            if i < front.len() {
                assert(metadata::versions_of(front[i]).contains(v));
            }
        }
        if exists|i: int|
            0 <= i < front.len() && metadata::versions_of(#[trigger] front[i]).contains(v) {
            let i = choose|i: int|
                0 <= i < front.len() && metadata::versions_of(#[trigger] front[i]).contains(v);
            assert(metadata::versions_of(sources[i]).contains(v));
        }
    } else {
        assert(front =~= Seq::empty());
    }
}

/// After an upload the metadata lists the version as the latest, and as the release unless it is
/// a snapshot, beside all that it listed before.
pub proof fn uploaded_version_is_listed(
    existing: Option<MetadataModel>,
    c: CoordModel,
    timestamp: Seq<char>,
    v: Seq<char>,
)
    ensures
        metadata::latest_of(uploader::metadata_after(existing, c, timestamp)) == Some(c.version),
        !text::holds_text(c.version, "SNAPSHOT"@) ==> metadata::release_of(
            uploader::metadata_after(existing, c, timestamp),
        ) == Some(c.version),
        metadata::versions_of(uploader::metadata_after(existing, c, timestamp)).contains(v) <==> v
            == c.version || (existing matches Some(m) && metadata::versions_of(m).contains(v)),
{
    let after = metadata::versions_of(uploader::metadata_after(existing, c, timestamp));
    match existing {
        None => {
            assert(after[0] == c.version);
        },
        Some(m) => {
            let before = metadata::versions_of(m);
            if m.versioning is None {
                assert(before.len() == 0);
                assert(after[0] == c.version);
            } else if !before.contains(c.version) {
                assert(after == before.push(c.version));
                assert(after[before.len() as int] == c.version);
                if before.contains(v) {
                    let k = choose|k: int| 0 <= k < before.len() && before[k] == v;
                    assert(after[k] == v);
                }
            }
        },
    }
}

/// Uploading the same version again at the same time changes nothing in the metadata.
pub proof fn uploading_twice_is_uploading_once(
    existing: Option<MetadataModel>,
    c: CoordModel,
    timestamp: Seq<char>,
)
    ensures
        uploader::metadata_after(
            Some(uploader::metadata_after(existing, c, timestamp)),
            c,
            timestamp,
        ) == uploader::metadata_after(existing, c, timestamp),
{
    let once = uploader::metadata_after(existing, c, timestamp);
    uploaded_version_is_listed(existing, c, timestamp, c.version);
}

} // verus!
