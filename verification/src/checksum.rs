//! SHA-1 and SHA-256 checksums of artifacts.
use crate::coord;
use crate::coord::ArtifactCoord;
use crate::coord::CoordModel;
use crate::error::ErrorModel;
use crate::error::MvnError;
use crate::laws::transfer;
use crate::text;
use vstd::prelude::*;

verus! {

// ---------------------------------------------------------------------------
// Digests
// ---------------------------------------------------------------------------

/// The SHA-1 digest of bytes, as `sha1::Sha1::digest` computes it.
pub uninterp spec fn sha1_digest(data: Seq<u8>) -> Seq<u8>;

/// The SHA-256 digest of bytes, as `sha2::Sha256::digest` computes it.
pub uninterp spec fn sha256_digest(data: Seq<u8>) -> Seq<u8>;

/// Calls `sha1::Sha1::digest`. The digest depends on the bytes alone and has 20 bytes.
#[verifier::external_body]
fn sha1_of(data: &Vec<u8>) -> (r: Vec<u8>)
    ensures
        r@ == sha1_digest(data@),
        r@.len() == 20,
{
    <sha1::Sha1 as sha1::Digest>::digest(data).to_vec()
}

/// Calls `sha2::Sha256::digest`. The digest depends on the bytes alone and has 32 bytes.
#[verifier::external_body]
fn sha256_of(data: &Vec<u8>) -> (r: Vec<u8>)
    ensures
        r@ == sha256_digest(data@),
        r@.len() == 32,
{
    <sha2::Sha256 as sha2::Digest>::digest(data).to_vec()
}

/// A hexadecimal digit, in lower case.
pub open spec fn hex_digit(n: int) -> char {
    if n < 10 {
        ('0' as u32 + n) as char
    } else {
        ('a' as u32 + (n - 10)) as char
    }
}

/// Bytes in hexadecimal notation: two digits for each, the high one first.
pub open spec fn hex_of(data: Seq<u8>) -> Seq<char> {
    Seq::new(
        2 * data.len(),
        |i: int|
            if i % 2 == 0 {
                hex_digit(data[i / 2] as int / 16)
            } else {
                hex_digit(data[i / 2] as int % 16)
            },
    )
}

/// Calls `hex::encode`, which writes each byte as two hexadecimal digits in lower case.
#[verifier::external_body]
fn hex_encode(data: &Vec<u8>) -> (r: String)
    requires
        2 * data@.len() <= isize::MAX,
    ensures
        r@ == hex_of(data@),
{
    hex::encode(data)
}

/// The SHA-1 checksum of bytes, in hexadecimal notation.
pub fn sha1_hex(data: &Vec<u8>) -> (r: String)
    ensures
        r@ == hex_of(sha1_digest(data@)),
        r@.len() == 40,
        checksum_in(r@) == Some(r@),
{
    let digest = sha1_of(data);
    let r = hex_encode(&digest);
    proof {
        transfer::checksum_files_are_read_back(digest@, Seq::empty());
        assert(r@ + Seq::<char>::empty() =~= r@);
    }
    r
}

/// The SHA-256 checksum of bytes, in hexadecimal notation.
pub fn sha256_hex(data: &Vec<u8>) -> (r: String)
    ensures
        r@ == hex_of(sha256_digest(data@)),
        r@.len() == 64,
{
    let digest = sha256_of(data);
    hex_encode(&digest)
}

// ---------------------------------------------------------------------------
// Checksum files
// ---------------------------------------------------------------------------

/// Where the first word of `s` ends.
pub open spec fn word_end(s: Seq<char>, from: int) -> int
    decreases s.len() - from,
{
    if from >= s.len() {
        s.len() as int
    } else if text::is_white(s[from]) {
        from
    } else {
        word_end(s, from + 1)
    }
}

/// A hexadecimal digit in either case.
pub open spec fn is_hex(c: char) -> bool {
    ('0' <= c <= '9') || ('a' <= c <= 'f') || ('A' <= c <= 'F')
}

/// The length of a SHA-1 checksum in hexadecimal notation.
pub const SHA1_LENGTH: usize = 40;

/// The checksum in a `.sha1` file: its first word, where that has the form of a checksum.
pub open spec fn checksum_in(content: Seq<char>) -> Option<Seq<char>> {
    let t = text::trim_of(content);
    let word = t.take(word_end(t, 0));
    if word.len() == SHA1_LENGTH && forall|i: int| 0 <= i < word.len() ==> is_hex(#[trigger] word[i])
    {
        Some(text::lower_of(word))
    } else {
        None
    }
}

fn is_hex_digit(c: char) -> (r: bool)
    ensures
        r == is_hex(c),
{
    ('0' <= c && c <= '9') || ('a' <= c && c <= 'f') || ('A' <= c && c <= 'F')
}

/// Reads a SHA-1 checksum from the content of a `.sha1` file.
///
/// The file may contain just the hexadecimal checksum, or the checksum and a file name.
pub fn parse_sha1_checksum(content: &str) -> (r: Option<String>)
    ensures
        text::opt_view(r) == checksum_in(content@),
{
    let trimmed = text::trim(content);
    let chars = text::chars_of(trimmed.as_str());
    let mut end: usize = 0;
    while end < chars.len() && !text::is_whitespace(chars[end])
        invariant
            end <= chars@.len(),
            word_end(chars@, 0) == word_end(chars@, end as int),
        decreases chars@.len() - end,
    {
        end += 1;
    }
    let ghost word = chars@.take(end as int);
    if end != SHA1_LENGTH {
        return None;
    }
    for i in 0..end
        invariant
            end <= chars@.len(),
            end == SHA1_LENGTH,
            word == chars@.take(end as int),
            chars@ == text::trim_of(content@),
            end == word_end(chars@, 0),
            forall|j: int| 0 <= j < i ==> is_hex(#[trigger] word[j]),
    {
        assert(word[i as int] == chars@[i as int]);
        if !is_hex_digit(chars[i]) {
            return None;
        }
    }
    let hash = text::string_of(&chars, 0, end);
    assert(hash@ =~= word);
    Some(text::to_lower(hash.as_str()))
}

/// What comes of comparing a checksum with the expected one, if there is one: whether it was
/// compared, or a mismatch.
pub open spec fn checked(c: CoordModel, expected: Option<Seq<char>>, actual: Seq<char>) -> Result<
    bool,
    ErrorModel,
> {
    match expected {
        None => Ok(false),
        Some(e) => if e == actual {
            Ok(true)
        } else {
            Err(
                ErrorModel::ChecksumMismatch {
                    artifact: coord::coord_text(c),
                    expected: e,
                    actual,
                },
            )
        },
    }
}

/// Compares a checksum with the expected one, if there is one. Says whether it was compared.
pub fn compare_checksum(coord: &ArtifactCoord, expected: Option<String>, actual: String) -> (r:
    Result<bool, MvnError>)
    ensures
        match r {
            Ok(b) => checked(coord@, text::opt_view(expected), actual@) == Ok::<bool, ErrorModel>(
                b,
            ),
            Err(e) => checked(coord@, text::opt_view(expected), actual@) == Err::<
                bool,
                ErrorModel,
            >(e@),
        },
{
    match expected {
        None => Ok(false),
        Some(expected) => if expected == actual {
            Ok(true)
        } else {
            Err(MvnError::ChecksumMismatch { artifact: coord.to_string(), expected, actual })
        },
    }
}

/// The checksum that is expected by the content of a `.sha1` file, if there is such a file.
pub open spec fn expected_in(content: Option<Seq<char>>) -> Option<Seq<char>> {
    match content {
        Some(c) => checksum_in(c),
        None => None,
    }
}

/// Verifies the SHA-1 checksum of an artifact against the content of its `.sha1` file. Says
/// whether there was a checksum to verify; without one the artifact is taken as it is.
pub fn verify_checksum(coord: &ArtifactCoord, data: &Vec<u8>, content: Option<String>) -> (r:
    Result<bool, MvnError>)
    ensures
        match r {
            Ok(b) => checked(
                coord@,
                expected_in(text::opt_view(content)),
                hex_of(sha1_digest(data@)),
            ) == Ok::<bool, ErrorModel>(b),
            Err(e) => checked(
                coord@,
                expected_in(text::opt_view(content)),
                hex_of(sha1_digest(data@)),
            ) == Err::<bool, ErrorModel>(e@),
        },
{
    let expected = match content {
        Some(c) => parse_sha1_checksum(c.as_str()),
        None => None,
    };
    compare_checksum(coord, expected, sha1_hex(data))
}

} // verus!
