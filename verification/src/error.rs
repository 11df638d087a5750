//! What can go wrong.
use vstd::prelude::*;

verus! {

/// An error of the library or of the program around it.
#[derive(Debug)]
pub enum MvnError {
    PomParseError { message: String },
    VersionParseError { input: String, message: String },
    CoordParseError { input: String, message: String },
    ResolutionError { message: String },
    DownloadError { url: String, message: String },
    ChecksumMismatch { artifact: String, expected: String, actual: String },
    ArtifactNotFound { coord: String },
    /// An error of the file system, by its text.
    IoError(String),
    NetworkError(String),
    /// An error in an XML document, by its text.
    XmlError(String),
    SettingsParseError { message: String },
    UploadError { url: String, message: String },
}

/// The result of an operation that can go wrong.
pub type Result<T> = std::result::Result<T, MvnError>;

/// An error over texts.
#[verifier::ext_equal]
pub enum ErrorModel {
    PomParseError { message: Seq<char> },
    VersionParseError { input: Seq<char>, message: Seq<char> },
    CoordParseError { input: Seq<char>, message: Seq<char> },
    ResolutionError { message: Seq<char> },
    DownloadError { url: Seq<char>, message: Seq<char> },
    ChecksumMismatch { artifact: Seq<char>, expected: Seq<char>, actual: Seq<char> },
    ArtifactNotFound { coord: Seq<char> },
    IoError(Seq<char>),
    NetworkError(Seq<char>),
    XmlError(Seq<char>),
    SettingsParseError { message: Seq<char> },
    UploadError { url: Seq<char>, message: Seq<char> },
}

impl View for MvnError {
    type V = ErrorModel;

    open spec fn view(&self) -> ErrorModel {
        match self {
            MvnError::PomParseError { message } => ErrorModel::PomParseError {
                message: message@,
            },
            MvnError::VersionParseError { input, message } => ErrorModel::VersionParseError {
                input: input@,
                message: message@,
            },
            MvnError::CoordParseError { input, message } => ErrorModel::CoordParseError {
                input: input@,
                message: message@,
            },
            MvnError::ResolutionError { message } => ErrorModel::ResolutionError {
                message: message@,
            },
            MvnError::DownloadError { url, message } => ErrorModel::DownloadError {
                url: url@,
                message: message@,
            },
            MvnError::ChecksumMismatch {
                artifact,
                expected,
                actual,
            } => ErrorModel::ChecksumMismatch {
                artifact: artifact@,
                expected: expected@,
                actual: actual@,
            },
            MvnError::ArtifactNotFound { coord } => ErrorModel::ArtifactNotFound { coord: coord@ },
            MvnError::IoError(text) => ErrorModel::IoError(text@),
            MvnError::NetworkError(text) => ErrorModel::NetworkError(text@),
            MvnError::XmlError(text) => ErrorModel::XmlError(text@),
            MvnError::SettingsParseError { message } => ErrorModel::SettingsParseError {
                message: message@,
            },
            MvnError::UploadError { url, message } => ErrorModel::UploadError {
                url: url@,
                message: message@,
            },
        }
    }
}

/// The text of an error.
pub open spec fn error_text(e: ErrorModel) -> Seq<char> {
    match e {
        ErrorModel::PomParseError { message } => "POM parse error: "@ + message,
        ErrorModel::VersionParseError { input, message } => "invalid version '"@ + input + "': "@
            + message,
        ErrorModel::CoordParseError { input, message } => "invalid coordinate '"@ + input + "': "@
            + message,
        ErrorModel::ResolutionError { message } => "dependency resolution failed: "@ + message,
        ErrorModel::DownloadError { url, message } => "download failed for '"@ + url + "': "@
            + message,
        ErrorModel::ChecksumMismatch { artifact, expected, actual } => "checksum mismatch for '"@
            + artifact + "': expected "@ + expected + ", got "@ + actual,
        ErrorModel::ArtifactNotFound { coord } => "artifact not found: "@ + coord,
        ErrorModel::IoError(text) => text,
        ErrorModel::NetworkError(text) => "network error: "@ + text,
        ErrorModel::XmlError(text) => text,
        ErrorModel::SettingsParseError { message } => "settings parse error: "@ + message,
        ErrorModel::UploadError { url, message } => "upload failed for '"@ + url + "': "@
            + message,
    }
}

fn label(prefix: &str, text: &str) -> (r: String)
    ensures
        r@ == prefix@ + text@,
{
    let mut out = prefix.to_owned();
    out.append(text);
    out
}

fn quoted(prefix: &str, subject: &str, message: &str) -> (r: String)
    ensures
        r@ == prefix@ + subject@ + "': "@ + message@,
{
    let mut out = prefix.to_owned();
    out.append(subject);
    out.append("': ");
    out.append(message);
    out
}

impl MvnError {
    /// The text of the error.
    pub fn to_string(&self) -> (r: String)
        ensures
            r@ == error_text(self@),
    {
        match self {
            MvnError::PomParseError { message } => label("POM parse error: ", message.as_str()),
            MvnError::VersionParseError { input, message } => quoted(
                "invalid version '",
                input.as_str(),
                message.as_str(),
            ),
            MvnError::CoordParseError { input, message } => quoted(
                "invalid coordinate '",
                input.as_str(),
                message.as_str(),
            ),
            MvnError::ResolutionError { message } => label(
                "dependency resolution failed: ",
                message.as_str(),
            ),
            MvnError::DownloadError { url, message } => quoted(
                "download failed for '",
                url.as_str(),
                message.as_str(),
            ),
            MvnError::ChecksumMismatch { artifact, expected, actual } => {
                let mut out = label("checksum mismatch for '", artifact.as_str());
                out.append("': expected ");
                out.append(expected.as_str());
                out.append(", got ");
                out.append(actual.as_str());
                out
            },
            MvnError::ArtifactNotFound { coord } => label("artifact not found: ", coord.as_str()),
            MvnError::IoError(text) => text.clone(),
            MvnError::NetworkError(text) => label("network error: ", text.as_str()),
            MvnError::XmlError(text) => text.clone(),
            MvnError::SettingsParseError { message } => label(
                "settings parse error: ",
                message.as_str(),
            ),
            MvnError::UploadError { url, message } => quoted(
                "upload failed for '",
                url.as_str(),
                message.as_str(),
            ),
        }
    }
}

} // verus!
