//! What can go wrong, and the HTTP status that each failure is answered with.

use vstd::prelude::*;

verus! {

pub type AppResult<T> = Result<T, ServerError>;

/// A failure of the server.
///
/// A failure that a library reported carries the text of that report.
#[derive(Debug)]
pub enum ServerError {
    InvalidSemver(String),
    FailedRequest(String),
    RequestFailed(String),
    RequestErrorStatus { status_code: u16 },
    IoError(String),
    JSONParseError(String),
    /// The package's name, and the range or tag that nothing satisfies.
    PackageVersionNotFound(String, String),
    PackageNotFound(String),
    Infallible,
    SWCParseError { message: String },
    TarballDownloadError { status_code: u16, url: String },
    NpmManifestDownloadError { status_code: u16, package_name: String },
    InvalidPackageSpecifier,
    InvalidString(String),
    JoinError(String),
    InvalidCDNVersion,
    /// The text that is not an integer, or too large for one.
    IntegerParse(String),
    /// The number that is no HTTP status.
    InvalidStatusCode(u16),
    SerializeError(),
    DeserializeError(),
    Base64DecodingError(),
    SendableError(SendableError),
    NotChanged,
    InvalidQuery,
    SQLiteError(String),
}

/// The request asks for a package or a version that is not there.
pub open spec fn is_not_found(err: ServerError) -> bool {
    match err {
        ServerError::PackageNotFound(_) => true,
        ServerError::PackageVersionNotFound(_, _) => true,
        ServerError::NpmManifestDownloadError { status_code, .. } => status_code == 404,
        _ => false,
    }
}

/// The request itself is malformed.
pub open spec fn is_client_mistake(err: ServerError) -> bool {
    match err {
        ServerError::InvalidPackageSpecifier => true,
        ServerError::InvalidSemver(_) => true,
        ServerError::Base64DecodingError() => true,
        ServerError::InvalidQuery => true,
        ServerError::InvalidCDNVersion => true,
        ServerError::IntegerParse(_) => true,
        _ => false,
    }
}

/// The registry, or the way to it, failed; that it knows no such package is
/// not a failure of this kind.
pub open spec fn is_upstream_failure(err: ServerError) -> bool {
    match err {
        ServerError::TarballDownloadError { .. } => true,
        ServerError::NpmManifestDownloadError { status_code, .. } => status_code != 404,
        ServerError::FailedRequest(_) => true,
        ServerError::RequestFailed(_) => true,
        ServerError::RequestErrorStatus { .. } => true,
        _ => false,
    }
}

/// The HTTP status that `err` surfaces as.
pub open spec fn http_status(err: ServerError) -> u16 {
    if is_not_found(err) {
        404
    } else if is_client_mistake(err) {
        400
    } else if is_upstream_failure(err) {
        502
    } else {
        500
    }
}

/// The message that `err` is reported with.
pub open spec fn message_text(err: ServerError) -> Seq<char> {
    match err {
        ServerError::InvalidSemver(_) => "invalid semver"@,
        ServerError::FailedRequest(_) => "Failed request"@,
        ServerError::RequestFailed(report) => report@,
        ServerError::RequestErrorStatus { .. } => "Response has a non-200 status code"@,
        ServerError::IoError(_) => "IO Operation failed"@,
        ServerError::JSONParseError(_) => "Could not parse json string"@,
        ServerError::PackageVersionNotFound(name, range) => "Package version not found "@ + name@
            + "@"@ + range@,
        ServerError::PackageNotFound(name) => "Package "@ + name@ + " not found"@,
        ServerError::Infallible => "Infallible error"@,
        ServerError::SWCParseError { .. } => "Could not parse module"@,
        ServerError::TarballDownloadError { .. } => "Could not download tarball package"@,
        ServerError::NpmManifestDownloadError { .. } => "Could not download npm package manifest"@,
        ServerError::InvalidPackageSpecifier => "Invalid package specifier"@,
        ServerError::InvalidString(_) => "Invalid byte buffer"@,
        ServerError::JoinError(_) => "Join error"@,
        ServerError::InvalidCDNVersion => "Invalid CDN version"@,
        ServerError::IntegerParse(_) => "Could not parse integer"@,
        ServerError::InvalidStatusCode(_) => "Invalid status code"@,
        ServerError::SerializeError() => "Failed to serialize to msgpack"@,
        ServerError::DeserializeError() => "Failed to deserialize from msgpack"@,
        ServerError::Base64DecodingError() => "Failed to decode base64 string"@,
        ServerError::SendableError(_) => "Sendable error"@,
        ServerError::NotChanged => "Resource hasn't changed"@,
        ServerError::InvalidQuery => "Invalid query"@,
        ServerError::SQLiteError(_) => "SQLite Error"@,
    }
}

impl ServerError {
    /// The HTTP status this error surfaces as. What is not there is 404, other
    /// mistakes of the client are 400, failures of the registry are 502, and
    /// everything else is a plain 500.
    pub fn status_code(&self) -> (status: u16)
        ensures
            status == http_status(*self),
    {
        match self {
            ServerError::PackageNotFound(_) => 404,
            ServerError::PackageVersionNotFound(_, _) => 404,
            ServerError::NpmManifestDownloadError { status_code, .. } => {
                if *status_code == 404 {
                    404
                } else {
                    502
                }
            },
            ServerError::InvalidPackageSpecifier => 400,
            ServerError::InvalidSemver(_) => 400,
            ServerError::Base64DecodingError() => 400,
            ServerError::InvalidQuery => 400,
            ServerError::InvalidCDNVersion => 400,
            ServerError::IntegerParse(_) => 400,
            ServerError::TarballDownloadError { .. } => 502,
            ServerError::FailedRequest(_) => 502,
            ServerError::RequestFailed(_) => 502,
            ServerError::RequestErrorStatus { .. } => 502,
            _ => 500,
        }
    }

    /// The message this error is reported with.
    pub fn message(&self) -> (text: String)
        ensures
            text@ == message_text(*self),
    {
        match self {
            ServerError::InvalidSemver(_) => "invalid semver".to_string(),
            ServerError::FailedRequest(_) => "Failed request".to_string(),
            ServerError::RequestFailed(report) => report.clone(),
            ServerError::RequestErrorStatus { .. } =>
                "Response has a non-200 status code".to_string(),
            ServerError::IoError(_) => "IO Operation failed".to_string(),
            ServerError::JSONParseError(_) => "Could not parse json string".to_string(),
            ServerError::PackageVersionNotFound(name, range) => {
                let mut text: String = "Package version not found ".to_string();
                text.append(name.as_str());
                text.append("@");
                text.append(range.as_str());
                text
            },
            ServerError::PackageNotFound(name) => {
                let mut text: String = "Package ".to_string();
                text.append(name.as_str());
                text.append(" not found");
                text
            },
            ServerError::Infallible => "Infallible error".to_string(),
            ServerError::SWCParseError { .. } => "Could not parse module".to_string(),
            ServerError::TarballDownloadError { .. } =>
                "Could not download tarball package".to_string(),
            ServerError::NpmManifestDownloadError { .. } =>
                "Could not download npm package manifest".to_string(),
            ServerError::InvalidPackageSpecifier => "Invalid package specifier".to_string(),
            ServerError::InvalidString(_) => "Invalid byte buffer".to_string(),
            ServerError::JoinError(_) => "Join error".to_string(),
            ServerError::InvalidCDNVersion => "Invalid CDN version".to_string(),
            ServerError::IntegerParse(_) => "Could not parse integer".to_string(),
            ServerError::InvalidStatusCode(_) => "Invalid status code".to_string(),
            ServerError::SerializeError() => "Failed to serialize to msgpack".to_string(),
            ServerError::DeserializeError() => "Failed to deserialize from msgpack".to_string(),
            ServerError::Base64DecodingError() => "Failed to decode base64 string".to_string(),
            ServerError::SendableError(_) => "Sendable error".to_string(),
            ServerError::NotChanged => "Resource hasn't changed".to_string(),
            ServerError::InvalidQuery => "Invalid query".to_string(),
            ServerError::SQLiteError(_) => "SQLite Error".to_string(),
        }
    }
}

/// An error reduced to its message, so that it can be handed to many waiters.
#[derive(Debug, Clone)]
pub struct SendableError {
    pub inner: String,
}

impl SendableError {
    /// The error whose message is `inner`.
    pub fn new(inner: String) -> (err: Self)
        ensures
            err.inner@ == inner@,
    {
        SendableError { inner }
    }

    /// `err`, reduced to its message.
    pub fn from_server_error(err: &ServerError) -> (r: Self)
        ensures
            r.inner@ == message_text(*err),
    {
        SendableError::new(err.message())
    }

    /// The message this error is reported with.
    pub fn message(&self) -> (text: String)
        ensures
            text@ == "stringified error: "@ + self.inner@,
    {
        let mut text: String = "stringified error: ".to_string();
        text.append(self.inner.as_str());
        text
    }
}

/// An error that is handed to many waiters surfaces as a plain 500, whatever
/// it was reduced from.
pub proof fn law_sendable_error_is_internal(err: SendableError)
    ensures
        http_status(ServerError::SendableError(err)) == 500,
{
}

/// The status of an error, by what went wrong. What is not there is 404: a package, a
/// version, or a package that the registry does not have. What the client got wrong is 400:
/// the name of a package, a version or a range, the encoding of a request, or its version.
/// What the registry or the way to it got wrong is 502. All else is 500.
pub proof fn law_status_of_an_error(err: ServerError)
    ensures
        http_status(err) == 404 <==> (err is PackageNotFound || err is PackageVersionNotFound || (
        err matches ServerError::NpmManifestDownloadError { status_code, .. } && status_code
            == 404)),
        http_status(err) == 400 <==> (err is InvalidPackageSpecifier || err is InvalidSemver || err
            is Base64DecodingError || err is InvalidQuery || err is InvalidCDNVersion || err
            is IntegerParse),
        http_status(err) == 502 <==> (err is TarballDownloadError || err is FailedRequest || err
            is RequestFailed || err is RequestErrorStatus || (err
            matches ServerError::NpmManifestDownloadError { status_code, .. } && status_code
            != 404)),
        http_status(err) == 500 <==> (err is IoError || err is JSONParseError || err is Infallible
            || err is SWCParseError || err is InvalidString || err is JoinError || err
            is InvalidStatusCode || err is SerializeError || err is DeserializeError || err
            is SendableError || err is NotChanged || err is SQLiteError),
{
}

/// The message of an error tells what went wrong. It names the package and the range
/// where they were not found, and repeats the report of a request that failed; what
/// else an error carries does not show in it.
pub proof fn law_message_of_an_error(err: ServerError)
    ensures
        err matches ServerError::PackageNotFound(name) ==> message_text(err) == "Package "@ + name@
            + " not found"@,
        err matches ServerError::PackageVersionNotFound(name, range) ==> message_text(err)
            == "Package version not found "@ + name@ + "@"@ + range@,
        err matches ServerError::RequestFailed(report) ==> message_text(err) == report@,
        err is InvalidSemver ==> message_text(err) == "invalid semver"@,
        err is FailedRequest ==> message_text(err) == "Failed request"@,
        err is RequestErrorStatus ==> message_text(err) == "Response has a non-200 status code"@,
        err is IoError ==> message_text(err) == "IO Operation failed"@,
        err is JSONParseError ==> message_text(err) == "Could not parse json string"@,
        err is Infallible ==> message_text(err) == "Infallible error"@,
        err is SWCParseError ==> message_text(err) == "Could not parse module"@,
        err is TarballDownloadError ==> message_text(err) == "Could not download tarball package"@,
        err is NpmManifestDownloadError ==> message_text(err)
            == "Could not download npm package manifest"@,
        err is InvalidPackageSpecifier ==> message_text(err) == "Invalid package specifier"@,
        err is InvalidString ==> message_text(err) == "Invalid byte buffer"@,
        err is JoinError ==> message_text(err) == "Join error"@,
        err is InvalidCDNVersion ==> message_text(err) == "Invalid CDN version"@,
        err is IntegerParse ==> message_text(err) == "Could not parse integer"@,
        err is InvalidStatusCode ==> message_text(err) == "Invalid status code"@,
        err is SerializeError ==> message_text(err) == "Failed to serialize to msgpack"@,
        err is DeserializeError ==> message_text(err) == "Failed to deserialize from msgpack"@,
        err is Base64DecodingError ==> message_text(err) == "Failed to decode base64 string"@,
        err is SendableError ==> message_text(err) == "Sendable error"@,
        err is NotChanged ==> message_text(err) == "Resource hasn't changed"@,
        err is InvalidQuery ==> message_text(err) == "Invalid query"@,
        err is SQLiteError ==> message_text(err) == "SQLite Error"@,
{
}

} // verus!
