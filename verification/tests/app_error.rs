use sandpack_cdn::app_error::{SendableError, ServerError};

#[test]
fn not_found_errors_are_404() {
    assert_eq!(
        ServerError::PackageNotFound("left-pad".to_string()).status_code(),
        404
    );
    assert_eq!(
        ServerError::PackageVersionNotFound("a".to_string(), "1.2.3".to_string()).status_code(),
        404
    );
    assert_eq!(
        ServerError::NpmManifestDownloadError {
            status_code: 404,
            package_name: "nope".to_string(),
        }
        .status_code(),
        404
    );
}

#[test]
fn client_errors_are_400() {
    assert_eq!(ServerError::InvalidPackageSpecifier.status_code(), 400);
    assert_eq!(ServerError::InvalidQuery.status_code(), 400);
    assert_eq!(ServerError::InvalidCDNVersion.status_code(), 400);
    assert_eq!(ServerError::Base64DecodingError().status_code(), 400);
}

#[test]
fn upstream_errors_are_502() {
    assert_eq!(
        ServerError::TarballDownloadError {
            status_code: 503,
            url: "https://registry.npmjs.org/react".to_string(),
        }
        .status_code(),
        502
    );
    assert_eq!(
        ServerError::NpmManifestDownloadError {
            status_code: 500,
            package_name: "react".to_string(),
        }
        .status_code(),
        502
    );
    assert_eq!(
        ServerError::RequestErrorStatus { status_code: 503 }.status_code(),
        502
    );
}

#[test]
fn internal_errors_are_500() {
    assert_eq!(ServerError::SerializeError().status_code(), 500);
    assert_eq!(ServerError::DeserializeError().status_code(), 500);
}

#[test]
fn every_variant_has_its_status() {
    assert_eq!(ServerError::InvalidSemver("x".to_string()).status_code(), 400);
    assert_eq!(ServerError::IntegerParse("x".to_string()).status_code(), 400);
    assert_eq!(ServerError::FailedRequest("x".to_string()).status_code(), 502);
    assert_eq!(ServerError::RequestFailed("x".to_string()).status_code(), 502);
    for err in [
        ServerError::IoError("x".to_string()),
        ServerError::JSONParseError("x".to_string()),
        ServerError::Infallible,
        ServerError::SWCParseError { message: "x".to_string() },
        ServerError::InvalidString("x".to_string()),
        ServerError::JoinError("x".to_string()),
        ServerError::InvalidStatusCode(7),
        ServerError::NotChanged,
        ServerError::SQLiteError("x".to_string()),
    ] {
        assert_eq!(err.status_code(), 500);
    }
}

#[test]
fn messages_name_what_is_missing() {
    assert_eq!(
        ServerError::PackageVersionNotFound("react".to_string(), "^99".to_string()).message(),
        "Package version not found react@^99"
    );
    assert_eq!(
        ServerError::PackageNotFound("left-pad".to_string()).message(),
        "Package left-pad not found"
    );
    assert_eq!(
        ServerError::RequestFailed("connection refused".to_string()).message(),
        "connection refused"
    );
    assert_eq!(ServerError::InvalidSemver("x".to_string()).message(), "invalid semver");
}

#[test]
fn sendable_error_is_internal_and_keeps_the_message() {
    let inner = ServerError::TarballDownloadError { status_code: 404, url: "u".to_string() };
    let sendable = SendableError::from_server_error(&inner);
    assert_eq!(sendable.inner, "Could not download tarball package");
    assert_eq!(sendable.message(), "stringified error: Could not download tarball package");
    let err = ServerError::SendableError(sendable);
    assert_eq!(err.status_code(), 500);
    assert_eq!(err.message(), "Sendable error");
}
