//! What requests and responses have in common: versions, methods, targets and status codes.
use crate::number::decimal;
use crate::syntax::{is_method, is_plain_target, is_printable};
use vstd::prelude::*;

verus! {

/// A version of the protocol.
#[derive(Debug, Clone, Copy, PartialEq, Eq, Structural)]
pub enum Version {
    Http09,
    Http10,
    Http11,
    Http2,
    Http3,
}

/// How a version is written.
pub open spec fn version_name(version: Version) -> Seq<char> {
    match version {
        Version::Http09 => "HTTP/0.9"@,
        Version::Http10 => "HTTP/1.0"@,
        Version::Http11 => "HTTP/1.1"@,
        Version::Http2 => "HTTP/2.0"@,
        Version::Http3 => "HTTP/3.0"@,
    }
}

/// A status code is a number of three digits.
pub open spec fn is_status(code: u16) -> bool {
    100 <= code <= 999
}

/// What `http::Uri` makes of a target: the text that it writes the target as; `None`, if it takes
/// the text for no target at all.
pub uninterp spec fn target_text(text: Seq<char>) -> Option<Seq<char>>;

/// The phrase that `http::StatusCode::canonical_reason` gives for a status code, if it has one.
pub uninterp spec fn status_reason(code: u16) -> Option<Seq<char>>;

/// The phrase of a status code, or nothing.
pub open spec fn reason_or_empty(code: u16) -> Seq<char> {
    match status_reason(code) {
        Some(reason) => reason,
        None => Seq::empty(),
    }
}

/// The phrases of the errors that a proxy answers of its own accord.
pub open spec fn error_reason(code: u16) -> Option<Seq<char>> {
    if code == 400 {
        Some("Bad Request"@)
    } else if code == 413 {
        Some("Payload Too Large"@)
    } else if code == 429 {
        Some("Too Many Requests"@)
    } else if code == 502 {
        Some("Bad Gateway"@)
    } else if code == 503 {
        Some("Service Unavailable"@)
    } else {
        None
    }
}

/// Formats the `http::Version` of that name with `Debug`.
#[verifier::external_body]
pub(crate) fn version_text(version: Version) -> (text: String)
    ensures
        text@ == version_name(version),
{
    let version = match version {
        Version::Http09 => http::Version::HTTP_09,
        Version::Http10 => http::Version::HTTP_10,
        Version::Http11 => http::Version::HTTP_11,
        Version::Http2 => http::Version::HTTP_2,
        Version::Http3 => http::Version::HTTP_3,
    };
    format!("{:?}", version)
}

/// Calls `http::Method::from_bytes` on the text's bytes: it takes one or more characters, all of
/// them among those of a method.
#[verifier::external_body]
pub(crate) fn is_accepted_method(method: &str) -> (accepted: bool)
    ensures
        accepted == is_method(method@),
{
    http::Method::from_bytes(method.as_bytes()).is_ok()
}

/// Parses the text as an `http::Uri` and writes it with `Display`. A path, with or without a query,
/// comes back as it is if it holds none but the characters that stand for themselves.
#[verifier::external_body]
pub(crate) fn parse_target(text: &str) -> (target: Option<String>)
    ensures
        match target {
            Some(written) => target_text(text@) == Some(written@),
            None => target_text(text@) is None,
        },
        is_plain_target(text@) ==> target is Some && target->0@ == text@,
{
    text.parse::<http::Uri>().ok().map(|uri| uri.to_string())
}

/// Calls `http::StatusCode::as_str`: the code in decimal notation.
#[verifier::external_body]
pub(crate) fn status_text(code: u16) -> (text: String)
    requires
        is_status(code),
    ensures
        text@ == decimal(code as nat),
{
    http::StatusCode::from_u16(code).unwrap().as_str().to_owned()
}

/// Calls `http::StatusCode::canonical_reason`: a phrase of visible characters and spaces, or none.
#[verifier::external_body]
pub(crate) fn reason_text(code: u16) -> (reason: Option<&'static str>)
    requires
        is_status(code),
    ensures
        match reason {
            Some(text) => status_reason(code) == Some(text@) && is_printable(text@),
            None => status_reason(code) is None,
        },
        error_reason(code) is Some ==> reason is Some && reason->0@ == error_reason(code)->0,
{
    http::StatusCode::from_u16(code).unwrap().canonical_reason()
}

} // verus!
