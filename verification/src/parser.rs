//! The heads of messages, as `httparse` reads them.
use crate::headers::line_views;
use crate::message::{is_status, version_name, Version};
use crate::number::decimal;
use crate::syntax::{
    are_plain_lines, head_bytes, is_printable, is_token, is_visible, spaced, HeaderLine,
};
use httparse::Error::{
    HeaderName, HeaderValue, NewLine, Status, Token, TooManyHeaders, Version as BadVersion,
};
use httparse::Status::{Complete, Partial};
use httparse::EMPTY_HEADER;
use vstd::prelude::*;

verus! {

/// What is wrong with the head of a message.
#[derive(Debug, Clone, Copy, PartialEq, Eq, Structural)]
pub enum ParseError {
    /// A byte that no header name may hold.
    HeaderName,
    /// A byte that no header value may hold.
    HeaderValue,
    /// A line that does not end as a line must.
    NewLine,
    /// A malformed status.
    Status,
    /// A byte that no token may hold.
    Token,
    /// More headers than there is room for.
    TooManyHeaders,
    /// A malformed or unknown version.
    Version,
}

/// The head of a request, as its sender wrote it.
#[derive(Debug)]
pub struct RequestHead {
    pub method: String,
    pub path: String,
    pub headers: Vec<(String, Vec<u8>)>,
    /// How many bytes the head takes.
    pub len: usize,
}

/// The head of a response, as its sender wrote it.
#[derive(Debug)]
pub struct ResponseHead {
    pub code: u16,
    pub headers: Vec<(String, Vec<u8>)>,
    /// How many bytes the head takes.
    pub len: usize,
}

/// The method, the path, the headers and the length of a request's head.
pub type RequestParts = (Seq<char>, Seq<char>, Seq<HeaderLine>, usize);

/// The status code, the headers and the length of a response's head.
pub type ResponseParts = (u16, Seq<HeaderLine>, usize);

impl RequestHead {
    pub open spec fn parts(&self) -> RequestParts {
        (self.method@, self.path@, line_views(self.headers@), self.len)
    }
}

impl ResponseHead {
    pub open spec fn parts(&self) -> ResponseParts {
        (self.code, line_views(self.headers@), self.len)
    }
}

/// What was read of a request's head.
pub open spec fn request_outcome(outcome: Result<Option<RequestHead>, ParseError>) -> Result<
    Option<RequestParts>,
    ParseError,
> {
    match outcome {
        Ok(Some(head)) => Ok(Some(head.parts())),
        Ok(None) => Ok(None),
        Err(error) => Err(error),
    }
}

/// What was read of a response's head.
pub open spec fn response_outcome(outcome: Result<Option<ResponseHead>, ParseError>) -> Result<
    Option<ResponseParts>,
    ParseError,
> {
    match outcome {
        Ok(Some(head)) => Ok(Some(head.parts())),
        Ok(None) => Ok(None),
        Err(error) => Err(error),
    }
}

/// The first line of a request.
pub open spec fn request_line(
    method: Seq<char>,
    target: Seq<char>,
    version: Version,
) -> Seq<char> {
    spaced(method, target, version_name(version))
}

/// The first line of a response.
pub open spec fn status_line(version: Version, code: u16, reason: Seq<char>) -> Seq<char> {
    spaced(version_name(version), decimal(code as nat), reason)
}

/// What `httparse::Request::parse` makes of a buffer, with room for so many headers: the method, the
/// path, the headers and the length of a complete head; `None`, if the head goes on beyond the
/// buffer; or what is wrong with it.
pub uninterp spec fn request_head(buffer: Seq<u8>, room: usize) -> Result<
    Option<(Seq<char>, Seq<char>, Seq<(Seq<char>, Seq<u8>)>, usize)>,
    ParseError,
>;

/// What `httparse::Response::parse` makes of a buffer, with room for so many headers: the status
/// code, the headers and the length of a complete head; `None`, if the head goes on beyond the
/// buffer; or what is wrong with it.
pub uninterp spec fn response_head(buffer: Seq<u8>, room: usize) -> Result<
    Option<(u16, Seq<(Seq<char>, Seq<u8>)>, usize)>,
    ParseError,
>;

/// A complete head lies within the buffer and has no more headers than there is room for; its method
/// and the names of its headers are tokens, and the values are made of the bytes of a value, without
/// blanks at either end.
pub open spec fn is_sound_request(
    outcome: Result<Option<RequestParts>, ParseError>,
    buffer: Seq<u8>,
    room: usize,
) -> bool {
    outcome matches Ok(Some(parts)) ==> {
        &&& parts.3 <= buffer.len()
        &&& parts.2.len() <= room
        &&& is_token(parts.0)
        &&& are_plain_lines(parts.2)
    }
}

/// A complete head lies within the buffer and has no more headers than there is room for; its code
/// has at most three digits, the names of its headers are tokens, and the values are made of the
/// bytes of a value, without blanks at either end.
pub open spec fn is_sound_response(
    outcome: Result<Option<ResponseParts>, ParseError>,
    buffer: Seq<u8>,
    room: usize,
) -> bool {
    outcome matches Ok(Some(parts)) ==> {
        &&& parts.2 <= buffer.len()
        &&& parts.1.len() <= room
        &&& parts.0 <= 999
        &&& are_plain_lines(parts.1)
    }
}

/// The head of a request of version 1.1, laid out in the plain way.
pub open spec fn plain_request_head(
    method: Seq<char>,
    path: Seq<char>,
    lines: Seq<HeaderLine>,
) -> Seq<u8> {
    head_bytes(request_line(method, path, Version::Http11), lines)
}

/// The head of a response of version 1.1, laid out in the plain way.
pub open spec fn plain_response_head(
    code: u16,
    reason: Seq<char>,
    lines: Seq<HeaderLine>,
) -> Seq<u8> {
    head_bytes(status_line(Version::Http11, code, reason), lines)
}

/// A plain head is read as it was written, whatever follows it, and is incomplete as long as bytes
/// of it are missing.
pub open spec fn reads_plain_requests(
    outcome: Result<Option<RequestParts>, ParseError>,
    buffer: Seq<u8>,
    room: usize,
) -> bool {
    forall|method: Seq<char>, path: Seq<char>, lines: Seq<HeaderLine>|
        is_token(method) && is_visible(path) && are_plain_lines(lines) && lines.len() <= room ==> {
            let head = #[trigger] plain_request_head(method, path, lines);
            &&& head.is_prefix_of(buffer) ==> outcome == Ok::<Option<RequestParts>, ParseError>(
                Some((method, path, lines, head.len() as usize)),
            )
            &&& buffer.is_prefix_of(head) && buffer.len() < head.len() ==> outcome == Ok::<
                Option<RequestParts>,
                ParseError,
            >(None)
        }
}

/// A plain head is read as it was written, whatever follows it, and is incomplete as long as bytes
/// of it are missing.
pub open spec fn reads_plain_responses(
    outcome: Result<Option<ResponseParts>, ParseError>,
    buffer: Seq<u8>,
    room: usize,
) -> bool {
    forall|code: u16, reason: Seq<char>, lines: Seq<HeaderLine>|
        is_status(code) && is_printable(reason) && are_plain_lines(lines) && lines.len() <= room
            ==> {
            let head = #[trigger] plain_response_head(code, reason, lines);
            &&& head.is_prefix_of(buffer) ==> outcome == Ok::<Option<ResponseParts>, ParseError>(
                Some((code, lines, head.len() as usize)),
            )
            &&& buffer.is_prefix_of(head) && buffer.len() < head.len() ==> outcome == Ok::<
                Option<ResponseParts>,
                ParseError,
            >(None)
        }
}

/// A complete head is settled: as long as bytes of it are missing it is incomplete, and whatever
/// follows it changes nothing.
pub open spec fn is_settled_request(
    outcome: Result<Option<RequestParts>, ParseError>,
    buffer: Seq<u8>,
    room: usize,
) -> bool {
    outcome matches Ok(Some(parts)) ==> {
        &&& forall|k: int|
            0 <= k < parts.3 ==> request_head(#[trigger] buffer.take(k), room) == Ok::<
                Option<RequestParts>,
                ParseError,
            >(None)
        &&& forall|more: Seq<u8>|
            request_head(#[trigger] (buffer.take(parts.3 as int) + more), room) == outcome
    }
}

/// Calls `httparse::Request::parse`.
///
/// A head that it takes for complete lies within the buffer and has no more headers than there is
/// room for; its method and the names of its headers are tokens, and the values are made of the
/// bytes of a value, without blanks at either end. A head of version 1.1 that is laid out in the
/// plain way is read as it was written, whatever follows it, and is incomplete as long as bytes of
/// it are missing. The bytes are looked at one after the other, up to the end of the head: however it
/// is laid out, a complete head is incomplete as long as bytes of it are missing, and is read in the
/// same way whatever follows it.
#[verifier::external_body]
pub(crate) fn parse_request_head(buffer: &[u8], room: usize) -> (outcome: Result<
    Option<RequestHead>,
    ParseError,
>)
    requires
        room <= u16::MAX,
    ensures
        request_outcome(outcome) == request_head(buffer@, room),
        is_sound_request(request_outcome(outcome), buffer@, room),
        reads_plain_requests(request_outcome(outcome), buffer@, room),
        is_settled_request(request_outcome(outcome), buffer@, room),
{
    let mut lines = vec![EMPTY_HEADER; room];
    let mut head = httparse::Request::new(&mut lines);
    match head.parse(buffer) {
        Ok(Complete(len)) => {
            let (method, path) = (head.method.unwrap().into(), head.path.unwrap().into());
            let headers = head.headers.iter().map(|h| (h.name.into(), h.value.into())).collect();
            Ok(Some(RequestHead { method, path, headers, len }))
        },
        Ok(Partial) => Ok(None),
        Err(error) => Err(match error {
            HeaderName => ParseError::HeaderName, HeaderValue => ParseError::HeaderValue,
            NewLine => ParseError::NewLine, Status => ParseError::Status, Token => ParseError::Token,
            TooManyHeaders => ParseError::TooManyHeaders, BadVersion => ParseError::Version,
        }),
    }
}

/// A complete head is settled: as long as bytes of it are missing it is incomplete, and whatever
/// follows it changes nothing.
pub open spec fn is_settled_response(
    outcome: Result<Option<ResponseParts>, ParseError>,
    buffer: Seq<u8>,
    room: usize,
) -> bool {
    outcome matches Ok(Some(parts)) ==> {
        &&& forall|k: int|
            0 <= k < parts.2 ==> response_head(#[trigger] buffer.take(k), room) == Ok::<
                Option<ResponseParts>,
                ParseError,
            >(None)
        &&& forall|more: Seq<u8>|
            response_head(#[trigger] (buffer.take(parts.2 as int) + more), room) == outcome
    }
}

/// Calls `httparse::Response::parse`.
///
/// A head that it takes for complete lies within the buffer and has no more headers than there is
/// room for; its code has at most three digits, the names of its headers are tokens, and the values
/// are made of the bytes of a value, without blanks at either end. A head of version 1.1 that is
/// laid out in the plain way is read as it was written, whatever follows it, and is incomplete as
/// long as bytes of it are missing. The bytes are looked at one after the other, up to the end of the
/// head: however it is laid out, a complete head is incomplete as long as bytes of it are missing, and
/// is read in the same way whatever follows it.
#[verifier::external_body]
pub(crate) fn parse_response_head(buffer: &[u8], room: usize) -> (outcome: Result<
    Option<ResponseHead>,
    ParseError,
>)
    requires
        room <= u16::MAX,
    ensures
        response_outcome(outcome) == response_head(buffer@, room),
        is_sound_response(response_outcome(outcome), buffer@, room),
        reads_plain_responses(response_outcome(outcome), buffer@, room),
        is_settled_response(response_outcome(outcome), buffer@, room),
{
    let mut lines = vec![EMPTY_HEADER; room];
    let mut head = httparse::Response::new(&mut lines);
    match head.parse(buffer) {
        Ok(Complete(len)) => {
            let headers = head.headers.iter().map(|h| (h.name.into(), h.value.into())).collect();
            Ok(Some(ResponseHead { code: head.code.unwrap(), headers, len }))
        },
        Ok(Partial) => Ok(None),
        Err(error) => Err(match error {
            HeaderName => ParseError::HeaderName, HeaderValue => ParseError::HeaderValue,
            NewLine => ParseError::NewLine, Status => ParseError::Status, Token => ParseError::Token,
            TooManyHeaders => ParseError::TooManyHeaders, BadVersion => ParseError::Version,
        }),
    }
}

/// The parts of a head are shown as they are.
pub proof fn parts_show_all(request: RequestHead, response: ResponseHead)
    ensures
        request.parts().0 == request.method@,
        request.parts().1 == request.path@,
        request.parts().2 == line_views(request.headers@),
        request.parts().3 == request.len,
        response.parts().0 == response.code,
        response.parts().1 == line_views(response.headers@),
        response.parts().2 == response.len,
        request_outcome(Ok(Some(request))) == Ok::<_, ParseError>(Some(request.parts())),
        response_outcome(Ok(Some(response))) == Ok::<_, ParseError>(Some(response.parts())),
{
}

} // verus!
