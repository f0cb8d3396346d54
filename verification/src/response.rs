//! Responses: how they are read, made and written.
use crate::headers::{
    append_header, are_accepted_lines, are_proper_entries, collect_headers, collected,
    collected_headers_keep_their_values, collected_headers_list_again, collected_is_proper,
    declared_length, header_entries, header_lines, header_values, length_of, listed_headers_collect_back, new_headers, position, with_appended,
    write_head, HeaderEntry, HEADER_CAPACITY,
};
use crate::message::{
    error_reason, is_status, reason_or_empty, reason_text, status_reason, status_text,
    version_name, version_text, Version,
};
use crate::number::{
    decimal, decimal_bytes, decimal_reads_back, decimal_text, lemma_decimal_bytes,
};
use crate::parser::{
    parse_response_head, plain_response_head, reads_plain_responses, response_head, status_line,
    ParseError, ResponseHead, ResponseParts,
};
use crate::stream::{
    next_portion, portion_len, push_bytes, StreamEvent, BODY_CHUNK_SIZE, MAX_BODY_SIZE,
    MAX_HEADERS_SIZE, MAX_NUM_HEADERS,
};
use crate::syntax::{
    are_plain_lines, head_bytes, is_header_name, is_header_value, is_printable, is_token,
    is_trimmed, lower, HeaderLine,
};
use http::header::{HeaderMap, HeaderValue};
use vstd::prelude::*;
use vstd::slice::slice_subrange;
use vstd::utf8::encode_utf8;

verus! {

/// Why no response could be read.
#[derive(Debug)]
pub enum Error {
    /// The server hung up before it had sent a complete head.
    IncompleteResponse,
    /// The server sent something that is no response.
    MalformedResponse(ParseError),
    /// The Content-Length header is present, but holds no valid number.
    InvalidContentLength,
    /// The Content-Length header does not agree with the size of the body that was sent.
    ContentLengthMismatch,
    /// The body of the response is larger than a body may be.
    ResponseBodyTooLarge,
    /// The connection failed.
    ConnectionError(std::io::Error),
}

/// A response.
#[derive(Debug)]
pub struct Response {
    pub status: u16,
    pub version: Version,
    pub headers: HeaderMap<HeaderValue>,
    pub body: Vec<u8>,
}

/// What a response holds.
pub struct ResponseView {
    pub status: u16,
    pub version: Version,
    pub headers: Seq<HeaderEntry>,
    pub body: Seq<u8>,
}

impl View for Response {
    type V = ResponseView;

    open spec fn view(&self) -> ResponseView {
        ResponseView {
            status: self.status,
            version: self.version,
            headers: header_entries(self.headers),
            body: self.body@,
        }
    }
}

impl ResponseView {
    /// The status is a status code.
    pub open spec fn wf(self) -> bool {
        is_status(self.status)
    }

    /// The first line.
    pub open spec fn first_line(self) -> Seq<char> {
        status_line(self.version, self.status, reason_or_empty(self.status))
    }

    /// The head on the wire.
    pub open spec fn head(self) -> Seq<u8> {
        head_bytes(self.first_line(), header_lines(self.headers))
    }

    /// The response on the wire.
    pub open spec fn bytes(self) -> Seq<u8> {
        self.head() + self.body
    }

    /// The response with another body.
    pub open spec fn with_body(self, body: Seq<u8>) -> ResponseView {
        ResponseView { body, ..self }
    }

    /// A response of version 1.1 whose parts a reader gets back as they are written, with any phrase
    /// of visible characters and spaces: a status code, and not too many headers, all of them valid.
    pub open spec fn is_plain(self) -> bool {
        &&& self.wf()
        &&& self.version == Version::Http11
        &&& are_proper_entries(self.headers)
        &&& are_plain_lines(header_lines(self.headers))
        &&& are_accepted_lines(header_lines(self.headers))
        &&& header_lines(self.headers).len() <= MAX_NUM_HEADERS
    }

    /// Whether the body is as long as the Content-Length header says, if there is one, unless the
    /// response has no body at all.
    pub open spec fn is_whole(self, to_head: bool) -> bool {
        is_bodiless(self.status, to_head) || match declared_length(self.headers) {
            Some(Some(content_length)) => self.body.len() == content_length,
            Some(None) => true,
            None => false,
        }
    }
}

/// The length of the body, as the Content-Length header has it: `None` if there is no such header,
/// an error if it holds no number.
pub fn get_content_length(response: &Response) -> (length: Result<Option<usize>, Error>)
    ensures
        length == (match declared_length(response@.headers) {
            Some(declared) => Ok(declared),
            None => Err(Error::InvalidContentLength),
        }),
{
    match length_of(&response.headers) {
        Some(declared) => Ok(declared),
        None => Err(Error::InvalidContentLength),
    }
}

/// The phrase of a status code, or nothing.
fn reason_text_or_empty(code: u16) -> (reason: &'static str)
    requires
        is_status(code),
    ensures
        reason@ == reason_or_empty(code),
        is_printable(reason@),
        error_reason(code) is Some ==> reason@ == error_reason(code)->0,
{
    match reason_text(code) {
        Some(reason) => reason,
        None => {
            proof {
                reveal_strlit("");
            }
            assert(""@ =~= Seq::<char>::empty());
            ""
        },
    }
}

/// The first line of a response.
pub fn format_response_line(response: &Response) -> (line: String)
    requires
        response@.wf(),
    ensures
        line@ == response@.first_line(),
        is_printable(reason_or_empty(response@.status)),
        error_reason(response@.status) is Some ==> reason_or_empty(response@.status)
            == error_reason(response@.status)->0,
{
    let mut line = version_text(response.version);
    line.append(" ");
    line.append(status_text(response.status).as_str());
    line.append(" ");
    line.append(reason_text_or_empty(response.status));
    proof {
        reveal_strlit(" ");
    }
    assert(line@ =~= response@.first_line());
    line
}

/// The bytes of a response, as they are written to a stream.
pub fn write_to_stream(response: &Response) -> (bytes: Vec<u8>)
    requires
        response@.wf(),
    ensures
        bytes@ == response@.bytes(),
        is_printable(reason_or_empty(response@.status)),
        error_reason(response@.status) is Some ==> reason_or_empty(response@.status)
            == error_reason(response@.status)->0,
{
    let mut bytes = write_head(format_response_line(response).as_str(), &response.headers);
    push_bytes(&mut bytes, response.body.as_slice());
    bytes
}

/// The text of an error.
pub open spec fn error_text(status: u16, reason: Seq<char>) -> Seq<char> {
    "HTTP "@ + decimal(status as nat).push(' ') + reason
}

/// The headers of an error whose text takes so many bytes.
pub open spec fn error_lines(len: nat) -> Seq<HeaderLine> {
    seq![
        ("Content-Type"@, encode_utf8("text/plain"@)),
        ("Content-Length"@, decimal_bytes(len)),
    ]
}

/// The response that tells a client of an error.
pub open spec fn error_response(status: u16, reason: Seq<char>) -> ResponseView {
    let body = encode_utf8(error_text(status, reason));
    ResponseView {
        status,
        version: Version::Http11,
        headers: collected(error_lines(body.len())),
        body,
    }
}

proof fn lemma_error_lines(len: nat)
    ensures
        is_header_name("Content-Type"@) && is_token("Content-Type"@),
        is_header_name("Content-Length"@) && is_token("Content-Length"@),
        is_header_value(encode_utf8("text/plain"@)) && is_trimmed(encode_utf8("text/plain"@)),
        is_header_value(decimal_bytes(len)) && is_trimmed(decimal_bytes(len)),
        lower("Content-Type"@) == "content-type"@,
        lower("Content-Length"@) == "content-length"@,
        collected(error_lines(len)) == with_appended(
            with_appended(Seq::empty(), "Content-Type"@, encode_utf8("text/plain"@)),
            "Content-Length"@,
            decimal_bytes(len),
        ),
        collected(error_lines(len)) == seq![
            ("content-type"@, seq![encode_utf8("text/plain"@)]),
            ("content-length"@, seq![decimal_bytes(len)]),
        ],
{
    reveal_strlit("Content-Type");
    reveal_strlit("Content-Length");
    reveal_strlit("content-type");
    reveal_strlit("content-length");
    reveal_strlit("text/plain");
    lemma_decimal_bytes(len);
    assert(vstd::utf8::is_ascii_chars("text/plain"@));
    vstd::utf8::is_ascii_chars_encode_utf8("text/plain"@);
    assert(lower("Content-Type"@) =~= "content-type"@);
    assert(lower("Content-Length"@) =~= "content-length"@);
    let lines = error_lines(len);
    let first = lines.drop_last();
    assert(first.drop_last() =~= Seq::<HeaderLine>::empty());
    assert(collected(first.drop_last()) =~= Seq::<HeaderEntry>::empty());
    let one = collected(first);
    assert(one =~= seq![("content-type"@, seq![encode_utf8("text/plain"@)])]);
    assert("content-type"@.len() != "content-length"@.len());
    assert(one.skip(1) =~= Seq::<HeaderEntry>::empty());
    assert(position(one.skip(1), "content-length"@) == 0);
    assert(collected(lines) =~= one.push(("content-length"@, seq![decimal_bytes(len)])));
}

/// Makes the response that tells a client of an error.
pub fn make_http_error(status: u16) -> (response: Response)
    requires
        is_status(status),
    ensures
        response@ == error_response(status, reason_or_empty(status)),
        error_reason(status) is Some ==> response@ == error_response(
            status,
            error_reason(status)->0,
        ),
        declared_length(response@.headers) == Some(Some(response@.body.len() as usize)),
{
    let mut text = "HTTP ".to_owned();
    text.append(decimal_text(status as usize).as_str());
    text.append(" ");
    text.append(reason_text_or_empty(status));
    proof {
        reveal_strlit(" ");
    }
    assert(text@ =~= error_text(status, reason_or_empty(status)));
    let mut body: Vec<u8> = Vec::new();
    push_bytes(&mut body, text.as_str().as_bytes());
    assert(body@ =~= encode_utf8(text@));
    let length = decimal_text(body.len());
    let mut headers = new_headers();
    proof {
        lemma_error_lines(body@.len());
    }
    append_header(&mut headers, "Content-Type", "text/plain".as_bytes());
    append_header(&mut headers, "Content-Length", length.as_str().as_bytes());
    proof {
        error_length_is_declared(status, reason_or_empty(status));
    }
    Response { status, version: Version::Http11, headers, body }
}

/// An error says in its Content-Length header how long its body is.
pub proof fn error_length_is_declared(status: u16, reason: Seq<char>)
    requires
        error_response(status, reason).body.len() <= usize::MAX,
    ensures
        declared_length(error_response(status, reason).headers) == Some(
            Some(error_response(status, reason).body.len() as usize),
        ),
{
    let len = error_response(status, reason).body.len();
    lemma_error_lines(len);
    decimal_reads_back(len);
    reveal_strlit("content-type");
    reveal_strlit("content-length");
    assert(lower("content-length"@) =~= "content-length"@);
    let entries = collected(error_lines(len));
    assert("content-type"@.len() != "content-length"@.len());
    assert(entries.skip(1)[0].0 == "content-length"@);
    assert(position(entries.skip(1), "content-length"@) == 0);
    assert(position(entries, "content-length"@) == 1);
}

/// Whether the `http` crate takes a head that was read: its status code and its headers.
pub open spec fn is_accepted_head(parts: ResponseParts) -> bool {
    is_status(parts.0) && are_accepted_lines(parts.1)
}

/// The response that a head makes, with a body that is still empty.
pub open spec fn headed_response(parts: ResponseParts) -> ResponseView {
    ResponseView {
        status: parts.0,
        version: Version::Http11,
        headers: collected(parts.1),
        body: Seq::empty(),
    }
}

/// What is wrong with a head that the `http` crate does not take: its status code, or else a header; of
/// the headers that are read that is one whose name is too long.
pub open spec fn head_fault(parts: ResponseParts) -> ParseError {
    if !is_status(parts.0) {
        ParseError::Status
    } else {
        ParseError::HeaderName
    }
}

/// Makes a response of the head that was read; an error, if the `http` crate does not take the head.
pub fn build_response(head: ResponseHead) -> (response: Result<Response, ParseError>)
    requires
        head.headers@.len() <= HEADER_CAPACITY,
    ensures
        match response {
            Ok(response) => is_accepted_head(head.parts()) && response@ == headed_response(
                head.parts(),
            ),
            Err(error) => !is_accepted_head(head.parts()) && error == head_fault(head.parts()),
        },
{
    if head.code < 100 || head.code > 999 {
        return Err(ParseError::Status);
    }
    match collect_headers(&head.headers) {
        Some(headers) => Ok(
            Response { status: head.code, version: Version::Http11, headers, body: Vec::new() },
        ),
        None => Err(ParseError::HeaderName),
    }
}

/// What a buffer holds of a response: the response and the length of its head, if the head is
/// complete; nothing yet, if it is not; an error, if the buffer holds no response, or a head that the
/// `http` crate does not take.
pub open spec fn parsed_response(buffer: Seq<u8>) -> Result<Option<(ResponseView, usize)>, Error> {
    match response_head(buffer, MAX_NUM_HEADERS) {
        Err(error) => Err(Error::MalformedResponse(error)),
        Ok(None) => Ok(None),
        Ok(Some(parts)) => if is_accepted_head(parts) {
            Ok(Some((headed_response(parts), parts.2)))
        } else {
            Err(Error::MalformedResponse(head_fault(parts)))
        },
    }
}

/// A plain response that stands at the beginning of a buffer, with any phrase, is read as it was
/// written, and its head is incomplete as long as bytes of it are missing.
pub open spec fn reads_back_responses(buffer: Seq<u8>) -> bool {
    forall|response: ResponseView, reason: Seq<char>|
        response.is_plain() && is_printable(reason) ==> {
            let head = #[trigger] plain_response_head(
                response.status,
                reason,
                header_lines(response.headers),
            );
            &&& head.is_prefix_of(buffer) ==> parsed_response(buffer) == Ok::<_, Error>(
                Some((response.with_body(Seq::empty()), head.len() as usize)),
            )
            &&& buffer.is_prefix_of(head) && buffer.len() < head.len() ==> parsed_response(buffer)
                == Ok::<Option<(ResponseView, usize)>, Error>(None)
        }
}

/// A response whose head is complete is settled, however the head is laid out: its body is still
/// empty, as long as bytes of its head are missing it is incomplete, and whatever follows its head
/// changes nothing.
pub open spec fn is_settled(buffer: Seq<u8>) -> bool {
    parsed_response(buffer) matches Ok(Some((response, len))) ==> {
        &&& len <= buffer.len()
        &&& response.body.len() == 0
        &&& forall|k: int|
            0 <= k < len ==> parsed_response(#[trigger] buffer.take(k)) == Ok::<
                Option<(ResponseView, usize)>,
                Error,
            >(None)
        &&& forall|more: Seq<u8>|
            parsed_response(#[trigger] (buffer.take(len as int) + more)) == Ok::<_, Error>(
                Some((response, len)),
            )
    }
}

/// Tries to read the bytes of a buffer as a response.
///
/// * If the buffer holds a complete head, returns the response and the length of the head.
/// * If the buffer holds the beginning of a head, returns `Ok(None)`.
/// * If the buffer holds something that is no response, returns an error. A head that the `http` crate
///   does not take is no response either.
pub fn parse_response(buffer: &[u8]) -> (parsed: Result<Option<(Response, usize)>, Error>)
    ensures
        match parsed {
            Ok(Some((response, len))) => parsed_response(buffer@) == Ok::<_, Error>(
                Some((response@, len)),
            ) && len <= buffer@.len() && response@.is_plain(),
            Ok(None) => parsed_response(buffer@) == Ok::<Option<(ResponseView, usize)>, Error>(
                None,
            ),
            Err(error) => parsed_response(buffer@) == Err::<Option<(ResponseView, usize)>, _>(
                error,
            ),
        },
        reads_back_responses(buffer@),
        is_settled(buffer@),
{
    let outcome = parse_response_head(buffer, MAX_NUM_HEADERS);
    proof {
        lemma_reads_back(buffer@);
    }
    match outcome {
        Err(error) => Err(Error::MalformedResponse(error)),
        Ok(None) => Ok(None),
        Ok(Some(head)) => {
            let len = head.len;
            let ghost parts = head.parts();
            proof {
                collected_is_proper(parts.1);
                if is_accepted_head(parts) {
                    collected_headers_list_again(parts.1);
                }
            }
            match build_response(head) {
                Ok(response) => Ok(Some((response, len))),
                Err(error) => Err(Error::MalformedResponse(error)),
            }
        },
    }
}

proof fn lemma_reads_back(buffer: Seq<u8>)
    requires
        reads_plain_responses(response_head(buffer, MAX_NUM_HEADERS), buffer, MAX_NUM_HEADERS),
    ensures
        reads_back_responses(buffer),
{
    assert forall|response: ResponseView, reason: Seq<char>|
        response.is_plain() && is_printable(reason) implies {
        let head = #[trigger] plain_response_head(
            response.status,
            reason,
            header_lines(response.headers),
        );
        &&& head.is_prefix_of(buffer) ==> parsed_response(buffer) == Ok::<_, Error>(
            Some((response.with_body(Seq::empty()), head.len() as usize)),
        )
        &&& buffer.is_prefix_of(head) && buffer.len() < head.len() ==> parsed_response(buffer)
            == Ok::<Option<(ResponseView, usize)>, Error>(None)
    } by {
        listed_headers_collect_back(response.headers);
    }
}

/// How far the reading of a response has come.
#[derive(Debug)]
pub enum ReadState {
    /// The head is incomplete; these bytes of it have come in. The response may answer a HEAD
    /// request.
    Head { buffer: Vec<u8>, to_head: bool },
    /// The head is complete; bytes of the body are missing, or it is not known where it ends.
    Body { response: Response, content_length: Option<usize> },
}

/// What comes of an event.
#[derive(Debug)]
pub enum ReadStep {
    /// More bytes are needed.
    More(ReadState),
    /// The reading has come to its end.
    Done(Result<Response, Error>),
}

/// How far the reading of a response has come.
pub enum ReadStateView {
    Head { buffer: Seq<u8>, to_head: bool },
    Body { response: ResponseView, content_length: Option<usize> },
}

/// What comes of an event.
pub enum ReadStepView {
    More(ReadStateView),
    Done(Result<ResponseView, Error>),
}

impl View for ReadState {
    type V = ReadStateView;

    open spec fn view(&self) -> ReadStateView {
        match self {
            ReadState::Head { buffer, to_head } => ReadStateView::Head {
                buffer: buffer@,
                to_head: *to_head,
            },
            ReadState::Body { response, content_length } => ReadStateView::Body {
                response: response@,
                content_length: *content_length,
            },
        }
    }
}

impl View for ReadStep {
    type V = ReadStepView;

    open spec fn view(&self) -> ReadStepView {
        match self {
            ReadStep::More(state) => ReadStepView::More(state@),
            ReadStep::Done(Ok(response)) => ReadStepView::Done(Ok(response@)),
            ReadStep::Done(Err(error)) => ReadStepView::Done(Err(*error)),
        }
    }
}

impl ReadStateView {
    /// A head that is incomplete fits into its buffer; a body that is incomplete is shorter than the
    /// Content-Length header says, if there is one, and no longer than a body may be.
    pub open spec fn wf(self) -> bool {
        match self {
            ReadStateView::Head { buffer, to_head } => buffer.len() <= MAX_HEADERS_SIZE,
            ReadStateView::Body { response, content_length } => {
                &&& response.is_plain()
                &&& response.body.len() <= MAX_BODY_SIZE
                &&& content_length matches Some(n) ==> response.body.len() < n
                &&& declared_length(response.headers) == Some(content_length)
            },
        }
    }

    /// How many bytes may be read next.
    pub open spec fn limit(self) -> int {
        match self {
            ReadStateView::Head { buffer, to_head } => MAX_HEADERS_SIZE - buffer.len(),
            ReadStateView::Body { response, content_length } => BODY_CHUNK_SIZE as int,
        }
    }
}

impl ReadStepView {
    /// Whether what is left to do, or what came out, is in order.
    pub open spec fn wf(self) -> bool {
        match self {
            ReadStepView::More(state) => state.wf(),
            ReadStepView::Done(Ok(response)) => response.is_plain(),
            _ => true,
        }
    }
}

/// A response has no body if it answers a HEAD request, or if its status code says so: one below
/// 200, 204 (no content) or 304 (not modified).
pub open spec fn is_bodiless(status: u16, to_head: bool) -> bool {
    to_head || status < 200 || status == 204 || status == 304
}

/// What comes of a complete head, and of the bytes of the body that came with it.
pub open spec fn after_head(response: ResponseView, to_head: bool) -> ReadStepView {
    if is_bodiless(response.status, to_head) {
        ReadStepView::Done(Ok(response))
    } else {
        match declared_length(response.headers) {
            None => ReadStepView::Done(Err(Error::InvalidContentLength)),
            Some(content_length) => after_body(response, content_length),
        }
    }
}

/// What comes of bytes of the body: more of them are needed, they are all, or they are too many.
/// Without a declared length, the body ends with the stream.
pub open spec fn after_body(
    response: ResponseView,
    content_length: Option<usize>,
) -> ReadStepView {
    if content_length is None || response.body.len() < content_length->0 {
        ReadStepView::More(ReadStateView::Body { response, content_length })
    } else if response.body.len() == content_length->0 {
        ReadStepView::Done(Ok(response))
    } else {
        ReadStepView::Done(Err(Error::ContentLengthMismatch))
    }
}

/// What comes of bytes that come in while the head is incomplete.
pub open spec fn head_received(
    buffer: Seq<u8>,
    to_head: bool,
    bytes: Seq<u8>,
) -> ReadStepView {
    if bytes.len() == 0 {
        ReadStepView::Done(Err(Error::IncompleteResponse))
    } else {
        let all = buffer + bytes;
        match parsed_response(all) {
            Err(error) => ReadStepView::Done(Err(error)),
            Ok(None) => ReadStepView::More(ReadStateView::Head { buffer: all, to_head }),
            Ok(Some((response, len))) => after_head(
                response.with_body(all.skip(len as int)),
                to_head,
            ),
        }
    }
}

/// What comes of bytes that come in while the body is incomplete.
pub open spec fn body_received(
    response: ResponseView,
    content_length: Option<usize>,
    bytes: Seq<u8>,
) -> ReadStepView {
    let len = response.body.len() + bytes.len();
    if bytes.len() == 0 {
        if content_length is None {
            ReadStepView::Done(Ok(response))
        } else {
            ReadStepView::Done(Err(Error::ContentLengthMismatch))
        }
    } else if content_length is Some && len > content_length->0 {
        ReadStepView::Done(Err(Error::ContentLengthMismatch))
    } else if len > MAX_BODY_SIZE {
        ReadStepView::Done(Err(Error::ResponseBodyTooLarge))
    } else {
        after_body(response.with_body(response.body + bytes), content_length)
    }
}

/// What comes of bytes that come in.
pub open spec fn received(state: ReadStateView, bytes: Seq<u8>) -> ReadStepView {
    match state {
        ReadStateView::Head { buffer, to_head } => head_received(buffer, to_head, bytes),
        ReadStateView::Body { response, content_length } => body_received(
            response,
            content_length,
            bytes,
        ),
    }
}

/// What comes of an event.
pub open spec fn read_step(state: ReadStateView, event: StreamEvent) -> ReadStepView {
    match event {
        StreamEvent::Failed(error) => ReadStepView::Done(Err(Error::ConnectionError(error))),
        StreamEvent::Received(bytes) => received(state, bytes@),
    }
}

impl ReadState {
    /// Nothing has come in yet of the response to a request with that method.
    pub fn new(request_method: &String) -> (state: ReadState)
        ensures
            state@ == (ReadStateView::Head {
                buffer: Seq::empty(),
                to_head: request_method@ == "HEAD"@,
            }),
            state@.wf(),
    {
        let to_head = *request_method == "HEAD".to_owned();
        let state = ReadState::Head { buffer: Vec::new(), to_head };
        assert(state@->buffer =~= Seq::<u8>::empty());
        state
    }

    /// How many bytes may be read next.
    pub fn limit(&self) -> (limit: usize)
        requires
            self@.wf(),
        ensures
            limit == self@.limit(),
    {
        match self {
            ReadState::Head { buffer, to_head } => MAX_HEADERS_SIZE - buffer.len(),
            ReadState::Body { response, content_length } => BODY_CHUNK_SIZE,
        }
    }
}

/// Takes in bytes of the head. This concerns the first line and the headers only; the body comes
/// after them.
fn read_headers(buffer: Vec<u8>, to_head: bool, bytes: Vec<u8>) -> (step: ReadStep)
    requires
        buffer@.len() + bytes@.len() <= MAX_HEADERS_SIZE,
    ensures
        step@ == head_received(buffer@, to_head, bytes@),
        step@.wf(),
        step@ matches ReadStepView::Done(Ok(read)) ==> read.is_whole(to_head),
        bytes@.len() > 0 ==> reads_back_responses(buffer@ + bytes@) && is_settled(
            buffer@ + bytes@,
        ),
{
    if bytes.len() == 0 {
        return ReadStep::Done(Err(Error::IncompleteResponse));
    }
    let mut all = buffer;
    push_bytes(&mut all, bytes.as_slice());
    match parse_response(all.as_slice()) {
        Err(error) => ReadStep::Done(Err(error)),
        Ok(None) => ReadStep::More(ReadState::Head { buffer: all, to_head }),
        Ok(Some((mut response, len))) => {
            push_bytes(&mut response.body, slice_subrange(all.as_slice(), len, all.len()));
            assert(response@.body =~= all@.skip(len as int));
            begin_body(response, to_head)
        },
    }
}

/// Decides, when the head is complete, whether bytes of the body are missing.
fn begin_body(response: Response, to_head: bool) -> (step: ReadStep)
    requires
        response@.is_plain(),
        response@.body.len() <= MAX_BODY_SIZE,
    ensures
        step@ == after_head(response@, to_head),
        step@.wf(),
        step@ matches ReadStepView::Done(Ok(read)) ==> read.is_whole(to_head),
{
    if to_head || response.status < 200 || response.status == 204 || response.status == 304 {
        return ReadStep::Done(Ok(response));
    }
    match get_content_length(&response) {
        Err(error) => ReadStep::Done(Err(error)),
        Ok(content_length) => continue_body(response, content_length),
    }
}

/// Decides whether the body is complete.
fn continue_body(response: Response, content_length: Option<usize>) -> (step: ReadStep)
    requires
        response@.is_plain(),
        response@.body.len() <= MAX_BODY_SIZE,
        declared_length(response@.headers) == Some(content_length),
    ensures
        step@ == after_body(response@, content_length),
        step@.wf(),
        step@ matches ReadStepView::Done(Ok(read)) ==> read.is_whole(false),
{
    match content_length {
        Some(n) => if response.body.len() > n {
            ReadStep::Done(Err(Error::ContentLengthMismatch))
        } else if response.body.len() == n {
            ReadStep::Done(Ok(response))
        } else {
            ReadStep::More(ReadState::Body { response, content_length })
        },
        None => ReadStep::More(ReadState::Body { response, content_length }),
    }
}

/// Takes in bytes of the body. The server sends as many bytes as the Content-Length header says, or
/// hangs up after the last one if there is no such header.
fn read_body(response: Response, content_length: Option<usize>, bytes: Vec<u8>) -> (step: ReadStep)
    requires
        (ReadStateView::Body { response: response@, content_length }).wf(),
        bytes@.len() <= BODY_CHUNK_SIZE,
    ensures
        step@ == body_received(response@, content_length, bytes@),
        step@.wf(),
        step@ matches ReadStepView::Done(Ok(read)) ==> read.is_whole(false),
{
    if bytes.len() == 0 {
        return match content_length {
            None => ReadStep::Done(Ok(response)),
            Some(_) => ReadStep::Done(Err(Error::ContentLengthMismatch)),
        };
    }
    let len: usize = response.body.len() + bytes.len();
    let too_many = match content_length {
        Some(n) => len > n,
        None => false,
    };
    if too_many {
        return ReadStep::Done(Err(Error::ContentLengthMismatch));
    }
    if len > MAX_BODY_SIZE {
        return ReadStep::Done(Err(Error::ResponseBodyTooLarge));
    }
    let mut response = response;
    push_bytes(&mut response.body, bytes.as_slice());
    continue_body(response, content_length)
}

/// Reads a response from a stream, event by event: takes in what came of an attempt to read, and says
/// whether another one is needed.
///
/// A plain response comes out as it was written; see `read_from_bytes`.
pub fn read_from_stream(state: ReadState, event: StreamEvent) -> (step: ReadStep)
    requires
        state@.wf(),
        event.fits(state@.limit()),
    ensures
        step@ == read_step(state@, event),
        step@.wf(),
        step@ matches ReadStepView::Done(Ok(read)) ==> read.is_whole(
            state@ matches ReadStateView::Head { to_head, .. } && to_head,
        ),
        state@ matches ReadStateView::Head { buffer, .. } ==> (event matches StreamEvent::Received(
            bytes,
        ) ==> bytes@.len() > 0 ==> reads_back_responses(buffer + bytes@) && is_settled(
            buffer + bytes@,
        )),
{
    let bytes = match event {
        StreamEvent::Failed(error) => {
            return ReadStep::Done(Err(Error::ConnectionError(error)));
        },
        StreamEvent::Received(bytes) => bytes,
    };
    match state {
        ReadState::Head { buffer, to_head } => read_headers(buffer, to_head, bytes),
        ReadState::Body { response, content_length } => read_body(
            response,
            content_length,
            bytes,
        ),
    }
}

impl ResponseView {
    /// A plain response whose head is no larger than a head may be, and whose body is as long as its
    /// headers say and no longer than a body may be; empty, if the response has none.
    pub open spec fn is_sendable(self, to_head: bool) -> bool {
        &&& self.is_plain()
        &&& is_printable(reason_or_empty(self.status))
        &&& self.head().len() <= MAX_HEADERS_SIZE
        &&& self.body.len() <= MAX_BODY_SIZE
        &&& if is_bodiless(self.status, to_head) {
            self.body.len() == 0
        } else {
            match declared_length(self.headers) {
                Some(Some(content_length)) => self.body.len() == content_length,
                Some(None) => true,
                None => false,
            }
        }
    }

    /// Whether its end can be told from the response itself.
    pub open spec fn ends_itself(self, to_head: bool) -> bool {
        is_bodiless(self.status, to_head) || declared_length(self.headers) != Some(
            None::<usize>,
        )
    }

    /// How far the reading has come when so many bytes of the response have come in.
    pub open spec fn read_up_to(self, to_head: bool, n: int) -> ReadStateView {
        if n < self.head().len() {
            ReadStateView::Head { buffer: self.bytes().take(n), to_head }
        } else {
            ReadStateView::Body {
                response: self.with_body(self.body.take(n - self.head().len())),
                content_length: declared_length(self.headers)->0,
            }
        }
    }

    /// What is read of the response if the server hangs up when it has sent so many bytes of it: the
    /// response, if these are all; an error, if bytes of the head are missing or the headers say that
    /// bytes of the body are; else the response with the body so far.
    pub open spec fn cut_off(self, to_head: bool, n: int) -> Result<ResponseView, Error> {
        if n < self.head().len() {
            Err(Error::IncompleteResponse)
        } else if n < self.bytes().len() && self.ends_itself(to_head) {
            Err(Error::ContentLengthMismatch)
        } else {
            Ok(self.with_body(self.body.take(n - self.head().len())))
        }
    }
}

proof fn lemma_received(response: ResponseView, to_head: bool, n: int, bytes: Seq<u8>)
    requires
        response.is_sendable(to_head),
        0 <= n < response.bytes().len(),
        0 < bytes.len() <= response.bytes().len() - n,
        bytes == response.bytes().subrange(n, n + bytes.len()),
        n < response.head().len() ==> reads_back_responses(
            response.bytes().take(n + bytes.len()),
        ),
    ensures
        received(response.read_up_to(to_head, n), bytes) == if response.ends_itself(to_head) && n
            + bytes.len() == response.bytes().len() {
            ReadStepView::Done(Ok(response))
        } else {
            ReadStepView::More(response.read_up_to(to_head, n + bytes.len()))
        },
{
    let head = response.head();
    let all = response.bytes();
    let m = n + bytes.len();
    assert(head == plain_response_head(
        response.status,
        reason_or_empty(response.status),
        header_lines(response.headers),
    ));
    if n < head.len() {
        assert(all.take(n) + bytes =~= all.take(m));
        if m < head.len() {
            assert(all.take(m).is_prefix_of(head));
        } else {
            assert(head.is_prefix_of(all.take(m)));
            assert(all.take(m).skip(head.len() as int) =~= response.body.take(m - head.len()));
            assert(response.with_body(Seq::empty()).with_body(response.body.take(m - head.len()))
                == response.with_body(response.body.take(m - head.len())));
        }
    } else {
        assert(response.body.take(n - head.len()) + bytes =~= response.body.take(m - head.len()));
    }
    if m == all.len() {
        assert(response.body.take(m - head.len()) =~= response.body);
        assert(response.with_body(response.body) == response);
    }
}

proof fn lemma_limit(response: ResponseView, to_head: bool, n: int)
    requires
        response.is_sendable(to_head),
        0 <= n <= response.bytes().len(),
        n < response.bytes().len() || !response.ends_itself(to_head),
    ensures
        response.read_up_to(to_head, n).limit() > 0,
        received(response.read_up_to(to_head, n), Seq::empty()) == ReadStepView::Done(
            response.cut_off(to_head, n),
        ),
{
}

/// A response of which nothing is cut off is read as it is.
pub proof fn uncut_response_is_read(response: ResponseView, to_head: bool)
    ensures
        response.cut_off(to_head, response.bytes().len() as int) == Ok::<_, Error>(response),
{
    assert(response.body.take(response.body.len() as int) =~= response.body);
    assert(response.with_body(response.body) == response);
}

/// What comes of bytes that come in portion by portion, when nothing follows them.
pub open spec fn read_to_end(
    state: ReadStateView,
    input: Seq<u8>,
    portions: Seq<usize>,
    i: int,
) -> ReadStepView
    decreases input.len(),
{
    let n = portion_len(state.limit(), input.len() as int, portions, i);
    if n <= 0 {
        received(state, Seq::empty())
    } else {
        match received(state, input.take(n)) {
            ReadStepView::More(next) => read_to_end(next, input.skip(n), portions, i + 1),
            end => end,
        }
    }
}

/// Whether a response is what an input holds up to some place: a head that stands at the beginning of
/// the input, and as its body the bytes from the end of that head up to there.
pub open spec fn is_read_from(response: ResponseView, input: Seq<u8>, end: int) -> bool {
    exists|k: int|
        0 <= k <= input.len() && (parsed_response(#[trigger] input.take(k)) matches Ok(
            Some((head, len)),
        ) && len <= end <= input.len() && response.status == head.status && response.version
            == head.version && response.headers == head.headers && response.body
            == input.subrange(len as int, end))
}

/// Reads the response to a request with that method from bytes that are all at hand, as from a stream
/// that hands them out in such portions and ends after them.
///
/// What was written of a response is read as that response, whatever the portions. A server that
/// hangs up before the end is noticed, unless the end cannot be told from the response itself.
/// Whatever the input is, what is read of it is what stands there.
pub fn read_from_bytes(input: &[u8], portions: &[usize], request_method: &String) -> (outcome:
    Result<Response, Error>)
    ensures
        read_to_end(
            ReadStateView::Head { buffer: Seq::empty(), to_head: request_method@ == "HEAD"@ },
            input@,
            portions@,
            0,
        ) == (match outcome {
            Ok(response) => ReadStepView::Done(Ok(response@)),
            Err(error) => ReadStepView::Done(Err(error)),
        }),
        outcome matches Ok(response) ==> response@.is_plain() && response@.is_whole(
            request_method@ == "HEAD"@,
        ),
        outcome matches Ok(response) ==> exists|end: int|
            #[trigger] is_read_from(response@, input@, end),
        outcome matches Ok(response) ==> (request_method@ != "HEAD"@ && response.status >= 200
            && response.status != 204 && response.status != 304 ==> (declared_length(
            response@.headers,
        ) matches Some(length) && (length matches Some(n) ==> response.body@.len() == n))),
        forall|response: ResponseView|
            response.is_sendable(request_method@ == "HEAD"@) && input@.is_prefix_of(
                #[trigger] response.bytes(),
            ) ==> (match outcome {
                Ok(read) => response.cut_off(
                    request_method@ == "HEAD"@,
                    input@.len() as int,
                ) == Ok::<_, Error>(read@) && (input@ == response.bytes() ==> read@ == response),
                Err(error) => response.cut_off(
                    request_method@ == "HEAD"@,
                    input@.len() as int,
                ) == Err::<ResponseView, _>(error),
            }),
{
    let ghost to_head = request_method@ == "HEAD"@;
    let ghost start = ReadStateView::Head { buffer: Seq::empty(), to_head };
    let mut state = ReadState::new(request_method);
    let mut position: usize = 0;
    let mut i: usize = 0;
    assert(input@.skip(0) =~= input@);
    assert forall|response: ResponseView|
        response.is_sendable(to_head) && input@.is_prefix_of(
            #[trigger] response.bytes(),
        ) implies state@ == response.read_up_to(to_head, 0) && 0 < response.bytes().len() by {
        assert(response.bytes().take(0) =~= Seq::<u8>::empty());
        assert(response.head().len() > 0);
    }
    loop
        invariant
            i <= position <= input@.len(),
            state@.wf(),
            state@ matches ReadStateView::Head { to_head: answers_head, .. } ==> answers_head
                == to_head,
            to_head == (request_method@ == "HEAD"@),
            start == (ReadStateView::Head { buffer: Seq::empty(), to_head }),
            match state@ {
                ReadStateView::Head { buffer, .. } => buffer == input@.take(position as int),
                ReadStateView::Body { response, .. } => is_read_from(
                    response,
                    input@,
                    position as int,
                ),
            },
            read_to_end(start, input@, portions@, 0) == read_to_end(
                state@,
                input@.skip(position as int),
                portions@,
                i as int,
            ),
            forall|response: ResponseView|
                response.is_sendable(to_head) && input@.is_prefix_of(#[trigger] response.bytes())
                    ==> state@ == response.read_up_to(to_head, position as int) && (position
                    < response.bytes().len() || !response.ends_itself(to_head)),
        decreases input@.len() - position + 1,
    {
        let rest = input.len() - position;
        let len = next_portion(state.limit(), rest, portions, i);
        let ghost before = state@;
        let ghost next = position + len;
        let mut bytes: Vec<u8> = Vec::new();
        push_bytes(&mut bytes, slice_subrange(input, position, position + len));
        let ghost piece = bytes@;
        assert(piece =~= input@.skip(position as int).take(len as int));
        assert(piece =~= input@.subrange(position as int, next as int));
        assert(len == 0 ==> piece =~= Seq::<u8>::empty());
        let step = read_from_stream(state, StreamEvent::Received(bytes));
        assert(step@ == received(before, piece));
        proof {
            lemma_read_from(before, input@, position as int, piece);
        }
        proof {
            assert forall|response: ResponseView|
                response.is_sendable(to_head) && input@.is_prefix_of(
                    #[trigger] response.bytes(),
                ) implies step@ == (if len == 0 || (response.ends_itself(to_head) && next
                == response.bytes().len()) {
                ReadStepView::Done(response.cut_off(to_head, input@.len() as int))
            } else {
                ReadStepView::More(response.read_up_to(to_head, next as int))
            }) && (len == 0 ==> position == input@.len()) by {
                lemma_limit(response, to_head, position as int);
                uncut_response_is_read(response, to_head);
                if len > 0 {
                    assert(piece =~= response.bytes().subrange(position as int, next as int));
                    if position < response.head().len() {
                        assert(response.bytes().take(position as int) + piece
                            =~= response.bytes().take(next as int));
                    }
                    lemma_received(response, to_head, position as int, piece);
                }
            }
            assert forall|response: ResponseView|
                input@ == #[trigger] response.bytes() implies response.cut_off(
                to_head,
                input@.len() as int,
            ) == Ok::<_, Error>(response) by {
                uncut_response_is_read(response, to_head);
            }
        }
        match step {
            ReadStep::Done(outcome) => {
                assert(outcome matches Ok(response) ==> is_read_from(
                    response@,
                    input@,
                    next as int,
                ));
                return outcome;
            },
            ReadStep::More(more) => {
                assert(input@.skip(position as int).skip(len as int) =~= input@.skip(next as int));
                state = more;
                position = position + len;
                i = i + 1;
            },
        }
    }
}

proof fn lemma_read_from(state: ReadStateView, input: Seq<u8>, position: int, piece: Seq<u8>)
    requires
        0 <= position,
        position + piece.len() <= input.len(),
        piece == input.subrange(position, position + piece.len()),
        match state {
            ReadStateView::Head { buffer, .. } => buffer == input.take(position),
            ReadStateView::Body { response, .. } => is_read_from(response, input, position),
        },
        state matches ReadStateView::Head { buffer, .. } ==> piece.len() > 0 ==> is_settled(
            buffer + piece,
        ),
    ensures
        match received(state, piece) {
            ReadStepView::Done(Ok(read)) => is_read_from(read, input, position + piece.len()),
            ReadStepView::Done(Err(_)) => true,
            ReadStepView::More(ReadStateView::Head { buffer, .. }) => buffer == input.take(
                position + piece.len(),
            ),
            ReadStepView::More(ReadStateView::Body { response, .. }) => is_read_from(
                response,
                input,
                position + piece.len(),
            ),
        },
{
    let next = position + piece.len();
    match state {
        ReadStateView::Head { buffer, .. } => {
            assert(buffer + piece =~= input.take(next));
            if piece.len() > 0 {
                match parsed_response(input.take(next)) {
                    Ok(Some((head, len))) => {
                        assert(input.take(next).skip(len as int) =~= input.subrange(
                            len as int,
                            next,
                        ));
                        assert(is_read_from(
                            head.with_body(input.take(next).skip(len as int)),
                            input,
                            next,
                        ));
                    },
                    _ => {},
                }
            }
        },
        ReadStateView::Body { response, content_length } => {
            let k = choose|k: int|
                0 <= k <= input.len() && (parsed_response(#[trigger] input.take(k)) matches Ok(
                    Some((head, len)),
                ) && len <= position <= input.len() && response.status == head.status
                    && response.version == head.version && response.headers == head.headers
                    && response.body == input.subrange(len as int, position));
            let parsed = parsed_response(input.take(k))->Ok_0->0;
            let len = parsed.1;
            assert(response.body + piece =~= input.subrange(len as int, next));
            assert(is_read_from(response.with_body(response.body + piece), input, next));
        },
    }
}

/// What is parsed is what stands in the head: the status code, the length of the head, and under each
/// name the values of the headers of that name. An error is that of the parser, or tells that the
/// `http` crate does not take the head; as long as the head is incomplete, nothing is parsed.
pub proof fn parsed_response_is_its_head(buffer: Seq<u8>, name: Seq<char>)
    ensures
        match response_head(buffer, 32) {
            Err(error) => parsed_response(buffer) == Err::<Option<(ResponseView, usize)>, _>(
                Error::MalformedResponse(error),
            ),
            Ok(None) => parsed_response(buffer) == Ok::<Option<(ResponseView, usize)>, Error>(
                None,
            ),
            Ok(Some((code, lines, head_len))) => match parsed_response(buffer) {
                Ok(Some((response, len))) => {
                    &&& 100 <= code <= 999 && are_accepted_lines(lines)
                    &&& response.status == code
                    &&& response.version == Version::Http11
                    &&& header_values(response.headers, name) == lines.filter(
                        |line: HeaderLine| lower(line.0) == lower(name),
                    ).map_values(|line: HeaderLine| line.1)
                    &&& response.body.len() == 0
                    &&& len == head_len
                },
                Ok(None) => false,
                Err(Error::MalformedResponse(ParseError::Status)) => code < 100 || code > 999,
                Err(Error::MalformedResponse(ParseError::HeaderName)) => 100 <= code <= 999
                    && !are_accepted_lines(lines),
                Err(_) => false,
            },
        },
{
    match response_head(buffer, 32) {
        Ok(Some(parts)) => {
            collected_headers_keep_their_values(parts.1, name);
        },
        _ => {},
    }
}

/// A response ends with its head exactly if it answers a HEAD request or its status code is below 200,
/// 204 or 304, whatever its headers say. Any other one is complete when its body is as long as the
/// Content-Length header says; without such a header it is not complete before the server hangs up.
/// Of a body that is too long, or whose length is no number, nothing is read. Nothing of the head is
/// changed on the way.
pub proof fn status_and_length_decide(buffer: Seq<u8>, to_head: bool, bytes: Seq<u8>)
    requires
        bytes.len() > 0,
    ensures
        match parsed_response(buffer + bytes) {
            Err(error) => received(ReadStateView::Head { buffer, to_head }, bytes)
                == ReadStepView::Done(Err(error)),
            Ok(None) => received(ReadStateView::Head { buffer, to_head }, bytes)
                == ReadStepView::More(ReadStateView::Head { buffer: buffer + bytes, to_head }),
            Ok(Some((head, len))) => {
                let body = (buffer + bytes).skip(len as int);
                let has_none = to_head || head.status < 200 || head.status == 204 || head.status
                    == 304;
                match (
                    received(ReadStateView::Head { buffer, to_head }, bytes),
                    declared_length(head.headers),
                ) {
                    (ReadStepView::Done(Ok(read)), declared) => {
                        &&& read.status == head.status && read.version == head.version
                        &&& read.headers == head.headers && read.body == body
                        &&& has_none || (declared matches Some(Some(n)) && n == body.len())
                    },
                    (
                        ReadStepView::More(ReadStateView::Body { response, content_length }),
                        declared,
                    ) => {
                        &&& response.status == head.status && response.version == head.version
                        &&& response.headers == head.headers && response.body == body
                        &&& !has_none && declared == Some(content_length)
                        &&& content_length matches Some(n) ==> body.len() < n
                    },
                    (ReadStepView::Done(Err(Error::InvalidContentLength)), declared) => !has_none
                        && declared is None,
                    (
                        ReadStepView::Done(Err(Error::ContentLengthMismatch)),
                        Some(Some(n)),
                    ) => !has_none && body.len() > n,
                    _ => false,
                }
            },
        },
{
}

/// Bytes of the body are added at its end; with a declared length the response is complete exactly
/// when the body is as long, and wrong when it is longer. No body may be longer than ten million
/// bytes.
pub proof fn body_grows_to_its_length(
    response: ResponseView,
    content_length: Option<usize>,
    bytes: Seq<u8>,
)
    requires
        bytes.len() > 0,
    ensures
        ({
            let len = response.body.len() + bytes.len();
            match received(ReadStateView::Body { response, content_length }, bytes) {
                ReadStepView::Done(Ok(read)) => {
                    &&& read.status == response.status && read.version == response.version
                    &&& read.headers == response.headers && read.body == response.body + bytes
                    &&& content_length matches Some(n) && n == len && len <= 10_000_000
                },
                ReadStepView::More(
                    ReadStateView::Body { response: next, content_length: same },
                ) => {
                    &&& next.status == response.status && next.version == response.version
                    &&& next.headers == response.headers && next.body == response.body + bytes
                    &&& same == content_length && len <= 10_000_000
                    &&& content_length matches Some(n) ==> len < n
                },
                ReadStepView::Done(Err(Error::ContentLengthMismatch)) => {
                    content_length matches Some(n) && len > n
                },
                ReadStepView::Done(Err(Error::ResponseBodyTooLarge)) => {
                    &&& len > 10_000_000
                    &&& content_length matches Some(n) ==> len <= n
                },
                _ => false,
            }
        }),
{
}

/// When the server hangs up, a body without a declared length is complete as it is; one with a
/// declared length is too short, and a head is incomplete. A connection that fails is an error in any
/// state.
pub proof fn end_of_stream_ends_open_bodies(
    buffer: Seq<u8>,
    to_head: bool,
    response: ResponseView,
    n: usize,
    state: ReadStateView,
    error: std::io::Error,
)
    ensures
        received(ReadStateView::Head { buffer, to_head }, Seq::empty()) == ReadStepView::Done(
            Err(Error::IncompleteResponse),
        ),
        received(ReadStateView::Body { response, content_length: None }, Seq::empty())
            == ReadStepView::Done(Ok(response)),
        received(ReadStateView::Body { response, content_length: Some(n) }, Seq::empty())
            == ReadStepView::Done(Err(Error::ContentLengthMismatch)),
        read_step(state, StreamEvent::Failed(error)) == ReadStepView::Done(
            Err(Error::ConnectionError(error)),
        ),
{
}

proof fn lemma_declared_body(
    state: ReadStateView,
    input: Seq<u8>,
    portions: Seq<usize>,
    i: int,
    read: ResponseView,
)
    requires
        read_to_end(state, input, portions, i) == ReadStepView::Done(Ok(read)),
        state matches ReadStateView::Head { to_head, .. } ==> !to_head,
        state matches ReadStateView::Body { response, content_length } ==> declared_length(
            response.headers,
        ) == Some(content_length),
        read.status >= 200 && read.status != 204 && read.status != 304,
    ensures
        declared_length(read.headers) matches Some(length) && (length matches Some(n) ==> n
            == read.body.len()),
    decreases input.len(),
{
    let n = portion_len(state.limit(), input.len() as int, portions, i);
    if n > 0 {
        match received(state, input.take(n)) {
            ReadStepView::More(next) => {
                lemma_declared_body(next, input.skip(n), portions, i + 1, read);
            },
            _ => {},
        }
    }
}

/// The response to anything but a HEAD request, with a status code of at least 200 that is neither 204
/// nor 304, is read with as many bytes of body as its Content-Length header says, if it has one,
/// whatever the portions in which the bytes come in; with a header that says no number it is not read.
pub proof fn declared_body_is_read_whole(input: Seq<u8>, portions: Seq<usize>, read: ResponseView)
    requires
        read_to_end(
            ReadStateView::Head { buffer: Seq::empty(), to_head: false },
            input,
            portions,
            0,
        ) == ReadStepView::Done(Ok(read)),
        read.status >= 200 && read.status != 204 && read.status != 304,
    ensures
        declared_length(read.headers) matches Some(length) && (length matches Some(n) ==> n
            == read.body.len()),
{
    lemma_declared_body(
        ReadStateView::Head { buffer: Seq::empty(), to_head: false },
        input,
        portions,
        0,
        read,
    );
}

/// A head may take eight thousand bytes in all; a body is read in chunks of 512 bytes at most.
pub proof fn reading_has_limits(
    buffer: Seq<u8>,
    to_head: bool,
    response: ResponseView,
    content_length: Option<usize>,
)
    ensures
        buffer.len() + (ReadStateView::Head { buffer, to_head }).limit() == 8000,
        (ReadStateView::Body { response, content_length }).limit() == 512,
{
}

/// A response on the wire begins with its version, its status code and the phrase of that code, if it
/// has one, with a space between them; its headers follow, one for each value, and after them its body
/// as it is.
pub proof fn response_is_written_as_it_is(response: ResponseView)
    ensures
        ({
            let phrase = match status_reason(response.status) {
                Some(reason) => reason,
                None => Seq::empty(),
            };
            let line = version_name(response.version) + " "@ + decimal(response.status as nat)
                + " "@ + phrase;
            &&& response.first_line() == line
            &&& response.bytes() == head_bytes(line, header_lines(response.headers))
                + response.body
        }),
{
    reveal_strlit(" ");
    let phrase = match status_reason(response.status) {
        Some(reason) => reason,
        None => Seq::empty(),
    };
    assert(response.first_line() =~= version_name(response.version) + " "@ + decimal(
        response.status as nat,
    ) + " "@ + phrase);
}

/// An error says in plain text what went wrong: its status code and the phrase of that code. It has
/// two headers, for the type and the length of that text.
pub proof fn error_tells_its_status(status: u16, reason: Seq<char>)
    ensures
        ({
            let error = error_response(status, reason);
            &&& error.status == status
            &&& error.version == Version::Http11
            &&& error.body == encode_utf8("HTTP "@ + decimal(status as nat) + " "@ + reason)
            &&& error.headers == seq![
                ("content-type"@, seq![encode_utf8("text/plain"@)]),
                ("content-length"@, seq![encode_utf8(decimal(error.body.len()))]),
            ]
        }),
{
    reveal_strlit(" ");
    assert(error_text(status, reason) =~= "HTTP "@ + decimal(status as nat) + " "@ + reason);
    lemma_error_lines(error_response(status, reason).body.len());
}

/// The view of a response shows all that it holds, and so do those of a state and of a step.
pub proof fn views_show_all(response: Response, state: ReadState, step: ReadStep)
    ensures
        response@.status == response.status,
        response@.version == response.version,
        response@.headers == header_entries(response.headers),
        response@.body == response.body@,
        state matches ReadState::Head { buffer, to_head } ==> state@ == (ReadStateView::Head {
            buffer: buffer@,
            to_head,
        }),
        state matches ReadState::Body { response: partial, content_length } ==> state@ == (
        ReadStateView::Body { response: partial@, content_length }),
        step matches ReadStep::More(next) ==> step@ == ReadStepView::More(next@),
        step matches ReadStep::Done(Ok(read)) ==> step@ == ReadStepView::Done(Ok(read@)),
        step matches ReadStep::Done(Err(error)) ==> step@ == ReadStepView::Done(Err(error)),
{
}

/// Bytes that are all at hand are read step by step: as long as bytes can come in, a portion of them
/// does, and after the last one, or when there is no room for more, none does.
pub proof fn input_is_read_step_by_step(
    state: ReadStateView,
    input: Seq<u8>,
    portions: Seq<usize>,
    i: int,
    bytes: Vec<u8>,
)
    ensures
        read_step(state, StreamEvent::Received(bytes)) == received(state, bytes@),
        input.len() == 0 || state.limit() <= 0 ==> read_to_end(state, input, portions, i)
            == received(state, Seq::empty()),
        i >= portions.len() && 0 < input.len() <= state.limit() ==> read_to_end(
            state,
            input,
            portions,
            i,
        ) == match received(state, input) {
            ReadStepView::More(next) => received(next, Seq::empty()),
            end => end,
        },
        0 <= i < portions.len() && 0 < portions[i] <= state.limit() && portions[i] <= input.len()
            ==> read_to_end(state, input, portions, i) == match received(
            state,
            input.take(portions[i] as int),
        ) {
            ReadStepView::More(next) => read_to_end(
                next,
                input.skip(portions[i] as int),
                portions,
                i + 1,
            ),
            end => end,
        },
        i >= portions.len() && 0 < state.limit() <= input.len() ==> read_to_end(
            state,
            input,
            portions,
            i,
        ) == match received(state, input.take(state.limit())) {
            ReadStepView::More(next) => read_to_end(
                next,
                input.skip(state.limit()),
                portions,
                i + 1,
            ),
            end => end,
        },
{
    reveal_with_fuel(read_to_end, 2);
    assert(input.take(input.len() as int) =~= input);
}

} // verus!
