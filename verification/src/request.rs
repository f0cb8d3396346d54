//! Requests: how they are read, changed and written.
use crate::headers::{
    are_accepted_lines, are_proper_entries, collect_headers, collected,
    collected_headers_keep_their_values, collected_headers_list_again, collected_is_no_longer,
    collected_is_proper, declared_length,
    get_all_headers, header_entries, header_lines, header_value, header_values, insert_header,
    inserted_is_found, inserted_is_only_value, inserted_is_proper, inserted_keeps_others,
    inserted_lines, inserted_twice, length_of, list_grows_at_its_end, list_of,
    listed_headers_collect_back,
    name_stands_at_position, position, value_has_line, value_views, with_inserted, write_head,
    write_list, HeaderEntry, HEADER_CAPACITY,
};
use crate::message::{
    is_accepted_method, parse_target, target_text, version_name, version_text, Version,
};
use crate::parser::{
    parse_request_head, plain_request_head, reads_plain_requests, request_head, request_line,
    ParseError, RequestHead, RequestParts,
};
use crate::stream::{
    next_portion, portion_len, push_bytes, StreamEvent, BODY_CHUNK_SIZE, MAX_BODY_SIZE,
    MAX_HEADERS_SIZE, MAX_NUM_HEADERS,
};
use crate::syntax::{
    are_plain_lines, crlf, head_bytes, head_contains_line, is_blank, is_header_name,
    is_header_value, is_in_query, is_method, is_plain_target, is_token, is_trimmed, is_value_byte,
    is_visible, line_bytes, lines_bytes, lower, lower_name_is_a_name, HeaderLine, COMMA, SPACE,
};
use http::header::{HeaderMap, HeaderValue};
use vstd::prelude::*;
use vstd::slice::slice_subrange;
use vstd::utf8::encode_utf8;

verus! {

/// Why no request could be read.
#[derive(Debug)]
pub enum Error {
    /// The client hung up before it had sent a complete head; so many bytes of it had come in.
    IncompleteRequest(usize),
    /// The client sent something that is no request.
    MalformedRequest(ParseError),
    /// The Content-Length header is present, but holds no valid number.
    InvalidContentLength,
    /// The Content-Length header does not agree with the size of the body that was sent.
    ContentLengthMismatch,
    /// The body of the request is larger than a body may be.
    RequestBodyTooLarge,
    /// The connection failed.
    ConnectionError(std::io::Error),
}

/// A request.
#[derive(Debug)]
pub struct Request {
    pub method: String,
    pub uri: String,
    pub version: Version,
    pub headers: HeaderMap<HeaderValue>,
    pub body: Vec<u8>,
}

/// What a request holds.
pub struct RequestView {
    pub method: Seq<char>,
    pub uri: Seq<char>,
    pub version: Version,
    pub headers: Seq<HeaderEntry>,
    pub body: Seq<u8>,
}

impl View for Request {
    type V = RequestView;

    open spec fn view(&self) -> RequestView {
        RequestView {
            method: self.method@,
            uri: self.uri@,
            version: self.version,
            headers: header_entries(self.headers),
            body: self.body@,
        }
    }
}

impl RequestView {
    /// The first line.
    pub open spec fn first_line(self) -> Seq<char> {
        request_line(self.method, self.uri, self.version)
    }

    /// The head on the wire.
    pub open spec fn head(self) -> Seq<u8> {
        head_bytes(self.first_line(), header_lines(self.headers))
    }

    /// The request on the wire.
    pub open spec fn bytes(self) -> Seq<u8> {
        self.head() + self.body
    }

    /// The request with another body.
    pub open spec fn with_body(self, body: Seq<u8>) -> RequestView {
        RequestView { body, ..self }
    }

    /// A request of version 1.1 that comes of a head laid out in the plain way, with a path that the
    /// `http` crate takes for the request's target, and with not too many headers, all of them valid.
    pub open spec fn is_plain_from(self, path: Seq<char>) -> bool {
        &&& is_method(self.method)
        &&& is_target_of(self.uri, path)
        &&& self.version == Version::Http11
        &&& are_proper_entries(self.headers)
        &&& are_plain_lines(header_lines(self.headers))
        &&& are_accepted_lines(header_lines(self.headers))
        &&& header_lines(self.headers).len() <= MAX_NUM_HEADERS
    }

    /// A request of version 1.1 whose parts a reader gets back as they are written: a method, a
    /// target that the `http` crate leaves as it is, and not too many headers, all of them valid.
    pub open spec fn is_plain(self) -> bool {
        self.is_plain_from(self.uri)
    }

    /// What holds of a request that was read: it has no more headers than there is room for, and it
    /// is plain if the `http` crate leaves its target as it is.
    pub open spec fn is_as_read(self) -> bool {
        &&& self.headers.len() <= MAX_NUM_HEADERS
        &&& is_target_of(self.uri, self.uri) ==> self.is_plain()
    }

    /// Whether the body is as long as the Content-Length header says, if there is one, and then no
    /// longer than a body may be.
    pub open spec fn is_whole(self) -> bool {
        match declared_length(self.headers) {
            Some(Some(content_length)) => self.body.len() == content_length <= MAX_BODY_SIZE,
            Some(None) => true,
            None => false,
        }
    }
}

/// Whether a path of visible characters is one that the `http` crate takes for the target. One of
/// characters that stand for themselves is a target as it is.
pub open spec fn is_target_of(uri: Seq<char>, path: Seq<char>) -> bool {
    ||| is_plain_target(path) && uri == path
    ||| is_visible(path) && target_text(path) == Some(uri)
}

/// The length of the body, as the Content-Length header has it: `None` if there is no such header,
/// an error if it holds no number.
pub fn get_content_length(request: &Request) -> (length: Result<Option<usize>, Error>)
    ensures
        length == (match declared_length(request@.headers) {
            Some(declared) => Ok(declared),
            None => Err(Error::InvalidContentLength),
        }),
{
    match length_of(&request.headers) {
        Some(declared) => Ok(declared),
        None => Err(Error::InvalidContentLength),
    }
}

/// The values of a header with another one added at their end, as a list.
pub open spec fn extended_value(
    headers: Seq<HeaderEntry>,
    name: Seq<char>,
    value: Seq<u8>,
) -> Seq<u8> {
    list_of(header_values(headers, name).push(value))
}

impl RequestView {
    /// The request with a value added at the end of a header.
    pub open spec fn extended(self, name: Seq<char>, value: Seq<u8>) -> RequestView {
        RequestView {
            headers: with_inserted(self.headers, name, extended_value(self.headers, name, value)),
            ..self
        }
    }
}

/// Adds a value at the end of a header's values, which become one list, or a new header if there is
/// none of that name yet. The client's address gets to the end of the X-Forwarded-For list in this
/// way.
pub fn extend_header_value(request: &mut Request, name: &'static str, extend_value: &str)
    requires
        is_header_name(name@),
        is_header_value(encode_utf8(extend_value@)),
        old(request)@.headers.len() <= HEADER_CAPACITY,
    ensures
        final(request)@ == old(request)@.extended(name@, encode_utf8(extend_value@)),
{
    let mut values = get_all_headers(&request.headers, name);
    let ghost before = value_views(values@);
    let mut value: Vec<u8> = Vec::new();
    push_bytes(&mut value, extend_value.as_bytes());
    assert(value@ =~= encode_utf8(extend_value@));
    values.push(value);
    assert(value_views(values@) =~= before.push(value@));
    let list = write_list(&values);
    insert_header(&mut request.headers, name, list.as_slice());
}

/// The first line of a request.
pub fn format_request_line(request: &Request) -> (line: String)
    ensures
        line@ == request@.first_line(),
{
    let mut line = request.method.clone();
    line.append(" ");
    line.append(request.uri.as_str());
    line.append(" ");
    line.append(version_text(request.version).as_str());
    proof {
        reveal_strlit(" ");
    }
    assert(line@ =~= request@.first_line());
    line
}

/// The bytes of a request, as they are written to a stream.
pub fn write_to_stream(request: &Request) -> (bytes: Vec<u8>)
    ensures
        bytes@ == request@.bytes(),
{
    let mut bytes = write_head(format_request_line(request).as_str(), &request.headers);
    push_bytes(&mut bytes, request.body.as_slice());
    bytes
}

/// Whether the `http` crate takes a head that was read: its method, its target and its headers.
pub open spec fn is_accepted_head(parts: RequestParts) -> bool {
    is_method(parts.0) && target_text(parts.1) is Some && are_accepted_lines(parts.2)
}

/// The request that a head makes, with a body that is still empty.
pub open spec fn headed_request(parts: RequestParts) -> RequestView {
    RequestView {
        method: parts.0,
        uri: target_text(parts.1)->0,
        version: Version::Http11,
        headers: collected(parts.2),
        body: Seq::empty(),
    }
}

/// What is wrong with a head that the `http` crate does not take: its method or its target, or else a
/// header; of the headers that are read that is one whose name is too long.
pub open spec fn head_fault(parts: RequestParts) -> ParseError {
    if !is_method(parts.0) || target_text(parts.1) is None {
        ParseError::Token
    } else {
        ParseError::HeaderName
    }
}

/// Makes a request of the head that was read; an error, if the `http` crate does not take the head.
pub fn build_request(head: RequestHead) -> (request: Result<Request, ParseError>)
    requires
        head.headers@.len() <= HEADER_CAPACITY,
    ensures
        match request {
            Ok(request) => is_accepted_head(head.parts()) && request@ == headed_request(
                head.parts(),
            ),
            Err(error) => !is_accepted_head(head.parts()) && error == head_fault(head.parts()),
        },
        is_plain_target(head.path@) ==> target_text(head.path@) == Some(head.path@),
{
    let uri = match parse_target(head.path.as_str()) {
        Some(uri) => uri,
        None => {
            return Err(ParseError::Token);
        },
    };
    if !is_accepted_method(head.method.as_str()) {
        return Err(ParseError::Token);
    }
    match collect_headers(&head.headers) {
        Some(headers) => Ok(
            Request {
                method: head.method,
                uri,
                version: Version::Http11,
                headers,
                body: Vec::new(),
            },
        ),
        None => Err(ParseError::HeaderName),
    }
}

/// What a buffer holds of a request: the request and the length of its head, if the head is complete;
/// nothing yet, if it is not; an error, if the buffer holds no request, or a head that the `http`
/// crate does not take.
pub open spec fn parsed_request(buffer: Seq<u8>) -> Result<Option<(RequestView, usize)>, Error> {
    match request_head(buffer, MAX_NUM_HEADERS) {
        Err(error) => Err(Error::MalformedRequest(error)),
        Ok(None) => Ok(None),
        Ok(Some(parts)) => if is_accepted_head(parts) {
            Ok(Some((headed_request(parts), parts.3)))
        } else {
            Err(Error::MalformedRequest(head_fault(parts)))
        },
    }
}

/// A head that is laid out in the plain way and stands at the beginning of a buffer is read as it was
/// written, and is incomplete as long as bytes of it are missing.
pub open spec fn reads_back_requests(buffer: Seq<u8>) -> bool {
    forall|request: RequestView, path: Seq<char>|
        request.is_plain_from(path) ==> {
            let head = #[trigger] plain_request_head(
                request.method,
                path,
                header_lines(request.headers),
            );
            &&& head.is_prefix_of(buffer) ==> parsed_request(buffer) == Ok::<_, Error>(
                Some((request.with_body(Seq::empty()), head.len() as usize)),
            )
            &&& buffer.is_prefix_of(head) && buffer.len() < head.len() ==> parsed_request(buffer)
                == Ok::<Option<(RequestView, usize)>, Error>(None)
        }
}

/// A request whose head is complete is settled, however the head is laid out: its body is still
/// empty, as long as bytes of its head are missing it is incomplete, and whatever follows its head
/// changes nothing.
pub open spec fn is_settled(buffer: Seq<u8>) -> bool {
    parsed_request(buffer) matches Ok(Some((request, len))) ==> {
        &&& len <= buffer.len()
        &&& request.body.len() == 0
        &&& forall|k: int|
            0 <= k < len ==> parsed_request(#[trigger] buffer.take(k)) == Ok::<
                Option<(RequestView, usize)>,
                Error,
            >(None)
        &&& forall|more: Seq<u8>|
            parsed_request(#[trigger] (buffer.take(len as int) + more)) == Ok::<_, Error>(
                Some((request, len)),
            )
    }
}

/// Tries to read the bytes of a buffer as a request.
///
/// * If the buffer holds a complete head, returns the request and the length of the head.
/// * If the buffer holds the beginning of a head, returns `Ok(None)`.
/// * If the buffer holds something that is no request, returns an error. A head that the `http` crate
///   does not take is no request either.
pub fn parse_request(buffer: &[u8]) -> (parsed: Result<Option<(Request, usize)>, Error>)
    ensures
        match parsed {
            Ok(Some((request, len))) => parsed_request(buffer@) == Ok::<_, Error>(
                Some((request@, len)),
            ) && len <= buffer@.len() && request@.is_as_read(),
            Ok(None) => parsed_request(buffer@) == Ok::<Option<(RequestView, usize)>, Error>(None),
            Err(error) => parsed_request(buffer@) == Err::<Option<(RequestView, usize)>, _>(error),
        },
        reads_back_requests(buffer@),
        is_settled(buffer@),
{
    let outcome = parse_request_head(buffer, MAX_NUM_HEADERS);
    match outcome {
        Err(error) => {
            proof {
                lemma_reads_back(buffer@);
            }
            Err(Error::MalformedRequest(error))
        },
        Ok(None) => {
            proof {
                lemma_reads_back(buffer@);
            }
            Ok(None)
        },
        Ok(Some(head)) => {
            let len = head.len;
            let ghost parts = head.parts();
            proof {
                collected_is_no_longer(parts.2);
                collected_is_proper(parts.2);
                if is_accepted_head(parts) {
                    collected_headers_list_again(parts.2);
                }
            }
            let built = build_request(head);
            proof {
                lemma_reads_back(buffer@);
            }
            match built {
                Ok(request) => Ok(Some((request, len))),
                Err(error) => Err(Error::MalformedRequest(error)),
            }
        },
    }
}

proof fn lemma_reads_back(buffer: Seq<u8>)
    requires
        reads_plain_requests(request_head(buffer, MAX_NUM_HEADERS), buffer, MAX_NUM_HEADERS),
        request_head(buffer, MAX_NUM_HEADERS) matches Ok(Some(parts)) ==> is_plain_target(parts.1)
            ==> target_text(parts.1) == Some(parts.1),
    ensures
        reads_back_requests(buffer),
{
    assert forall|request: RequestView, path: Seq<char>| request.is_plain_from(path) implies {
        let head = #[trigger] plain_request_head(
            request.method,
            path,
            header_lines(request.headers),
        );
        &&& head.is_prefix_of(buffer) ==> parsed_request(buffer) == Ok::<_, Error>(
            Some((request.with_body(Seq::empty()), head.len() as usize)),
        )
        &&& buffer.is_prefix_of(head) && buffer.len() < head.len() ==> parsed_request(buffer)
            == Ok::<Option<(RequestView, usize)>, Error>(None)
    } by {
        assert(is_visible(path)) by {
            if is_plain_target(path) {
                assert forall|i: int| 0 <= i < path.len() implies '!' <= #[trigger] path[i]
                    <= '~' by {
                    assert(is_in_query(path, i) || !is_in_query(path, i));
                }
            }
        }
        listed_headers_collect_back(request.headers);
    }
}

/// How far the reading of a request has come.
#[derive(Debug)]
pub enum ReadState {
    /// The head is incomplete; these bytes of it have come in.
    Head { buffer: Vec<u8> },
    /// The head is complete; bytes of the body are missing.
    Body { request: Request, content_length: usize },
}

/// What comes of an event.
#[derive(Debug)]
pub enum ReadStep {
    /// More bytes are needed.
    More(ReadState),
    /// The reading has come to its end.
    Done(Result<Request, Error>),
}

/// How far the reading of a request has come.
pub enum ReadStateView {
    Head { buffer: Seq<u8> },
    Body { request: RequestView, content_length: usize },
}

/// What comes of an event.
pub enum ReadStepView {
    More(ReadStateView),
    Done(Result<RequestView, Error>),
}

impl View for ReadState {
    type V = ReadStateView;

    open spec fn view(&self) -> ReadStateView {
        match self {
            ReadState::Head { buffer } => ReadStateView::Head { buffer: buffer@ },
            ReadState::Body { request, content_length } => ReadStateView::Body {
                request: request@,
                content_length: *content_length,
            },
        }
    }
}

impl View for ReadStep {
    type V = ReadStepView;

    open spec fn view(&self) -> ReadStepView {
        match self {
            ReadStep::More(state) => ReadStepView::More(state@),
            ReadStep::Done(Ok(request)) => ReadStepView::Done(Ok(request@)),
            ReadStep::Done(Err(error)) => ReadStepView::Done(Err(*error)),
        }
    }
}

impl ReadStateView {
    /// A head that is incomplete fits into its buffer; a body that is incomplete is shorter than the
    /// Content-Length header says, and should be no longer than a body may be.
    pub open spec fn wf(self) -> bool {
        match self {
            ReadStateView::Head { buffer } => buffer.len() <= MAX_HEADERS_SIZE,
            ReadStateView::Body { request, content_length } => {
                &&& request.body.len() < content_length <= MAX_BODY_SIZE
                &&& request.is_as_read()
                &&& declared_length(request.headers) == Some(Some(content_length))
            },
        }
    }

    /// How many bytes may be read next.
    pub open spec fn limit(self) -> int {
        match self {
            ReadStateView::Head { buffer } => MAX_HEADERS_SIZE - buffer.len(),
            ReadStateView::Body { request, content_length } => if content_length
                < BODY_CHUNK_SIZE {
                content_length as int
            } else {
                BODY_CHUNK_SIZE as int
            },
        }
    }
}

impl ReadStepView {
    /// Whether what is left to do, or what came out, is in order.
    pub open spec fn wf(self) -> bool {
        match self {
            ReadStepView::More(state) => state.wf(),
            ReadStepView::Done(Ok(request)) => request.is_as_read() && request.is_whole(),
            _ => true,
        }
    }
}

/// What comes of a complete head, and of the bytes of the body that came with it.
pub open spec fn after_head(request: RequestView) -> ReadStepView {
    match declared_length(request.headers) {
        None => ReadStepView::Done(Err(Error::InvalidContentLength)),
        Some(None) => ReadStepView::Done(Ok(request)),
        Some(Some(content_length)) => if content_length > MAX_BODY_SIZE {
            ReadStepView::Done(Err(Error::RequestBodyTooLarge))
        } else {
            after_body(request, content_length)
        },
    }
}

/// What comes of bytes of the body: more of them are needed, they are all, or they are too many.
pub open spec fn after_body(request: RequestView, content_length: usize) -> ReadStepView {
    if request.body.len() < content_length {
        ReadStepView::More(ReadStateView::Body { request, content_length })
    } else if request.body.len() == content_length {
        ReadStepView::Done(Ok(request))
    } else {
        ReadStepView::Done(Err(Error::ContentLengthMismatch))
    }
}

/// What comes of bytes that come in while the head is incomplete.
pub open spec fn head_received(buffer: Seq<u8>, bytes: Seq<u8>) -> ReadStepView {
    if bytes.len() == 0 {
        ReadStepView::Done(Err(Error::IncompleteRequest(buffer.len() as usize)))
    } else {
        let all = buffer + bytes;
        match parsed_request(all) {
            Err(error) => ReadStepView::Done(Err(error)),
            Ok(None) => ReadStepView::More(ReadStateView::Head { buffer: all }),
            Ok(Some((request, len))) => after_head(request.with_body(all.skip(len as int))),
        }
    }
}

/// What comes of bytes that come in while the body is incomplete.
pub open spec fn body_received(
    request: RequestView,
    content_length: usize,
    bytes: Seq<u8>,
) -> ReadStepView {
    if bytes.len() == 0 {
        ReadStepView::Done(Err(Error::ContentLengthMismatch))
    } else {
        after_body(request.with_body(request.body + bytes), content_length)
    }
}

/// What comes of bytes that come in.
pub open spec fn received(state: ReadStateView, bytes: Seq<u8>) -> ReadStepView {
    match state {
        ReadStateView::Head { buffer } => head_received(buffer, bytes),
        ReadStateView::Body { request, content_length } => body_received(
            request,
            content_length,
            bytes,
        ),
    }
}

/// What comes of an event.
pub open spec fn read_step(state: ReadStateView, event: StreamEvent) -> ReadStepView {
    match event {
        StreamEvent::Failed(error) => ReadStepView::Done(Err(Error::ConnectionError(error))),
        StreamEvent::Received(bytes) => received(state, bytes@),
    }
}

impl ReadState {
    /// Nothing has come in yet.
    pub fn new() -> (state: ReadState)
        ensures
            state@ == (ReadStateView::Head { buffer: Seq::empty() }),
            state@.wf(),
    {
        let state = ReadState::Head { buffer: Vec::new() };
        assert(state@->buffer =~= Seq::<u8>::empty());
        state
    }

    /// How many bytes may be read next.
    pub fn limit(&self) -> (limit: usize)
        requires
            self@.wf(),
        ensures
            limit == self@.limit(),
    {
        match self {
            ReadState::Head { buffer } => MAX_HEADERS_SIZE - buffer.len(),
            ReadState::Body { request, content_length } => if *content_length < BODY_CHUNK_SIZE {
                *content_length
            } else {
                BODY_CHUNK_SIZE
            },
        }
    }
}

/// Takes in bytes of the head. This concerns the first line and the headers only; the body comes
/// after them.
fn read_headers(buffer: Vec<u8>, bytes: Vec<u8>) -> (step: ReadStep)
    requires
        buffer@.len() + bytes@.len() <= MAX_HEADERS_SIZE,
    ensures
        step@ == head_received(buffer@, bytes@),
        step@.wf(),
        bytes@.len() > 0 ==> reads_back_requests(buffer@ + bytes@) && is_settled(
            buffer@ + bytes@,
        ),
{
    if bytes.len() == 0 {
        return ReadStep::Done(Err(Error::IncompleteRequest(buffer.len())));
    }
    let mut all = buffer;
    push_bytes(&mut all, bytes.as_slice());
    match parse_request(all.as_slice()) {
        Err(error) => ReadStep::Done(Err(error)),
        Ok(None) => ReadStep::More(ReadState::Head { buffer: all }),
        Ok(Some((mut request, len))) => {
            push_bytes(&mut request.body, slice_subrange(all.as_slice(), len, all.len()));
            assert(request@.body =~= all@.skip(len as int));
            begin_body(request)
        },
    }
}

/// Decides, when the head is complete, whether bytes of the body are missing.
fn begin_body(request: Request) -> (step: ReadStep)
    requires
        request@.is_as_read(),
    ensures
        step@ == after_head(request@),
        step@.wf(),
{
    match get_content_length(&request) {
        Err(error) => ReadStep::Done(Err(error)),
        Ok(None) => ReadStep::Done(Ok(request)),
        Ok(Some(content_length)) => if content_length > MAX_BODY_SIZE {
            ReadStep::Done(Err(Error::RequestBodyTooLarge))
        } else if request.body.len() > content_length {
            ReadStep::Done(Err(Error::ContentLengthMismatch))
        } else if request.body.len() < content_length {
            ReadStep::More(ReadState::Body { request, content_length })
        } else {
            ReadStep::Done(Ok(request))
        },
    }
}

/// Takes in bytes of the body. The client sends as many bytes as the Content-Length header says; if
/// it hangs up before or sends more, the header was wrong.
fn read_body(request: Request, content_length: usize, bytes: Vec<u8>) -> (step: ReadStep)
    requires
        (ReadStateView::Body { request: request@, content_length }).wf(),
        bytes@.len() <= BODY_CHUNK_SIZE,
    ensures
        step@ == body_received(request@, content_length, bytes@),
        step@.wf(),
{
    if bytes.len() == 0 {
        return ReadStep::Done(Err(Error::ContentLengthMismatch));
    }
    if request.body.len() + bytes.len() > content_length {
        return ReadStep::Done(Err(Error::ContentLengthMismatch));
    }
    let mut request = request;
    push_bytes(&mut request.body, bytes.as_slice());
    if request.body.len() < content_length {
        ReadStep::More(ReadState::Body { request, content_length })
    } else {
        ReadStep::Done(Ok(request))
    }
}

/// Reads a request from a stream, event by event: takes in what came of an attempt to read, and says
/// whether another one is needed.
///
/// A plain request comes out as it was written; see `read_from_bytes`.
pub fn read_from_stream(state: ReadState, event: StreamEvent) -> (step: ReadStep)
    requires
        state@.wf(),
        event.fits(state@.limit()),
    ensures
        step@ == read_step(state@, event),
        step@.wf(),
        state@ matches ReadStateView::Head { buffer } ==> (event matches StreamEvent::Received(
            bytes,
        ) ==> bytes@.len() > 0 ==> reads_back_requests(buffer + bytes@) && is_settled(
            buffer + bytes@,
        )),
{
    let bytes = match event {
        StreamEvent::Failed(error) => {
            return ReadStep::Done(Err(Error::ConnectionError(error)));
        },
        StreamEvent::Received(bytes) => bytes,
    };
    match state {
        ReadState::Head { buffer } => read_headers(buffer, bytes),
        ReadState::Body { request, content_length } => read_body(request, content_length, bytes),
    }
}

impl RequestView {
    /// A plain request whose head is no larger than a head may be and whose body is as long as its
    /// headers say: as long as the Content-Length header, or empty without one.
    pub open spec fn is_sendable(self) -> bool {
        &&& self.is_plain()
        &&& self.head().len() <= MAX_HEADERS_SIZE
        &&& match declared_length(self.headers) {
            Some(Some(content_length)) => self.body.len() == content_length <= MAX_BODY_SIZE,
            Some(None) => self.body.len() == 0,
            None => false,
        }
    }

    /// How far the reading has come when so many bytes of the request have come in.
    pub open spec fn read_up_to(self, n: int) -> ReadStateView {
        if n < self.head().len() {
            ReadStateView::Head { buffer: self.bytes().take(n) }
        } else {
            ReadStateView::Body {
                request: self.with_body(self.body.take(n - self.head().len())),
                content_length: self.body.len() as usize,
            }
        }
    }

    /// What a client gets to hear that hangs up when it has sent so many bytes of the request.
    pub open spec fn cut_off(self, n: int) -> Error {
        if n < self.head().len() {
            Error::IncompleteRequest(n as usize)
        } else {
            Error::ContentLengthMismatch
        }
    }
}

proof fn lemma_received(request: RequestView, n: int, bytes: Seq<u8>)
    requires
        request.is_sendable(),
        0 <= n < request.bytes().len(),
        0 < bytes.len() <= request.bytes().len() - n,
        bytes == request.bytes().subrange(n, n + bytes.len()),
        n < request.head().len() ==> reads_back_requests(request.bytes().take(n + bytes.len())),
    ensures
        received(request.read_up_to(n), bytes) == if n + bytes.len() == request.bytes().len() {
            ReadStepView::Done(Ok(request))
        } else {
            ReadStepView::More(request.read_up_to(n + bytes.len()))
        },
{
    let head = request.head();
    let all = request.bytes();
    let m = n + bytes.len();
    assert(head == plain_request_head(
        request.method,
        request.uri,
        header_lines(request.headers),
    ));
    if n < head.len() {
        assert(all.take(n) + bytes =~= all.take(m));
        if m < head.len() {
            assert(all.take(m).is_prefix_of(head));
        } else {
            assert(head.is_prefix_of(all.take(m)));
            assert(all.take(m).skip(head.len() as int) =~= request.body.take(m - head.len()));
            assert(request.with_body(Seq::empty()).with_body(request.body.take(m - head.len()))
                == request.with_body(request.body.take(m - head.len())));
        }
    } else {
        assert(request.body.take(n - head.len()) + bytes =~= request.body.take(m - head.len()));
    }
    if m == all.len() {
        assert(request.body.take(m - head.len()) =~= request.body);
        assert(request.with_body(request.body) == request);
    }
}

proof fn lemma_limit(request: RequestView, n: int)
    requires
        request.is_sendable(),
        0 <= n < request.bytes().len(),
    ensures
        request.read_up_to(n).limit() > 0,
        n >= request.head().len() ==> request.body.len() > 0,
{
}

/// What comes of bytes that come in portion by portion, when nothing follows them.
pub open spec fn read_to_end(
    state: ReadStateView,
    input: Seq<u8>,
    portions: Seq<usize>,
    i: int,
) -> ReadStepView
    decreases input.len(),
{
    let n = portion_len(state.limit(), input.len() as int, portions, i);
    if n <= 0 {
        received(state, Seq::empty())
    } else {
        match received(state, input.take(n)) {
            ReadStepView::More(next) => read_to_end(next, input.skip(n), portions, i + 1),
            end => end,
        }
    }
}

/// Whether a request is what an input holds up to some place: a head that stands at the beginning of
/// the input, and as its body the bytes from the end of that head up to there.
pub open spec fn is_read_from(request: RequestView, input: Seq<u8>, end: int) -> bool {
    exists|k: int|
        0 <= k <= input.len() && (parsed_request(#[trigger] input.take(k)) matches Ok(
            Some((head, len)),
        ) && len <= end <= input.len() && request.method == head.method && request.uri == head.uri
            && request.version == head.version && request.headers == head.headers && request.body
            == input.subrange(len as int, end))
}

/// Reads a request from bytes that are all at hand, as from a stream that hands them out in such
/// portions and ends after them.
///
/// What was written of a request is read as that request, whatever the portions. A client that hangs
/// up before the end gets an error: an incomplete request, if bytes of the head are missing; a wrong
/// length, if bytes of the body are. Whatever the input is, what is read of it is what stands there.
pub fn read_from_bytes(input: &[u8], portions: &[usize]) -> (outcome: Result<Request, Error>)
    ensures
        read_to_end(ReadStateView::Head { buffer: Seq::empty() }, input@, portions@, 0) == (
        match outcome {
            Ok(request) => ReadStepView::Done(Ok(request@)),
            Err(error) => ReadStepView::Done(Err(error)),
        }),
        outcome matches Ok(request) ==> request@.is_as_read() && request@.is_whole(),
        outcome matches Ok(request) ==> exists|end: int|
            #[trigger] is_read_from(request@, input@, end),
        forall|request: RequestView|
            request.is_sendable() && input@.is_prefix_of(#[trigger] request.bytes()) ==> (
            match outcome {
                Ok(read) => input@ == request.bytes() && read@ == request,
                Err(error) => input@ != request.bytes() && error == request.cut_off(
                    input@.len() as int,
                ),
            }),
{
    let ghost start = ReadStateView::Head { buffer: Seq::empty() };
    let mut state = ReadState::new();
    let mut position: usize = 0;
    let mut i: usize = 0;
    assert(input@.skip(0) =~= input@);
    assert forall|request: RequestView|
        request.is_sendable() && input@.is_prefix_of(#[trigger] request.bytes()) implies state@
        == request.read_up_to(0) && 0 < request.bytes().len() by {
        assert(request.bytes().take(0) =~= Seq::<u8>::empty());
        assert(request.head().len() > 0);
    }
    loop
        invariant
            i <= position <= input@.len(),
            state@.wf(),
            start == (ReadStateView::Head { buffer: Seq::empty() }),
            match state@ {
                ReadStateView::Head { buffer } => buffer == input@.take(position as int),
                ReadStateView::Body { request, .. } => is_read_from(
                    request,
                    input@,
                    position as int,
                ),
            },
            read_to_end(start, input@, portions@, 0) == read_to_end(
                state@,
                input@.skip(position as int),
                portions@,
                i as int,
            ),
            forall|request: RequestView|
                request.is_sendable() && input@.is_prefix_of(#[trigger] request.bytes()) ==> state@
                    == request.read_up_to(position as int) && position < request.bytes().len(),
        decreases input@.len() - position + 1,
    {
        let rest = input.len() - position;
        let len = next_portion(state.limit(), rest, portions, i);
        let ghost before = state@;
        let ghost next = position + len;
        let mut bytes: Vec<u8> = Vec::new();
        push_bytes(&mut bytes, slice_subrange(input, position, position + len));
        let ghost piece = bytes@;
        assert(piece =~= input@.skip(position as int).take(len as int));
        assert(piece =~= input@.subrange(position as int, next as int));
        assert(len == 0 ==> piece =~= Seq::<u8>::empty());
        let step = read_from_stream(state, StreamEvent::Received(bytes));
        assert(step@ == received(before, piece));
        proof {
            lemma_read_from(before, input@, position as int, piece);
        }
        proof {
            assert forall|request: RequestView|
                request.is_sendable() && input@.is_prefix_of(
                    #[trigger] request.bytes(),
                ) implies step@ == (if len == 0 {
                ReadStepView::Done(Err(request.cut_off(input@.len() as int)))
            } else if next == request.bytes().len() {
                ReadStepView::Done(Ok(request))
            } else {
                ReadStepView::More(request.read_up_to(next as int))
            }) && (len == 0 ==> position == input@.len()) by {
                lemma_limit(request, position as int);
                if len > 0 {
                    assert(piece =~= request.bytes().subrange(position as int, next as int));
                    if position < request.head().len() {
                        assert(request.bytes().take(position as int) + piece
                            =~= request.bytes().take(next as int));
                    }
                    lemma_received(request, position as int, piece);
                }
            }
        }
        match step {
            ReadStep::Done(outcome) => {
                assert(outcome matches Ok(request) ==> is_read_from(
                    request@,
                    input@,
                    next as int,
                ));
                return outcome;
            },
            ReadStep::More(more) => {
                assert(input@.skip(position as int).skip(len as int) =~= input@.skip(next as int));
                state = more;
                position = position + len;
                i = i + 1;
            },
        }
    }
}

/// A value that was added is found under the header's name, after all that stood there before:
/// nothing is lost.
pub proof fn extension_is_found(request: RequestView, name: Seq<char>, value: Seq<u8>)
    ensures
        header_value(request.extended(name, value).headers, name) == Some(
            extended_value(request.headers, name, value),
        ),
        list_of(header_values(request.extended(name, value).headers, name)) == list_of(
            header_values(request.headers, name).push(value),
        ),
{
    inserted_is_found(request.headers, name, extended_value(request.headers, name, value));
    inserted_is_only_value(request.headers, name, extended_value(request.headers, name, value));
}

/// Adding a value changes no other header, and nothing else of the request.
pub proof fn extension_keeps_the_rest(
    request: RequestView,
    name: Seq<char>,
    value: Seq<u8>,
    other: Seq<char>,
)
    requires
        lower(other) != lower(name),
    ensures
        header_values(request.extended(name, value).headers, other) == header_values(
            request.headers,
            other,
        ),
        header_value(request.extended(name, value).headers, other) == header_value(
            request.headers,
            other,
        ),
        request.extended(name, value).first_line() == request.first_line(),
        request.extended(name, value).body == request.body,
{
    inserted_keeps_others(request.headers, name, extended_value(request.headers, name, value), other);
}

/// Adding one value and then another is adding both as a list.
pub proof fn extended_twice(
    request: RequestView,
    name: Seq<char>,
    first: Seq<u8>,
    second: Seq<u8>,
)
    ensures
        request.extended(name, first).extended(name, second) == request.extended(
            name,
            first + seq![COMMA, SPACE] + second,
        ),
{
    let once = extended_value(request.headers, name, first);
    let both = first + seq![COMMA, SPACE] + second;
    let twice = extended_value(request.extended(name, first).headers, name, second);
    let values = header_values(request.headers, name);
    inserted_is_only_value(request.headers, name, once);
    inserted_twice(request.headers, name, once, twice);
    assert(seq![once].push(second).drop_last() =~= seq![once]);
    assert(values.push(first).drop_last() =~= values);
    assert(values.push(both).drop_last() =~= values);
    assert(list_of(seq![once]) == once);
    assert(twice == once + seq![COMMA, SPACE] + second);
    assert(twice =~= extended_value(request.headers, name, both));
}

/// The header with the value that was added is a line of the head on the wire.
pub proof fn extension_is_on_the_wire(request: RequestView, name: Seq<char>, value: Seq<u8>) -> (
    before: Seq<u8>)
    ensures
        (encode_utf8(request.first_line()) + crlf()).is_prefix_of(before),
        (before + line_bytes(
            (lower(name), extended_value(request.headers, name, value)),
        )).is_prefix_of(request.extended(name, value).bytes()),
{
    let after = request.extended(name, value);
    let lines = header_lines(after.headers);
    let line = (lower(name), extended_value(request.headers, name, value));
    inserted_lines(request.headers, name, extended_value(request.headers, name, value));
    let k = lines.index_of(line);
    head_contains_line(after.first_line(), lines, k);
    encode_utf8(request.first_line()) + crlf() + lines_bytes(lines.take(k))
}

/// A request that can be sent can still be sent when a value was added to a header other than
/// Content-Length, unless its head has then become too large.
pub proof fn extended_is_sendable(request: RequestView, name: Seq<char>, value: Seq<u8>)
    requires
        request.is_sendable(),
        is_token(name),
        name.len() <= 65535,
        lower(name) != lower("content-length"@),
        is_header_value(value),
        is_trimmed(value),
        value.len() > 0,
        header_lines(request.extended(name, value).headers).len() <= MAX_NUM_HEADERS,
        request.extended(name, value).head().len() <= MAX_HEADERS_SIZE,
    ensures
        request.extended(name, value).is_sendable(),
{
    let after = request.extended(name, value);
    let added = extended_value(request.headers, name, value);
    let lines = header_lines(after.headers);
    extension_keeps_the_rest(request, name, value, "content-length"@);
    inserted_is_proper(request.headers, name, added);
    inserted_lines(request.headers, name, added);
    lower_name_is_a_name(name);
    lemma_extended_value(request, name, value);
    assert forall|i: int| 0 <= i < lines.len() implies is_token((#[trigger] lines[i]).0)
        && is_header_name(lines[i].0) && is_header_value(lines[i].1) && is_trimmed(lines[i].1) by {
        if lines[i] != (lower(name), added) {
            let k = header_lines(request.headers).index_of(lines[i]);
            assert(header_lines(request.headers)[k] == lines[i]);
        }
    }
}

proof fn lemma_list_of(values: Seq<Seq<u8>>)
    requires
        forall|i: int|
            0 <= i < values.len() ==> is_header_value(#[trigger] values[i]) && is_trimmed(
                values[i],
            ),
    ensures
        is_header_value(list_of(values)),
        list_of(values).len() > 0 ==> !is_blank(list_of(values)[0]),
    decreases values.len(),
{
    if values.len() > 1 {
        let init = values.drop_last();
        assert forall|i: int| 0 <= i < init.len() implies is_header_value(#[trigger] init[i])
            && is_trimmed(init[i]) by {
            assert(init[i] == values[i]);
        }
        lemma_list_of(init);
        let before = list_of(init);
        let last = values[values.len() - 1];
        let all = list_of(values);
        assert(all == before + seq![COMMA, SPACE] + last);
        assert forall|i: int| 0 <= i < all.len() implies is_value_byte(#[trigger] all[i]) by {
            if i < before.len() {
                assert(is_value_byte(before[i]));
            } else if i >= before.len() + 2 {
                assert(is_value_byte(last[i - before.len() - 2]));
            }
        }
    }
}

proof fn lemma_extended_value(request: RequestView, name: Seq<char>, value: Seq<u8>)
    requires
        request.is_plain(),
        is_header_value(value),
        is_trimmed(value),
        value.len() > 0,
    ensures
        is_header_value(extended_value(request.headers, name, value)),
        is_trimmed(extended_value(request.headers, name, value)),
{
    let before = header_values(request.headers, name);
    let values = before.push(value);
    let p = position(request.headers, lower(name));
    name_stands_at_position(request.headers, lower(name));
    assert forall|i: int| 0 <= i < values.len() implies is_header_value(#[trigger] values[i])
        && is_trimmed(values[i]) by {
        if i < before.len() {
            let k = value_has_line(request.headers, p, i);
            assert(header_lines(request.headers)[k].1 == values[i]);
        }
    }
    lemma_list_of(values);
    assert(values.drop_last() =~= before);
    assert(list_of(values).last() == value.last());
}

proof fn lemma_read_from(state: ReadStateView, input: Seq<u8>, position: int, piece: Seq<u8>)
    requires
        0 <= position,
        position + piece.len() <= input.len(),
        piece == input.subrange(position, position + piece.len()),
        match state {
            ReadStateView::Head { buffer } => buffer == input.take(position),
            ReadStateView::Body { request, .. } => is_read_from(request, input, position),
        },
        state matches ReadStateView::Head { buffer } ==> piece.len() > 0 ==> is_settled(
            buffer + piece,
        ),
    ensures
        match received(state, piece) {
            ReadStepView::Done(Ok(read)) => is_read_from(read, input, position + piece.len()),
            ReadStepView::Done(Err(_)) => true,
            ReadStepView::More(ReadStateView::Head { buffer }) => buffer == input.take(
                position + piece.len(),
            ),
            ReadStepView::More(ReadStateView::Body { request, .. }) => is_read_from(
                request,
                input,
                position + piece.len(),
            ),
        },
{
    let next = position + piece.len();
    match state {
        ReadStateView::Head { buffer } => {
            assert(buffer + piece =~= input.take(next));
            if piece.len() > 0 {
                match parsed_request(input.take(next)) {
                    Ok(Some((head, len))) => {
                        assert(input.take(next).skip(len as int) =~= input.subrange(
                            len as int,
                            next,
                        ));
                        assert(is_read_from(
                            head.with_body(input.take(next).skip(len as int)),
                            input,
                            next,
                        ));
                    },
                    _ => {},
                }
            }
        },
        ReadStateView::Body { request, content_length } => {
            let k = choose|k: int|
                0 <= k <= input.len() && (parsed_request(#[trigger] input.take(k)) matches Ok(
                    Some((head, len)),
                ) && len <= position <= input.len() && request.method == head.method && request.uri
                    == head.uri && request.version == head.version && request.headers
                    == head.headers && request.body == input.subrange(len as int, position));
            let parsed = parsed_request(input.take(k))->Ok_0->0;
            let len = parsed.1;
            assert(request.body + piece =~= input.subrange(len as int, next));
            assert(is_read_from(request.with_body(request.body + piece), input, next));
        },
    }
}

/// What is parsed is what stands in the head: the method, the target that the `http` crate makes of
/// the path, the length of the head, and under each name the values of the headers of that name. An
/// error is that of the parser, or tells that the `http` crate does not take the head; as long as the
/// head is incomplete, nothing is parsed.
pub proof fn parsed_request_is_its_head(buffer: Seq<u8>, name: Seq<char>)
    ensures
        match request_head(buffer, 32) {
            Err(error) => parsed_request(buffer) == Err::<Option<(RequestView, usize)>, _>(
                Error::MalformedRequest(error),
            ),
            Ok(None) => parsed_request(buffer) == Ok::<Option<(RequestView, usize)>, Error>(None),
            Ok(Some((method, path, lines, head_len))) => match parsed_request(buffer) {
                Ok(Some((request, len))) => {
                    &&& is_method(method) && are_accepted_lines(lines)
                    &&& request.method == method
                    &&& target_text(path) == Some(request.uri)
                    &&& request.version == Version::Http11
                    &&& header_values(request.headers, name) == lines.filter(
                        |line: HeaderLine| lower(line.0) == lower(name),
                    ).map_values(|line: HeaderLine| line.1)
                    &&& request.body.len() == 0
                    &&& len == head_len
                },
                Ok(None) => false,
                Err(Error::MalformedRequest(ParseError::Token)) => !is_method(method)
                    || target_text(path) is None,
                Err(Error::MalformedRequest(ParseError::HeaderName)) => is_method(method)
                    && target_text(path) is Some && !are_accepted_lines(lines),
                Err(_) => false,
            },
        },
{
    match request_head(buffer, 32) {
        Ok(Some(parts)) => {
            collected_headers_keep_their_values(parts.2, name);
        },
        _ => {},
    }
}

/// A complete head decides, together with the bytes that came with it, which are the body so far:
/// without a Content-Length header the request is complete, and with one as soon as the body is as
/// long as the header says. Of a body that is too long, or said to be longer than ten million bytes,
/// or whose length is no number, nothing is read. Nothing of the head is changed on the way.
pub proof fn head_and_length_decide(buffer: Seq<u8>, bytes: Seq<u8>)
    requires
        bytes.len() > 0,
    ensures
        match parsed_request(buffer + bytes) {
            Err(error) => received(ReadStateView::Head { buffer }, bytes) == ReadStepView::Done(
                Err(error),
            ),
            Ok(None) => received(ReadStateView::Head { buffer }, bytes) == ReadStepView::More(
                ReadStateView::Head { buffer: buffer + bytes },
            ),
            Ok(Some((head, len))) => {
                let body = (buffer + bytes).skip(len as int);
                match (received(ReadStateView::Head { buffer }, bytes), declared_length(head.headers)) {
                    (ReadStepView::Done(Ok(read)), declared) => {
                        &&& read.method == head.method && read.uri == head.uri
                        &&& read.version == head.version && read.headers == head.headers
                        &&& read.body == body
                        &&& declared matches Some(length) && (length matches Some(n) ==> n
                            == body.len() && n <= 10_000_000)
                    },
                    (
                        ReadStepView::More(ReadStateView::Body { request, content_length }),
                        declared,
                    ) => {
                        &&& request.method == head.method && request.uri == head.uri
                        &&& request.version == head.version && request.headers == head.headers
                        &&& request.body == body
                        &&& declared == Some(Some(content_length))
                        &&& body.len() < content_length <= 10_000_000
                    },
                    (ReadStepView::Done(Err(Error::InvalidContentLength)), declared) => declared
                        is None,
                    (
                        ReadStepView::Done(Err(Error::RequestBodyTooLarge)),
                        Some(Some(n)),
                    ) => n > 10_000_000,
                    (
                        ReadStepView::Done(Err(Error::ContentLengthMismatch)),
                        Some(Some(n)),
                    ) => body.len() > n && n <= 10_000_000,
                    _ => false,
                }
            },
        },
{
}

/// Bytes of the body are added at its end; the request is complete exactly when the body is as long
/// as it should be, and wrong when it is longer.
pub proof fn body_grows_to_its_length(request: RequestView, content_length: usize, bytes: Seq<u8>)
    requires
        bytes.len() > 0,
    ensures
        match received(ReadStateView::Body { request, content_length }, bytes) {
            ReadStepView::Done(Ok(read)) => {
                &&& read.method == request.method && read.uri == request.uri
                &&& read.version == request.version && read.headers == request.headers
                &&& read.body == request.body + bytes
                &&& request.body.len() + bytes.len() == content_length
            },
            ReadStepView::More(ReadStateView::Body { request: next, content_length: same }) => {
                &&& next.method == request.method && next.uri == request.uri
                &&& next.version == request.version && next.headers == request.headers
                &&& next.body == request.body + bytes
                &&& request.body.len() + bytes.len() < content_length == same
            },
            ReadStepView::Done(Err(error)) => {
                &&& error == Error::ContentLengthMismatch
                &&& request.body.len() + bytes.len() > content_length
            },
            _ => false,
        },
{
}

/// A client that sends nothing more has sent an incomplete head, of so many bytes, or a body that is
/// shorter than it should be; a connection that fails is an error in any state.
pub proof fn end_of_stream_is_an_error(
    buffer: Seq<u8>,
    request: RequestView,
    content_length: usize,
    state: ReadStateView,
    error: std::io::Error,
)
    ensures
        received(ReadStateView::Head { buffer }, Seq::empty()) == ReadStepView::Done(
            Err(Error::IncompleteRequest(buffer.len() as usize)),
        ),
        received(ReadStateView::Body { request, content_length }, Seq::empty())
            == ReadStepView::Done(Err(Error::ContentLengthMismatch)),
        read_step(state, StreamEvent::Failed(error)) == ReadStepView::Done(
            Err(Error::ConnectionError(error)),
        ),
{
}

/// A head may take eight thousand bytes in all; a body is read in chunks of 512 bytes at most.
pub proof fn reading_has_limits(buffer: Seq<u8>, request: RequestView, content_length: usize)
    ensures
        buffer.len() + (ReadStateView::Head { buffer }).limit() == 8000,
        (ReadStateView::Body { request, content_length }).limit() == if content_length < 512 {
            content_length as int
        } else {
            512
        },
{
}

/// A request on the wire begins with its method, its target and its version, with a space between
/// them; its headers follow, one for each value, and after them its body as it is.
pub proof fn request_is_written_as_it_is(request: RequestView)
    ensures
        request.bytes() == head_bytes(
            request.method + " "@ + request.uri + " "@ + version_name(request.version),
            header_lines(request.headers),
        ) + request.body,
        request.first_line() == request.method + " "@ + request.uri + " "@ + version_name(
            request.version,
        ),
{
    reveal_strlit(" ");
    assert(request.first_line() =~= request.method + " "@ + request.uri + " "@ + version_name(
        request.version,
    ));
}

/// Adding a value to a header puts it behind all values that were there, in one list with them, and
/// touches nothing else: neither the other headers, nor the order of the names, nor the rest of the
/// request.
pub proof fn extension_goes_to_the_end(
    request: RequestView,
    name: Seq<char>,
    value: Seq<u8>,
    other: Seq<char>,
)
    ensures
        ({
            let before = header_values(request.headers, name);
            let after = request.extended(name, value);
            &&& before.len() == 0 ==> header_values(after.headers, name) == seq![value]
            &&& before.len() == 1 ==> header_values(after.headers, name) == seq![
                before[0] + seq![44u8, 32] + value,
            ]
            &&& before.len() > 1 ==> header_values(after.headers, name) == seq![
                list_of(before) + seq![44u8, 32] + value,
            ]
            &&& lower(other) != lower(name) ==> header_values(after.headers, other)
                == header_values(request.headers, other)
            &&& after.method == request.method && after.uri == request.uri
            &&& after.version == request.version && after.body == request.body
        }),
        ({
            let before = request.headers.map_values(|entry: HeaderEntry| entry.0);
            let after = request.extended(name, value).headers.map_values(
                |entry: HeaderEntry| entry.0,
            );
            after == if before.contains(lower(name)) {
                before
            } else {
                before.push(lower(name))
            }
        }),
{
    let values = header_values(request.headers, name);
    inserted_is_only_value(request.headers, name, extended_value(request.headers, name, value));
    list_grows_at_its_end(values, value);
    if values.len() == 1 {
        list_grows_at_its_end(Seq::empty(), values[0]);
        assert(Seq::empty().push(values[0]) =~= values);
    }
    if lower(other) != lower(name) {
        extension_keeps_the_rest(request, name, value, other);
    }
    let p = position(request.headers, lower(name));
    name_stands_at_position(request.headers, lower(name));
    let before = request.headers.map_values(|entry: HeaderEntry| entry.0);
    let after = request.extended(name, value).headers.map_values(|entry: HeaderEntry| entry.0);
    if p < request.headers.len() {
        assert(before[p] == lower(name));
        assert(after =~= before);
    } else {
        assert forall|i: int| 0 <= i < before.len() implies before[i] != lower(name) by {
            assert(request.headers[i].0 == before[i]);
        }
        assert(after =~= before.push(lower(name)));
    }
}

/// The view of a request shows all that it holds, and so do those of a state and of a step.
pub proof fn views_show_all(request: Request, state: ReadState, step: ReadStep)
    ensures
        request@.method == request.method@,
        request@.uri == request.uri@,
        request@.version == request.version,
        request@.headers == header_entries(request.headers),
        request@.body == request.body@,
        state matches ReadState::Head { buffer } ==> state@ == (ReadStateView::Head {
            buffer: buffer@,
        }),
        state matches ReadState::Body { request: partial, content_length } ==> state@ == (
        ReadStateView::Body { request: partial@, content_length }),
        step matches ReadStep::More(next) ==> step@ == ReadStepView::More(next@),
        step matches ReadStep::Done(Ok(read)) ==> step@ == ReadStepView::Done(Ok(read@)),
        step matches ReadStep::Done(Err(error)) ==> step@ == ReadStepView::Done(Err(error)),
{
}

/// Bytes that are all at hand are read step by step: as long as bytes can come in, a portion of them
/// does, and after the last one, or when there is no room for more, none does.
pub proof fn input_is_read_step_by_step(
    state: ReadStateView,
    input: Seq<u8>,
    portions: Seq<usize>,
    i: int,
    bytes: Vec<u8>,
)
    ensures
        read_step(state, StreamEvent::Received(bytes)) == received(state, bytes@),
        input.len() == 0 || state.limit() <= 0 ==> read_to_end(state, input, portions, i)
            == received(state, Seq::empty()),
        i >= portions.len() && 0 < input.len() <= state.limit() ==> read_to_end(
            state,
            input,
            portions,
            i,
        ) == match received(state, input) {
            ReadStepView::More(next) => received(next, Seq::empty()),
            end => end,
        },
        0 <= i < portions.len() && 0 < portions[i] <= state.limit() && portions[i] <= input.len()
            ==> read_to_end(state, input, portions, i) == match received(
            state,
            input.take(portions[i] as int),
        ) {
            ReadStepView::More(next) => read_to_end(
                next,
                input.skip(portions[i] as int),
                portions,
                i + 1,
            ),
            end => end,
        },
        i >= portions.len() && 0 < state.limit() <= input.len() ==> read_to_end(
            state,
            input,
            portions,
            i,
        ) == match received(state, input.take(state.limit())) {
            ReadStepView::More(next) => read_to_end(
                next,
                input.skip(state.limit()),
                portions,
                i + 1,
            ),
            end => end,
        },
{
    reveal_with_fuel(read_to_end, 2);
    assert(input.take(input.len() as int) =~= input);
}

} // verus!
