use balancebeam::message::Version;
use balancebeam::parser::ParseError;
use balancebeam::response::{
    format_response_line, get_content_length, make_http_error, parse_response, read_from_bytes,
    read_from_stream, write_to_stream, Error, ReadState, ReadStep, Response,
};
use balancebeam::stream::{StreamEvent, MAX_BODY_SIZE};
use http::header::{HeaderMap, HeaderName, HeaderValue};

fn response(status: u16, headers: &[(&str, &str)], body: &[u8]) -> Response {
    let mut map = HeaderMap::new();
    for (name, value) in headers {
        map.append(
            HeaderName::from_bytes(name.as_bytes()).unwrap(),
            HeaderValue::from_bytes(value.as_bytes()).unwrap(),
        );
    }
    Response { status, version: Version::Http11, headers: map, body: body.to_vec() }
}

fn assert_same(read: &Response, sent: &Response) {
    assert_eq!(read.status, sent.status);
    assert_eq!(read.version, sent.version);
    assert_eq!(read.headers, sent.headers);
    assert_eq!(read.body, sent.body);
}

fn read(bytes: &[u8], method: &str) -> Result<Response, Error> {
    read_from_bytes(bytes, &[], &method.to_string())
}

fn malformed(bytes: &[u8]) -> ParseError {
    match read(bytes, "GET") {
        Err(Error::MalformedResponse(error)) => error,
        other => panic!("unexpected outcome: {:?}", other),
    }
}

#[test]
fn response_line_has_version_code_and_phrase() {
    assert_eq!(format_response_line(&response(200, &[], b"")), "HTTP/1.1 200 OK");
    assert_eq!(format_response_line(&response(429, &[], b"")), "HTTP/1.1 429 Too Many Requests");
    assert_eq!(format_response_line(&response(999, &[], b"")), "HTTP/1.1 999 ");
    let mut old = response(404, &[], b"");
    old.version = Version::Http10;
    assert_eq!(format_response_line(&old), "HTTP/1.0 404 Not Found");
}

#[test]
fn response_is_written_head_first() {
    let sent = response(200, &[("Content-Type", "text/html"), ("Content-Length", "2")], b"hi");
    assert_eq!(
        write_to_stream(&sent),
        b"HTTP/1.1 200 OK\r\ncontent-type: text/html\r\ncontent-length: 2\r\n\r\nhi".to_vec()
    );
}

#[test]
fn error_says_what_went_wrong() {
    assert_eq!(
        write_to_stream(&make_http_error(400)),
        b"HTTP/1.1 400 Bad Request\r\ncontent-type: text/plain\r\ncontent-length: 20\r\n\r\nHTTP 400 Bad Request"
            .to_vec()
    );
    let phrases = [
        (413, "HTTP 413 Payload Too Large"),
        (429, "HTTP 429 Too Many Requests"),
        (502, "HTTP 502 Bad Gateway"),
        (503, "HTTP 503 Service Unavailable"),
        (599, "HTTP 599 "),
    ];
    for (status, text) in phrases {
        let error = make_http_error(status);
        assert_eq!(error.status, status);
        assert_eq!(error.body, text.as_bytes().to_vec());
        assert!(matches!(get_content_length(&error), Ok(Some(len)) if len == text.len()));
    }
}

#[test]
fn error_is_read_back() {
    for status in [400, 413, 429, 502, 503] {
        let sent = make_http_error(status);
        assert_same(&read(&write_to_stream(&sent), "GET").unwrap(), &sent);
    }
}

#[test]
fn written_response_is_read_back_in_any_portions() {
    let sent = response(200, &[("content-length", "11"), ("a", "b"), ("a", "c")], b"hello world");
    let bytes = write_to_stream(&sent);
    let method = "GET".to_string();
    assert_same(&read_from_bytes(&bytes, &vec![1; 500], &method).unwrap(), &sent);
    for first in 1..bytes.len() {
        assert_same(&read_from_bytes(&bytes, &[first], &method).unwrap(), &sent);
    }
}

#[test]
fn response_without_length_ends_with_the_stream() {
    let sent = response(200, &[("a", "b")], b"some text");
    let bytes = write_to_stream(&sent);
    assert_same(&read(&bytes, "GET").unwrap(), &sent);
    let cut = read(&bytes[..bytes.len() - 5], "GET").unwrap();
    assert_eq!(cut.body, b"some".to_vec());
}

#[test]
fn cut_off_response_is_an_error() {
    let sent = response(200, &[("content-length", "4")], b"body");
    let bytes = write_to_stream(&sent);
    let head_len = bytes.len() - 4;
    for n in 0..bytes.len() {
        let error = read(&bytes[..n], "GET").unwrap_err();
        if n < head_len {
            assert!(matches!(error, Error::IncompleteResponse));
        } else {
            assert!(matches!(error, Error::ContentLengthMismatch));
        }
    }
}

#[test]
fn bodiless_responses_end_with_the_head() {
    let bytes = b"HTTP/1.1 200 OK\r\ncontent-length: 5\r\n\r\n";
    assert!(read(bytes, "HEAD").unwrap().body.is_empty());
    assert!(matches!(read(bytes, "GET"), Err(Error::ContentLengthMismatch)));
    assert!(matches!(read(bytes, "head"), Err(Error::ContentLengthMismatch)));
    for status in [100, 199, 204, 304] {
        let bytes = format!("HTTP/1.1 {} X\r\ncontent-length: 5\r\n\r\n", status);
        assert!(read(bytes.as_bytes(), "GET").unwrap().body.is_empty());
    }
    for status in [200, 205, 303, 305] {
        let bytes = format!("HTTP/1.1 {} X\r\ncontent-length: 5\r\n\r\n", status);
        assert!(matches!(read(bytes.as_bytes(), "GET"), Err(Error::ContentLengthMismatch)));
    }
}

#[test]
fn bodiless_response_needs_no_valid_length() {
    let bytes = b"HTTP/1.1 200 OK\r\ncontent-length: x\r\n\r\n";
    assert_eq!(read(bytes, "HEAD").unwrap().status, 200);
    assert!(matches!(read(bytes, "GET"), Err(Error::InvalidContentLength)));
}

#[test]
fn too_many_bytes_of_a_response_are_an_error() {
    let bytes = b"HTTP/1.1 200 OK\r\ncontent-length: 3\r\n\r\nhello";
    assert!(matches!(read(bytes, "GET"), Err(Error::ContentLengthMismatch)));
    let head = bytes.len() - 5;
    for first in [head + 1, head + 2, head + 4] {
        let outcome = read_from_bytes(bytes, &[first], &"GET".to_string());
        assert!(matches!(outcome, Err(Error::ContentLengthMismatch)));
    }
    let outcome = read_from_bytes(bytes, &[head + 1, 2], &"GET".to_string());
    assert_eq!(outcome.unwrap().body, b"hel".to_vec());
}

#[test]
fn response_body_that_is_too_large_is_an_error() {
    let mut bytes = b"HTTP/1.1 200 OK\r\n\r\n".to_vec();
    let head_len = bytes.len();
    bytes.resize(head_len + MAX_BODY_SIZE, b'x');
    assert_eq!(read(&bytes, "GET").unwrap().body.len(), MAX_BODY_SIZE);
    bytes.push(b'x');
    assert!(matches!(read(&bytes, "GET"), Err(Error::ResponseBodyTooLarge)));
}

#[test]
fn malformed_responses_are_told_apart() {
    assert_eq!(malformed(b"HTTP/1.1 2x0 OK\r\n\r\n"), ParseError::Status);
    assert_eq!(malformed(b"HTTP/7.1 200 OK\r\n\r\n"), ParseError::Version);
    assert_eq!(malformed(b"HTTP/1.1 200 OK\r\na b: c\r\n\r\n"), ParseError::HeaderName);
    assert_eq!(malformed(b"HTTP/1.1 200 OK\r\na: \x01\r\n\r\n"), ParseError::HeaderValue);
    let mut many = b"HTTP/1.1 200 OK\r\n".to_vec();
    for i in 0..33 {
        many.extend_from_slice(format!("h{}: v\r\n", i).as_bytes());
    }
    many.extend_from_slice(b"\r\n");
    assert_eq!(malformed(&many), ParseError::TooManyHeaders);
}

#[test]
fn status_that_the_http_crate_does_not_take_is_malformed() {
    assert_eq!(malformed(b"HTTP/1.1 099 X\r\n\r\n"), ParseError::Status);
    assert!(matches!(
        parse_response(b"HTTP/1.1 000 X\r\n\r\n"),
        Err(Error::MalformedResponse(ParseError::Status))
    ));
    let long = format!("HTTP/1.1 200 OK\r\n{}: b\r\n\r\n", "a".repeat(65536));
    assert!(matches!(
        parse_response(long.as_bytes()),
        Err(Error::MalformedResponse(ParseError::HeaderName))
    ));
}

#[test]
fn any_phrase_is_read() {
    for phrase in ["", "OK", "All  is well ~", " "] {
        let head = format!("HTTP/1.1 200 {}\r\na: b\r\n\r\n", phrase);
        let (got, len) = parse_response(head.as_bytes()).unwrap().unwrap();
        assert_eq!(len, head.len());
        assert_same(&got, &response(200, &[("a", "b")], b""));
    }
}

#[test]
fn complete_response_head_is_settled() {
    let heads: [&[u8]; 3] = [
        b"HTTP/1.1 200 OK\r\nA:  b \r\n\r\n",
        b"HTTP/1.0 404\nb: c\n\n",
        b"\r\nHTTP/1.1 500 \xff\r\n\n",
    ];
    for head in heads {
        for k in 0..head.len() {
            assert!(matches!(parse_response(&head[..k]), Ok(None)));
        }
        let whole = parse_response(head).unwrap().unwrap();
        assert_eq!(whole.1, head.len());
        for more in [&b"\x00\x01"[..], b"HTTP/1.1 200 OK\r\n\r\n", b"\r\n"] {
            let longer = parse_response(&[head, more].concat()).unwrap().unwrap();
            assert_eq!(longer.1, head.len());
            assert_same(&longer.0, &whole.0);
        }
    }
}

#[test]
fn response_buffer_is_parsed_up_to_the_head() {
    match parse_response(b"HTTP/1.1 200 OK\r\n\r\nrest") {
        Ok(Some((got, len))) => {
            assert_eq!(len, 19);
            assert_eq!(got.status, 200);
            assert!(got.body.is_empty());
        }
        other => panic!("unexpected outcome: {:?}", other),
    }
    assert!(matches!(parse_response(b"HTTP/1.1 200"), Ok(None)));
}

#[test]
fn failed_upstream_connection_is_an_error() {
    let failure = std::io::Error::new(std::io::ErrorKind::Other, "gone");
    let state = ReadState::new(&"GET".to_string());
    assert_eq!(state.limit(), 8000);
    let step = read_from_stream(state, StreamEvent::Failed(failure));
    assert!(matches!(step, ReadStep::Done(Err(Error::ConnectionError(error)))
        if error.to_string() == "gone"));
}

#[test]
fn response_body_chunks_have_a_limit() {
    let piece = b"HTTP/1.1 200 OK\r\ncontent-length: 3\r\n\r\n".to_vec();
    let state = ReadState::new(&"GET".to_string());
    match read_from_stream(state, StreamEvent::Received(piece)) {
        ReadStep::More(state) => assert_eq!(state.limit(), 512),
        other => panic!("unexpected step: {:?}", other),
    }
}
