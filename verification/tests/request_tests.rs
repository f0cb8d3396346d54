use balancebeam::headers::collect_headers;
use balancebeam::message::Version;
use balancebeam::parser::ParseError;
use balancebeam::request::{
    extend_header_value, format_request_line, get_content_length, parse_request, read_from_bytes,
    read_from_stream, write_to_stream, Error, ReadState, ReadStep, Request,
};
use balancebeam::stream::{StreamEvent, MAX_BODY_SIZE, MAX_HEADERS_SIZE};
use http::header::{HeaderMap, HeaderName, HeaderValue};

fn header_map(headers: &[(&str, &str)]) -> HeaderMap<HeaderValue> {
    let mut map = HeaderMap::new();
    for (name, value) in headers {
        map.append(
            HeaderName::from_bytes(name.as_bytes()).unwrap(),
            HeaderValue::from_bytes(value.as_bytes()).unwrap(),
        );
    }
    map
}

fn request(method: &str, uri: &str, headers: &[(&str, &str)], body: &[u8]) -> Request {
    Request {
        method: method.to_string(),
        uri: uri.to_string(),
        version: Version::Http11,
        headers: header_map(headers),
        body: body.to_vec(),
    }
}

fn assert_same(read: &Request, sent: &Request) {
    assert_eq!(read.method, sent.method);
    assert_eq!(read.uri, sent.uri);
    assert_eq!(read.version, sent.version);
    assert_eq!(read.headers, sent.headers);
    assert_eq!(read.body, sent.body);
}

/// Reads a request that is in order.
fn read(bytes: &[u8]) -> Request {
    read_from_bytes(bytes, &[]).unwrap()
}

/// Reads something that is no request.
fn read_error(bytes: &[u8]) -> Error {
    read_from_bytes(bytes, &[]).unwrap_err()
}

fn malformed(bytes: &[u8]) -> ParseError {
    match read_error(bytes) {
        Error::MalformedRequest(error) => error,
        other => panic!("unexpected error: {:?}", other),
    }
}

#[test]
fn request_line_has_method_target_and_version() {
    for i in 0..5 {
        let path = format!("/request-{}", i);
        let line = format_request_line(&request("GET", &path, &[], b""));
        assert_eq!(line, format!("GET {} HTTP/1.1", path));
    }
}

#[test]
fn request_line_writes_every_version() {
    let versions = [
        (Version::Http09, "GET / HTTP/0.9"),
        (Version::Http10, "GET / HTTP/1.0"),
        (Version::Http11, "GET / HTTP/1.1"),
        (Version::Http2, "GET / HTTP/2.0"),
        (Version::Http3, "GET / HTTP/3.0"),
    ];
    for (version, line) in versions {
        let mut sent = request("GET", "/", &[], b"");
        sent.version = version;
        assert_eq!(format_request_line(&sent), line);
    }
}

#[test]
fn request_is_written_head_first() {
    let sent = request(
        "POST",
        "/form?a=1",
        &[("Host", "example.com"), ("Content-Length", "5")],
        b"hello",
    );
    assert_eq!(
        write_to_stream(&sent),
        b"POST /form?a=1 HTTP/1.1\r\nhost: example.com\r\ncontent-length: 5\r\n\r\nhello".to_vec()
    );
}

#[test]
fn headers_are_written_name_by_name() {
    let sent = request("GET", "/", &[("a", "1"), ("b", "2"), ("A", "3")], b"");
    assert_eq!(
        write_to_stream(&sent),
        b"GET / HTTP/1.1\r\na: 1\r\na: 3\r\nb: 2\r\n\r\n".to_vec()
    );
}

#[test]
fn written_request_is_read_back_in_any_portions() {
    let sent = request(
        "PUT",
        "/thing",
        &[("x-sent-by", "balancebeam-tests"), ("content-length", "11"), ("x-sent-by", "again")],
        b"hello world",
    );
    let bytes = write_to_stream(&sent);
    let whole = read_from_bytes(&bytes, &[]).unwrap();
    assert_same(&whole, &sent);
    let single = read_from_bytes(&bytes, &vec![1; bytes.len()]).unwrap();
    assert_same(&single, &sent);
    for first in 1..bytes.len() {
        let split = read_from_bytes(&bytes, &[first]).unwrap();
        assert_same(&split, &sent);
    }
}

#[test]
fn cut_off_request_is_an_error() {
    let sent = request("POST", "/", &[("content-length", "4")], b"body");
    let bytes = write_to_stream(&sent);
    let head_len = bytes.len() - 4;
    for n in 0..bytes.len() {
        let error = read_error(&bytes[..n]);
        if n < head_len {
            assert!(matches!(error, Error::IncompleteRequest(received) if received == n));
        } else {
            assert!(matches!(error, Error::ContentLengthMismatch));
        }
    }
}

#[test]
fn large_body_is_read_in_chunks() {
    let body = vec![b'x'; 20000];
    let sent = request("POST", "/", &[("content-length", "20000")], &body);
    assert_same(&read(&write_to_stream(&sent)), &sent);
}

#[test]
fn names_are_read_in_small_letters() {
    let got = read(b"GET /x HTTP/1.1\r\nX-Sent-By:   balancebeam-tests  \r\n\r\n");
    assert_eq!(got.headers, header_map(&[("x-sent-by", "balancebeam-tests")]));
    assert_eq!(
        write_to_stream(&got),
        b"GET /x HTTP/1.1\r\nx-sent-by: balancebeam-tests\r\n\r\n".to_vec()
    );
}

#[test]
fn older_version_is_read_as_the_current_one() {
    assert_eq!(read(b"GET / HTTP/1.0\r\n\r\n").version, Version::Http11);
}

#[test]
fn absolute_target_gets_a_path() {
    assert_eq!(read(b"GET http://example.com HTTP/1.1\r\n\r\n").uri, "http://example.com/");
}

#[test]
fn bytes_that_come_with_the_head_are_the_body() {
    let got = read(b"POST / HTTP/1.1\r\ncontent-length: 3\r\n\r\nabc");
    assert_eq!(got.body, b"abc".to_vec());
    let got = read(b"GET / HTTP/1.1\r\n\r\nabc");
    assert_eq!(got.body, b"abc".to_vec());
}

#[test]
fn too_many_bytes_of_the_body_are_an_error() {
    let bytes = b"POST / HTTP/1.1\r\ncontent-length: 3\r\n\r\nhello";
    assert!(matches!(read_error(bytes), Error::ContentLengthMismatch));
    let head = bytes.len() - 5;
    for first in [head + 1, head + 2, head + 4] {
        let outcome = read_from_bytes(bytes, &[first]);
        assert!(matches!(outcome, Err(Error::ContentLengthMismatch)));
    }
    let outcome = read_from_bytes(bytes, &[head + 1, 2]);
    assert_eq!(outcome.unwrap().body, b"hel".to_vec());
    let empty = b"POST / HTTP/1.1\r\ncontent-length: 0\r\n\r\nx";
    assert!(matches!(read_error(empty), Error::ContentLengthMismatch));
}

#[test]
fn client_that_says_nothing_sends_an_empty_request() {
    assert!(matches!(read_error(b""), Error::IncompleteRequest(0)));
}

#[test]
fn head_that_is_too_large_stays_incomplete() {
    let mut bytes = b"GET / HTTP/1.1\r\na: ".to_vec();
    bytes.resize(MAX_HEADERS_SIZE + 100, b'x');
    assert!(matches!(read_error(&bytes), Error::IncompleteRequest(8000)));
}

#[test]
fn malformed_requests_are_told_apart() {
    assert_eq!(malformed(b"G\x01T / HTTP/1.1\r\n\r\n"), ParseError::Token);
    assert_eq!(malformed(b"GET / HTTP/7.1\r\n\r\n"), ParseError::Version);
    assert_eq!(malformed(b"GET / HTTP/1.1\r\na b: c\r\n\r\n"), ParseError::HeaderName);
    assert_eq!(malformed(b"GET / HTTP/1.1\r\na: \x01\r\n\r\n"), ParseError::HeaderValue);
    assert_eq!(malformed(b"GET / HTTP/1.1\rx\r\n\r\n"), ParseError::NewLine);
    let mut many = b"GET / HTTP/1.1\r\n".to_vec();
    for i in 0..33 {
        many.extend_from_slice(format!("h{}: v\r\n", i).as_bytes());
    }
    many.extend_from_slice(b"\r\n");
    assert_eq!(malformed(&many), ParseError::TooManyHeaders);
}

#[test]
fn as_many_headers_as_there_is_room_for_are_read() {
    let mut many = b"GET / HTTP/1.1\r\n".to_vec();
    for i in 0..32 {
        many.extend_from_slice(format!("h{}: v\r\n", i).as_bytes());
    }
    many.extend_from_slice(b"\r\n");
    assert_eq!(read(&many).headers.len(), 32);
}

#[test]
fn head_that_the_http_crate_does_not_take_is_malformed() {
    assert_eq!(malformed(b"A# / HTTP/1.1\r\n\r\n"), ParseError::Token);
    assert_eq!(malformed(b"GET /<> HTTP/1.1\r\n\r\n"), ParseError::Token);
    assert_eq!(malformed(b"GET a/b HTTP/1.1\r\n\r\n"), ParseError::Token);
    assert!(matches!(
        parse_request(b"GET a/b HTTP/1.1\r\n\r\n"),
        Err(Error::MalformedRequest(ParseError::Token))
    ));
    let name = "a".repeat(65536);
    let long = format!("GET / HTTP/1.1\r\n{}: b\r\n\r\n", name);
    assert!(matches!(
        parse_request(long.as_bytes()),
        Err(Error::MalformedRequest(ParseError::HeaderName))
    ));
}

#[test]
fn unusual_targets_are_read_back() {
    for uri in ["/{\"a\"}", "/a?`{b}`", "/?", "/a?b?c", "//a", "/|~!$'()*+,;=:@%20"] {
        let sent = request("GET", uri, &[("host", "a")], b"");
        assert_same(&read(&write_to_stream(&sent)), &sent);
    }
    assert_eq!(malformed(b"GET /a?\" HTTP/1.1\r\n\r\n"), ParseError::Token);
    assert_eq!(malformed(b"GET /` HTTP/1.1\r\n\r\n"), ParseError::Token);
}

#[test]
fn complete_head_is_settled() {
    let heads: [&[u8]; 3] = [
        b"GET /a HTTP/1.0\nHost: b\n\n",
        b"\r\nPOST / HTTP/1.1\r\na:b\r\nc: \t d \t\r\n\r\n",
        b"X-Y * HTTP/1.1\r\n\n",
    ];
    for head in heads {
        for k in 0..head.len() {
            assert!(matches!(parse_request(&head[..k]), Ok(None)));
        }
        let whole = parse_request(head).unwrap().unwrap();
        assert_eq!(whole.1, head.len());
        for more in [&b"\x00\x01"[..], b"GET / HTTP/1.1\r\n\r\n", b"\r\n"] {
            let longer = parse_request(&[head, more].concat()).unwrap().unwrap();
            assert_eq!(longer.1, head.len());
            assert_same(&longer.0, &whole.0);
        }
    }
}

#[test]
fn wrong_content_length_is_an_error() {
    for value in ["", "x", "-1", "1.0", "+", "99999999999999999999999"] {
        let bytes = format!("POST / HTTP/1.1\r\ncontent-length: {}\r\n\r\n", value);
        assert!(matches!(read_error(bytes.as_bytes()), Error::InvalidContentLength));
    }
}

#[test]
fn body_that_is_too_large_is_an_error() {
    let bytes = format!("POST / HTTP/1.1\r\ncontent-length: {}\r\n\r\n", MAX_BODY_SIZE + 1);
    assert!(matches!(read_error(bytes.as_bytes()), Error::RequestBodyTooLarge));
    let bytes = format!("POST / HTTP/1.1\r\ncontent-length: {}\r\n\r\n", MAX_BODY_SIZE);
    assert!(matches!(read_error(bytes.as_bytes()), Error::ContentLengthMismatch));
}

#[test]
fn failed_connection_is_an_error() {
    let failure = std::io::Error::new(std::io::ErrorKind::Other, "gone");
    let step = read_from_stream(ReadState::new(), StreamEvent::Failed(failure));
    assert!(matches!(step, ReadStep::Done(Err(Error::ConnectionError(error)))
        if error.to_string() == "gone"));
}

#[test]
fn request_is_read_event_by_event() {
    let state = ReadState::new();
    assert_eq!(state.limit(), 8000);
    let piece = b"POST / HTTP/1.1\r\nconte".to_vec();
    let state = match read_from_stream(state, StreamEvent::Received(piece)) {
        ReadStep::More(state) => state,
        other => panic!("unexpected step: {:?}", other),
    };
    assert_eq!(state.limit(), 8000 - 22);
    let piece = b"nt-length: 3\r\n\r\na".to_vec();
    let state = match read_from_stream(state, StreamEvent::Received(piece)) {
        ReadStep::More(state) => state,
        other => panic!("unexpected step: {:?}", other),
    };
    assert_eq!(state.limit(), 3);
    match read_from_stream(state, StreamEvent::Received(b"bc".to_vec())) {
        ReadStep::Done(Ok(got)) => assert_eq!(got.body, b"abc".to_vec()),
        other => panic!("unexpected step: {:?}", other),
    }
}

#[test]
fn body_chunks_have_a_limit() {
    let piece = b"POST / HTTP/1.1\r\ncontent-length: 2000\r\n\r\n".to_vec();
    match read_from_stream(ReadState::new(), StreamEvent::Received(piece)) {
        ReadStep::More(state) => assert_eq!(state.limit(), 512),
        other => panic!("unexpected step: {:?}", other),
    }
}

#[test]
fn buffer_is_parsed_up_to_the_head() {
    match parse_request(b"GET / HTTP/1.1\r\n\r\nrest") {
        Ok(Some((got, len))) => {
            assert_eq!(len, 18);
            assert!(got.body.is_empty());
        }
        other => panic!("unexpected outcome: {:?}", other),
    }
    assert!(matches!(parse_request(b"GET / HT"), Ok(None)));
    assert!(matches!(
        parse_request(b"\x00"),
        Err(Error::MalformedRequest(ParseError::Token))
    ));
}

#[test]
fn content_length_is_read() {
    let with = |value: &str| request("GET", "/", &[("Content-Length", value)], b"");
    assert!(matches!(get_content_length(&request("GET", "/", &[], b"")), Ok(None)));
    assert!(matches!(get_content_length(&with("42")), Ok(Some(42))));
    assert!(matches!(get_content_length(&with("+7")), Ok(Some(7))));
    assert!(matches!(get_content_length(&with("0")), Ok(Some(0))));
    assert!(matches!(get_content_length(&with("4 2")), Err(Error::InvalidContentLength)));
    assert!(matches!(get_content_length(&with("")), Err(Error::InvalidContentLength)));
}

#[test]
fn missing_header_is_added() {
    let mut forwarded = request("GET", "/request-0", &[("x-sent-by", "balancebeam-tests")], b"");
    extend_header_value(&mut forwarded, "x-forwarded-for", "127.0.0.1");
    assert_eq!(
        write_to_stream(&forwarded),
        b"GET /request-0 HTTP/1.1\r\nx-sent-by: balancebeam-tests\r\nx-forwarded-for: 127.0.0.1\r\n\r\n"
            .to_vec()
    );
}

#[test]
fn present_header_becomes_a_list() {
    let mut forwarded = request("GET", "/", &[("X-Forwarded-For", "10.0.0.1"), ("b", "c")], b"");
    extend_header_value(&mut forwarded, "x-forwarded-for", "127.0.0.1");
    assert_eq!(
        forwarded.headers,
        header_map(&[("x-forwarded-for", "10.0.0.1, 127.0.0.1"), ("b", "c")])
    );
}

#[test]
fn extending_twice_is_extending_by_a_list() {
    let mut twice = request("GET", "/", &[], b"x");
    extend_header_value(&mut twice, "via", "a");
    extend_header_value(&mut twice, "via", "b");
    let mut once = request("GET", "/", &[], b"x");
    extend_header_value(&mut once, "via", "a, b");
    assert_same(&twice, &once);
    assert_eq!(twice.headers, header_map(&[("via", "a, b")]));
}

#[test]
fn extending_keeps_all_values() {
    let headers =
        [("x-forwarded-for", "1.1.1.1"), ("a", "b"), ("X-Forwarded-For", "2.2.2.2"), ("a", "c")];
    let mut forwarded = request("GET", "/", &headers, b"");
    extend_header_value(&mut forwarded, "x-forwarded-for", "3.3.3.3");
    assert_eq!(
        forwarded.headers,
        header_map(&[("x-forwarded-for", "1.1.1.1, 2.2.2.2, 3.3.3.3"), ("a", "b"), ("a", "c")])
    );
}

#[test]
fn forwarded_request_is_read_as_it_is() {
    let mut forwarded = request("POST", "/", &[("content-length", "1")], b"x");
    extend_header_value(&mut forwarded, "x-forwarded-for", "::1");
    assert_same(&read(&write_to_stream(&forwarded)), &forwarded);
}

#[test]
fn headers_that_a_map_does_not_take_are_refused() {
    let line = |name: &str, value: &[u8]| (name.to_string(), value.to_vec());
    let taken = collect_headers(&vec![line("A", b"1"), line("b", b"2"), line("a", b"3")]);
    assert_eq!(taken.unwrap(), header_map(&[("a", "1"), ("a", "3"), ("b", "2")]));
    assert!(collect_headers(&vec![line("a b", b"1")]).is_none());
    assert!(collect_headers(&vec![line("", b"1")]).is_none());
    assert!(collect_headers(&vec![line("a", b"1\n")]).is_none());
}
