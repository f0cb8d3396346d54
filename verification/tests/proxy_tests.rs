use balancebeam::connection::{handle_connection, Action, Connection, Event, Phase};
use balancebeam::health::{
    active_health_check, begin_round, health_request, CheckStep, Probe,
};
use balancebeam::message::Version;
use balancebeam::number::{decimal_text, parse_unsigned};
use balancebeam::parser::ParseError;
use balancebeam::rate_limit::{check_rate, RateCounter};
use balancebeam::request;
use balancebeam::request::Request;
use balancebeam::response;
use balancebeam::response::Response;
use balancebeam::upstream::{attempt_at, connection_failed, AfterFailure, Attempt, Chooser};
use http::header::HeaderMap;

fn servers(names: &[&str]) -> Vec<String> {
    names.iter().map(|name| name.to_string()).collect()
}

fn get(path: &str) -> Request {
    let bytes = format!("GET {} HTTP/1.1\r\nx-sent-by: balancebeam-tests\r\n\r\n", path);
    request::read_from_bytes(bytes.as_bytes(), &[]).unwrap()
}

fn answer(status: u16) -> Response {
    Response { status, version: Version::Http11, headers: HeaderMap::new(), body: Vec::new() }
}

fn connect(max_requests_per_minute: usize, counter: &mut RateCounter) -> Connection {
    let mut connection = Connection::new("127.0.0.1".to_string(), max_requests_per_minute).unwrap();
    assert_eq!(connection.current_phase(), Phase::Connecting);
    let action = handle_connection(&mut connection, counter, Event::Connected(true));
    assert!(matches!(action, Action::ReadRequest));
    assert_eq!(connection.current_phase(), Phase::Reading);
    connection
}

/// The status of the response that is to be sent.
fn sent_status(action: &Action) -> u16 {
    match action {
        Action::SendResponse(response) => response.status,
        other => panic!("unexpected action: {:?}", other),
    }
}

#[test]
fn numbers_are_read_back() {
    for n in [0, 9, 10, 99, 100, 12345, usize::MAX] {
        let text = decimal_text(n);
        assert_eq!(text, format!("{}", n));
        assert_eq!(parse_unsigned(text.as_bytes()), Some(n));
    }
    assert_eq!(parse_unsigned(b"007"), Some(7));
    assert_eq!(parse_unsigned(b""), None);
    assert_eq!(parse_unsigned(b"+"), None);
    assert_eq!(parse_unsigned(b"18446744073709551616"), None);
}

#[test]
fn requests_beyond_the_limit_are_refused() {
    let mut counter = RateCounter::new();
    for _ in 0..5 {
        assert!(check_rate(&mut counter, "127.0.0.1", 5).is_ok());
    }
    for _ in 0..3 {
        let refused = check_rate(&mut counter, "127.0.0.1", 5).unwrap_err();
        assert_eq!(refused.status, 429);
        assert_eq!(refused.body, b"HTTP 429 Too Many Requests".to_vec());
    }
    assert_eq!(counter.count("127.0.0.1"), 8);
    assert_eq!(counter.count("10.0.0.1"), 0);
    assert!(check_rate(&mut counter, "10.0.0.1", 5).is_ok());
    counter.clear();
    assert_eq!(counter.count("127.0.0.1"), 0);
    assert!(check_rate(&mut counter, "127.0.0.1", 5).is_ok());
}

#[test]
fn rate_limited_requests_do_not_go_through() {
    let mut counter = RateCounter::new();
    let mut forwarded: usize = 0;
    let mut connection = connect(5, &mut counter);
    for i in 0..8 {
        let event = Event::RequestRead(Ok(get(&format!("/request-{}", i))));
        let action = handle_connection(&mut connection, &mut counter, event);
        if i < 5 {
            assert!(matches!(action, Action::SendRequest(_)));
            forwarded = forwarded + 1;
            let action = handle_connection(&mut connection, &mut counter, Event::RequestSent(true));
            assert!(matches!(action, Action::ReadResponse));
            let event = Event::ResponseRead(Ok(answer(200)));
            assert_eq!(sent_status(&handle_connection(&mut connection, &mut counter, event)), 200);
        } else {
            assert_eq!(sent_status(&action), 429);
        }
        let action = handle_connection(&mut connection, &mut counter, Event::ResponseSent(true));
        assert!(matches!(action, Action::ReadRequest));
    }
    assert_eq!(forwarded, 5);
}

#[test]
fn forwarded_request_names_the_client() {
    let mut counter = RateCounter::new();
    let mut connection = connect(0, &mut counter);
    let event = Event::RequestRead(Ok(get("/failover-1")));
    match handle_connection(&mut connection, &mut counter, event) {
        Action::SendRequest(request) => {
            let text = String::from_utf8(request::write_to_stream(&request)).unwrap();
            assert!(text.contains("GET /failover-1 HTTP/1.1"));
            assert!(text.contains("x-sent-by: balancebeam-tests"));
            assert!(text.contains("x-forwarded-for: 127.0.0.1"));
        }
        other => panic!("unexpected action: {:?}", other),
    }
    assert_eq!(connection.current_phase(), Phase::Forwarding);
    assert_eq!(counter.count("127.0.0.1"), 0);
}

#[test]
fn response_is_read_with_the_method_of_its_request() {
    let mut counter = RateCounter::new();
    let mut connection = connect(2, &mut counter);
    assert_eq!(connection.request_method(), "");
    for method in ["HEAD", "GET"] {
        let mut asked = get("/");
        asked.method = method.to_string();
        handle_connection(&mut connection, &mut counter, Event::RequestRead(Ok(asked)));
        assert_eq!(connection.request_method(), method);
        let action = handle_connection(&mut connection, &mut counter, Event::RequestSent(true));
        assert!(matches!(action, Action::ReadResponse));
        assert_eq!(connection.request_method(), method);
        handle_connection(&mut connection, &mut counter, Event::ResponseRead(Ok(answer(200))));
        handle_connection(&mut connection, &mut counter, Event::ResponseSent(true));
        assert_eq!(connection.request_method(), method);
    }
    let mut asked = get("/");
    asked.method = "PUT".to_string();
    let action = handle_connection(&mut connection, &mut counter, Event::RequestRead(Ok(asked)));
    assert_eq!(sent_status(&action), 429);
    assert_eq!(connection.request_method(), "GET");
}

#[test]
fn address_that_no_header_takes_is_refused() {
    assert!(Connection::new("127.0.0.1\n".to_string(), 0).is_none());
    assert!(Connection::new("::1".to_string(), 0).is_some());
}

#[test]
fn client_hears_that_no_server_is_live() {
    let mut counter = RateCounter::new();
    let mut connection = Connection::new("127.0.0.1".to_string(), 0).unwrap();
    let action = handle_connection(&mut connection, &mut counter, Event::Connected(false));
    assert_eq!(sent_status(&action), 502);
    assert_eq!(connection.current_phase(), Phase::Answering { last: true });
    let action = handle_connection(&mut connection, &mut counter, Event::ResponseSent(false));
    assert!(matches!(action, Action::Close));
    assert_eq!(connection.current_phase(), Phase::Closed);
}

#[test]
fn unreadable_requests_get_an_error() {
    let errors = [
        (request::Error::IncompleteRequest(3), 400),
        (request::Error::MalformedRequest(ParseError::Token), 400),
        (request::Error::InvalidContentLength, 400),
        (request::Error::ContentLengthMismatch, 400),
        (request::Error::RequestBodyTooLarge, 413),
    ];
    let mut counter = RateCounter::new();
    let mut connection = connect(2, &mut counter);
    for (error, status) in errors {
        let event = Event::RequestRead(Err(error));
        let action = handle_connection(&mut connection, &mut counter, event);
        assert_eq!(sent_status(&action), status);
        let action = handle_connection(&mut connection, &mut counter, Event::ResponseSent(true));
        assert!(matches!(action, Action::ReadRequest));
    }
    assert_eq!(counter.count("127.0.0.1"), 0);
}

#[test]
fn client_that_is_gone_gets_no_answer() {
    let failure = std::io::Error::new(std::io::ErrorKind::Other, "gone");
    let errors =
        [request::Error::IncompleteRequest(0), request::Error::ConnectionError(failure)];
    for error in errors {
        let mut counter = RateCounter::new();
        let mut connection = connect(0, &mut counter);
        let event = Event::RequestRead(Err(error));
        let action = handle_connection(&mut connection, &mut counter, event);
        assert!(matches!(action, Action::Close));
    }
}

#[test]
fn upstream_failures_end_the_connection() {
    let mut counter = RateCounter::new();
    let mut connection = connect(0, &mut counter);
    handle_connection(&mut connection, &mut counter, Event::RequestRead(Ok(get("/"))));
    let action = handle_connection(&mut connection, &mut counter, Event::RequestSent(false));
    assert_eq!(sent_status(&action), 502);
    let action = handle_connection(&mut connection, &mut counter, Event::ResponseSent(true));
    assert!(matches!(action, Action::Close));

    let mut connection = connect(0, &mut counter);
    handle_connection(&mut connection, &mut counter, Event::RequestRead(Ok(get("/"))));
    handle_connection(&mut connection, &mut counter, Event::RequestSent(true));
    assert_eq!(connection.current_phase(), Phase::Awaiting);
    let event = Event::ResponseRead(Err(response::Error::IncompleteResponse));
    let action = handle_connection(&mut connection, &mut counter, event);
    assert_eq!(sent_status(&action), 502);
    let action = handle_connection(&mut connection, &mut counter, Event::ResponseSent(true));
    assert!(matches!(action, Action::Close));
}

#[test]
fn chosen_server_is_live() {
    let live = servers(&["a", "b", "c"]);
    let mut chooser = Chooser::new();
    let mut counts = [0; 3];
    for _ in 0..900 {
        let attempt = chooser.pick(&live).unwrap();
        assert_eq!(attempt.address, live[attempt.index]);
        counts[attempt.index] += 1;
    }
    for count in counts {
        assert!(count > 180 && count < 420);
    }
}

#[test]
fn nothing_is_chosen_when_all_servers_are_dead() {
    assert!(Chooser::new().pick(&Vec::new()).is_none());
}

#[test]
fn dead_servers_are_tried_once() {
    let mut live = servers(&["a", "b", "c", "d"]);
    let mut fail = |index: usize| {
        let attempt = attempt_at(&live, index);
        let next = connection_failed(&mut live, &attempt);
        (attempt.address, next, live.clone())
    };
    let try_another = AfterFailure::TryAnother;
    assert_eq!(fail(1), ("b".to_string(), try_another, servers(&["a", "d", "c"])));
    assert_eq!(fail(2), ("c".to_string(), try_another, servers(&["a", "d"])));
    assert_eq!(fail(0), ("a".to_string(), try_another, servers(&["d"])));
    assert_eq!(fail(0), ("d".to_string(), AfterFailure::AllDead, Vec::new()));
}

#[test]
fn server_that_moved_meanwhile_is_removed() {
    let attempt = |index: usize, address: &str| Attempt { index, address: address.to_string() };
    let mut live = servers(&["a", "b", "c"]);
    assert_eq!(connection_failed(&mut live, &attempt(0, "c")), AfterFailure::TryAnother);
    assert_eq!(live, servers(&["a", "b"]));
    assert_eq!(connection_failed(&mut live, &attempt(2, "c")), AfterFailure::TryAnother);
    assert_eq!(live, servers(&["a", "b"]));
    assert_eq!(connection_failed(&mut live, &attempt(7, "a")), AfterFailure::TryAnother);
    assert_eq!(live, servers(&["b"]));
    live.clear();
    assert_eq!(connection_failed(&mut live, &attempt(0, "b")), AfterFailure::AllDead);
}

#[test]
fn failover_finds_the_server_that_works() {
    let mut live = servers(&["dead-1", "works", "dead-2"]);
    let mut chooser = Chooser::new();
    let mut attempts: usize = 0;
    loop {
        let attempt = chooser.pick(&live).unwrap();
        attempts = attempts + 1;
        if attempt.address == "works" {
            break;
        }
        assert_eq!(connection_failed(&mut live, &attempt), AfterFailure::TryAnother);
    }
    assert!(attempts <= 3);
    assert!(live.contains(&"works".to_string()));
}

#[test]
fn health_check_asks_for_the_path() {
    let asked = health_request("/", "127.0.0.1:8080").unwrap();
    assert_eq!(
        request::write_to_stream(&asked),
        b"GET / HTTP/1.1\r\nhost: 127.0.0.1:8080\r\n\r\n".to_vec()
    );
    let asked = health_request("/health?full=1", "example.com:80").unwrap();
    assert_eq!(
        request::write_to_stream(&asked),
        b"GET /health?full=1 HTTP/1.1\r\nhost: example.com:80\r\n\r\n".to_vec()
    );
    assert_eq!(health_request("http://a", "b").unwrap().uri, "http://a/");
    assert!(health_request("/ /", "127.0.0.1:8080").is_none());
    assert!(health_request("", "127.0.0.1:8080").is_none());
    assert!(health_request("/", "127.0.0.1\r\n").is_none());
}

/// A round in which the attempts to ask the servers end like this.
fn round(live: &mut Vec<String>, upstreams: &Vec<String>, probes: &[Probe]) {
    let mut step = begin_round(live, upstreams);
    assert!(live.is_empty());
    for (i, probe) in probes.iter().enumerate() {
        assert_eq!(step, CheckStep::Ask(i));
        step = active_health_check(live, upstreams, i, *probe);
    }
    assert_eq!(step, CheckStep::Sleep);
}

#[test]
fn health_check_restores_servers() {
    let upstreams = servers(&["a", "b"]);
    let mut live = upstreams.clone();
    round(&mut live, &upstreams, &[Probe::Answered(200), Probe::Unreachable]);
    assert_eq!(live, servers(&["a"]));
    round(&mut live, &upstreams, &[Probe::Answered(200), Probe::Answered(200)]);
    assert_eq!(live, upstreams);
}

#[test]
fn health_check_asks_every_server() {
    let upstreams = servers(&["127.0.0.1:9001", "127.0.0.1:9002"]);
    let mut live = upstreams.clone();
    round(&mut live, &upstreams, &[Probe::Unreachable, Probe::Answered(200)]);
    assert_eq!(live, servers(&["127.0.0.1:9002"]));
}

#[test]
fn health_check_looks_at_the_status() {
    let upstreams = servers(&["a", "b", "c"]);
    let failures = [
        Probe::Answered(500),
        Probe::Answered(201),
        Probe::Unreachable,
        Probe::NotSent,
        Probe::NotAnswered,
    ];
    for failure in failures {
        let mut live = upstreams.clone();
        round(&mut live, &upstreams, &[Probe::Answered(200), failure, Probe::Answered(200)]);
        assert_eq!(live, servers(&["a", "c"]));
    }
}

#[test]
fn health_check_without_servers_sleeps() {
    let mut live = Vec::new();
    assert_eq!(begin_round(&mut live, &Vec::new()), CheckStep::Sleep);
}
