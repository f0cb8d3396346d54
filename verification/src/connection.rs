//! The course of a client's connection: what is read, forwarded and answered, and when it ends.
use crate::headers::{
    header_lines, header_value, header_values, is_accepted_value, list_of, HEADER_CAPACITY,
};
use crate::message::error_reason;
use crate::rate_limit::{check_rate, count, counted, is_within, RateCounter, TOO_MANY_REQUESTS};
use crate::request;
use crate::request::{
    extend_header_value, extended_is_sendable, extended_value, extension_goes_to_the_end,
    extension_is_found, extension_keeps_the_rest, Request, RequestView,
};
use crate::response;
use crate::response::{error_response, make_http_error, Response, ResponseView};
use crate::stream::{MAX_HEADERS_SIZE, MAX_NUM_HEADERS};
use crate::syntax::{is_header_value, is_trimmed, lower};
use vstd::prelude::*;
use vstd::utf8::encode_utf8;

verus! {

/// The status code of a request that cannot be understood.
pub const BAD_REQUEST: u16 = 400;

/// The status code of a request whose body is too large.
pub const PAYLOAD_TOO_LARGE: u16 = 413;

/// The status code of a request that no upstream server answers.
pub const BAD_GATEWAY: u16 = 502;

/// How far a connection has come.
#[derive(Debug, Clone, Copy, PartialEq, Eq, Structural)]
pub enum Phase {
    /// An upstream server is being looked for.
    Connecting,
    /// A request of the client is being read.
    Reading,
    /// A request is being sent to the upstream server.
    Forwarding,
    /// The upstream server's response is being read.
    Awaiting,
    /// A response is being sent to the client; after the last one the connection ends.
    Answering { last: bool },
    /// The connection has ended.
    Closed,
}

/// What happened on a connection.
#[derive(Debug)]
pub enum Event {
    /// The look-out for an upstream server ended: it was found, or all of them are dead.
    Connected(bool),
    /// The reading of a request ended.
    RequestRead(Result<Request, request::Error>),
    /// The sending of a request ended, well or not.
    RequestSent(bool),
    /// The reading of a response ended.
    ResponseRead(Result<Response, response::Error>),
    /// The sending of a response ended, well or not.
    ResponseSent(bool),
}

/// What is to be done next on a connection.
#[derive(Debug)]
pub enum Action {
    /// Read a request of the client.
    ReadRequest,
    /// Send this request to the upstream server.
    SendRequest(Request),
    /// Read the upstream server's response to the request that was sent; the method of that request
    /// tells whether the response has a body.
    ReadResponse,
    /// Send this response to the client.
    SendResponse(Response),
    /// End the connection.
    Close,
}

/// What happened on a connection.
pub enum EventView {
    Connected(bool),
    RequestRead(Result<RequestView, request::Error>),
    RequestSent(bool),
    ResponseRead(Result<ResponseView, response::Error>),
    ResponseSent(bool),
}

/// What is to be done next on a connection.
pub enum ActionView {
    ReadRequest,
    SendRequest(RequestView),
    ReadResponse,
    SendResponse(ResponseView),
    Close,
}

impl View for Event {
    type V = EventView;

    open spec fn view(&self) -> EventView {
        match self {
            Event::Connected(found) => EventView::Connected(*found),
            Event::RequestRead(Ok(request)) => EventView::RequestRead(Ok(request@)),
            Event::RequestRead(Err(error)) => EventView::RequestRead(Err(*error)),
            Event::RequestSent(sent) => EventView::RequestSent(*sent),
            Event::ResponseRead(Ok(response)) => EventView::ResponseRead(Ok(response@)),
            Event::ResponseRead(Err(error)) => EventView::ResponseRead(Err(*error)),
            Event::ResponseSent(sent) => EventView::ResponseSent(*sent),
        }
    }
}

impl View for Action {
    type V = ActionView;

    open spec fn view(&self) -> ActionView {
        match self {
            Action::ReadRequest => ActionView::ReadRequest,
            Action::SendRequest(request) => ActionView::SendRequest(request@),
            Action::ReadResponse => ActionView::ReadResponse,
            Action::SendResponse(response) => ActionView::SendResponse(response@),
            Action::Close => ActionView::Close,
        }
    }
}

/// The status code with which a client hears of a request that could not be read; `None`, if the
/// client is no longer there: it has hung up between two requests, or its connection failed.
pub open spec fn refusal(error: request::Error) -> Option<u16> {
    match error {
        request::Error::IncompleteRequest(received) => if received == 0 {
            None
        } else {
            Some(BAD_REQUEST)
        },
        request::Error::MalformedRequest(_) => Some(BAD_REQUEST),
        request::Error::InvalidContentLength => Some(BAD_REQUEST),
        request::Error::ContentLengthMismatch => Some(BAD_REQUEST),
        request::Error::RequestBodyTooLarge => Some(PAYLOAD_TOO_LARGE),
        request::Error::ConnectionError(_) => None,
    }
}

/// The response with which a client hears of an error.
pub open spec fn error_answer(status: u16) -> ResponseView {
    error_response(status, error_reason(status)->0)
}

/// The request as the upstream server gets it: with the client's address at the end of the
/// X-Forwarded-For header.
pub open spec fn forwarded(request: RequestView, client_ip: Seq<char>) -> RequestView {
    request.extended("x-forwarded-for"@, encode_utf8(client_ip))
}

/// What does not change while a connection lasts.
pub struct Settings {
    pub client_ip: Seq<char>,
    pub max_requests_per_minute: usize,
}

/// Whether a request is one too many. A limit of 0 is none.
pub open spec fn is_over_limit(settings: Settings, counts: Map<Seq<char>, usize>) -> bool {
    settings.max_requests_per_minute > 0 && !is_within(
        counts,
        settings.client_ip,
        settings.max_requests_per_minute,
    )
}

/// Whether an event is a request that is counted. Without a limit none is.
pub open spec fn is_counted(settings: Settings, event: EventView) -> bool {
    event is RequestRead && event->RequestRead_0 is Ok && settings.max_requests_per_minute > 0
}

/// The counts after an event.
pub open spec fn counts_after(
    settings: Settings,
    event: EventView,
    counts: Map<Seq<char>, usize>,
) -> Map<Seq<char>, usize> {
    if is_counted(settings, event) {
        counted(counts, settings.client_ip)
    } else {
        counts
    }
}

/// Whether an event can happen in a phase.
pub open spec fn can_happen(phase: Phase, event: EventView) -> bool {
    match phase {
        Phase::Connecting => event is Connected,
        Phase::Reading => event is RequestRead,
        Phase::Forwarding => event is RequestSent,
        Phase::Awaiting => event is ResponseRead,
        Phase::Answering { .. } => event is ResponseSent,
        Phase::Closed => false,
    }
}

/// What comes of an event: the next phase, and what is to be done in it.
pub open spec fn next_step(
    settings: Settings,
    counts: Map<Seq<char>, usize>,
    phase: Phase,
    event: EventView,
) -> (Phase, ActionView) {
    match event {
        EventView::Connected(found) => if found {
            (Phase::Reading, ActionView::ReadRequest)
        } else {
            (
                Phase::Answering { last: true },
                ActionView::SendResponse(error_answer(BAD_GATEWAY)),
            )
        },
        EventView::RequestRead(Ok(request)) => if is_over_limit(settings, counts) {
            (
                Phase::Answering { last: false },
                ActionView::SendResponse(error_answer(TOO_MANY_REQUESTS)),
            )
        } else {
            (Phase::Forwarding, ActionView::SendRequest(forwarded(request, settings.client_ip)))
        },
        EventView::RequestRead(Err(error)) => match refusal(error) {
            Some(status) => (
                Phase::Answering { last: false },
                ActionView::SendResponse(error_answer(status)),
            ),
            None => (Phase::Closed, ActionView::Close),
        },
        EventView::RequestSent(sent) => if sent {
            (Phase::Awaiting, ActionView::ReadResponse)
        } else {
            (
                Phase::Answering { last: true },
                ActionView::SendResponse(error_answer(BAD_GATEWAY)),
            )
        },
        EventView::ResponseRead(Ok(response)) => (
            Phase::Answering { last: false },
            ActionView::SendResponse(response),
        ),
        EventView::ResponseRead(Err(_)) => (
            Phase::Answering { last: true },
            ActionView::SendResponse(error_answer(BAD_GATEWAY)),
        ),
        EventView::ResponseSent(_) => if phase == (Phase::Answering { last: true }) {
            (Phase::Closed, ActionView::Close)
        } else {
            (Phase::Reading, ActionView::ReadRequest)
        },
    }
}

/// The method of the request that was sent last, when an action has been decided on.
pub open spec fn method_after(method: Seq<char>, action: ActionView) -> Seq<char> {
    match action {
        ActionView::SendRequest(request) => request.method,
        _ => method,
    }
}

/// A client's connection.
#[derive(Debug)]
pub struct Connection {
    client_ip: String,
    max_requests_per_minute: usize,
    phase: Phase,
    request_method: String,
}

impl Connection {
    pub closed spec fn settings(&self) -> Settings {
        Settings {
            client_ip: self.client_ip@,
            max_requests_per_minute: self.max_requests_per_minute,
        }
    }

    pub closed spec fn phase(&self) -> Phase {
        self.phase
    }

    /// The method of the request that was sent last; empty, as long as none was.
    pub closed spec fn method_sent(&self) -> Seq<char> {
        self.request_method@
    }

    /// The client's address can stand in a header.
    #[verifier::type_invariant]
    closed spec fn has_valid_address(&self) -> bool {
        is_header_value(encode_utf8(self.client_ip@))
    }

    /// A connection that has just been accepted; `None`, if the client's address cannot stand in a
    /// header. The first thing to do is to look for an upstream server.
    pub fn new(client_ip: String, max_requests_per_minute: usize) -> (connection: Option<
        Connection,
    >)
        ensures
            match connection {
                Some(connection) => {
                    &&& is_header_value(encode_utf8(client_ip@))
                    &&& connection.phase() == Phase::Connecting
                    &&& connection.method_sent() == Seq::<char>::empty()
                    &&& connection.settings() == (Settings {
                        client_ip: client_ip@,
                        max_requests_per_minute,
                    })
                },
                None => !is_header_value(encode_utf8(client_ip@)),
            },
    {
        if is_accepted_value(client_ip.as_str().as_bytes()) {
            let request_method = String::new();
            Some(
                Connection {
                    client_ip,
                    max_requests_per_minute,
                    phase: Phase::Connecting,
                    request_method,
                },
            )
        } else {
            None
        }
    }

    /// The phase that the connection is in.
    pub fn current_phase(&self) -> (phase: Phase)
        ensures
            phase == self.phase(),
    {
        self.phase
    }

    /// The method of the request that was sent last, with which its response is to be read.
    pub fn request_method(&self) -> (method: &String)
        ensures
            method@ == self.method_sent(),
    {
        &self.request_method
    }
}

/// The error that a client gets to hear, if it is still there.
fn refusal_status(error: &request::Error) -> (status: Option<u16>)
    ensures
        status == refusal(*error),
{
    match error {
        request::Error::IncompleteRequest(received) => if *received == 0 {
            None
        } else {
            Some(BAD_REQUEST)
        },
        request::Error::MalformedRequest(_) => Some(BAD_REQUEST),
        request::Error::InvalidContentLength => Some(BAD_REQUEST),
        request::Error::ContentLengthMismatch => Some(BAD_REQUEST),
        request::Error::RequestBodyTooLarge => Some(PAYLOAD_TOO_LARGE),
        request::Error::ConnectionError(_) => None,
    }
}

/// Decides what is to be done with a request: it is forwarded, unless the client has made too many.
fn forward_or_refuse(
    client_ip: &str,
    max_requests_per_minute: usize,
    counter: &mut RateCounter,
    request: Request,
) -> (action: Action)
    requires
        is_header_value(encode_utf8(client_ip@)),
        max_requests_per_minute > 0 ==> count(old(counter)@, client_ip@) < usize::MAX,
        request@.headers.len() <= HEADER_CAPACITY,
    ensures
        ({
            let settings = Settings { client_ip: client_ip@, max_requests_per_minute };
            let event = EventView::RequestRead(Ok(request@));
            &&& action@ == next_step(settings, old(counter)@, Phase::Reading, event).1
            &&& final(counter)@ == counts_after(settings, event, old(counter)@)
        }),
{
    if max_requests_per_minute > 0 {
        match check_rate(counter, client_ip, max_requests_per_minute) {
            Ok(()) => {},
            Err(response) => {
                return Action::SendResponse(response);
            },
        }
    }
    let mut request = request;
    proof {
        reveal_strlit("x-forwarded-for");
    }
    extend_header_value(&mut request, "x-forwarded-for", client_ip);
    Action::SendRequest(request)
}

/// Takes in what happened on a connection, and says what is to be done next. Requests are counted
/// where there is a limit.
pub fn handle_connection(connection: &mut Connection, counter: &mut RateCounter, event: Event) -> (
    action: Action)
    requires
        can_happen(old(connection).phase(), event@),
        is_counted(old(connection).settings(), event@) ==> count(
            old(counter)@,
            old(connection).settings().client_ip,
        ) < usize::MAX,
        event@ matches EventView::RequestRead(Ok(request)) ==> request.headers.len()
            <= HEADER_CAPACITY,
        event@ matches EventView::ResponseRead(Ok(response)) ==> response.wf(),
    ensures
        (final(connection).phase(), action@) == next_step(
            old(connection).settings(),
            old(counter)@,
            old(connection).phase(),
            event@,
        ),
        final(connection).method_sent() == method_after(old(connection).method_sent(), action@),
        final(connection).settings() == old(connection).settings(),
        final(counter)@ == counts_after(old(connection).settings(), event@, old(counter)@),
        action@ matches ActionView::SendResponse(response) ==> response.wf(),
        event matches Event::ResponseRead(Ok(response)) ==> action == Action::SendResponse(response),
        event matches Event::RequestRead(Ok(request)) ==> (action matches Action::SendRequest(sent)
            ==> sent.method@ == request.method@ && sent.uri@ == request.uri@ && sent.version
            == request.version && sent.body@ == request.body@),
{
    proof {
        use_type_invariant(&*connection);
    }
    match event {
        Event::Connected(found) => if found {
            connection.phase = Phase::Reading;
            Action::ReadRequest
        } else {
            connection.phase = Phase::Answering { last: true };
            Action::SendResponse(make_http_error(BAD_GATEWAY))
        },
        Event::RequestRead(Ok(request)) => {
            let action = forward_or_refuse(
                connection.client_ip.as_str(),
                connection.max_requests_per_minute,
                counter,
                request,
            );
            match &action {
                Action::SendRequest(request) => {
                    connection.phase = Phase::Forwarding;
                    connection.request_method = request.method.clone();
                },
                _ => {
                    connection.phase = Phase::Answering { last: false };
                },
            }
            action
        },
        Event::RequestRead(Err(error)) => match refusal_status(&error) {
            Some(status) => {
                connection.phase = Phase::Answering { last: false };
                Action::SendResponse(make_http_error(status))
            },
            None => {
                connection.phase = Phase::Closed;
                Action::Close
            },
        },
        Event::RequestSent(sent) => if sent {
            connection.phase = Phase::Awaiting;
            Action::ReadResponse
        } else {
            connection.phase = Phase::Answering { last: true };
            Action::SendResponse(make_http_error(BAD_GATEWAY))
        },
        Event::ResponseRead(Ok(response)) => {
            connection.phase = Phase::Answering { last: false };
            Action::SendResponse(response)
        },
        Event::ResponseRead(Err(_)) => {
            connection.phase = Phase::Answering { last: true };
            Action::SendResponse(make_http_error(BAD_GATEWAY))
        },
        Event::ResponseSent(_) => {
            let last = match connection.phase {
                Phase::Answering { last } => last,
                _ => false,
            };
            if last {
                connection.phase = Phase::Closed;
                Action::Close
            } else {
                connection.phase = Phase::Reading;
                Action::ReadRequest
            }
        },
    }
}

/// An event, and the counts at the time when it happened. What other connections of the client do
/// counts too, and the counter is cleared from time to time.
pub type Moment = (EventView, Map<Seq<char>, usize>);

/// The phase that a connection is in after its course so far.
pub open spec fn phase_after(settings: Settings, course: Seq<Moment>) -> Phase
    decreases course.len(),
{
    if course.len() == 0 {
        Phase::Connecting
    } else {
        let before = phase_after(settings, course.drop_last());
        next_step(settings, course.last().1, before, course.last().0).0
    }
}

/// What the last event of a course led to.
pub open spec fn last_action(settings: Settings, course: Seq<Moment>) -> ActionView {
    let before = phase_after(settings, course.drop_last());
    next_step(settings, course.last().1, before, course.last().0).1
}

/// The method of the request that was sent last in a course.
pub open spec fn method_sent_in(settings: Settings, course: Seq<Moment>) -> Seq<char>
    decreases course.len(),
{
    if course.len() == 0 {
        Seq::empty()
    } else {
        method_after(
            method_sent_in(settings, course.drop_last()),
            last_action(settings, course),
        )
    }
}

/// Whether each event could happen in the phase that the connection was in.
pub open spec fn is_possible(settings: Settings, course: Seq<Moment>) -> bool
    decreases course.len(),
{
    course.len() > 0 ==> is_possible(settings, course.drop_last()) && can_happen(
        phase_after(settings, course.drop_last()),
        course.last().0,
    )
}

/// How many responses were sent to the client, or at least tried to.
pub open spec fn answers(settings: Settings, course: Seq<Moment>) -> nat
    decreases course.len(),
{
    if course.len() == 0 {
        0
    } else {
        answers(settings, course.drop_last()) + if last_action(settings, course) is SendResponse {
            1nat
        } else {
            0
        }
    }
}

/// How many requests were sent to the upstream server, or at least tried to.
pub open spec fn forwardings(settings: Settings, course: Seq<Moment>) -> nat
    decreases course.len(),
{
    if course.len() == 0 {
        0
    } else {
        forwardings(settings, course.drop_last()) + if last_action(
            settings,
            course,
        ) is SendRequest {
            1nat
        } else {
            0
        }
    }
}

/// Whether an event calls for an answer: a request, be it understood or not, of a client that is
/// still there, or the lack of any upstream server.
pub open spec fn calls_for_answer(event: EventView) -> bool {
    match event {
        EventView::Connected(found) => !found,
        EventView::RequestRead(Ok(_)) => true,
        EventView::RequestRead(Err(error)) => refusal(error) is Some,
        _ => false,
    }
}

/// How many events called for an answer.
pub open spec fn calls(course: Seq<Moment>) -> nat
    decreases course.len(),
{
    if course.len() == 0 {
        0
    } else {
        calls(course.drop_last()) + if calls_for_answer(course.last().0) {
            1nat
        } else {
            0
        }
    }
}

/// How many requests were read that were within the limit.
pub open spec fn admissions(settings: Settings, course: Seq<Moment>) -> nat
    decreases course.len(),
{
    if course.len() == 0 {
        0
    } else {
        let (event, counts) = course.last();
        admissions(settings, course.drop_last()) + if event is RequestRead
            && event->RequestRead_0 is Ok && !is_over_limit(settings, counts) {
            1nat
        } else {
            0
        }
    }
}

/// Every request is answered exactly once: at any time there are as many answers as there were calls
/// for one, or one less while the upstream server is being asked.
pub proof fn every_request_is_answered_once(settings: Settings, course: Seq<Moment>)
    requires
        is_possible(settings, course),
    ensures
        calls(course) == answers(settings, course) + match phase_after(settings, course) {
            Phase::Forwarding => 1nat,
            Phase::Awaiting => 1nat,
            _ => 0nat,
        },
    decreases course.len(),
{
    if course.len() > 0 {
        every_request_is_answered_once(settings, course.drop_last());
    }
}

/// The upstream server gets the requests that are within the limit, each of them once, and no other.
pub proof fn requests_within_the_limit_are_forwarded(settings: Settings, course: Seq<Moment>)
    requires
        is_possible(settings, course),
    ensures
        forwardings(settings, course) == admissions(settings, course),
    decreases course.len(),
{
    if course.len() > 0 {
        requests_within_the_limit_are_forwarded(settings, course.drop_last());
    }
}

/// When a response is to be read, the request that it answers was read just before and was then sent,
/// and the method at hand is that of this request.
pub proof fn response_is_read_with_the_method_sent(settings: Settings, course: Seq<Moment>)
    requires
        is_possible(settings, course),
        phase_after(settings, course) == Phase::Awaiting,
    ensures
        course.len() >= 2,
        course.last().0 == EventView::RequestSent(true),
        last_action(settings, course) == ActionView::ReadResponse,
        course[course.len() - 2].0 matches EventView::RequestRead(Ok(request)) && last_action(
            settings,
            course.drop_last(),
        ) == ActionView::SendRequest(forwarded(request, settings.client_ip))
            && method_sent_in(settings, course) == request.method,
{
    reveal_with_fuel(is_possible, 2);
    reveal_with_fuel(method_sent_in, 2);
    let sent = course.drop_last();
    assert(phase_after(settings, sent) == Phase::Forwarding);
    assert(sent.last() == course[course.len() - 2]);
}

/// A client that gets an error for its request, because the request is one too many or cannot be
/// understood, may make another one: the connection lasts, whether or not the error could be sent.
pub proof fn refused_client_may_go_on(
    settings: Settings,
    counts: Map<Seq<char>, usize>,
    later: Map<Seq<char>, usize>,
    event: EventView,
    sent: bool,
)
    requires
        event is RequestRead,
        event->RequestRead_0 matches Ok(_) ==> is_over_limit(settings, counts),
        event->RequestRead_0 matches Err(error) ==> refusal(error) is Some,
    ensures
        next_step(settings, counts, Phase::Reading, event).1 is SendResponse,
        next_step(
            settings,
            later,
            next_step(settings, counts, Phase::Reading, event).0,
            EventView::ResponseSent(sent),
        ) == (Phase::Reading, ActionView::ReadRequest),
{
}

/// Without a limit every request is forwarded, and none is counted.
pub proof fn no_limit_admits_all(
    settings: Settings,
    counts: Map<Seq<char>, usize>,
    request: RequestView,
)
    requires
        settings.max_requests_per_minute == 0,
    ensures
        next_step(settings, counts, Phase::Reading, EventView::RequestRead(Ok(request))) == (
            Phase::Forwarding,
            ActionView::SendRequest(forwarded(request, settings.client_ip)),
        ),
        counts_after(settings, EventView::RequestRead(Ok(request)), counts) == counts,
{
}

/// A request that can be sent can still be sent when the client's address was added to it, unless its
/// head has then become too large; the upstream server finds the address at the end of the
/// X-Forwarded-For header, and all else as it was.
pub proof fn forwarded_is_sendable(request: RequestView, client_ip: Seq<char>, other: Seq<char>)
    requires
        request.is_sendable(),
        is_header_value(encode_utf8(client_ip)),
        is_trimmed(encode_utf8(client_ip)),
        encode_utf8(client_ip).len() > 0,
        header_lines(forwarded(request, client_ip).headers).len() <= MAX_NUM_HEADERS,
        forwarded(request, client_ip).head().len() <= MAX_HEADERS_SIZE,
        lower(other) != "x-forwarded-for"@,
    ensures
        forwarded(request, client_ip).is_sendable(),
        header_value(forwarded(request, client_ip).headers, "x-forwarded-for"@) == Some(
            extended_value(request.headers, "x-forwarded-for"@, encode_utf8(client_ip)),
        ),
        header_value(forwarded(request, client_ip).headers, other) == header_value(
            request.headers,
            other,
        ),
        forwarded(request, client_ip).first_line() == request.first_line(),
        forwarded(request, client_ip).body == request.body,
{
    let name = "x-forwarded-for"@;
    let value = encode_utf8(client_ip);
    reveal_strlit("x-forwarded-for");
    reveal_strlit("content-length");
    assert(lower(name) =~= name);
    assert(lower("content-length"@).len() != lower(name).len());
    extended_is_sendable(request, name, value);
    extension_is_found(request, name, value);
    extension_keeps_the_rest(request, name, value, other);
}

/// The client gets what the upstream server sent: when a response has been read, it is that very
/// response that is sent, and it answers the request that was forwarded just before.
pub proof fn client_gets_the_upstream_response(
    settings: Settings,
    course: Seq<Moment>,
    response: ResponseView,
)
    requires
        is_possible(settings, course),
        course.len() > 0,
        course.last().0 == EventView::ResponseRead(Ok(response)),
    ensures
        last_action(settings, course) matches ActionView::SendResponse(answer) && answer.status
            == response.status && answer.version == response.version && answer.headers
            == response.headers && answer.body == response.body,
        phase_after(settings, course) == (Phase::Answering { last: false }),
        course.len() >= 3,
        course[course.len() - 2].0 == EventView::RequestSent(true),
        course[course.len() - 3].0 matches EventView::RequestRead(Ok(request)) && last_action(
            settings,
            course.take(course.len() - 2),
        ) == ActionView::SendRequest(forwarded(request, settings.client_ip)),
{
    let before = course.drop_last();
    assert(phase_after(settings, before) == Phase::Awaiting);
    response_is_read_with_the_method_sent(settings, before);
    assert(before.drop_last() =~= course.take(course.len() - 2));
}

/// The request that the upstream server gets is the client's: its method, target, version and body are
/// those of the client's request, and so are its headers, but that the client's address stands at the
/// end of the X-Forwarded-For list.
pub proof fn upstream_gets_the_clients_request(
    request: RequestView,
    client_ip: Seq<char>,
    other: Seq<char>,
)
    ensures
        ({
            let sent = forwarded(request, client_ip);
            let addresses = header_values(request.headers, "x-forwarded-for"@);
            &&& sent.method == request.method && sent.uri == request.uri
            &&& sent.version == request.version && sent.body == request.body
            &&& addresses.len() == 0 ==> header_values(sent.headers, "x-forwarded-for"@) == seq![
                encode_utf8(client_ip),
            ]
            &&& addresses.len() == 1 ==> header_values(sent.headers, "x-forwarded-for"@) == seq![
                addresses[0] + seq![44u8, 32] + encode_utf8(client_ip),
            ]
            &&& addresses.len() > 1 ==> header_values(sent.headers, "x-forwarded-for"@) == seq![
                list_of(addresses) + seq![44u8, 32] + encode_utf8(client_ip),
            ]
            &&& lower(other) != lower("x-forwarded-for"@) ==> header_values(sent.headers, other)
                == header_values(request.headers, other)
        }),
{
    extension_goes_to_the_end(request, "x-forwarded-for"@, encode_utf8(client_ip), other);
}

/// Where there is a limit, a request that is read when the client has made as many requests as the
/// limit says, or more, is answered with the status code 429 and not forwarded. Any other request is
/// forwarded, and so is every request where there is no limit.
pub proof fn exhausted_client_is_refused(
    settings: Settings,
    counts: Map<Seq<char>, usize>,
    request: RequestView,
)
    ensures
        next_step(settings, counts, Phase::Reading, EventView::RequestRead(Ok(request))) == if (
        settings.max_requests_per_minute > 0 && counts.contains_key(settings.client_ip)
            && counts[settings.client_ip] >= settings.max_requests_per_minute) {
            (
                Phase::Answering { last: false },
                ActionView::SendResponse(error_response(429, "Too Many Requests"@)),
            )
        } else {
            (Phase::Forwarding, ActionView::SendRequest(forwarded(request, settings.client_ip)))
        },
{
}

/// A request that is read grows the client's count by one where there is a limit; nothing else changes
/// any count.
pub proof fn requests_are_counted_once(
    settings: Settings,
    counts: Map<Seq<char>, usize>,
    event: EventView,
    other: Seq<char>,
)
    requires
        count(counts, settings.client_ip) < usize::MAX,
    ensures
        count(counts_after(settings, event, counts), settings.client_ip) == count(
            counts,
            settings.client_ip,
        ) + match event {
            EventView::RequestRead(Ok(_)) => if settings.max_requests_per_minute > 0 {
                1nat
            } else {
                0
            },
            _ => 0,
        },
        other != settings.client_ip ==> count(counts_after(settings, event, counts), other)
            == count(counts, other),
{
}

/// How many requests were read in a course.
pub open spec fn requests_read(course: Seq<Moment>) -> nat
    decreases course.len(),
{
    if course.len() == 0 {
        0
    } else {
        requests_read(course.drop_last()) + match course.last().0 {
            EventView::RequestRead(Ok(_)) => 1nat,
            _ => 0,
        }
    }
}

/// Whether in a course the counts are at each moment those that the moment before has left: the
/// counter is not cleared, and the client has no other connection.
pub open spec fn is_undisturbed(settings: Settings, course: Seq<Moment>) -> bool {
    forall|i: int|
        0 < i < course.len() ==> (#[trigger] course[i]).1 == counts_after(
            settings,
            course[i - 1].0,
            course[i - 1].1,
        )
}

proof fn lemma_forwardings(settings: Settings, course: Seq<Moment>)
    requires
        is_possible(settings, course),
        is_undisturbed(settings, course),
        settings.max_requests_per_minute > 0,
        course.len() > 0,
        count(course[0].1, settings.client_ip) + course.len() <= usize::MAX,
    ensures
        count(course.last().1, settings.client_ip) == count(course[0].1, settings.client_ip)
            + requests_read(course.drop_last()),
        requests_read(course) <= course.len(),
        forwardings(settings, course) == if count(course[0].1, settings.client_ip)
            >= settings.max_requests_per_minute {
            0
        } else if count(course[0].1, settings.client_ip) + requests_read(course)
            < settings.max_requests_per_minute {
            requests_read(course) as int
        } else {
            settings.max_requests_per_minute - count(course[0].1, settings.client_ip)
        },
    decreases course.len(),
{
    let init = course.drop_last();
    if init.len() > 0 {
        assert forall|i: int| 0 < i < init.len() implies (#[trigger] init[i]).1 == counts_after(
            settings,
            init[i - 1].0,
            init[i - 1].1,
        ) by {
            assert(init[i] == course[i] && init[i - 1] == course[i - 1]);
        }
        lemma_forwardings(settings, init);
        assert(course.last() == course[course.len() - 1]);
        assert(init.last() == course[course.len() - 2]);
        requests_are_counted_once(settings, init.last().1, init.last().0, Seq::empty());
    } else {
        assert(course.last() == course[0]);
        assert(requests_read(init) == 0 && forwardings(settings, init) == 0);
    }
}

/// As long as the counter is not cleared, a connection forwards as many requests as the limit leaves,
/// or all that are read if they are fewer: of a client that has made none before, the smaller one of
/// the limit and the number of requests that were read.
pub proof fn limit_bounds_what_is_forwarded(settings: Settings, course: Seq<Moment>)
    requires
        is_possible(settings, course),
        is_undisturbed(settings, course),
        settings.max_requests_per_minute > 0,
        course.len() > 0,
        count(course[0].1, settings.client_ip) + course.len() <= usize::MAX,
    ensures
        count(course[0].1, settings.client_ip) == 0 ==> forwardings(settings, course) == if (
        requests_read(course) < settings.max_requests_per_minute) {
            requests_read(course)
        } else {
            settings.max_requests_per_minute as nat
        },
        forwardings(settings, course) + count(course[0].1, settings.client_ip)
            <= settings.max_requests_per_minute || forwardings(settings, course) == 0,
{
    lemma_forwardings(settings, course);
}

/// A request that could not be read is answered with 413, if its body is too large, and else with 400;
/// but a client that has hung up between two requests, or whose connection failed, gets no answer, and
/// the connection ends.
pub proof fn unread_request_is_answered(
    settings: Settings,
    counts: Map<Seq<char>, usize>,
    error: request::Error,
)
    ensures
        next_step(settings, counts, Phase::Reading, EventView::RequestRead(Err(error)))
            == match error {
            request::Error::ConnectionError(_) => (Phase::Closed, ActionView::Close),
            request::Error::IncompleteRequest(0) => (Phase::Closed, ActionView::Close),
            request::Error::RequestBodyTooLarge => (
                Phase::Answering { last: false },
                ActionView::SendResponse(error_response(413, "Payload Too Large"@)),
            ),
            _ => (
                Phase::Answering { last: false },
                ActionView::SendResponse(error_response(400, "Bad Request"@)),
            ),
        },
{
}

/// Where no upstream server is found, a request cannot be sent or no response can be read, the client
/// gets a 502, and the connection ends after it, whether or not that could be sent. After any other
/// answer the next request is read.
pub proof fn bad_gateway_ends_the_connection(
    settings: Settings,
    counts: Map<Seq<char>, usize>,
    later: Map<Seq<char>, usize>,
    error: response::Error,
    sent: bool,
)
    ensures
        ({
            let gone = (
                Phase::Answering { last: true },
                ActionView::SendResponse(error_response(502, "Bad Gateway"@)),
            );
            &&& next_step(settings, counts, Phase::Connecting, EventView::Connected(false)) == gone
            &&& next_step(settings, counts, Phase::Forwarding, EventView::RequestSent(false))
                == gone
            &&& next_step(settings, counts, Phase::Awaiting, EventView::ResponseRead(Err(error)))
                == gone
        }),
        next_step(
            settings,
            later,
            Phase::Answering { last: true },
            EventView::ResponseSent(sent),
        ) == (Phase::Closed, ActionView::Close),
        next_step(
            settings,
            later,
            Phase::Answering { last: false },
            EventView::ResponseSent(sent),
        ) == (Phase::Reading, ActionView::ReadRequest),
        next_step(settings, counts, Phase::Connecting, EventView::Connected(true)) == (
            Phase::Reading,
            ActionView::ReadRequest,
        ),
        next_step(settings, counts, Phase::Forwarding, EventView::RequestSent(true)) == (
            Phase::Awaiting,
            ActionView::ReadResponse,
        ),
{
}

/// The views of an event and of an action show all that they hold.
pub proof fn views_show_all(event: Event, action: Action)
    ensures
        event matches Event::Connected(found) ==> event@ == EventView::Connected(found),
        event matches Event::RequestRead(Ok(request)) ==> event@ == EventView::RequestRead(
            Ok(request@),
        ),
        event matches Event::RequestRead(Err(error)) ==> event@ == EventView::RequestRead(
            Err(error),
        ),
        event matches Event::RequestSent(sent) ==> event@ == EventView::RequestSent(sent),
        event matches Event::ResponseRead(Ok(response)) ==> event@ == EventView::ResponseRead(
            Ok(response@),
        ),
        event matches Event::ResponseRead(Err(error)) ==> event@ == EventView::ResponseRead(
            Err(error),
        ),
        event matches Event::ResponseSent(sent) ==> event@ == EventView::ResponseSent(sent),
        action matches Action::ReadRequest ==> action@ == ActionView::ReadRequest,
        action matches Action::SendRequest(request) ==> action@ == ActionView::SendRequest(
            request@,
        ),
        action matches Action::ReadResponse ==> action@ == ActionView::ReadResponse,
        action matches Action::SendResponse(response) ==> action@ == ActionView::SendResponse(
            response@,
        ),
        action matches Action::Close ==> action@ == ActionView::Close,
{
}

} // verus!
