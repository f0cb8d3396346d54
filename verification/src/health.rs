//! The health check: which upstream servers work.
use crate::headers::{append_header, is_accepted_value, new_headers};
use crate::message::{parse_target, target_text, Version};
use crate::request::{Request, RequestView};
use crate::syntax::{is_header_name, is_header_value, is_plain_target, lower};
use crate::upstream::addresses;
use vstd::prelude::*;
use vstd::utf8::encode_utf8;

verus! {

/// The status code of a server that works.
pub const OK: u16 = 200;

/// The request that asks a server whether it works.
pub open spec fn health_request_view(target: Seq<char>, upstream: Seq<char>) -> RequestView {
    RequestView {
        method: "GET"@,
        uri: target,
        version: Version::Http11,
        headers: seq![("host"@, seq![encode_utf8(upstream)])],
        body: Seq::empty(),
    }
}

/// Makes the request that asks a server whether it works; `None`, if the `http` crate does not take
/// the path for a target or the address for a header's value.
pub fn health_request(path: &str, upstream: &str) -> (request: Option<Request>)
    ensures
        match request {
            Some(request) => {
                &&& target_text(path@) is Some
                &&& is_header_value(encode_utf8(upstream@))
                &&& request@ == health_request_view(target_text(path@)->0, upstream@)
            },
            None => target_text(path@) is None || !is_header_value(encode_utf8(upstream@)),
        },
        is_plain_target(path@) ==> target_text(path@) == Some(path@),
{
    let uri = match parse_target(path) {
        Some(uri) => uri,
        None => {
            return None;
        },
    };
    if !is_accepted_value(upstream.as_bytes()) {
        return None;
    }
    let mut headers = new_headers();
    proof {
        reveal_strlit("Host");
        reveal_strlit("host");
        assert(is_header_name("Host"@));
        assert(lower("Host"@) =~= "host"@);
    }
    append_header(&mut headers, "Host", upstream.as_bytes());
    let request = Request {
        method: "GET".to_owned(),
        uri,
        version: Version::Http11,
        headers,
        body: Vec::new(),
    };
    assert(request@.headers =~= health_request_view(request@.uri, upstream@).headers);
    assert(request@.body =~= Seq::<u8>::empty());
    Some(request)
}

/// How an attempt to ask a server ended.
#[derive(Debug, Clone, Copy, PartialEq, Eq, Structural)]
pub enum Probe {
    /// No connection could be made.
    Unreachable,
    /// The request could not be sent.
    NotSent,
    /// No response could be read.
    NotAnswered,
    /// The server answered, with this status code.
    Answered(u16),
}

/// What the health check does next.
#[derive(Debug, Clone, Copy, PartialEq, Eq, Structural)]
pub enum CheckStep {
    /// Ask the server at this index.
    Ask(usize),
    /// Sleep until the next round: all servers have been asked.
    Sleep,
}

impl Probe {
    /// Whether the server works.
    pub open spec fn is_ok(self) -> bool {
        self == Probe::Answered(OK)
    }
}

/// Asks the server at an index, or sleeps when there is none.
pub open spec fn ask_or_sleep(upstreams: nat, index: nat) -> CheckStep {
    if index < upstreams {
        CheckStep::Ask(index as usize)
    } else {
        CheckStep::Sleep
    }
}

/// Begins a round: no server is live until it has answered.
pub fn begin_round(live: &mut Vec<String>, upstreams: &Vec<String>) -> (step: CheckStep)
    ensures
        addresses(final(live)@) == Seq::<Seq<char>>::empty(),
        step == ask_or_sleep(upstreams@.len(), 0),
{
    live.clear();
    assert(addresses(live@) =~= Seq::<Seq<char>>::empty());
    if upstreams.len() > 0 {
        CheckStep::Ask(0)
    } else {
        CheckStep::Sleep
    }
}

/// What comes of the attempt to ask a server: it is live if it works, and in any case the next one is
/// asked.
pub open spec fn checked(
    live: Seq<Seq<char>>,
    upstreams: Seq<Seq<char>>,
    index: nat,
    probe: Probe,
) -> (Seq<Seq<char>>, CheckStep) {
    (
        if probe.is_ok() {
            live.push(upstreams[index as int])
        } else {
            live
        },
        ask_or_sleep(upstreams.len(), index + 1),
    )
}

/// Takes note of how the attempt to ask a server ended: one that works is live.
pub fn active_health_check(
    live: &mut Vec<String>,
    upstreams: &Vec<String>,
    index: usize,
    probe: Probe,
) -> (step: CheckStep)
    requires
        index < upstreams@.len(),
    ensures
        (addresses(final(live)@), step) == checked(
            addresses(old(live)@),
            addresses(upstreams@),
            index as nat,
            probe,
        ),
{
    let count = upstreams.len();
    let works = match probe {
        Probe::Answered(status) => status == OK,
        _ => false,
    };
    if works {
        live.push(upstreams[index].clone());
        assert(addresses(live@) =~= addresses(old(live)@).push(upstreams@[index as int]@));
    }
    if index + 1 < count {
        CheckStep::Ask(index + 1)
    } else {
        CheckStep::Sleep
    }
}

/// What comes of a round from a server on, when the attempts to ask the servers end like this.
pub open spec fn rest_of_round(
    live: Seq<Seq<char>>,
    upstreams: Seq<Seq<char>>,
    probes: Seq<Probe>,
    step: CheckStep,
) -> Seq<Seq<char>>
    decreases
            match step {
                CheckStep::Ask(index) => upstreams.len() - index,
                CheckStep::Sleep => 0,
            },
{
    match step {
        CheckStep::Ask(index) => if index < upstreams.len() <= usize::MAX {
            let (after, next) = checked(live, upstreams, index as nat, probes[index as int]);
            rest_of_round(after, upstreams, probes, next)
        } else {
            live
        },
        CheckStep::Sleep => live,
    }
}

/// The servers that are live after a round, when the attempts to ask the servers end like this.
pub open spec fn round(upstreams: Seq<Seq<char>>, probes: Seq<Probe>) -> Seq<Seq<char>> {
    rest_of_round(Seq::empty(), upstreams, probes, ask_or_sleep(upstreams.len(), 0))
}

/// The servers that work, in their order.
pub open spec fn working(upstreams: Seq<Seq<char>>, probes: Seq<Probe>) -> Seq<Seq<char>>
    decreases upstreams.len(),
{
    if upstreams.len() == 0 {
        Seq::empty()
    } else {
        let before = working(upstreams.drop_last(), probes.drop_last());
        if probes.last().is_ok() {
            before.push(upstreams.last())
        } else {
            before
        }
    }
}

proof fn lemma_rest_of_round(upstreams: Seq<Seq<char>>, probes: Seq<Probe>, index: nat)
    requires
        index <= upstreams.len() == probes.len() <= usize::MAX,
    ensures
        rest_of_round(
            working(upstreams.take(index as int), probes.take(index as int)),
            upstreams,
            probes,
            ask_or_sleep(upstreams.len(), index),
        ) == working(upstreams, probes),
    decreases upstreams.len() - index,
{
    if index < upstreams.len() {
        let next = (index + 1) as int;
        assert(upstreams.take(next).drop_last() =~= upstreams.take(index as int));
        assert(probes.take(next).drop_last() =~= probes.take(index as int));
        lemma_rest_of_round(upstreams, probes, index + 1);
    } else {
        assert(upstreams.take(index as int) =~= upstreams);
        assert(probes.take(index as int) =~= probes);
    }
}

/// In a round every server is asked, and after it those that work are live, in their order,
/// whichever were live before.
pub proof fn working_servers_are_live(upstreams: Seq<Seq<char>>, probes: Seq<Probe>)
    requires
        probes.len() == upstreams.len() <= usize::MAX,
    ensures
        round(upstreams, probes) == working(upstreams, probes),
{
    assert(upstreams.take(0) =~= Seq::<Seq<char>>::empty());
    lemma_rest_of_round(upstreams, probes, 0);
}

proof fn lemma_working_contains(upstreams: Seq<Seq<char>>, probes: Seq<Probe>, server: Seq<char>)
    requires
        probes.len() == upstreams.len(),
    ensures
        working(upstreams, probes).contains(server) <==> exists|i: int|
            0 <= i < upstreams.len() && #[trigger] upstreams[i] == server && probes[i].is_ok(),
    decreases upstreams.len(),
{
    if upstreams.len() > 0 {
        let init = upstreams.drop_last();
        let last = upstreams.len() - 1;
        let before = working(init, probes.drop_last());
        lemma_working_contains(init, probes.drop_last(), server);
        if before.contains(server) {
            let i = choose|i: int|
                0 <= i < init.len() && #[trigger] init[i] == server
                    && probes.drop_last()[i].is_ok();
            assert(upstreams[i] == server && probes[i].is_ok());
            let k = before.index_of(server);
            assert(working(upstreams, probes)[k] == server);
        }
        if probes.last().is_ok() && upstreams.last() == server {
            assert(upstreams[last] == server && probes[last].is_ok());
            assert(working(upstreams, probes).last() == server);
        }
        if exists|i: int|
            0 <= i < upstreams.len() && #[trigger] upstreams[i] == server && probes[i].is_ok() {
            let i = choose|i: int|
                0 <= i < upstreams.len() && #[trigger] upstreams[i] == server && probes[i].is_ok();
            if i < last {
                assert(init[i] == server && probes.drop_last()[i].is_ok());
            }
        }
        if working(upstreams, probes).contains(server) {
            let k = working(upstreams, probes).index_of(server);
            if k < before.len() {
                assert(before[k] == server);
            }
        }
    }
}

/// A server is live after a round exactly if it works in that round. So one that fails in a round is
/// not live after it, whatever the others do, and one that works again in the next round is live
/// again after that.
pub proof fn failed_server_is_restored(
    upstreams: Seq<Seq<char>>,
    failed: Seq<Probe>,
    recovered: Seq<Probe>,
    index: int,
)
    requires
        failed.len() == recovered.len() == upstreams.len() <= usize::MAX,
        0 <= index < upstreams.len(),
        forall|i: int| 0 <= i < upstreams.len() && i != index ==> #[trigger] upstreams[i]
            != upstreams[index],
        !failed[index].is_ok(),
        recovered[index].is_ok(),
    ensures
        !round(upstreams, failed).contains(upstreams[index]),
        round(upstreams, recovered).contains(upstreams[index]),
{
    working_servers_are_live(upstreams, failed);
    working_servers_are_live(upstreams, recovered);
    lemma_working_contains(upstreams, failed, upstreams[index]);
    lemma_working_contains(upstreams, recovered, upstreams[index]);
}

/// After a round in which all servers work all of them are live again, in their order.
pub proof fn all_working_servers_are_restored(upstreams: Seq<Seq<char>>, probes: Seq<Probe>)
    requires
        probes.len() == upstreams.len() <= usize::MAX,
        forall|i: int| 0 <= i < probes.len() ==> (#[trigger] probes[i]).is_ok(),
    ensures
        round(upstreams, probes) == upstreams,
{
    working_servers_are_live(upstreams, probes);
    lemma_all_working(upstreams, probes);
}

proof fn lemma_all_working(upstreams: Seq<Seq<char>>, probes: Seq<Probe>)
    requires
        probes.len() == upstreams.len(),
        forall|i: int| 0 <= i < probes.len() ==> (#[trigger] probes[i]).is_ok(),
    ensures
        working(upstreams, probes) == upstreams,
    decreases upstreams.len(),
{
    if upstreams.len() > 0 {
        let init = probes.drop_last();
        assert forall|i: int| 0 <= i < init.len() implies (#[trigger] init[i]).is_ok() by {
            assert(init[i] == probes[i]);
        }
        lemma_all_working(upstreams.drop_last(), init);
        assert(probes.last() == probes[probes.len() - 1]);
        assert(upstreams.drop_last().push(upstreams.last()) =~= upstreams);
    }
}

/// With one server more, a round leaves the servers live that it would leave without it, and after
/// them that server exactly if it answered with the status code 200.
pub proof fn round_grows_by_a_server(
    upstreams: Seq<Seq<char>>,
    probes: Seq<Probe>,
    server: Seq<char>,
    probe: Probe,
)
    requires
        probes.len() == upstreams.len() < usize::MAX,
    ensures
        round(Seq::empty(), Seq::empty()).len() == 0,
        round(upstreams.push(server), probes.push(probe)) == match probe {
            Probe::Answered(status) => if status == 200 {
                round(upstreams, probes).push(server)
            } else {
                round(upstreams, probes)
            },
            _ => round(upstreams, probes),
        },
{
    working_servers_are_live(upstreams, probes);
    working_servers_are_live(upstreams.push(server), probes.push(probe));
    assert(upstreams.push(server).drop_last() =~= upstreams);
    assert(probes.push(probe).drop_last() =~= probes);
}

/// A server that is listed once is live after a round if and only if it answered with the status code
/// 200; with any other status code, or without an answer, it is not.
pub proof fn live_means_answered_200(upstreams: Seq<Seq<char>>, probes: Seq<Probe>, index: int)
    requires
        probes.len() == upstreams.len() <= usize::MAX,
        0 <= index < upstreams.len(),
        forall|i: int| 0 <= i < upstreams.len() && i != index ==> #[trigger] upstreams[i]
            != upstreams[index],
    ensures
        round(upstreams, probes).contains(upstreams[index]) <==> (probes[index] matches
            Probe::Answered(status) && status == 200),
{
    working_servers_are_live(upstreams, probes);
    lemma_working_contains(upstreams, probes, upstreams[index]);
    if probes[index].is_ok() {
        assert(upstreams[index] == upstreams[index] && probes[index].is_ok());
    }
}

/// However the attempt to ask a server ended, the servers that are live already stay so, and the next
/// server is asked; after the last one, the check sleeps.
pub proof fn every_server_is_asked(
    live: Seq<Seq<char>>,
    upstreams: Seq<Seq<char>>,
    index: nat,
    probe: Probe,
)
    requires
        index < upstreams.len() <= usize::MAX,
    ensures
        ({
            let (after, step) = checked(live, upstreams, index, probe);
            &&& probe == Probe::Answered(200) ==> after == live.push(upstreams[index as int])
            &&& probe != Probe::Answered(200) ==> after == live
            &&& step == if index + 1 == upstreams.len() {
                CheckStep::Sleep
            } else {
                CheckStep::Ask((index + 1) as usize)
            }
        }),
        ask_or_sleep(upstreams.len(), 0) == CheckStep::Ask(0),
        ask_or_sleep(0, 0) == CheckStep::Sleep,
{
}

/// The request that asks a server whether it works is a GET request for the target, with the server's
/// address as its only header, Host, and without a body.
pub proof fn health_request_asks_for_the_target(target: Seq<char>, upstream: Seq<char>)
    ensures
        health_request_view(target, upstream).first_line() == "GET "@ + target + " HTTP/1.1"@,
        health_request_view(target, upstream).headers == seq![
            ("host"@, seq![encode_utf8(upstream)]),
        ],
        health_request_view(target, upstream).body.len() == 0,
{
    reveal_strlit("GET");
    reveal_strlit("GET ");
    reveal_strlit("HTTP/1.1");
    reveal_strlit(" HTTP/1.1");
    assert(health_request_view(target, upstream).first_line() =~= "GET "@ + target
        + " HTTP/1.1"@);
}

} // verus!
