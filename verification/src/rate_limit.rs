//! How many requests a client may make.
use crate::response::{error_response, make_http_error, Response};
use vstd::hash_map::StringHashMap;
use vstd::prelude::*;

verus! {

/// The status code of a request too many.
pub const TOO_MANY_REQUESTS: u16 = 429;

/// How many requests each client has made since the counter was last cleared.
pub struct RateCounter {
    counts: StringHashMap<usize>,
}

/// The requests of a client.
pub open spec fn count(counts: Map<Seq<char>, usize>, client: Seq<char>) -> nat {
    if counts.contains_key(client) {
        counts[client] as nat
    } else {
        0
    }
}

/// The counts after one more request of a client.
pub open spec fn counted(counts: Map<Seq<char>, usize>, client: Seq<char>) -> Map<
    Seq<char>,
    usize,
> {
    counts.insert(client, (count(counts, client) + 1) as usize)
}

/// Whether a client that makes another request stays within the limit.
pub open spec fn is_within(counts: Map<Seq<char>, usize>, client: Seq<char>, max: usize) -> bool {
    count(counts, client) < max
}

impl View for RateCounter {
    type V = Map<Seq<char>, usize>;

    closed spec fn view(&self) -> Map<Seq<char>, usize> {
        self.counts@
    }
}

impl RateCounter {
    /// No client has made a request.
    pub fn new() -> (counter: RateCounter)
        ensures
            counter@ == Map::<Seq<char>, usize>::empty(),
    {
        RateCounter { counts: StringHashMap::new() }
    }

    /// How many requests a client has made.
    pub fn count(&self, client_ip: &str) -> (requests: usize)
        ensures
            requests == count(self@, client_ip@),
    {
        match self.counts.get(client_ip) {
            Some(requests) => *requests,
            None => 0,
        }
    }

    /// Begins to count anew.
    pub fn clear(&mut self)
        ensures
            final(self)@ == Map::<Seq<char>, usize>::empty(),
    {
        self.counts.clear();
    }
}

/// Counts a request of a client. If it is one too many, returns the response that the client gets in
/// place of an answer.
pub fn check_rate(
    counter: &mut RateCounter,
    client_ip: &str,
    max_requests_per_minute: usize,
) -> (checked: Result<(), Response>)
    requires
        count(old(counter)@, client_ip@) < usize::MAX,
    ensures
        final(counter)@ == counted(old(counter)@, client_ip@),
        match checked {
            Ok(()) => is_within(old(counter)@, client_ip@, max_requests_per_minute),
            Err(response) => {
                &&& !is_within(old(counter)@, client_ip@, max_requests_per_minute)
                &&& response@ == error_response(TOO_MANY_REQUESTS, "Too Many Requests"@)
            },
        },
{
    let requests: usize = counter.count(client_ip) + 1;
    counter.counts.insert(client_ip.to_owned(), requests);
    if requests > max_requests_per_minute {
        Err(make_http_error(TOO_MANY_REQUESTS))
    } else {
        Ok(())
    }
}

/// The counts after the requests of some clients, one after the other.
pub open spec fn counted_all(clients: Seq<Seq<char>>) -> Map<Seq<char>, usize>
    decreases clients.len(),
{
    if clients.len() == 0 {
        Map::empty()
    } else {
        counted(counted_all(clients.drop_last()), clients.last())
    }
}

/// How many of the requests are a client's.
pub open spec fn made(clients: Seq<Seq<char>>, client: Seq<char>) -> nat
    decreases clients.len(),
{
    if clients.len() == 0 {
        0
    } else {
        made(clients.drop_last(), client) + if clients.last() == client {
            1nat
        } else {
            0
        }
    }
}

/// How many of a client's requests are within the limit at the time when they are made.
pub open spec fn admitted(clients: Seq<Seq<char>>, client: Seq<char>, max: usize) -> nat
    decreases clients.len(),
{
    if clients.len() == 0 {
        0
    } else {
        admitted(clients.drop_last(), client, max) + if clients.last() == client && is_within(
            counted_all(clients.drop_last()),
            client,
            max,
        ) {
            1nat
        } else {
            0
        }
    }
}

proof fn lemma_counted_all(clients: Seq<Seq<char>>, client: Seq<char>)
    requires
        clients.len() <= usize::MAX,
    ensures
        count(counted_all(clients), client) == made(clients, client),
        made(clients, client) <= clients.len(),
    decreases clients.len(),
{
    if clients.len() > 0 {
        lemma_counted_all(clients.drop_last(), client);
        lemma_counted_all(clients.drop_last(), clients.last());
    }
}

/// Of the requests that a client makes between two clearings, as many as the limit says are
/// admitted, or all of them if they are fewer; what other clients do is of no account.
pub proof fn admits_up_to_the_limit(clients: Seq<Seq<char>>, client: Seq<char>, max: usize)
    requires
        clients.len() <= usize::MAX,
    ensures
        admitted(clients, client, max) == if made(clients, client) < max {
            made(clients, client)
        } else {
            max as nat
        },
    decreases clients.len(),
{
    if clients.len() > 0 {
        admits_up_to_the_limit(clients.drop_last(), client, max);
        lemma_counted_all(clients.drop_last(), client);
    }
}

/// Counting a request of one client leaves the counts of all other clients as they were.
pub proof fn counting_keeps_others(
    counts: Map<Seq<char>, usize>,
    client: Seq<char>,
    other: Seq<char>,
)
    requires
        other != client,
    ensures
        count(counted(counts, client), other) == count(counts, other),
{
}

/// A request is within the limit exactly if the client has made fewer requests than the limit says. It
/// is counted in any case: the client's count grows by one, and no other client's does.
pub proof fn count_decides(
    counts: Map<Seq<char>, usize>,
    client: Seq<char>,
    other: Seq<char>,
    max: usize,
)
    ensures
        counts.contains_key(client) ==> (is_within(counts, client, max) <==> counts[client] < max)
            && (counts[client] < usize::MAX ==> counted(counts, client)[client] == counts[client]
            + 1),
        !counts.contains_key(client) ==> (is_within(counts, client, max) <==> 0 < max) && counted(
            counts,
            client,
        )[client] == 1,
        counted(counts, client).contains_key(client),
        other != client ==> (counted(counts, client).contains_key(other) <==> counts.contains_key(
            other,
        )) && (counts.contains_key(other) ==> counted(counts, client)[other] == counts[other]),
        count(counts, client) == if counts.contains_key(client) {
            counts[client] as nat
        } else {
            0
        },
{
}

} // verus!
