//! The upstream servers: which of them are live, which one gets a connection.
use rand::rngs::StdRng;
use rand::{Rng, SeedableRng};
use vstd::multiset::Multiset;
use vstd::prelude::*;

verus! {

#[verifier::external_type_specification]
#[verifier::external_body]
pub struct ExStdRng(StdRng);

/// The addresses of servers.
pub open spec fn addresses(servers: Seq<String>) -> Seq<Seq<char>> {
    servers.map_values(|server: String| server@)
}

/// Calls `rand::rngs::StdRng::from_entropy`. Nothing is said of the generator: its seed is the
/// system's choice.
#[verifier::external_body]
fn seeded_generator() -> StdRng {
    StdRng::from_entropy()
}

/// Calls `rand::Rng::gen_range`: some number below the bound.
#[verifier::external_body]
fn random_below(generator: &mut StdRng, bound: usize) -> (number: usize)
    requires
        bound > 0,
    ensures
        number < bound,
{
    generator.gen_range(0..bound)
}

/// A server to connect to, and where it stands among the live ones.
#[derive(Debug)]
pub struct Attempt {
    pub index: usize,
    pub address: String,
}

/// Chooses the servers that get connections.
pub struct Chooser {
    generator: StdRng,
}

impl Chooser {
    /// A chooser whose choices cannot be foretold.
    pub fn new() -> Chooser {
        Chooser { generator: seeded_generator() }
    }

    /// Chooses one of the live servers to connect to; `None`, if all servers are dead. Which one it
    /// is, is left to chance.
    pub fn pick(&mut self, live: &Vec<String>) -> (attempt: Option<Attempt>)
        ensures
            match attempt {
                Some(attempt) => {
                    &&& attempt.index < live@.len()
                    &&& attempt.address@ == live@[attempt.index as int]@
                },
                None => live@.len() == 0,
            },
    {
        if live.len() == 0 {
            return None;
        }
        let index = random_below(&mut self.generator, live.len());
        Some(attempt_at(live, index))
    }
}

/// The attempt to connect to the live server at an index.
pub fn attempt_at(live: &Vec<String>, index: usize) -> (attempt: Attempt)
    requires
        index < live@.len(),
    ensures
        attempt.index == index,
        attempt.address@ == live@[index as int]@,
{
    Attempt { index, address: live[index].clone() }
}

/// The servers without the one at an index, whose place the last one takes.
pub open spec fn without(servers: Seq<Seq<char>>, index: int) -> Seq<Seq<char>> {
    servers.update(index, servers.last()).drop_last()
}

/// What to do after a server could not be reached.
#[derive(Debug, Clone, Copy, PartialEq, Eq, Structural)]
pub enum AfterFailure {
    /// Choose another live server.
    TryAnother,
    /// Give up: all servers are dead.
    AllDead,
}

/// Where a server stands that stood at an index before: there, if it still does; else where its
/// address stands first, if it does at all.
pub open spec fn place(servers: Seq<Seq<char>>, index: int, address: Seq<char>) -> Option<int> {
    if 0 <= index < servers.len() && servers[index] == address {
        Some(index)
    } else {
        servers.index_of_first(address)
    }
}

/// The servers that are live when one of them could not be reached.
pub open spec fn after_failure(
    servers: Seq<Seq<char>>,
    index: int,
    address: Seq<char>,
) -> Seq<Seq<char>> {
    match place(servers, index, address) {
        Some(i) => without(servers, i),
        None => servers,
    }
}

/// Finds the server that an attempt was made on. The live servers may have changed since.
fn find(live: &Vec<String>, attempt: &Attempt) -> (found: Option<usize>)
    ensures
        match found {
            Some(i) => place(addresses(live@), attempt.index as int, attempt.address@) == Some(
                i as int,
            ) && i < live@.len(),
            None => place(addresses(live@), attempt.index as int, attempt.address@) is None,
        },
{
    let ghost servers = addresses(live@);
    if attempt.index < live.len() && live[attempt.index] == attempt.address {
        return Some(attempt.index);
    }
    let mut i: usize = 0;
    while i < live.len()
        invariant
            i <= live@.len(),
            servers == addresses(live@),
            forall|j: int| 0 <= j < i ==> #[trigger] servers[j] != attempt.address@,
            !(attempt.index < servers.len() && servers[attempt.index as int]
                == attempt.address@),
        decreases live@.len() - i,
    {
        if live[i] == attempt.address {
            proof {
                assert(servers[i as int] == attempt.address@);
                servers.index_of_first_ensures(attempt.address@);
            }
            return Some(i);
        }
        i = i + 1;
    }
    proof {
        servers.index_of_first_ensures(attempt.address@);
    }
    None
}

/// Takes note that a server could not be reached: it is live no longer.
pub fn connection_failed(live: &mut Vec<String>, attempt: &Attempt) -> (next: AfterFailure)
    ensures
        addresses(final(live)@) == after_failure(
            addresses(old(live)@),
            attempt.index as int,
            attempt.address@,
        ),
        next == (if final(live)@.len() == 0 {
            AfterFailure::AllDead
        } else {
            AfterFailure::TryAnother
        }),
{
    match find(live, attempt) {
        Some(i) => {
            live.swap_remove(i);
            assert(addresses(live@) =~= without(addresses(old(live)@), i as int));
        },
        None => {},
    }
    if live.len() == 0 {
        AfterFailure::AllDead
    } else {
        AfterFailure::TryAnother
    }
}

/// The server that failed, and only that one, is taken from the live ones.
pub proof fn failure_removes_one(servers: Seq<Seq<char>>, index: int)
    requires
        0 <= index < servers.len(),
    ensures
        without(servers, index).to_multiset() == servers.to_multiset().remove(servers[index]),
        without(servers, index).len() == servers.len() - 1,
{
    broadcast use vstd::seq_lib::group_to_multiset_ensures;

    let init = servers.drop_last();
    let last = servers.last();
    assert(init.push(last) =~= servers);
    assert(servers.to_multiset() == init.to_multiset().insert(last));
    if index == servers.len() - 1 {
        assert(without(servers, index) =~= init);
        assert(servers.to_multiset().remove(last) =~= init.to_multiset());
    } else {
        let after = init.update(index, last);
        assert(without(servers, index) =~= after);
        assert(after.remove(index) =~= init.remove(index));
        assert(after.to_multiset().remove(last) == init.to_multiset().remove(servers[index]));
        assert(after[index] == last);
        assert(after.contains(last));
        assert(init[index] == servers[index]);
        assert(init.contains(servers[index]));
        assert(after.to_multiset() =~= after.to_multiset().remove(last).insert(last));
        assert(after.to_multiset() =~= servers.to_multiset().remove(servers[index]));
    }
}

/// Of the live servers the one that could not be reached is taken, and only that one, also where the
/// others have changed since it was chosen; if it is not live any more, nothing changes.
pub proof fn unreachable_server_is_removed(
    servers: Seq<Seq<char>>,
    index: int,
    address: Seq<char>,
)
    ensures
        0 <= index < servers.len() && servers[index] == address ==> after_failure(
            servers,
            index,
            address,
        ) == without(servers, index),
        servers.contains(address) ==> after_failure(servers, index, address).to_multiset()
            == servers.to_multiset().remove(address),
        !servers.contains(address) ==> after_failure(servers, index, address) == servers,
{
    servers.index_of_first_ensures(address);
    if servers.contains(address) {
        failure_removes_one(servers, place(servers, index, address)->0);
    }
}

/// Whether each of the failures concerns a server that is live at the time.
pub open spec fn are_failures(servers: Seq<Seq<char>>, indices: Seq<int>) -> bool
    decreases indices.len(),
{
    indices.len() > 0 ==> 0 <= indices[0] < servers.len() && are_failures(
        without(servers, indices[0]),
        indices.skip(1),
    )
}

/// The servers that are live after some failures.
pub open spec fn survivors(servers: Seq<Seq<char>>, indices: Seq<int>) -> Seq<Seq<char>>
    decreases indices.len(),
{
    if indices.len() == 0 {
        servers
    } else {
        survivors(without(servers, indices[0]), indices.skip(1))
    }
}

/// The servers that failed.
pub open spec fn casualties(servers: Seq<Seq<char>>, indices: Seq<int>) -> Seq<Seq<char>>
    decreases indices.len(),
{
    if indices.len() == 0 {
        Seq::empty()
    } else {
        casualties(without(servers, indices[0]), indices.skip(1)).push(servers[indices[0]])
    }
}

/// However the servers are chosen, each of them is tried at most once, those that have not failed
/// stay live, and all are dead only when every one has failed.
pub proof fn failover_tries_every_server(servers: Seq<Seq<char>>, indices: Seq<int>)
    requires
        are_failures(servers, indices),
    ensures
        survivors(servers, indices).to_multiset().add(casualties(servers, indices).to_multiset())
            == servers.to_multiset(),
        survivors(servers, indices).len() == servers.len() - indices.len(),
        survivors(servers, indices).len() == 0 <==> indices.len() == servers.len(),
    decreases indices.len(),
{
    broadcast use vstd::seq_lib::group_to_multiset_ensures;

    if indices.len() == 0 {
        assert(casualties(servers, indices).to_multiset() =~= Multiset::<Seq<char>>::empty());
        assert(survivors(servers, indices).to_multiset().add(
            casualties(servers, indices).to_multiset(),
        ) =~= servers.to_multiset());
    } else {
        let first = servers[indices[0]];
        let rest = without(servers, indices[0]);
        failure_removes_one(servers, indices[0]);
        failover_tries_every_server(rest, indices.skip(1));
        assert(servers.contains(first));
        assert(survivors(servers, indices).to_multiset().add(
            casualties(servers, indices).to_multiset(),
        ) =~= rest.to_multiset().insert(first));
        assert(rest.to_multiset().insert(first) =~= servers.to_multiset());
    }
}

/// The last server takes the place of the one that failed; all others stay where they were.
pub proof fn other_servers_keep_their_places(servers: Seq<Seq<char>>, index: int, other: int)
    requires
        0 <= index < servers.len(),
        0 <= other < servers.len() - 1,
    ensures
        without(servers, index)[other] == if other == index {
            servers[servers.len() - 1]
        } else {
            servers[other]
        },
        addresses(Seq::empty()).len() == 0,
{
}

/// The address of a server is its text.
pub proof fn addresses_are_texts(servers: Seq<String>, i: int)
    requires
        0 <= i < servers.len(),
    ensures
        addresses(servers).len() == servers.len(),
        addresses(servers)[i] == servers[i]@,
{
}

} // verus!
