//! What a connection reports to those who read from it.
use vstd::prelude::*;

verus! {

#[verifier::external_type_specification]
#[verifier::external_body]
pub struct ExIoError(std::io::Error);

/// How an attempt to read from a connection ended.
#[derive(Debug)]
pub enum StreamEvent {
    /// So many bytes came in. None came in: the peer has hung up, or there was no room for any.
    Received(Vec<u8>),
    /// The connection failed.
    Failed(std::io::Error),
}

/// The largest number of bytes that the first line and the headers of a message may take.
pub const MAX_HEADERS_SIZE: usize = 8000;

/// The largest number of bytes that the body of a message may take.
pub const MAX_BODY_SIZE: usize = 10000000;

/// The largest number of headers that a message may have.
pub const MAX_NUM_HEADERS: usize = 32;

/// How many bytes of a body are read at once.
pub const BODY_CHUNK_SIZE: usize = 512;

impl StreamEvent {
    /// Whether the event can come of an attempt to read so many bytes.
    pub open spec fn fits(self, limit: int) -> bool {
        self matches StreamEvent::Received(bytes) ==> bytes@.len() <= limit
    }
}

/// How many bytes come in at once, when so many may be read and so many are left: as many as possible,
/// unless the portion whose turn it is says fewer.
pub open spec fn portion_len(limit: int, rest: int, portions: Seq<usize>, i: int) -> int {
    let most = if limit < rest {
        limit
    } else {
        rest
    };
    if i < portions.len() && 0 < portions[i] < most {
        portions[i] as int
    } else {
        most
    }
}

/// Decides how many bytes come in at once.
pub(crate) fn next_portion(limit: usize, rest: usize, portions: &[usize], i: usize) -> (len: usize)
    ensures
        len == portion_len(limit as int, rest as int, portions@, i as int),
{
    let most: usize = if limit < rest {
        limit
    } else {
        rest
    };
    if i < portions.len() && 0 < portions[i] && portions[i] < most {
        portions[i]
    } else {
        most
    }
}

/// Appends bytes to a vector.
pub(crate) fn push_bytes(bytes: &mut Vec<u8>, more: &[u8])
    ensures
        final(bytes)@ == old(bytes)@ + more@,
{
    bytes.extend_from_slice(more);
    assert(bytes@ =~= old(bytes)@ + more@);
}

/// What comes in at once is no more than may be read and no more than is left; something comes in
/// unless there is nothing left or nothing may be read. A portion that is possible comes in as it is,
/// and where none is given as much as possible does.
pub proof fn portions_are_possible(limit: nat, rest: nat, portions: Seq<usize>, i: int)
    requires
        0 <= i,
    ensures
        0 <= portion_len(limit as int, rest as int, portions, i) <= limit,
        portion_len(limit as int, rest as int, portions, i) <= rest,
        portion_len(limit as int, rest as int, portions, i) == 0 <==> limit == 0 || rest == 0,
        i < portions.len() && 0 < portions[i] <= limit && portions[i] <= rest ==> portion_len(
            limit as int,
            rest as int,
            portions,
            i,
        ) == portions[i],
        i >= portions.len() && rest <= limit ==> portion_len(
            limit as int,
            rest as int,
            portions,
            i,
        ) == rest,
        i >= portions.len() && limit <= rest ==> portion_len(
            limit as int,
            rest as int,
            portions,
            i,
        ) == limit,
{
}

} // verus!
