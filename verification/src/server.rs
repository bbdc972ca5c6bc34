use vstd::prelude::*;

pub mod http_requests;

use http_requests::LobbyAction;

verus! {

/// The largest of the lobby IDs, 0 when there is none.
pub open spec fn max_lobby_id(ids: Seq<u32>) -> nat
    decreases ids.len(),
{
    if ids.len() == 0 {
        0
    } else {
        let m = max_lobby_id(ids.drop_last());
        if ids.last() > m {
            ids.last() as nat
        } else {
            m
        }
    }
}

/// The ID for a new lobby: one more than the largest of the IDs in use (1 when none is).
pub fn new_lobby_id(lobby_ids: &Vec<u32>) -> (id: u32)
    requires
        forall|i: int| 0 <= i < lobby_ids@.len() ==> lobby_ids@[i] < u32::MAX,
    ensures
        id == max_lobby_id(lobby_ids@) + 1,
        forall|i: int| 0 <= i < lobby_ids@.len() ==> lobby_ids@[i] < id,
{
    let mut largest: u32 = 0;
    let mut i: usize = 0;
    assert(lobby_ids@.subrange(0, 0) =~= Seq::<u32>::empty());
    while i < lobby_ids.len()
        invariant
            i <= lobby_ids@.len(),
            forall|j: int| 0 <= j < lobby_ids@.len() ==> lobby_ids@[j] < u32::MAX,
            largest == max_lobby_id(lobby_ids@.subrange(0, i as int)),
            largest < u32::MAX,
            forall|j: int| 0 <= j < i ==> lobby_ids@[j] <= largest,
        decreases lobby_ids@.len() - i,
    {
        assert(lobby_ids@.subrange(0, i + 1).drop_last() =~= lobby_ids@.subrange(0, i as int));
        if lobby_ids[i] > largest {
            largest = lobby_ids[i];
        }
        i = i + 1;
    }
    assert(lobby_ids@.subrange(0, lobby_ids@.len() as int) =~= lobby_ids@);
    largest + 1
}

/// What `uuid::Uuid::parse_str` makes of a text, as a number: `None` when it is not a UUID.
pub uninterp spec fn uuid_parsed(text: Seq<char>) -> Option<u128>;

/// `uuid::Uuid::parse_str(text)`, the UUID as a number. The crate accepts the simple,
/// hyphenated, braced and URN forms; which texts it accepts is left to that name.
#[verifier::external_body]
fn parse_uuid(text: &str) -> (r: Option<u128>)
    ensures
        r == uuid_parsed(text@),
{
    match uuid::Uuid::parse_str(text) {
        Ok(id) => Some(id.as_u128()),
        Err(_) => None,
    }
}

impl LobbyAction {
    /// The ID of the user who asks, when their ID parses as a UUID.
    pub fn user(&self) -> (r: Option<u128>)
        ensures
            r == uuid_parsed(self.user_id@),
    {
        parse_uuid(self.user_id.as_str())
    }
}

} // verus!
