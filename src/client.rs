use vstd::prelude::*;
use vstd::string::StringExecFns;

use crate::codec::{Message, Response};
use crate::engine::KvStoreError;

verus! {

/// The text of the error that answers a response of the wrong kind.
pub open spec fn unexpected_response() -> Seq<char> {
    seq!['U', 'n', 'e', 'x', 'p', 'e', 'c', 't', 'e', 'd', ' ', 'r', 'e', 's', 'p', 'o', 'n', 's', 'e']
}

fn unexpected() -> (r: KvStoreError)
    ensures
        r matches KvStoreError::StringError(s) && s@ == unexpected_response(),
{
    proof {
        reveal_strlit("Unexpected response");
    }
    KvStoreError::StringError(String::from_str("Unexpected response"))
}

/// The request that reads `key`.
pub fn get_request(key: String) -> (r: Message)
    ensures
        r matches Message::Get { key: k } && k@ == key@,
{
    Message::Get { key }
}

/// The request that sets `key` to `value`.
pub fn set_request(key: String, value: String) -> (r: Message)
    ensures
        r matches Message::Put { key: k, value: v } && k@ == key@ && v@ == value@,
{
    Message::Put { key, value }
}

/// The request that removes `key`.
pub fn remove_request(key: String) -> (r: Message)
    ensures
        r matches Message::Remove { key: k } && k@ == key@,
{
    Message::Remove { key }
}

/// The outcome of a `Get` request, from the server's response: its result,
/// with an error string carried as `StringError`; any other kind of response
/// is an error.
pub fn get_reply(response: Response) -> (r: Result<Option<String>, KvStoreError>)
    ensures
        match response {
            Response::Get(Ok(v)) => r matches Ok(w) && w == v,
            Response::Get(Err(e)) => r matches Err(KvStoreError::StringError(s)) && s == e,
            _ => r matches Err(KvStoreError::StringError(s)) && s@ == unexpected_response(),
        },
{
    match response {
        Response::Get(Ok(v)) => Ok(v),
        Response::Get(Err(e)) => Err(KvStoreError::StringError(e)),
        _ => Err(unexpected()),
    }
}

/// The outcome of a `Set` request, from the server's response.
pub fn set_reply(response: Response) -> (r: Result<(), KvStoreError>)
    ensures
        match response {
            Response::Put(Ok(())) => r is Ok,
            Response::Put(Err(e)) => r matches Err(KvStoreError::StringError(s)) && s == e,
            _ => r matches Err(KvStoreError::StringError(s)) && s@ == unexpected_response(),
        },
{
    match response {
        Response::Put(Ok(())) => Ok(()),
        Response::Put(Err(e)) => Err(KvStoreError::StringError(e)),
        _ => Err(unexpected()),
    }
}

/// The outcome of a `Remove` request, from the server's response.
pub fn remove_reply(response: Response) -> (r: Result<(), KvStoreError>)
    ensures
        match response {
            Response::Remove(Ok(())) => r is Ok,
            Response::Remove(Err(e)) => r matches Err(KvStoreError::StringError(s)) && s == e,
            _ => r matches Err(KvStoreError::StringError(s)) && s@ == unexpected_response(),
        },
{
    match response {
        Response::Remove(Ok(())) => Ok(()),
        Response::Remove(Err(e)) => Err(KvStoreError::StringError(e)),
        _ => Err(unexpected()),
    }
}

} // verus!
