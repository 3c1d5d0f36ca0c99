//! The serving layer's logic: one request in, one response out,
//! against any engine.  The surrounding process owns the listener, the
//! sockets and the worker pool; each worker reads one message, calls
//! `handle_request`, and writes the encoded response back.

use vstd::prelude::*;

use crate::engine::KvsEngine;
use crate::net::{Request, Response};

verus! {

/// The server: an engine behind the request handlers.
pub struct KvsServer<E: KvsEngine> {
    pub engine: E,
}

impl<E: KvsEngine> KvsServer<E> {
    /// Wraps an engine for serving.
    pub fn new(engine: E) -> (s: Self)
        ensures
            s.engine == engine,
    {
        KvsServer { engine }
    }
}

/// Answers a `Get`: the value, or an empty success for a missing key;
/// an engine failure becomes a failure message.
pub fn handle_get<E: KvsEngine>(engine: &mut E, key: String) -> (resp: Response)
    requires
        old(engine).inv(),
    ensures
        final(engine).inv(),
        final(engine).model() == old(engine).model(),
        resp matches Response::Success(v) ==> ((v matches Some(s) ==> old(
            engine,
        ).model().dom().contains(key@) && s@ == old(engine).model()[key@]) && (v is None ==> !old(
            engine,
        ).model().dom().contains(key@))),
        old(engine).get_succeeds() ==> resp is Success,
{
    match engine.get(key) {
        Ok(v) => Response::Success(v),
        Err(e) => Response::Failure(e.message()),
    }
}

/// Answers a `Put`: success carries no value; the model gains the
/// pair.  An engine failure leaves the model unchanged.
pub fn handle_set<E: KvsEngine>(engine: &mut E, key: String, value: String) -> (resp: Response)
    requires
        old(engine).inv(),
    ensures
        final(engine).inv(),
        resp matches Response::Success(v) ==> v is None && final(engine).model() == old(
            engine,
        ).model().insert(key@, value@),
        resp is Failure ==> final(engine).model() == old(engine).model(),
        old(engine).set_succeeds(key@, value@) ==> resp is Success,
{
    match engine.set(key, value) {
        Ok(()) => Response::Success(None),
        Err(e) => Response::Failure(e.message()),
    }
}

/// Answers a `Remove`: success carries no value and means the key was
/// present and is gone.  An engine failure leaves the model unchanged.
pub fn handle_remove<E: KvsEngine>(engine: &mut E, key: String) -> (resp: Response)
    requires
        old(engine).inv(),
    ensures
        final(engine).inv(),
        resp matches Response::Success(v) ==> v is None && old(engine).model().dom().contains(key@)
            && final(engine).model() == old(engine).model().remove(key@),
        resp is Failure ==> final(engine).model() == old(engine).model(),
        old(engine).remove_succeeds(key@) && old(engine).model().dom().contains(key@) ==> resp
            is Success,
        old(engine).remove_succeeds(key@) && !old(engine).model().dom().contains(key@) ==> (resp
            matches Response::Failure(m) && m@ == "Key not found"@),
{
    match engine.remove(key) {
        Ok(()) => Response::Success(None),
        Err(e) => Response::Failure(e.message()),
    }
}

/// Dispatches one decoded request to the engine and builds its
/// response.
pub fn handle_request<E: KvsEngine>(engine: &mut E, request: Request) -> (resp: Response)
    requires
        old(engine).inv(),
    ensures
        final(engine).inv(),
        request matches Request::Get { key } ==> final(engine).model() == old(engine).model() && (
        resp matches Response::Success(v) ==> ((v matches Some(s) ==> old(
            engine,
        ).model().dom().contains(key@) && s@ == old(engine).model()[key@]) && (v is None ==> !old(
            engine,
        ).model().dom().contains(key@)))) && (old(engine).get_succeeds() ==> resp is Success),
        request matches Request::Put { key, value } ==> ((resp matches Response::Success(v) ==> v
            is None && final(engine).model() == old(engine).model().insert(key@, value@)) && (resp
            is Failure ==> final(engine).model() == old(engine).model()) && (old(
            engine,
        ).set_succeeds(key@, value@) ==> resp is Success)),
        request matches Request::Remove { key } ==> ((resp matches Response::Success(v) ==> v
            is None && old(engine).model().dom().contains(key@) && final(engine).model() == old(
            engine,
        ).model().remove(key@)) && (resp is Failure ==> final(engine).model() == old(
            engine,
        ).model()) && (old(engine).remove_succeeds(key@) && old(engine).model().dom().contains(
            key@,
        ) ==> resp is Success) && (old(engine).remove_succeeds(key@) && !old(
            engine,
        ).model().dom().contains(key@) ==> (resp matches Response::Failure(m) && m@
            == "Key not found"@))),
{
    match request {
        Request::Get { key } => handle_get(engine, key),
        Request::Put { key, value } => handle_set(engine, key, value),
        Request::Remove { key } => handle_remove(engine, key),
    }
}

} // verus!
