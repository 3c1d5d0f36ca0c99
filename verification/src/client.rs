//! The client's logic: how one decoded response is read as the result
//! of the call that sent the request.  The surrounding process owns
//! the connection: it encodes the request, writes it, reads one
//! response message, decodes it, and hands the value here.

use vstd::prelude::*;

use crate::error::KvsError;
use crate::net::Response;

verus! {

/// Reads a response to a `Get`: a success's optional value is the
/// answer; a failure's message is relayed as a remote error.
pub fn process_get_response(resp: Response) -> (r: Result<Option<String>, KvsError>)
    ensures
        resp matches Response::Success(v) ==> r matches Ok(v2) && v2 == v,
        resp matches Response::Failure(m) ==> (r matches Err(e) && (e
            matches KvsError::StringError(m2) && m2@ == m@)),
{
    match resp {
        Response::Success(v) => Ok(v),
        Response::Failure(m) => Err(KvsError::StringError(m)),
    }
}

/// Reads a response to a mutation (`Put` or `Remove`): an empty
/// success is success; a success that carries a value is a protocol
/// mismatch; a failure's message is relayed as a remote error.
pub fn process_mutation_response(resp: Response) -> (r: Result<(), KvsError>)
    ensures
        resp matches Response::Success(v) ==> ((v is None ==> r is Ok) && (v is Some ==> (r
            matches Err(e) && e is UnexpectedCommandType))),
        resp matches Response::Failure(m) ==> (r matches Err(e) && (e
            matches KvsError::StringError(m2) && m2@ == m@)),
{
    match resp {
        Response::Success(v) => match v {
            None => Ok(()),
            Some(_) => Err(KvsError::UnexpectedCommandType),
        },
        Response::Failure(m) => Err(KvsError::StringError(m)),
    }
}

} // verus!
