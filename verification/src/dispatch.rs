//! Connection loop dispatcher: the decision taken for one decode
//! outcome.
//!
//! A decode failure is answered with `400` and an empty body and the
//! connection stays open; the sentinel request with the empty method
//! closes the connection; any method other than exactly `GET` is
//! answered with `501` and the body `Not Implemented`; a `GET` asks
//! for the path to be resolved against the filesystem. The caller
//! performs the answer and loops back to await the next request on
//! the same connection.

use vstd::prelude::*;
use vstd::string::StrSliceExecFns;
use vstd::string::StringExecFns;
use vstd::utf8::encode_utf8;

use crate::request::ParseError;
use crate::request::Request;

verus! {

/// What the connection loop is to do next.
pub enum Step {
    /// End the loop; the connection closes.
    Close,
    /// Send this status and body, then await the next request.
    Reply { code: u16, body: Vec<u8> },
    /// Resolve the request path against the filesystem, send the
    /// outcome, then await the next request.
    Fetch,
}

/// Decides the step for one decode outcome.
pub fn dispatch(decoded: &Result<Request, ParseError>) -> (s: Step)
    ensures
        (decoded is Err ==> (s matches Step::Reply { code, body } && code == 400 && body@
            == Seq::<u8>::empty())),
        (decoded matches Ok(req) ==> {
            &&& req.method@.len() == 0 ==> s is Close
            &&& req.method@ == "GET"@ ==> s is Fetch
            &&& req.method@.len() > 0 && req.method@ != "GET"@ ==> (s matches Step::Reply {
                code,
                body,
            } && code == 501 && body@ == encode_utf8("Not Implemented"@))
        }),
{
    match decoded {
        Err(_) => Step::Reply { code: 400, body: Vec::new() },
        Ok(req) => {
            if req.method.as_str().is_empty() {
                proof {
                    reveal_strlit("GET");
                    assert(req.method@ != "GET"@);
                }
                Step::Close
            } else if req.method == String::from_str("GET") {
                Step::Fetch
            } else {
                let body = String::from_str("Not Implemented").as_str().as_bytes_vec();
                Step::Reply { code: 501, body }
            }
        },
    }
}

} // verus!
