//! What goes back to the transport: a status code, a header set and body
//! bytes. Success values arrive already serialized; a failed serialization is
//! downgraded in place to an internal-error response, never propagated as a
//! transport fault.

use vstd::prelude::*;
use vstd::string::StringExecFns;

use crate::error::Error;
use crate::error::StatusCode;
use crate::error::json_error_body;

verus! {

/// The header pairs, as text.
pub open spec fn headers_view(hs: Seq<(String, String)>) -> Seq<(Seq<char>, Seq<char>)> {
    hs.map_values(|p: (String, String)| (p.0@, p.1@))
}

/// The one header every response of this router carries.
pub open spec fn json_content_type() -> Seq<(Seq<char>, Seq<char>)> {
    seq![("Content-Type"@, "application/json"@)]
}

/// A wire response.
#[derive(Debug)]
pub struct Response {
    pub status: u16,
    pub headers: Vec<(String, String)>,
    pub body: Vec<u8>,
}

fn content_type_headers() -> (r: Vec<(String, String)>)
    ensures
        headers_view(r@) =~= json_content_type(),
{
    let mut hs: Vec<(String, String)> = Vec::new();
    hs.push((String::from_str("Content-Type"), String::from_str("application/json")));
    proof {
        assert(headers_view(hs@) =~= json_content_type());
    }
    hs
}

impl Response {
    /// A JSON success response: status 200 with the given body.
    pub fn ok_json(body: Vec<u8>) -> (r: Response)
        ensures
            r.status == 200,
            headers_view(r.headers@) == json_content_type(),
            r.body == body,
    {
        Response { status: 200, headers: content_type_headers(), body }
    }

    /// The wire form of an error: its own status code, and the error's JSON
    /// body.
    pub fn from_error(e: &Error) -> (r: Response)
        ensures
            r.status == e.code.spec_as_u16(),
            headers_view(r.headers@) == json_content_type(),
            r.body@ == json_error_body(e.code, e.message@, e.details@),
    {
        Response {
            status: e.code.as_u16(),
            headers: content_type_headers(),
            body: e.to_json_body(),
        }
    }

    /// Turn a serialization outcome into a response: the serialized value
    /// with status 200, or — when serialization failed with the given
    /// diagnostic — a 500 response whose JSON body reports it.
    pub fn from_serialized(outcome: Result<Vec<u8>, String>) -> (r: Response)
        ensures
            headers_view(r.headers@) == json_content_type(),
            match outcome {
                Ok(body) => r.status == 200 && r.body == body,
                Err(detail) => r.status == 500 && r.body@ == json_error_body(
                    StatusCode::InternalServerError,
                    "Unable to serialize response."@,
                    detail@,
                ),
            },
    {
        match outcome {
            Ok(body) => Self::ok_json(body),
            Err(detail) => Self::from_error(
                &Error::internal("Unable to serialize response.", detail.as_str()),
            ),
        }
    }

    /// Append the router's configured extra headers, keeping status, body and
    /// the headers already present.
    pub fn append_headers(&mut self, extra: &Vec<(String, String)>)
        ensures
            final(self).status == old(self).status,
            final(self).body == old(self).body,
            headers_view(final(self).headers@) == headers_view(old(self).headers@) + headers_view(
                extra@,
            ),
    {
        let mut i: usize = 0;
        proof {
            assert(headers_view(old(self).headers@) + headers_view(extra@.take(0)) =~= headers_view(
                old(self).headers@,
            ));
        }
        while i < extra.len()
            invariant
                i <= extra@.len(),
                self.status == old(self).status,
                self.body == old(self).body,
                headers_view(self.headers@) =~= headers_view(old(self).headers@) + headers_view(
                    extra@.take(i as int),
                ),
            decreases extra@.len() - i,
        {
            let name = extra[i].0.clone();
            let value = extra[i].1.clone();
            self.headers.push((name, value));
            proof {
                assert(headers_view(old(self).headers@) + headers_view(
                    extra@.take(i + 1 as int),
                ) =~= (headers_view(old(self).headers@) + headers_view(extra@.take(i as int))).push(
                    (extra@[i as int].0@, extra@[i as int].1@),
                ));
                assert(headers_view(self.headers@) =~= headers_view(self.headers@.drop_last()).push(
                    (extra@[i as int].0@, extra@[i as int].1@),
                ));
            }
            i = i + 1;
        }
        proof {
            assert(extra@.take(extra@.len() as int) =~= extra@);
        }
    }
}

} // verus!
