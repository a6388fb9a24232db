//! The request-dispatch pipeline around the router: captured parameters with
//! typed access, the decision between calling a matched handler and answering
//! a miss, and the conversion of every handler outcome into a wire response
//! carrying the router's extra headers.

use vstd::prelude::*;
use vstd::string::StrSliceExecFns;

use crate::error::Error;
use crate::error::StatusCode;
use crate::error::json_error_body;
use crate::method::Method;
use crate::pattern::GVal;
use crate::response::Response;
use crate::response::headers_view;
use crate::response::json_content_type;
use crate::router::Config;
use crate::router::Router;
use crate::text::is_uint_str;
use crate::text::uint_of;
use crate::tree::GRes;
use crate::tree::PVal;
use crate::tree::Resolution;
use crate::tree::params_view;

verus! {

/// The first captured value under a name.
pub open spec fn spec_param(ps: Seq<(Seq<char>, GVal)>, name: Seq<char>) -> Option<GVal>
    decreases ps.len(),
{
    if ps.len() == 0 {
        None
    } else if ps[0].0 == name {
        Some(ps[0].1)
    } else {
        spec_param(ps.drop_first(), name)
    }
}

/// The path parameters captured for one request, with typed access by name.
pub struct Params {
    pub items: Vec<(String, PVal)>,
}

impl Params {
    /// The captured (name, value) pairs, in pattern order.
    pub open spec fn view(&self) -> Seq<(Seq<char>, GVal)> {
        params_view(self.items@)
    }

    /// An empty parameter set.
    pub fn new() -> (r: Params)
        ensures
            r@ =~= Seq::<(Seq<char>, GVal)>::empty(),
    {
        Params { items: Vec::new() }
    }

    /// How many parameters were captured.
    pub fn len(&self) -> (r: usize)
        ensures
            r == self@.len(),
    {
        self.items.len()
    }

    /// The parameter named `name` as an unsigned integer: directly if it was
    /// captured as one, by conversion if it was captured as text that reads
    /// as one; a missing name or text that does not convert is a bad-request
    /// error naming the parameter.
    pub fn get_usize(&self, name: &str) -> (r: Result<usize, Error>)
        ensures
            match r {
                Ok(u) => match spec_param(self@, name@) {
                    Some(GVal::U(v)) => u == v,
                    Some(GVal::S(t)) => is_uint_str(t) && u == uint_of(t) as usize,
                    None => false,
                },
                Err(e) => e.code == StatusCode::BadRequest && e.details@ == name@ && match spec_param(
                    self@,
                    name@,
                ) {
                    Some(GVal::U(_)) => false,
                    Some(GVal::S(t)) => !is_uint_str(t) && e.message@
                        == "Invalid path parameter."@,
                    None => e.message@ == "Unknown path parameter."@,
                },
            },
    {
        let key = name.to_owned();
        let mut j: usize = 0;
        proof {
            assert(self@.skip(0) =~= self@);
        }
        while j < self.items.len()
            invariant
                j <= self.items@.len(),
                self@.len() == self.items@.len(),
                key@ == name@,
                spec_param(self@, name@) == spec_param(self@.skip(j as int), name@),
            decreases self.items@.len() - j,
        {
            proof {
                assert(self@.skip(j as int)[0] == self@[j as int]);
                assert(self@.skip(j as int).drop_first() =~= self@.skip(j as int + 1));
            }
            if self.items[j].0 == key {
                match &self.items[j].1 {
                    PVal::Uint(u) => {
                        return Ok(*u);
                    },
                    PVal::Str(t) => {
                        match crate::text::parse_usize(t.as_str()) {
                            Some(u) => {
                                return Ok(u);
                            },
                            None => {
                                return Err(
                                    Error::bad_request("Invalid path parameter.", name),
                                );
                            },
                        }
                    },
                }
            }
            j = j + 1;
        }
        proof {
            assert(self@.skip(self@.len() as int) =~= Seq::<(Seq<char>, GVal)>::empty());
        }
        Err(Error::bad_request("Unknown path parameter.", name))
    }

    /// The parameter named `name` as text: the raw segment for a string
    /// parameter; a missing name or a parameter of another type is a
    /// bad-request error naming the parameter.
    pub fn get_str(&self, name: &str) -> (r: Result<String, Error>)
        ensures
            match r {
                Ok(s) => spec_param(self@, name@) == Some(GVal::S(s@)),
                Err(e) => e.code == StatusCode::BadRequest && e.details@ == name@ && match spec_param(
                    self@,
                    name@,
                ) {
                    Some(GVal::S(_)) => false,
                    Some(GVal::U(_)) => e.message@ == "Invalid path parameter."@,
                    None => e.message@ == "Unknown path parameter."@,
                },
            },
    {
        let key = name.to_owned();
        let mut j: usize = 0;
        proof {
            assert(self@.skip(0) =~= self@);
        }
        while j < self.items.len()
            invariant
                j <= self.items@.len(),
                self@.len() == self.items@.len(),
                key@ == name@,
                spec_param(self@, name@) == spec_param(self@.skip(j as int), name@),
            decreases self.items@.len() - j,
        {
            proof {
                assert(self@.skip(j as int)[0] == self@[j as int]);
                assert(self@.skip(j as int).drop_first() =~= self@.skip(j as int + 1));
            }
            if self.items[j].0 == key {
                match &self.items[j].1 {
                    PVal::Str(t) => {
                        return Ok(t.clone());
                    },
                    PVal::Uint(_) => {
                        return Err(
                            Error::bad_request("Invalid path parameter.", name),
                        );
                    },
                }
            }
            j = j + 1;
        }
        proof {
            assert(self@.skip(self@.len() as int) =~= Seq::<(Seq<char>, GVal)>::empty());
        }
        Err(Error::bad_request("Unknown path parameter.", name))
    }
}

/// What the dispatcher decides for one incoming request.
pub enum Dispatch<H> {
    /// A route matched: call this handler with these captured parameters.
    Call(H, Params),
    /// No handler runs: answer with this response at once.
    Respond(Response),
}

/// Decide a request: resolve (method, path) against the router; a match
/// yields the handler and its parameters, a miss yields the finished 404 or
/// 405 JSON response, already carrying the router's extra headers.
pub fn dispatch<H: Copy>(router: &Router<H>, m: Method, path: &str) -> (r: Dispatch<H>)
    ensures
        match r {
            Dispatch::Call(h, ps) => router.spec_route(m, path@) == GRes::Matched(h, ps@),
            Dispatch::Respond(resp) => {
                &&& !(router.spec_route(m, path@) is Matched)
                &&& headers_view(resp.headers@) == json_content_type() + headers_view(
                    router.config.extra_headers@,
                )
                &&& (router.spec_route(m, path@) is MissNotFound ==> resp.status == 404
                    && resp.body@ == json_error_body(
                    StatusCode::NotFound,
                    "Requested resource was not found."@,
                    path@,
                ))
                &&& (router.spec_route(m, path@) is MissMethod ==> resp.status == 405
                    && resp.body@ == json_error_body(
                    StatusCode::MethodNotAllowed,
                    "Method not allowed."@,
                    path@,
                ))
            },
        },
{
    match router.resolve(m, path) {
        Resolution::Matched { handler, params } => {
            Dispatch::Call(handler, Params { items: params })
        },
        Resolution::MissNotFound => {
            let mut resp = Response::from_error(&Error::not_found(path));
            resp.append_headers(&router.config.extra_headers);
            Dispatch::Respond(resp)
        },
        Resolution::MissMethodNotAllowed => {
            let mut resp = Response::from_error(
                &Error::method_not_allowed("Method not allowed.", path),
            );
            resp.append_headers(&router.config.extra_headers);
            Dispatch::Respond(resp)
        },
    }
}

/// Finish a request whose handler produced a value: the serialized value as
/// a 200 response, or — if serialization failed with the given diagnostic —
/// the in-place 500 conversion; either way the configured extra headers are
/// attached.
pub fn respond_value(config: &Config, serialized: Result<Vec<u8>, String>) -> (r: Response)
    ensures
        headers_view(r.headers@) == json_content_type() + headers_view(config.extra_headers@),
        match serialized {
            Ok(body) => r.status == 200 && r.body == body,
            Err(detail) => r.status == 500 && r.body@ == json_error_body(
                StatusCode::InternalServerError,
                "Unable to serialize response."@,
                detail@,
            ),
        },
{
    let mut resp = Response::from_serialized(serialized);
    resp.append_headers(&config.extra_headers);
    resp
}

/// Finish a request whose handler failed: the error's own status code and
/// JSON body, with the configured extra headers attached.
pub fn respond_error(config: &Config, e: &Error) -> (r: Response)
    ensures
        r.status == e.code.spec_as_u16(),
        r.body@ == json_error_body(e.code, e.message@, e.details@),
        headers_view(r.headers@) == json_content_type() + headers_view(config.extra_headers@),
{
    let mut resp = Response::from_error(e);
    resp.append_headers(&config.extra_headers);
    resp
}

/// The bad-request error a failed body decode turns into: code 400, and the
/// diagnostic kept in the details so they are never empty.
pub fn body_decode_error(detail: &str) -> (e: Error)
    ensures
        e.code == StatusCode::BadRequest,
        e.message@ == "Unable to parse body."@,
        detail@.len() > 0 ==> e.details@ == detail@,
        detail@.len() == 0 ==> e.details@ == "malformed body"@,
        e.details@.len() > 0,
{
    if detail.unicode_len() == 0 {
        let e = Error::bad_request("Unable to parse body.", "malformed body");
        proof {
            reveal_strlit("malformed body");
        }
        e
    } else {
        Error::bad_request("Unable to parse body.", detail)
    }
}

} // verus!
