//! The error model: every failure the router reports is one of four
//! canonical kinds, carries a message and a details string, and serializes to
//! the JSON body `{"code":<status>,"message":"…","details":"…"}` — totally,
//! for every message and details text.

use vstd::prelude::*;
use vstd::string::StrSliceExecFns;
use vstd::utf8::encode_utf8;

use crate::json::esc;

verus! {

/// The status codes the error model produces.
#[derive(Clone, Copy, PartialEq, Eq, Structural, Debug)]
pub enum StatusCode {
    NotFound,
    BadRequest,
    MethodNotAllowed,
    InternalServerError,
}

impl StatusCode {
    /// The numeric HTTP status.
    pub open spec fn spec_as_u16(self) -> u16 {
        match self {
            StatusCode::NotFound => 404,
            StatusCode::BadRequest => 400,
            StatusCode::MethodNotAllowed => 405,
            StatusCode::InternalServerError => 500,
        }
    }

    /// The decimal digits of the numeric status, as ASCII bytes.
    pub open spec fn spec_digits(self) -> Seq<u8> {
        match self {
            StatusCode::NotFound => seq![52u8, 48u8, 52u8],
            StatusCode::BadRequest => seq![52u8, 48u8, 48u8],
            StatusCode::MethodNotAllowed => seq![52u8, 48u8, 53u8],
            StatusCode::InternalServerError => seq![53u8, 48u8, 48u8],
        }
    }

    /// The numeric HTTP status.
    pub fn as_u16(&self) -> (r: u16)
        ensures
            r == self.spec_as_u16(),
    {
        match self {
            StatusCode::NotFound => 404,
            StatusCode::BadRequest => 400,
            StatusCode::MethodNotAllowed => 405,
            StatusCode::InternalServerError => 500,
        }
    }

    /// The decimal digits of the numeric status.
    pub fn digits(&self) -> (r: Vec<u8>)
        ensures
            r@ == self.spec_digits(),
    {
        let mut out: Vec<u8> = Vec::new();
        match self {
            StatusCode::NotFound => {
                out.push(52);
                out.push(48);
                out.push(52);
            },
            StatusCode::BadRequest => {
                out.push(52);
                out.push(48);
                out.push(48);
            },
            StatusCode::MethodNotAllowed => {
                out.push(52);
                out.push(48);
                out.push(53);
            },
            StatusCode::InternalServerError => {
                out.push(53);
                out.push(48);
                out.push(48);
            },
        }
        proof {
            assert(out@ =~= self.spec_digits());
        }
        out
    }
}

/// The JSON body an error serializes to: status code as a number, message
/// and details as escaped string literals, in that order, with no spacing.
pub open spec fn json_error_body(code: StatusCode, msg: Seq<char>, det: Seq<char>) -> Seq<u8> {
    encode_utf8("{\"code\":"@) + code.spec_digits() + encode_utf8(",\"message\":\""@) + esc(
        encode_utf8(msg),
    ) + encode_utf8("\",\"details\":\""@) + esc(encode_utf8(det)) + encode_utf8("\"}"@)
}

/// A structured failure: canonical status kind, human message, details.
#[derive(Debug)]
pub struct Error {
    /// Error code
    pub code: StatusCode,
    /// Error message
    pub message: String,
    /// Error details
    pub details: String,
}

impl Error {
    /// Internal Server Error
    pub fn internal(message: &str, details: &str) -> (e: Error)
        ensures
            e.code == StatusCode::InternalServerError,
            e.message@ == message@,
            e.details@ == details@,
    {
        Error {
            code: StatusCode::InternalServerError,
            message: message.to_owned(),
            details: details.to_owned(),
        }
    }

    /// Generate 404 not found error.
    pub fn not_found(details: &str) -> (e: Error)
        ensures
            e.code == StatusCode::NotFound,
            e.message@ == "Requested resource was not found."@,
            e.details@ == details@,
    {
        Error {
            code: StatusCode::NotFound,
            message: "Requested resource was not found.".to_owned(),
            details: details.to_owned(),
        }
    }

    /// Generate 400 bad request error.
    pub fn bad_request(message: &str, details: &str) -> (e: Error)
        ensures
            e.code == StatusCode::BadRequest,
            e.message@ == message@,
            e.details@ == details@,
    {
        Error {
            code: StatusCode::BadRequest,
            message: message.to_owned(),
            details: details.to_owned(),
        }
    }

    /// Generate 405 method not allowed error.
    pub fn method_not_allowed(message: &str, details: &str) -> (e: Error)
        ensures
            e.code == StatusCode::MethodNotAllowed,
            e.message@ == message@,
            e.details@ == details@,
    {
        Error {
            code: StatusCode::MethodNotAllowed,
            message: message.to_owned(),
            details: details.to_owned(),
        }
    }

    /// The error's JSON wire body. Total: it succeeds for every message and
    /// details text.
    pub fn to_json_body(&self) -> (r: Vec<u8>)
        ensures
            r@ == json_error_body(self.code, self.message@, self.details@),
    {
        let mut out: Vec<u8> = Vec::new();
        crate::json::push_all(&mut out, "{\"code\":".as_bytes_vec());
        crate::json::push_all(&mut out, self.code.digits());
        crate::json::push_all(&mut out, ",\"message\":\"".as_bytes_vec());
        crate::json::push_escaped(&mut out, &self.message.as_str().as_bytes_vec());
        crate::json::push_all(&mut out, "\",\"details\":\"".as_bytes_vec());
        crate::json::push_escaped(&mut out, &self.details.as_str().as_bytes_vec());
        crate::json::push_all(&mut out, "\"}".as_bytes_vec());
        out
    }

    /// A structural copy.
    pub fn dup(&self) -> (e: Error)
        ensures
            e.code == self.code,
            e.message@ == self.message@,
            e.details@ == self.details@,
    {
        Error {
            code: self.code,
            message: self.message.clone(),
            details: self.details.clone(),
        }
    }
}

} // verus!
