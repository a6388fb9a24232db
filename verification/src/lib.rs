//! An embeddable JSON REST request router: URL patterns with typed dynamic
//! segments are registered in a prefix tree, incoming (method, path) pairs are
//! resolved to the most specific handler with their parameters captured, and
//! every success or failure is turned into a well-formed JSON wire response.

pub mod dispatch;
pub mod error;
pub mod json;
pub mod method;
pub mod pattern;
pub mod response;
pub mod router;
pub mod text;
pub mod tree;

pub use error::Error;
pub use error::StatusCode;
pub use method::Method;
pub use response::Response;
pub use router::Config;
pub use router::Router;
