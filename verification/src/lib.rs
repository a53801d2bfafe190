//! A minimal HTTP/1.x server core: request-line parsing, exact-match routing,
//! and response formatting, with machine-checked contracts.
//!
//! The verified pipeline turns the bytes read from one connection into a
//! structured request, resolves it against an immutable route table, and
//! formats responses whose `Content-Length` header is exact. Socket and
//! thread plumbing live outside this crate and hand plain byte buffers in.

pub mod http;
pub mod parse;
pub mod response;
pub mod server;

pub use http::Method;
pub use http::ParseError;
pub use http::ServerError;
pub use parse::Request;
pub use response::format_response;
pub use response::handle_home;
pub use response::handle_not_found;
pub use server::Server;
