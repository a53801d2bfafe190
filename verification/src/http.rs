//! The HTTP vocabulary of the server core: methods and the error taxonomy.

use vstd::prelude::*;

verus! {

/// An HTTP request method. Only `GET` is recognized today; the parser is
/// written so that widening this enumeration is the only change needed to
/// accept further verbs.
#[derive(Clone, Copy, PartialEq, Eq, Structural, Debug, Hash)]
pub enum Method {
    Get,
}

/// Why a byte buffer failed to parse as a request line.
#[derive(Clone, Copy, PartialEq, Eq, Structural, Debug)]
pub enum ParseError {
    /// The buffer is not valid UTF-8.
    Encoding,
    /// The buffer is empty or holds only whitespace and newlines.
    MissingRequestLine,
    /// The request line has no whitespace-delimited token at all.
    MissingMethod,
    /// The method token matches no known method name.
    UnknownMethod,
    /// The request line has no second token to serve as the request-target.
    MissingTarget,
    /// An absolute-URI target ends before its path component begins.
    MissingPath,
    /// The target neither starts with `/` nor looks like an absolute URI.
    UnparseableTarget,
}

/// Everything that can go wrong while serving one connection. Parse errors
/// come from the verified parser; the transport variants are reported by the
/// surrounding I/O layer.
#[derive(Clone, Copy, PartialEq, Eq, Structural, Debug)]
pub enum ServerError {
    ParseError(ParseError),
    ReadFailure,
    WriteFailure,
    AcceptFailure,
}

} // verus!
