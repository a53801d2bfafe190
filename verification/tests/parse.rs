use minihttp::Method;
use minihttp::ParseError;
use minihttp::Request;
use minihttp::ServerError;

fn parse_err(buffer: &[u8]) -> ParseError {
    match Request::parse(buffer) {
        Err(ServerError::ParseError(pe)) => pe,
        other => panic!("expected a parse error, got {:?}", other),
    }
}

#[test]
fn simple_get_request_line() {
    let req = Request::parse(b"GET /a/b HTTP/1.1\r\n").unwrap();
    assert_eq!(req.method(), Method::Get);
    assert_eq!(req.url(), "/a/b");
    assert_eq!(req.path(), "/a/b");
}

#[test]
fn request_line_without_version() {
    let req = Request::parse(b"GET /").unwrap();
    assert_eq!(req.method(), Method::Get);
    assert_eq!(req.url(), "/");
    assert_eq!(req.path(), "/");
}

#[test]
fn query_component_is_discarded() {
    let req = Request::parse(b"GET /a/b?x=1&y=2 HTTP/1.1\n").unwrap();
    assert_eq!(req.url(), "/a/b?x=1&y=2");
    assert_eq!(req.path(), "/a/b");
}

#[test]
fn query_only_target_keeps_empty_path_prefix() {
    let req = Request::parse(b"GET /?x=1 HTTP/1.1\n").unwrap();
    assert_eq!(req.path(), "/");
}

#[test]
fn absolute_uri_loses_scheme_authority_and_query() {
    let req = Request::parse(b"GET http://example.com/a/b?x=1 HTTP/1.1\n").unwrap();
    assert_eq!(req.method(), Method::Get);
    assert_eq!(req.url(), "http://example.com/a/b?x=1");
    assert_eq!(req.path(), "/a/b");
}

#[test]
fn https_uri_is_treated_as_absolute() {
    let req = Request::parse(b"GET https://example.com/index HTTP/1.1\n").unwrap();
    assert_eq!(req.path(), "/index");
}

#[test]
fn later_lines_are_ignored() {
    let req = Request::parse(b"GET /x HTTP/1.1\nHost: example.com\n\n").unwrap();
    assert_eq!(req.path(), "/x");
}

#[test]
fn empty_buffer_is_missing_request_line() {
    assert_eq!(parse_err(b""), ParseError::MissingRequestLine);
}

#[test]
fn newline_only_buffer_is_missing_request_line() {
    assert_eq!(parse_err(b"\n"), ParseError::MissingRequestLine);
    assert_eq!(parse_err(b" \r\n\t\n"), ParseError::MissingRequestLine);
}

#[test]
fn blank_first_line_before_content_is_missing_method() {
    assert_eq!(parse_err(b"\nGET / HTTP/1.1\n"), ParseError::MissingMethod);
}

#[test]
fn unknown_method_is_rejected() {
    assert_eq!(parse_err(b"POST /a HTTP/1.1\n"), ParseError::UnknownMethod);
    assert_eq!(parse_err(b"get /a HTTP/1.1\n"), ParseError::UnknownMethod);
    assert_eq!(parse_err(b"GETX /a HTTP/1.1\n"), ParseError::UnknownMethod);
}

#[test]
fn method_without_target_is_missing_target() {
    assert_eq!(parse_err(b"GET\n"), ParseError::MissingTarget);
    assert_eq!(parse_err(b"GET \nrest\n"), ParseError::MissingTarget);
}

#[test]
fn absolute_uri_without_path_is_missing_path() {
    assert_eq!(parse_err(b"GET http://example.com HTTP/1.1\n"), ParseError::MissingPath);
    assert_eq!(parse_err(b"GET http: HTTP/1.1\n"), ParseError::MissingPath);
}

#[test]
fn unrooted_target_is_unparseable() {
    assert_eq!(parse_err(b"GET foo HTTP/1.1\n"), ParseError::UnparseableTarget);
    assert_eq!(parse_err(b"GET a/b HTTP/1.1\n"), ParseError::UnparseableTarget);
}

#[test]
fn invalid_utf8_is_encoding_error() {
    assert_eq!(parse_err(&[0xFF, 0xFE, b'G']), ParseError::Encoding);
    assert_eq!(parse_err(b"GET /a\x80 HTTP/1.1\n"), ParseError::Encoding);
}

#[test]
fn non_ascii_path_is_kept_byte_for_byte() {
    let req = Request::parse("GET /caf\u{e9} HTTP/1.1\n".as_bytes()).unwrap();
    assert_eq!(req.path(), "/caf\u{e9}");
}
