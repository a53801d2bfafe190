use minihttp::format_response;
use minihttp::handle_home;
use minihttp::handle_not_found;

/// Read the response back and return (status line, content length, body).
fn split_response(bytes: &[u8]) -> (String, usize, Vec<u8>) {
    let text_end = bytes
        .windows(2)
        .position(|w| w == b"\n\n")
        .expect("no blank line in response");
    let head = std::str::from_utf8(&bytes[..text_end]).expect("head is not UTF-8");
    let mut lines = head.lines();
    let status = lines.next().expect("no status line").to_string();
    let header = lines.next().expect("no header line");
    let n = header
        .strip_prefix("Content-Length:")
        .expect("missing Content-Length")
        .parse::<usize>()
        .expect("bad Content-Length digits");
    let body = bytes[text_end + 2..].to_vec();
    (status, n, body)
}

#[test]
fn home_response_is_exact() {
    let r = handle_home(b"hello");
    assert_eq!(r, b"HTTP/1.1 200 OK\nContent-Length:5\n\nhello".to_vec());
}

#[test]
fn not_found_response_is_exact() {
    let r = handle_not_found(b"gone");
    assert_eq!(r, b"HTTP/1.1 404 NOT FOUND\nContent-Length:4\n\ngone".to_vec());
}

#[test]
fn content_length_matches_body_byte_count() {
    for body in [
        &b""[..],
        &b"x"[..],
        &b"hello world"[..],
        "caf\u{e9} \u{2603}".as_bytes(),
        &[0u8; 1234][..],
    ] {
        let r = handle_home(body);
        let (status, n, got_body) = split_response(&r);
        assert_eq!(status, "HTTP/1.1 200 OK");
        assert_eq!(n, got_body.len());
        assert_eq!(got_body, body.to_vec());
    }
}

#[test]
fn format_response_takes_any_status_line() {
    let r = format_response(b"HTTP/1.1 204 No Content", b"");
    assert_eq!(r, b"HTTP/1.1 204 No Content\nContent-Length:0\n\n".to_vec());
}

#[test]
fn decimal_lengths_render_exactly() {
    for (len, digits) in [(0usize, "0"), (9, "9"), (10, "10"), (107, "107"), (1000, "1000")] {
        let body = vec![b'a'; len];
        let r = format_response(b"S", &body);
        let (_, n, got_body) = split_response(&r);
        assert_eq!(n, len);
        assert_eq!(got_body.len(), len);
        let head = String::from_utf8(r[..r.len() - len].to_vec()).unwrap();
        assert!(head.contains(&format!("Content-Length:{}\n", digits)));
    }
}
