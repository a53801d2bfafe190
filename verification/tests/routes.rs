use minihttp::Method;
use minihttp::ParseError;
use minihttp::Server;
use minihttp::ServerError;

#[test]
fn lookup_finds_registered_handler() {
    let mut server: Server<u32> = Server::new(0);
    server.register_route(Method::Get, String::from("/"), 1);
    server.register_route(Method::Get, String::from("/about"), 2);
    assert_eq!(server.lookup(Method::Get, "/"), Some(&1));
    assert_eq!(server.lookup(Method::Get, "/about"), Some(&2));
    assert_eq!(server.lookup(Method::Get, "/missing"), None);
}

#[test]
fn lookup_is_exact_no_trailing_slash_tolerance() {
    let mut server: Server<u32> = Server::new(0);
    server.register_route(Method::Get, String::from("/foo"), 7);
    assert_eq!(server.lookup(Method::Get, "/foo"), Some(&7));
    assert_eq!(server.lookup(Method::Get, "/foo/"), None);
    assert_eq!(server.lookup(Method::Get, "/Foo"), None);
}

#[test]
fn last_registration_wins() {
    let mut server: Server<u32> = Server::new(0);
    server.register_route(Method::Get, String::from("/x"), 1);
    server.register_route(Method::Get, String::from("/x"), 2);
    assert_eq!(server.lookup(Method::Get, "/x"), Some(&2));
}

#[test]
fn dispatch_invokes_matching_handler() {
    let mut server: Server<u32> = Server::new(404);
    server.register_route(Method::Get, String::from("/"), 1);
    server.register_route(Method::Get, String::from("/about"), 2);

    let (req, handler) = server.handle_connection(b"GET / HTTP/1.1\n").unwrap();
    assert_eq!(req.path(), "/");
    assert_eq!(*handler, 1);

    let (req, handler) = server.handle_connection(b"GET /about?x=1 HTTP/1.1\n").unwrap();
    assert_eq!(req.path(), "/about");
    assert_eq!(*handler, 2);
}

#[test]
fn dispatch_falls_back_to_not_found_handler() {
    let mut server: Server<u32> = Server::new(404);
    server.register_route(Method::Get, String::from("/foo"), 7);

    let (_, handler) = server.handle_connection(b"GET /foo/ HTTP/1.1\n").unwrap();
    assert_eq!(*handler, 404);

    let (_, handler) = server.handle_connection(b"GET /nowhere HTTP/1.1\n").unwrap();
    assert_eq!(*handler, 404);
}

#[test]
fn dispatch_reports_parse_errors_without_a_handler() {
    let server: Server<u32> = Server::new(404);
    match server.handle_connection(b"") {
        Err(ServerError::ParseError(ParseError::MissingRequestLine)) => {}
        other => panic!("expected a missing request line, got {:?}", other),
    }
    match server.handle_connection(b"PUT /foo HTTP/1.1\n") {
        Err(ServerError::ParseError(ParseError::UnknownMethod)) => {}
        other => panic!("expected an unknown method, got {:?}", other),
    }
}

#[test]
fn handlers_can_be_function_pointers() {
    fn home(body: &[u8]) -> Vec<u8> {
        minihttp::handle_home(body)
    }
    fn missing(body: &[u8]) -> Vec<u8> {
        minihttp::handle_not_found(body)
    }
    let mut server: Server<fn(&[u8]) -> Vec<u8>> = Server::new(missing);
    server.register_route(Method::Get, String::from("/"), home);

    let (_, handler) = server.handle_connection(b"GET / HTTP/1.1\n").unwrap();
    let response = handler(b"hi");
    assert!(response.starts_with(b"HTTP/1.1 200 OK\n"));

    let (_, handler) = server.handle_connection(b"GET /gone HTTP/1.1\n").unwrap();
    let response = handler(b"lost");
    assert!(response.starts_with(b"HTTP/1.1 404 NOT FOUND\n"));
}
