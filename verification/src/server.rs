//! The route table and the per-connection dispatch decision.
//!
//! A [`Server`] owns an exact-match table from (method, path) to a handler
//! capability, plus one fallback handler for unmatched requests. The table
//! is modeled as a [`Map`]: registration is map insertion (so the last
//! registration for a key wins), and lookup is map membership, byte for
//! byte — no prefix, wildcard or trailing-slash tolerance.
//!
//! Handlers are an arbitrary type `H`: the hosting process picks a callable
//! and invokes whatever [`Server::handle_connection`] hands back.

use vstd::prelude::*;
use vstd::string::*;
use vstd::utf8::{decode_utf8, valid_utf8};
use crate::http::{Method, ParseError, ServerError};
use crate::parse::{Request, RequestView, spec_parse};

verus! {

/// The route map denoted by a registration sequence: later entries
/// overwrite earlier ones with the same key.
pub open spec fn routes_map_of<H>(entries: Seq<(Method, String, H)>) -> Map<
    (Method, Seq<char>),
    H,
>
    decreases entries.len(),
{
    if entries.len() == 0 {
        Map::empty()
    } else {
        routes_map_of(entries.drop_last()).insert(
            (entries.last().0, entries.last().1@),
            entries.last().2,
        )
    }
}

/// Registering twice under one key keeps only the most recent handler:
/// since [`Server::register_route`] turns the route table `m` into
/// `m.insert(key, handler)`, two registrations for the same key leave the
/// table exactly as if only the second had happened.
pub proof fn lemma_last_registration_wins<H>(
    m: Map<(Method, Seq<char>), H>,
    key: (Method, Seq<char>),
    first: H,
    second: H,
)
    ensures
        m.insert(key, first).insert(key, second) == m.insert(key, second),
{
    assert(m.insert(key, first).insert(key, second) =~= m.insert(key, second));
}

/// Character-by-character string equality, so that route matching does not
/// lean on any unverified comparison.
fn str_eq(a: &str, b: &str) -> (r: bool)
    ensures
        r == (a@ == b@),
{
    let an = a.unicode_len();
    let bn = b.unicode_len();
    if an != bn {
        return false;
    }
    let mut i: usize = 0;
    while i < an
        invariant
            0 <= i <= an,
            an == a@.len(),
            an == b@.len(),
            forall|j: int| 0 <= j < i ==> a@[j] == b@[j],
        decreases an - i,
    {
        if a.get_char(i) != b.get_char(i) {
            return false;
        }
        i = i + 1;
    }
    proof {
        assert(a@ =~= b@);
    }
    true
}

/// The server core: a route table built by explicit registration before any
/// connection is served, and a fallback handler for paths no route matches.
pub struct Server<H> {
    routes: Vec<(Method, String, H)>,
    not_found_handler: H,
}

impl<H> Server<H> {
    /// The route table as a mathematical map from (method, path) keys to
    /// handlers.
    pub closed spec fn spec_routes(self) -> Map<(Method, Seq<char>), H> {
        routes_map_of(self.routes@)
    }

    /// The configured fallback handler.
    pub closed spec fn spec_not_found(self) -> H {
        self.not_found_handler
    }

    /// The handler a request for `(method, path)` is dispatched to: the
    /// registered one when the key is present, the fallback otherwise.
    pub open spec fn spec_handler_for(self, method: Method, path: Seq<char>) -> H {
        if self.spec_routes().contains_key((method, path)) {
            self.spec_routes()[(method, path)]
        } else {
            self.spec_not_found()
        }
    }

    /// A server with an empty route table and the given fallback handler.
    pub fn new(not_found_handler: H) -> (s: Server<H>)
        ensures
            s.spec_routes() == Map::<(Method, Seq<char>), H>::empty(),
            s.spec_not_found() == not_found_handler,
    {
        Server { routes: Vec::new(), not_found_handler }
    }

    /// Register `handler` for the exact key `(http_method, route)`,
    /// inserting or overwriting: the table afterwards is the old table with
    /// that one key bound to `handler`, so the most recent registration for
    /// a key is the one that counts.
    pub fn register_route(&mut self, http_method: Method, route: String, handler: H)
        ensures
            final(self).spec_routes() == old(self).spec_routes().insert(
                (http_method, route@),
                handler,
            ),
            final(self).spec_not_found() == old(self).spec_not_found(),
    {
        let ghost before = self.routes@;
        self.routes.push((http_method, route, handler));
        proof {
            assert(self.routes@.drop_last() =~= before);
        }
    }

    /// Exact-match lookup: the handler registered for `(method, path)`, or
    /// `None` when the key is absent. Matching is case-sensitive and byte
    /// for byte.
    pub fn lookup(&self, method: Method, path: &str) -> (r: Option<&H>)
        ensures
            match r {
                Some(h) => self.spec_routes().contains_key((method, path@))
                    && *h == self.spec_routes()[(method, path@)],
                None => !self.spec_routes().contains_key((method, path@)),
            },
    {
        let ghost key = (method, path@);
        let ghost entries = self.routes@;
        proof {
            assert(entries.take(entries.len() as int) =~= entries);
        }
        let mut i: usize = self.routes.len();
        while i > 0
            invariant
                0 <= i <= entries.len(),
                entries == self.routes@,
                key == (method, path@),
                routes_map_of(entries).contains_key(key) == routes_map_of(
                    entries.take(i as int),
                ).contains_key(key),
                routes_map_of(entries).contains_key(key) ==> routes_map_of(
                    entries.take(i as int),
                )[key] == routes_map_of(entries)[key],
            decreases i,
        {
            i = i - 1;
            let entry = &self.routes[i];
            proof {
                assert(entries.take(i + 1).drop_last() =~= entries.take(i as int));
                assert(entries.take(i + 1).last() == entries[i as int]);
                assert(routes_map_of(entries.take(i + 1)) == routes_map_of(
                    entries.take(i as int),
                ).insert((entries[i as int].0, entries[i as int].1@), entries[i as int].2));
            }
            let method_matches = entry.0 == method;
            let path_matches = str_eq(entry.1.as_str(), path);
            if method_matches && path_matches {
                proof {
                    assert(key == (entries[i as int].0, entries[i as int].1@));
                    assert(routes_map_of(entries.take(i + 1)).contains_key(key));
                    assert(routes_map_of(entries.take(i + 1))[key] == entries[i as int].2);
                }
                return Some(&entry.2);
            }
            proof {
                assert(key != (entries[i as int].0, entries[i as int].1@));
            }
        }
        proof {
            assert(entries.take(0) =~= Seq::<(Method, String, H)>::empty());
        }
        None
    }

    /// The whole per-connection decision: parse the buffer read from a
    /// connection, and resolve the parsed request against the route table.
    ///
    /// On success the returned handler is exactly
    /// [`Server::spec_handler_for`] applied to the parsed method and path;
    /// on a parse error the error says precisely why, and the caller drops
    /// the connection without writing a byte.
    pub fn handle_connection(&self, buffer: &[u8]) -> (r: Result<(Request, &H), ServerError>)
        ensures
            match r {
                Ok((req, h)) => valid_utf8(buffer@) && spec_parse(decode_utf8(buffer@))
                    == Ok::<RequestView, ParseError>(req@) && *h == self.spec_handler_for(
                    req@.method,
                    req@.path,
                ),
                Err(e) => match e {
                    ServerError::ParseError(pe) => if pe == ParseError::Encoding {
                        !valid_utf8(buffer@)
                    } else {
                        valid_utf8(buffer@) && spec_parse(decode_utf8(buffer@))
                            == Err::<RequestView, ParseError>(pe)
                    },
                    _ => false,
                },
            },
    {
        let req = match Request::parse(buffer) {
            Ok(req) => req,
            Err(e) => {
                return Err(e);
            },
        };
        let handler = match self.lookup(req.method(), req.path()) {
            Some(h) => h,
            None => &self.not_found_handler,
        };
        Ok((req, handler))
    }
}

} // verus!
