//! Routing and the per-request dispatch step.
//!
//! A connection hands the bytes it read to `handle_request` and gets back
//! the one action to perform: send a response, or first read or write a file
//! under the root directory and then send the mapped response.

use vstd::prelude::*;

verus! {

use vstd::slice::slice_subrange;
use vstd::string::StrSliceExecFns;
use crate::handlers::{
    Action,
    echo,
    echo_expected,
    files,
    files_expected,
    hviews,
    resp_plain,
    user_agent,
    user_agent_expected,
};
use vstd::utf8::{decode_utf8, valid_utf8};
use crate::http::{Header, Request, lossy_utf8, spec_headers, spec_request_line};
use crate::response::Response;
use crate::text::{has_prefix, str_eq, str_has_prefix};

/// The route a path selects, in precedence order: the root, the echo
/// prefix, the user-agent page, the files prefix, or nothing.
#[derive(Debug, Clone, Copy, PartialEq, Eq, Structural)]
pub enum Route {
    Root,
    Echo,
    UserAgent,
    Files,
    Unknown,
}

/// First match wins: `/` exactly, then the `/echo` routes, then
/// `/user-agent` exactly, then the `/files` routes. A bare `/echo` or
/// `/files` still selects its route, where the handler answers `400`.
pub open spec fn spec_route(path: Seq<char>) -> Route {
    if path == "/"@ {
        Route::Root
    } else if has_prefix(path, "/echo/"@) || path == "/echo"@ {
        Route::Echo
    } else if path == "/user-agent"@ {
        Route::UserAgent
    } else if has_prefix(path, "/files/"@) || path == "/files"@ {
        Route::Files
    } else {
        Route::Unknown
    }
}

pub fn route(path: &str) -> (r: Route)
    ensures
        r == spec_route(path@),
{
    if str_eq(path, "/") {
        Route::Root
    } else if str_has_prefix(path, "/echo/") || str_eq(path, "/echo") {
        Route::Echo
    } else if str_eq(path, "/user-agent") {
        Route::UserAgent
    } else if str_has_prefix(path, "/files/") || str_eq(path, "/files") {
        Route::Files
    } else {
        Route::Unknown
    }
}

/// The action owed for a parsed request: `method` and `path` as decoded,
/// `hs` the decoded header pairs, `input` the bytes left after the header
/// block, `directory` the file-serving root.
pub open spec fn action_expected(
    method: Seq<char>,
    path: Seq<char>,
    hs: Seq<(Seq<char>, Seq<char>)>,
    input: Seq<u8>,
    directory: Seq<char>,
    a: Action,
) -> bool {
    match spec_route(path) {
        Route::Root => match a {
            Action::Reply(r) => resp_plain(r, 200),
            _ => false,
        },
        Route::Echo => match a {
            Action::Reply(r) => echo_expected(path, r),
            _ => false,
        },
        Route::UserAgent => match a {
            Action::Reply(r) => user_agent_expected(hs, r),
            _ => false,
        },
        Route::Files => files_expected(method, path, hs, input, directory, a),
        Route::Unknown => match a {
            Action::Reply(r) => resp_plain(r, 404),
            _ => false,
        },
    }
}

/// The decoded view of raw header pairs.
pub open spec fn lossy_views(pairs: Seq<(Seq<u8>, Seq<u8>)>) -> Seq<(Seq<char>, Seq<char>)> {
    pairs.map_values(|pr: (Seq<u8>, Seq<u8>)| (lossy_utf8(pr.0), lossy_utf8(pr.1)))
}

/// One whole dispatch step: parses the request line and the headers out of
/// the bytes read, routes, and runs the selected handler. A request that
/// does not parse is answered `400` rather than dropped.
pub fn handle_request(buf: &[u8], directory: &str) -> (a: Action)
    ensures
        match spec_request_line(buf@) {
            None => match a {
                Action::Reply(r) => resp_plain(r, 400),
                _ => false,
            },
            Some((m, p, n)) => match spec_headers(buf@.skip(n)) {
                None => match a {
                    Action::Reply(r) => resp_plain(r, 400),
                    _ => false,
                },
                Some((pairs, c)) => action_expected(
                    lossy_utf8(m),
                    lossy_utf8(p),
                    lossy_views(pairs),
                    buf@.skip(n).skip(c),
                    directory@,
                    a,
                ) && (valid_utf8(m) && valid_utf8(p) ==> action_expected(
                    decode_utf8(m),
                    decode_utf8(p),
                    lossy_views(pairs),
                    buf@.skip(n).skip(c),
                    directory@,
                    a,
                )),
            },
        },
{
    let (n, request) = match Request::from_bytes(buf) {
        Ok(x) => x,
        Err(_) => {
            return Action::Reply(Response { status: 400, headers: Vec::new(), body: Vec::new() });
        },
    };
    let rest = slice_subrange(buf, n, buf.len());
    proof {
        assert(rest@ =~= buf@.skip(n as int));
    }
    let (c, headers) = match Header::parse_all(rest) {
        Ok(x) => x,
        Err(_) => {
            return Action::Reply(Response { status: 400, headers: Vec::new(), body: Vec::new() });
        },
    };
    let input = slice_subrange(rest, c, rest.len());
    proof {
        assert(input@ =~= rest@.skip(c as int));
        if let Some((pairs, c0)) = spec_headers(rest@) {
            assert(hviews(headers@) =~= lossy_views(pairs));
        }
    }
    match route(request.path.as_str()) {
        Route::Root => Action::Reply(
            Response { status: 200, headers: Vec::new(), body: Vec::new() },
        ),
        Route::Echo => Action::Reply(echo(&request)),
        Route::UserAgent => Action::Reply(user_agent(headers.as_slice())),
        Route::Files => files(&request, headers.as_slice(), input, directory),
        Route::Unknown => Action::Reply(
            Response { status: 404, headers: Vec::new(), body: Vec::new() },
        ),
    }
}

/// The root route is idempotent: a request for `/` is answered `200` with
/// no headers and no body, whatever method, headers and body came with it.
pub proof fn lemma_root_always_ok(
    method: Seq<char>,
    hs: Seq<(Seq<char>, Seq<char>)>,
    input: Seq<u8>,
    directory: Seq<char>,
    a: Action,
)
    requires
        action_expected(method, "/"@, hs, input, directory, a),
    ensures
        match a {
            Action::Reply(r) => resp_plain(r, 200),
            _ => false,
        },
{
}

} // verus!
