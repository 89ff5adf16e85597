//! The four route handlers: echo, user-agent reflection, file read and file
//! write. Each is a pure function from the parsed request to either a ready
//! response or a filesystem action; the caller performs the action and maps
//! its outcome back to a response with `read_file_response` or
//! `write_file_response`.

use vstd::prelude::*;

verus! {

use vstd::slice::{slice_index_get, slice_subrange, slice_to_vec};
use vstd::string::{StrSliceExecFns, StringExecFns, StringSliceAdditionalSpecFns};
use vstd::utf8::encode_utf8;
use crate::http::{Header, Request};
use crate::response::Response;
use crate::text::{
    has_prefix,
    str_has_prefix,
    str_eq,
    str_suffix,
    dec_digits,
    dec_value,
    is_dec_digits,
    usize_to_string,
    parse_dec,
};

/// What the server does next: send a response, or touch the filesystem
/// first. The caller runs the filesystem step and feeds the outcome back.
#[derive(Debug)]
pub enum Action {
    Reply(Response),
    ReadFile { path: String },
    WriteFile { path: String, contents: Vec<u8> },
}

/// What a file read came back with.
#[derive(Debug)]
pub enum FileOutcome {
    Content(Vec<u8>),
    Missing,
    Failure,
}

/// The view of a header list: each header as its `(name, value)` pair.
pub open spec fn hviews(hs: Seq<Header>) -> Seq<(Seq<char>, Seq<char>)> {
    hs.map_values(|h: Header| (h.name@, h.value@))
}

/// `resp` has exactly this status, these headers (as views) and this body.
pub open spec fn resp_matches(
    resp: Response,
    status: u16,
    hs: Seq<(Seq<char>, Seq<char>)>,
    body: Seq<u8>,
) -> bool {
    &&& resp.status == status
    &&& resp.headers@.len() == hs.len()
    &&& forall|i: int|
        0 <= i < hs.len() ==> (#[trigger] resp.headers@[i]).name@ == hs[i].0
            && resp.headers@[i].value@ == hs[i].1
    &&& resp.body@ == body
}

/// `resp` carries this status with no headers and no body.
pub open spec fn resp_plain(resp: Response, status: u16) -> bool {
    resp_matches(resp, status, Seq::empty(), Seq::empty())
}

/// The headers of a successful text response for a body of this length.
pub open spec fn text_plain_headers(len: nat) -> Seq<(Seq<char>, Seq<char>)> {
    seq![("Content-Type"@, "text/plain"@), ("Content-Length"@, dec_digits(len))]
}

/// The headers of a successful file-read response for this body length.
pub open spec fn octet_stream_headers(len: nat) -> Seq<(Seq<char>, Seq<char>)> {
    seq![("Content-Type"@, "application/octet-stream"@), ("Content-Length"@, dec_digits(len))]
}

/// Index of the first header with exactly this name, if any.
pub open spec fn find_header(hs: Seq<(Seq<char>, Seq<char>)>, name: Seq<char>) -> Option<int>
    decreases hs.len(),
{
    if hs.len() == 0 {
        None
    } else if hs[0].0 == name {
        Some(0int)
    } else {
        match find_header(hs.drop_first(), name) {
            None => None,
            Some(i) => Some(i + 1),
        }
    }
}

pub proof fn lemma_find_header(hs: Seq<(Seq<char>, Seq<char>)>, name: Seq<char>)
    ensures
        match find_header(hs, name) {
            Some(i) => 0 <= i < hs.len() && hs[i].0 == name && (forall|j: int|
                0 <= j < i ==> (#[trigger] hs[j]).0 != name),
            None => forall|j: int| 0 <= j < hs.len() ==> (#[trigger] hs[j]).0 != name,
        },
    decreases hs.len(),
{
    if hs.len() == 0 {
    } else if hs[0].0 == name {
    } else {
        lemma_find_header(hs.drop_first(), name);
        assert(forall|j: int| 0 <= j < hs.drop_first().len() ==> hs.drop_first()[j] == hs[j + 1]);
        match find_header(hs.drop_first(), name) {
            None => {
                assert forall|j: int| 0 <= j < hs.len() implies (#[trigger] hs[j]).0 != name by {
                    if j > 0 {
                        assert(hs.drop_first()[j - 1] == hs[j]);
                    }
                }
            },
            Some(i) => {
                assert(hs.drop_first()[i] == hs[i + 1]);
                assert forall|j: int| 0 <= j < i + 1 implies (#[trigger] hs[j]).0 != name by {
                    if j > 0 {
                        assert(hs.drop_first()[j - 1] == hs[j]);
                    }
                }
            },
        }
    }
}

proof fn lemma_find_header_is(hs: Seq<(Seq<char>, Seq<char>)>, name: Seq<char>, i: int)
    requires
        0 <= i < hs.len(),
        hs[i].0 == name,
        forall|j: int| 0 <= j < i ==> (#[trigger] hs[j]).0 != name,
    ensures
        find_header(hs, name) == Some(i),
{
    lemma_find_header(hs, name);
    match find_header(hs, name) {
        None => {
            assert(false);
        },
        Some(k) => {
            if k < i {
                assert(false);
            }
            if k > i {
                assert(false);
            }
        },
    }
}

/// First header with exactly this name, scanning in input order.
fn find_first(headers: &[Header], name: &str) -> (r: Option<usize>)
    ensures
        match r {
            Some(i) => i < headers@.len() && headers@[i as int].name@ == name@ && find_header(
                hviews(headers@),
                name@,
            ) == Some(i as int),
            None => find_header(hviews(headers@), name@) is None,
        },
{
    let len = headers.len();
    let mut i: usize = 0;
    while i < len
        invariant
            i <= len,
            len == headers@.len(),
            forall|k: int| 0 <= k < i ==> (#[trigger] headers@[k]).name@ != name@,
        decreases len - i,
    {
        let h = slice_index_get(headers, i);
        if str_eq(h.name.as_str(), name) {
            proof {
                lemma_find_header_is(hviews(headers@), name@, i as int);
            }
            return Some(i);
        }
        i = i + 1;
    }
    proof {
        lemma_find_header(hviews(headers@), name@);
        if let Some(k) = find_header(hviews(headers@), name@) {
            assert(false);
        }
    }
    None
}

/// The response the echo route owes for this path.
pub open spec fn echo_expected(path: Seq<char>, resp: Response) -> bool {
    if has_prefix(path, "/echo/"@) {
        resp_matches(
            resp,
            200,
            text_plain_headers(encode_utf8(path.skip(6)).len()),
            encode_utf8(path.skip(6)),
        )
    } else {
        resp_plain(resp, 400)
    }
}

/// Echo route: the text after `/echo/` comes back as the body of a `200`
/// with its byte length declared; a path without that prefix is a `400`.
pub fn echo(request: &Request) -> (resp: Response)
    ensures
        echo_expected(request.path@, resp),
{
    proof {
        reveal_strlit("/echo/");
    }
    if str_has_prefix(request.path.as_str(), "/echo/") {
        let msg = str_suffix(request.path.as_str(), 6);
        let body = msg.as_str().as_bytes_vec();
        let length = usize_to_string(body.len());
        let mut headers: Vec<Header> = Vec::new();
        headers.push(
            Header { name: String::from_str("Content-Type"), value: String::from_str("text/plain") },
        );
        headers.push(Header { name: String::from_str("Content-Length"), value: length });
        Response { status: 200, headers, body }
    } else {
        Response { status: 400, headers: Vec::new(), body: Vec::new() }
    }
}

/// The response the user-agent route owes for these headers.
pub open spec fn user_agent_expected(hs: Seq<(Seq<char>, Seq<char>)>, resp: Response) -> bool {
    match find_header(hs, "User-Agent"@) {
        Some(i) => resp_matches(
            resp,
            200,
            text_plain_headers(encode_utf8(hs[i].1).len()),
            encode_utf8(hs[i].1),
        ),
        None => resp_plain(resp, 400),
    }
}

/// User-agent route: the value of the first `User-Agent` header comes back
/// as the body of a `200`; without that header the answer is a `400`.
pub fn user_agent(headers: &[Header]) -> (resp: Response)
    ensures
        user_agent_expected(hviews(headers@), resp),
{
    match find_first(headers, "User-Agent") {
        Some(i) => {
            let h = slice_index_get(headers, i);
            let body = h.value.as_str().as_bytes_vec();
            let length = usize_to_string(body.len());
            let mut out: Vec<Header> = Vec::new();
            out.push(
                Header {
                    name: String::from_str("Content-Type"),
                    value: String::from_str("text/plain"),
                },
            );
            out.push(Header { name: String::from_str("Content-Length"), value: length });
            Response { status: 200, headers: out, body }
        },
        None => Response { status: 400, headers: Vec::new(), body: Vec::new() },
    }
}

/// The action the file-write route owes: the declared `Content-Length`
/// bytes of the buffered body, written under the root; a missing or
/// unreadable length is a `400`.
pub open spec fn write_file_expected(
    hs: Seq<(Seq<char>, Seq<char>)>,
    input: Seq<u8>,
    directory: Seq<char>,
    name: Seq<char>,
    a: Action,
) -> bool {
    match find_header(hs, "Content-Length"@) {
        Some(i) => {
            let v = hs[i].1;
            if is_dec_digits(v) && dec_value(v) <= usize::MAX as nat {
                let k: int = if dec_value(v) <= input.len() {
                    dec_value(v) as int
                } else {
                    input.len() as int
                };
                match a {
                    Action::WriteFile { path, contents } => {
                        path@ == directory + "/"@ + name && contents@ == input.take(k)
                    },
                    _ => false,
                }
            } else {
                match a {
                    Action::Reply(r) => resp_plain(r, 400),
                    _ => false,
                }
            }
        },
        None => match a {
            Action::Reply(r) => resp_plain(r, 400),
            _ => false,
        },
    }
}

/// File-write route: reads `Content-Length`, takes that many bytes from the
/// buffered remainder (truncated to what was buffered) and asks for them to
/// be written under `directory/name`.
pub fn write_file(headers: &[Header], input: &[u8], directory: &str, name: &str) -> (a: Action)
    ensures
        write_file_expected(hviews(headers@), input@, directory@, name@, a),
{
    match find_first(headers, "Content-Length") {
        Some(i) => {
            let h = slice_index_get(headers, i);
            match parse_dec(h.value.as_str()) {
                Some(n) => {
                    let ilen = input.len();
                    let k = if n <= ilen {
                        n
                    } else {
                        ilen
                    };
                    let contents = slice_to_vec(slice_subrange(input, 0, k));
                    proof {
                        assert(input@.subrange(0, k as int) =~= input@.take(k as int));
                    }
                    let path = String::from_str(directory).concat("/").concat(name);
                    Action::WriteFile { path, contents }
                },
                None => Action::Reply(
                    Response { status: 400, headers: Vec::new(), body: Vec::new() },
                ),
            }
        },
        None => Action::Reply(Response { status: 400, headers: Vec::new(), body: Vec::new() }),
    }
}

/// File-read route: asks for `directory/name` to be read.
pub fn read_file(directory: &str, name: &str) -> (a: Action)
    ensures
        match a {
            Action::ReadFile { path } => path@ == directory@ + "/"@ + name@,
            _ => false,
        },
{
    let path = String::from_str(directory).concat("/").concat(name);
    Action::ReadFile { path }
}

/// The action the files route owes for this request.
pub open spec fn files_expected(
    method: Seq<char>,
    path: Seq<char>,
    hs: Seq<(Seq<char>, Seq<char>)>,
    input: Seq<u8>,
    directory: Seq<char>,
    a: Action,
) -> bool {
    if has_prefix(path, "/files/"@) {
        let name = path.skip(7);
        if method == "GET"@ {
            match a {
                Action::ReadFile { path: p } => p@ == directory + "/"@ + name,
                _ => false,
            }
        } else if method == "POST"@ {
            write_file_expected(hs, input, directory, name, a)
        } else {
            match a {
                Action::Reply(r) => resp_plain(r, 400),
                _ => false,
            }
        }
    } else {
        match a {
            Action::Reply(r) => resp_plain(r, 400),
            _ => false,
        }
    }
}

/// Files route: dispatches on the method; `GET` reads, `POST` writes, any
/// other method — and a path without content after `/files/` — is a `400`.
pub fn files(request: &Request, headers: &[Header], input: &[u8], directory: &str) -> (a: Action)
    ensures
        files_expected(request.method@, request.path@, hviews(headers@), input@, directory@, a),
{
    proof {
        reveal_strlit("/files/");
    }
    if str_has_prefix(request.path.as_str(), "/files/") {
        let name = str_suffix(request.path.as_str(), 7);
        if str_eq(request.method.as_str(), "GET") {
            read_file(directory, name.as_str())
        } else if str_eq(request.method.as_str(), "POST") {
            write_file(headers, input, directory, name.as_str())
        } else {
            Action::Reply(Response { status: 400, headers: Vec::new(), body: Vec::new() })
        }
    } else {
        Action::Reply(Response { status: 400, headers: Vec::new(), body: Vec::new() })
    }
}

/// Maps what a file read came back with to the response: the contents as a
/// `200` octet stream, a `404` for a missing file, a `500` for a failed read.
pub fn read_file_response(outcome: FileOutcome) -> (resp: Response)
    ensures
        match outcome {
            FileOutcome::Content(data) => resp_matches(
                resp,
                200,
                octet_stream_headers(data@.len()),
                data@,
            ),
            FileOutcome::Missing => resp_plain(resp, 404),
            FileOutcome::Failure => resp_plain(resp, 500),
        },
{
    match outcome {
        FileOutcome::Content(data) => {
            let length = usize_to_string(data.len());
            let mut headers: Vec<Header> = Vec::new();
            headers.push(
                Header {
                    name: String::from_str("Content-Type"),
                    value: String::from_str("application/octet-stream"),
                },
            );
            headers.push(Header { name: String::from_str("Content-Length"), value: length });
            Response { status: 200, headers, body: data }
        },
        FileOutcome::Missing => Response { status: 404, headers: Vec::new(), body: Vec::new() },
        FileOutcome::Failure => Response { status: 500, headers: Vec::new(), body: Vec::new() },
    }
}

/// Maps the outcome of a file write to its response: a bare `201` on
/// success, a `500` on failure.
pub fn write_file_response(ok: bool) -> (resp: Response)
    ensures
        resp_plain(resp, if ok { 201u16 } else { 500u16 }),
{
    if ok {
        Response { status: 201, headers: Vec::new(), body: Vec::new() }
    } else {
        Response { status: 500, headers: Vec::new(), body: Vec::new() }
    }
}

} // verus!
