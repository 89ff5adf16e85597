//! Request-line and header parsing for a small HTTP/1.1 subset.
//!
//! The grammar, over raw bytes:
//! - request line: `METHOD SP PATH SP HTTP/1.1 CRLF`, where METHOD and PATH
//!   are non-empty runs of non-space bytes;
//! - header line: `NAME ": " VALUE CRLF`, where NAME is a non-empty run of
//!   bytes other than `:` and VALUE a non-empty run of bytes other than `\r`;
//! - a header block ends at a blank line (a leading CRLF, consumed), or when
//!   the input runs out.
//!
//! Byte runs are decoded to strings lossily: invalid UTF-8 never makes a
//! parse fail.

use vstd::prelude::*;

verus! {

use vstd::slice::slice_subrange;
use vstd::string::StringExecFns;
use vstd::utf8::{valid_utf8, decode_utf8};

pub const CR: u8 = 13;

pub const LF: u8 = 10;

pub const SP: u8 = 32;

pub const COLON: u8 = 58;

/// How a byte sequence fails to parse.
#[derive(Debug, Clone, Copy, PartialEq, Eq, Structural)]
pub enum ParseError {
    MalformedRequestLine,
    MalformedHeader,
}

/// What `String::from_utf8_lossy` returns for the given bytes: the decoding
/// of the byte sequence with each invalid UTF-8 sequence replaced.
pub uninterp spec fn lossy_utf8(bytes: Seq<u8>) -> Seq<char>;

/// Relies on `String::from_utf8_lossy`: its result depends on the bytes
/// alone, and on bytes that are valid UTF-8 it is exactly their decoding.
#[verifier::external_body]
fn utf8_lossy(bytes: &[u8]) -> (r: String)
    ensures
        r@ == lossy_utf8(bytes@),
        valid_utf8(bytes@) ==> r@ == decode_utf8(bytes@),
{
    String::from_utf8_lossy(bytes).into_owned()
}

/// Index of the first occurrence of `b` in `s`, if any.
pub open spec fn spec_find(s: Seq<u8>, b: u8) -> Option<int>
    decreases s.len(),
{
    if s.len() == 0 {
        None
    } else if s[0] == b {
        Some(0int)
    } else {
        match spec_find(s.skip(1), b) {
            None => None,
            Some(i) => Some(i + 1),
        }
    }
}

pub proof fn lemma_spec_find(s: Seq<u8>, b: u8)
    ensures
        match spec_find(s, b) {
            Some(i) => 0 <= i < s.len() && s[i] == b && (forall|j: int| 0 <= j < i ==> s[j] != b),
            None => forall|j: int| 0 <= j < s.len() ==> s[j] != b,
        },
    decreases s.len(),
{
    if s.len() == 0 {
    } else if s[0] == b {
    } else {
        lemma_spec_find(s.skip(1), b);
        match spec_find(s.skip(1), b) {
            None => {
                assert forall|j: int| 0 <= j < s.len() implies s[j] != b by {
                    if j > 0 {
                        assert(s.skip(1)[j - 1] == s[j]);
                    }
                }
            },
            Some(i) => {
                assert(s.skip(1)[i] == s[i + 1]);
                assert forall|j: int| 0 <= j < i + 1 implies s[j] != b by {
                    if j > 0 {
                        assert(s.skip(1)[j - 1] == s[j]);
                    }
                }
            },
        }
    }
}

pub proof fn lemma_spec_find_is(s: Seq<u8>, b: u8, i: int)
    requires
        0 <= i < s.len(),
        s[i] == b,
        forall|j: int| 0 <= j < i ==> s[j] != b,
    ensures
        spec_find(s, b) == Some(i),
{
    lemma_spec_find(s, b);
    match spec_find(s, b) {
        None => {
            assert(false);
        },
        Some(k) => {
            if k < i {
                assert(false);
            }
            if k > i {
                assert(false);
            }
        },
    }
}

/// Finds the first occurrence of `b` in `s` at or after `start`.
fn find_byte(s: &[u8], start: usize, b: u8) -> (r: Option<usize>)
    requires
        start <= s@.len(),
    ensures
        match r {
            Some(i) => start <= i < s@.len() && spec_find(s@.skip(start as int), b) == Some(
                i - start,
            ),
            None => spec_find(s@.skip(start as int), b) is None,
        },
{
    let ghost t = s@.skip(start as int);
    let mut i: usize = start;
    loop
        invariant
            start <= i <= s@.len(),
            t == s@.skip(start as int),
            forall|j: int| start <= j < i ==> s@[j] != b,
        decreases s@.len() - i,
    {
        if i == s.len() {
            proof {
                lemma_spec_find(t, b);
                if let Some(k) = spec_find(t, b) {
                    assert(t[k] == s@[start + k]);
                    assert(false);
                }
            }
            return None;
        }
        if s[i] == b {
            proof {
                lemma_spec_find(t, b);
                assert(t[i - start] == s@[i as int]);
                match spec_find(t, b) {
                    None => {
                        assert(false);
                    },
                    Some(k) => {
                        assert(t[k] == s@[start + k]);
                        if k < i - start {
                            assert(false);
                        }
                        if k > i - start {
                            assert(false);
                        }
                    },
                }
            }
            return Some(i);
        }
        i = i + 1;
    }
}

/// True when `u` begins with the literal bytes of `HTTP/1.1` followed by CRLF.
pub open spec fn version_crlf_prefix(u: Seq<u8>) -> bool {
    &&& u.len() >= 10
    &&& u[0] == 72  // 'H'
    &&& u[1] == 84  // 'T'
    &&& u[2] == 84  // 'T'
    &&& u[3] == 80  // 'P'
    &&& u[4] == 47  // '/'
    &&& u[5] == 49  // '1'
    &&& u[6] == 46  // '.'
    &&& u[7] == 49  // '1'
    &&& u[8] == CR
    &&& u[9] == LF
}

/// Parse of a request line at the front of `s`: the raw METHOD and PATH runs
/// and the number of bytes consumed, through the terminating CRLF.
pub open spec fn spec_request_line(s: Seq<u8>) -> Option<(Seq<u8>, Seq<u8>, int)> {
    match spec_find(s, SP) {
        None => None,
        Some(i) => {
            if i < 1 {
                None
            } else {
                let t = s.skip(i + 1);
                match spec_find(t, SP) {
                    None => None,
                    Some(j) => {
                        if j < 1 {
                            None
                        } else {
                            if version_crlf_prefix(t.skip(j + 1)) {
                                Some((s.take(i), t.take(j), i + j + 12))
                            } else {
                                None
                            }
                        }
                    },
                }
            }
        },
    }
}

/// Parse of one header line at the front of `s`: the raw NAME and VALUE runs
/// and the number of bytes consumed, through the terminating CRLF.
pub open spec fn spec_header(s: Seq<u8>) -> Option<(Seq<u8>, Seq<u8>, int)> {
    match spec_find(s, COLON) {
        None => None,
        Some(i) => {
            if i < 1 || !(i + 2 <= s.len() && s[i + 1] == SP) {
                None
            } else {
                let t = s.skip(i + 2);
                match spec_find(t, CR) {
                    None => None,
                    Some(j) => {
                        if j < 1 || !(j + 2 <= t.len() && t[j + 1] == LF) {
                            None
                        } else {
                            Some((s.take(i), t.take(j), i + j + 4))
                        }
                    },
                }
            }
        },
    }
}

pub proof fn lemma_spec_header_bounds(s: Seq<u8>)
    ensures
        match spec_header(s) {
            Some((name, value, c)) => name.len() >= 1 && value.len() >= 1 && 6 <= c <= s.len(),
            None => true,
        },
{
    lemma_spec_find(s, COLON);
    if let Some(i) = spec_find(s, COLON) {
        let t = s.skip(i + 2);
        lemma_spec_find(t, CR);
    }
}

/// Parse of a whole header block at the front of `s`: the raw (NAME, VALUE)
/// pairs in input order and the number of bytes consumed. The blank line that
/// ends the block is consumed; the body starts right after.
pub open spec fn spec_headers(s: Seq<u8>) -> Option<(Seq<(Seq<u8>, Seq<u8>)>, int)>
    decreases s.len(),
{
    if s.len() >= 2 && s[0] == CR && s[1] == LF {
        Some((Seq::empty(), 2))
    } else if s.len() == 0 {
        Some((Seq::empty(), 0))
    } else {
        match spec_header(s) {
            None => None,
            Some((name, value, c)) => {
                if 1 <= c <= s.len() {
                    match spec_headers(s.skip(c)) {
                        None => None,
                        Some((rest, c2)) => Some((seq![(name, value)] + rest, c + c2)),
                    }
                } else {
                    None
                }
            },
        }
    }
}

pub proof fn lemma_spec_headers_bounds(s: Seq<u8>)
    ensures
        match spec_headers(s) {
            Some((pairs, c)) => 0 <= c <= s.len(),
            None => true,
        },
    decreases s.len(),
{
    if s.len() >= 2 && s[0] == CR && s[1] == LF {
    } else if s.len() == 0 {
    } else {
        if let Some((name, value, c)) = spec_header(s) {
            if 1 <= c <= s.len() {
                lemma_spec_headers_bounds(s.skip(c));
            }
        }
    }
}

/// The bytes of `HTTP/1.1` followed by CRLF.
pub open spec fn version_crlf_bytes() -> Seq<u8> {
    seq![72u8, 84u8, 84u8, 80u8, 47u8, 49u8, 46u8, 49u8, CR, LF]
}

/// A token: a non-empty run of non-space bytes.
pub open spec fn is_token(s: Seq<u8>) -> bool {
    s.len() >= 1 && forall|i: int| 0 <= i < s.len() ==> s[i] != SP
}

/// Every byte sequence of the request-line grammar parses, to exactly its
/// method and path tokens, consuming through the CRLF and no further.
pub proof fn lemma_request_line_complete(method: Seq<u8>, path: Seq<u8>, rest: Seq<u8>)
    requires
        is_token(method),
        is_token(path),
    ensures
        spec_request_line(method + seq![SP] + path + seq![SP] + version_crlf_bytes() + rest)
            == Some((method, path, method.len() + path.len() + 12int)),
{
    let s = method + seq![SP] + path + seq![SP] + version_crlf_bytes() + rest;
    let ln = method.len() as int;
    let lp = path.len() as int;
    assert(s[ln] == SP);
    assert forall|j: int| 0 <= j < ln implies s[j] != SP by {
        assert(s[j] == method[j]);
    }
    lemma_spec_find_is(s, SP, ln);
    let t = s.skip(ln + 1);
    assert(t =~= path + seq![SP] + version_crlf_bytes() + rest);
    assert(t[lp] == SP);
    assert forall|j: int| 0 <= j < lp implies t[j] != SP by {
        assert(t[j] == path[j]);
    }
    lemma_spec_find_is(t, SP, lp);
    let u = t.skip(lp + 1);
    assert(u =~= version_crlf_bytes() + rest);
    assert(version_crlf_prefix(u));
    assert(s.take(ln) =~= method);
    assert(t.take(lp) =~= path);
}

/// Every byte sequence the request-line parser accepts has the grammar's
/// shape: method token, space, path token, space, the version, CRLF.
pub proof fn lemma_request_line_sound(s: Seq<u8>)
    ensures
        match spec_request_line(s) {
            Some((m, p, c)) => {
                &&& is_token(m)
                &&& is_token(p)
                &&& 12 <= c <= s.len()
                &&& s == m + seq![SP] + p + seq![SP] + version_crlf_bytes() + s.skip(c)
            },
            None => true,
        },
{
    lemma_spec_find(s, SP);
    if let Some(i) = spec_find(s, SP) {
        if i >= 1 {
            let t = s.skip(i + 1);
            lemma_spec_find(t, SP);
            if let Some(j) = spec_find(t, SP) {
                if j >= 1 && version_crlf_prefix(t.skip(j + 1)) {
                    let m = s.take(i);
                    let p = t.take(j);
                    let c = i + j + 12;
                    assert(forall|k: int| 0 <= k < m.len() ==> m[k] == s[k]);
                    assert(forall|k: int| 0 <= k < p.len() ==> p[k] == t[k]);
                    let u = t.skip(j + 1);
                    assert(forall|k: int| 0 <= k < u.len() ==> u[k] == s[i + 1 + j + 1 + k]);
                    assert(s =~= m + seq![SP] + p + seq![SP] + version_crlf_bytes() + s.skip(c));
                }
            }
        }
    }
}

/// One rendered header line over raw bytes.
pub open spec fn header_line_bytes(name: Seq<u8>, value: Seq<u8>) -> Seq<u8> {
    name + seq![COLON, SP] + value + seq![CR, LF]
}

/// A raw pair that renders to an unambiguous header line: a non-empty name
/// without `:` or `\r`, a non-empty value without `\r`.
pub open spec fn wf_pair(pr: (Seq<u8>, Seq<u8>)) -> bool {
    &&& pr.0.len() >= 1
    &&& forall|i: int| 0 <= i < pr.0.len() ==> pr.0[i] != COLON && pr.0[i] != CR
    &&& pr.1.len() >= 1
    &&& forall|i: int| 0 <= i < pr.1.len() ==> pr.1[i] != CR
}

/// A whole rendered header block: one line per pair, then the blank line.
pub open spec fn header_block_bytes(pairs: Seq<(Seq<u8>, Seq<u8>)>) -> Seq<u8>
    decreases pairs.len(),
{
    if pairs.len() == 0 {
        seq![CR, LF]
    } else {
        header_line_bytes(pairs[0].0, pairs[0].1) + header_block_bytes(pairs.drop_first())
    }
}

/// Every header block terminated by a blank line parses, to exactly its
/// pairs in input order, and what remains is exactly the body.
pub proof fn lemma_header_block_complete(pairs: Seq<(Seq<u8>, Seq<u8>)>, body: Seq<u8>)
    requires
        forall|i: int| 0 <= i < pairs.len() ==> wf_pair(#[trigger] pairs[i]),
    ensures
        ({
            let s = header_block_bytes(pairs) + body;
            &&& spec_headers(s) == Some((pairs, header_block_bytes(pairs).len() as int))
            &&& s.skip(header_block_bytes(pairs).len() as int) == body
        }),
    decreases pairs.len(),
{
    let s = header_block_bytes(pairs) + body;
    if pairs.len() == 0 {
        assert(s[0] == CR && s[1] == LF);
        assert(spec_headers(s) == Some((Seq::<(Seq<u8>, Seq<u8>)>::empty(), 2int)));
        assert(pairs =~= Seq::<(Seq<u8>, Seq<u8>)>::empty());
        assert(s.skip(2) =~= body);
    } else {
        let name = pairs[0].0;
        let value = pairs[0].1;
        let rest = pairs.drop_first();
        assert(wf_pair(pairs[0]));
        assert(forall|i: int| 0 <= i < rest.len() ==> rest[i] == pairs[i + 1]);
        let tail = header_block_bytes(rest) + body;
        let ln = name.len() as int;
        let lv = value.len() as int;
        assert(s =~= name + seq![COLON, SP] + value + seq![CR, LF] + tail);
        assert(s[ln] == COLON);
        assert forall|j: int| 0 <= j < ln implies s[j] != COLON by {
            assert(s[j] == name[j]);
        }
        lemma_spec_find_is(s, COLON, ln);
        assert(s[ln + 1] == SP);
        let t = s.skip(ln + 2);
        assert(t =~= value + seq![CR, LF] + tail);
        assert(t[lv] == CR);
        assert forall|j: int| 0 <= j < lv implies t[j] != CR by {
            assert(t[j] == value[j]);
        }
        lemma_spec_find_is(t, CR, lv);
        assert(t[lv + 1] == LF);
        assert(s.take(ln) =~= name);
        assert(t.take(lv) =~= value);
        assert(spec_header(s) == Some((name, value, ln + lv + 4)));
        assert(s[0] == name[0]);
        assert(s[0] != CR);
        let c0 = ln + lv + 4;
        assert(s.skip(c0) =~= tail);
        lemma_header_block_complete(rest, body);
        assert(spec_headers(s) == Some((seq![(name, value)] + rest, c0 + header_block_bytes(
            rest,
        ).len())));
        assert(seq![(name, value)] + rest =~= pairs);
        assert(s.skip(c0 + header_block_bytes(rest).len() as int) =~= tail.skip(
            header_block_bytes(rest).len() as int,
        ));
    }
}

/// One parsed request line: the method token, the raw path (not URL-decoded)
/// and the protocol version, which this parser requires to be `HTTP/1.1`.
#[derive(Debug)]
pub struct Request {
    pub method: String,
    pub path: String,
    pub http_version: String,
}

impl Request {
    /// Parses `METHOD SP PATH SP HTTP/1.1 CRLF` at the front of `bytes`;
    /// returns the request and the offset of the first unconsumed byte.
    pub fn from_bytes(bytes: &[u8]) -> (r: Result<(usize, Request), ParseError>)
        ensures
            match spec_request_line(bytes@) {
                Some((m, p, c)) => match r {
                    Ok((n, req)) => {
                        &&& n == c
                        &&& 12 <= n <= bytes@.len()
                        &&& req.method@ == lossy_utf8(m)
                        &&& (valid_utf8(m) ==> req.method@ == decode_utf8(m))
                        &&& req.path@ == lossy_utf8(p)
                        &&& (valid_utf8(p) ==> req.path@ == decode_utf8(p))
                        &&& req.http_version@ == "HTTP/1.1"@
                    },
                    Err(_) => false,
                },
                None => r == Err::<(usize, Request), ParseError>(ParseError::MalformedRequestLine),
            },
    {
        proof {
            assert(bytes@.skip(0) =~= bytes@);
        }
        let blen = bytes.len();
        let m_end = match find_byte(bytes, 0, SP) {
            Some(i) => i,
            None => {
                return Err(ParseError::MalformedRequestLine);
            },
        };
        if m_end == 0 {
            return Err(ParseError::MalformedRequestLine);
        }
        let ghost t = bytes@.skip(m_end + 1);
        let p_end = match find_byte(bytes, m_end + 1, SP) {
            Some(i) => i,
            None => {
                return Err(ParseError::MalformedRequestLine);
            },
        };
        if p_end == m_end + 1 {
            return Err(ParseError::MalformedRequestLine);
        }
        let ghost j = p_end - (m_end + 1);
        let v_start = p_end + 1;
        let ghost u = t.skip(j + 1);
        proof {
            assert(forall|k: int| 0 <= k < u.len() ==> u[k] == bytes@[v_start + k]);
            assert(u.len() == bytes@.len() - v_start);
        }
        if blen - v_start < 10 {
            return Err(ParseError::MalformedRequestLine);
        }
        let version_ok = bytes[v_start] == 72 && bytes[v_start + 1] == 84 && bytes[v_start + 2]
            == 84 && bytes[v_start + 3] == 80 && bytes[v_start + 4] == 47 && bytes[v_start + 5]
            == 49 && bytes[v_start + 6] == 46 && bytes[v_start + 7] == 49 && bytes[v_start + 8]
            == CR && bytes[v_start + 9] == LF;
        if !version_ok {
            return Err(ParseError::MalformedRequestLine);
        }
        proof {
            assert(version_crlf_prefix(u));
            assert(bytes@.take(m_end as int) =~= bytes@.subrange(0, m_end as int));
            assert(t.take(j) =~= bytes@.subrange(m_end + 1, p_end as int));
        }
        let method = utf8_lossy(slice_subrange(bytes, 0, m_end));
        let path = utf8_lossy(slice_subrange(bytes, m_end + 1, p_end));
        let http_version = String::from_str("HTTP/1.1");
        Ok((v_start + 10, Request { method, path, http_version }))
    }
}

/// One header: an ordered `(name, value)` pair, raw and uninterpreted.
#[derive(Debug)]
pub struct Header {
    pub name: String,
    pub value: String,
}

impl Header {
    /// Parses `NAME ": " VALUE CRLF` at the front of `bytes`; returns the
    /// header and the offset of the first unconsumed byte.
    pub fn from_bytes(bytes: &[u8]) -> (r: Result<(usize, Header), ParseError>)
        ensures
            match spec_header(bytes@) {
                Some((nm, vl, c)) => match r {
                    Ok((n, h)) => {
                        &&& n == c
                        &&& 6 <= n <= bytes@.len()
                        &&& h.name@ == lossy_utf8(nm)
                        &&& (valid_utf8(nm) ==> h.name@ == decode_utf8(nm))
                        &&& h.value@ == lossy_utf8(vl)
                        &&& (valid_utf8(vl) ==> h.value@ == decode_utf8(vl))
                    },
                    Err(_) => false,
                },
                None => r == Err::<(usize, Header), ParseError>(ParseError::MalformedHeader),
            },
    {
        proof {
            assert(bytes@.skip(0) =~= bytes@);
            lemma_spec_header_bounds(bytes@);
        }
        let n_end = match find_byte(bytes, 0, COLON) {
            Some(i) => i,
            None => {
                return Err(ParseError::MalformedHeader);
            },
        };
        if n_end == 0 {
            return Err(ParseError::MalformedHeader);
        }
        if bytes.len() - n_end < 2 || bytes[n_end + 1] != SP {
            return Err(ParseError::MalformedHeader);
        }
        let v_from = n_end + 2;
        let ghost t = bytes@.skip(v_from as int);
        proof {
            assert(forall|k: int| 0 <= k < t.len() ==> t[k] == bytes@[v_from + k]);
        }
        let v_end = match find_byte(bytes, v_from, CR) {
            Some(i) => i,
            None => {
                return Err(ParseError::MalformedHeader);
            },
        };
        if v_end == v_from {
            return Err(ParseError::MalformedHeader);
        }
        let ghost j = v_end - v_from;
        if bytes.len() - v_end < 2 || bytes[v_end + 1] != LF {
            return Err(ParseError::MalformedHeader);
        }
        proof {
            assert(bytes@.take(n_end as int) =~= bytes@.subrange(0, n_end as int));
            assert(t.take(j) =~= bytes@.subrange(v_from as int, v_end as int));
        }
        let name = utf8_lossy(slice_subrange(bytes, 0, n_end));
        let value = utf8_lossy(slice_subrange(bytes, v_from, v_end));
        Ok((v_end + 2, Header { name, value }))
    }

    /// Parses the whole header block at the front of `bytes`: headers come
    /// back in input order; the offset points at the body, right past the
    /// blank line when there is one.
    pub fn parse_all(bytes: &[u8]) -> (r: Result<(usize, Vec<Header>), ParseError>)
        ensures
            match spec_headers(bytes@) {
                Some((pairs, c)) => match r {
                    Ok((n, hs)) => {
                        &&& n == c
                        &&& n <= bytes@.len()
                        &&& hs@.len() == pairs.len()
                        &&& forall|k: int|
                            0 <= k < pairs.len() ==> {
                                &&& (#[trigger] hs@[k]).name@ == lossy_utf8(pairs[k].0)
                                &&& (valid_utf8(pairs[k].0) ==> hs@[k].name@ == decode_utf8(
                                    pairs[k].0,
                                ))
                                &&& hs@[k].value@ == lossy_utf8(pairs[k].1)
                                &&& (valid_utf8(pairs[k].1) ==> hs@[k].value@ == decode_utf8(
                                    pairs[k].1,
                                ))
                            }
                    },
                    Err(_) => false,
                },
                None => r == Err::<(usize, Vec<Header>), ParseError>(ParseError::MalformedHeader),
            },
    {
        let mut headers: Vec<Header> = Vec::new();
        let mut i: usize = 0;
        let ghost mut pairs: Seq<(Seq<u8>, Seq<u8>)> = Seq::empty();
        proof {
            assert(bytes@.skip(0) =~= bytes@);
            if let Some((rest, c)) = spec_headers(bytes@) {
                assert(pairs + rest =~= rest);
            }
        }
        loop
            invariant
                i <= bytes@.len(),
                headers@.len() == pairs.len(),
                forall|k: int|
                    0 <= k < pairs.len() ==> {
                        &&& (#[trigger] headers@[k]).name@ == lossy_utf8(pairs[k].0)
                        &&& (valid_utf8(pairs[k].0) ==> headers@[k].name@ == decode_utf8(
                            pairs[k].0,
                        ))
                        &&& headers@[k].value@ == lossy_utf8(pairs[k].1)
                        &&& (valid_utf8(pairs[k].1) ==> headers@[k].value@ == decode_utf8(
                            pairs[k].1,
                        ))
                    },
                match spec_headers(bytes@.skip(i as int)) {
                    None => spec_headers(bytes@) is None,
                    Some((rest, c)) => spec_headers(bytes@) == Some((pairs + rest, i + c)),
                },
            decreases bytes@.len() - i,
        {
            let ghost s_i = bytes@.skip(i as int);
            proof {
                assert(forall|k: int| 0 <= k < s_i.len() ==> s_i[k] == bytes@[i + k]);
            }
            if bytes.len() - i >= 2 && bytes[i] == CR && bytes[i + 1] == LF {
                proof {
                    assert(spec_headers(s_i) == Some((Seq::<(Seq<u8>, Seq<u8>)>::empty(), 2int)));
                    assert(pairs + Seq::<(Seq<u8>, Seq<u8>)>::empty() =~= pairs);
                }
                return Ok((i + 2, headers));
            }
            if bytes.len() == i {
                proof {
                    assert(s_i.len() == 0);
                    assert(pairs + Seq::<(Seq<u8>, Seq<u8>)>::empty() =~= pairs);
                }
                return Ok((i, headers));
            }
            let sub = slice_subrange(bytes, i, bytes.len());
            match Header::from_bytes(sub) {
                Err(_) => {
                    proof {
                        lemma_spec_header_bounds(s_i);
                    }
                    return Err(ParseError::MalformedHeader);
                },
                Ok((n, h)) => {
                    let ghost trip: (Seq<u8>, Seq<u8>, int) = match spec_header(s_i) {
                        Some(t) => t,
                        None => vstd::pervasive::arbitrary(),
                    };
                    proof {
                        assert(spec_header(s_i) is Some);
                        assert(s_i.skip(n as int) =~= bytes@.skip(i + n));
                    }
                    headers.push(h);
                    proof {
                        pairs = pairs.push((trip.0, trip.1));
                        if let Some((rest2, c2)) = spec_headers(bytes@.skip(i + n)) {
                            assert(spec_headers(s_i) == Some(
                                (seq![(trip.0, trip.1)] + rest2, n + c2),
                            ));
                            assert(pairs + rest2 =~= pairs.drop_last() + (seq![(trip.0, trip.1)]
                                + rest2));
                        }
                    }
                    i = i + n;
                },
            }
        }
    }
}

} // verus!
