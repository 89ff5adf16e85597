//! Responses and their wire form.
//!
//! A response is a status code, an ordered list of headers and a body. On the
//! wire it is `HTTP/1.1 <code> <reason>\r\n`, one `Name: Value\r\n` line per
//! header, a blank line, then the body bytes. `render` writes that form;
//! `parse_status_line` reads a status line back, and the round-trip law at
//! the end says that parsing what `render` wrote gives the triple back.

use vstd::prelude::*;

verus! {

use vstd::string::{StrSliceExecFns, StringExecFns, StringSliceAdditionalSpecFns};
use vstd::utf8::{
    encode_utf8,
    encode_scalar,
    decode_utf8,
    is_scalar,
    char_is_scalar,
    has_width_1_encoding,
    encode_utf8_decode_utf8,
};
use crate::http::{
    Header,
    lemma_spec_find_is,
    spec_header,
    spec_headers,
    CR,
    LF,
    SP,
    COLON,
};

/// One response, ready to be written to a socket.
#[derive(Debug)]
pub struct Response {
    pub status: u16,
    pub headers: Vec<Header>,
    pub body: Vec<u8>,
}

/// The status codes this server sends.
pub open spec fn valid_status(status: u16) -> bool {
    status == 200 || status == 201 || status == 400 || status == 404 || status == 500
}

/// The status line, reason phrase and CRLF included, for each status; every
/// code outside the set is written as an internal error.
pub open spec fn status_text(status: u16) -> Seq<char> {
    if status == 200 {
        "HTTP/1.1 200 OK\r\n"@
    } else if status == 201 {
        "HTTP/1.1 201 Created\r\n"@
    } else if status == 400 {
        "HTTP/1.1 400 Bad Request\r\n"@
    } else if status == 404 {
        "HTTP/1.1 404 Not Found\r\n"@
    } else {
        "HTTP/1.1 500 Internal Server Error\r\n"@
    }
}

pub open spec fn status_bytes(status: u16) -> Seq<u8> {
    encode_utf8(status_text(status))
}

/// One rendered header line.
pub open spec fn header_text(h: Header) -> Seq<char> {
    h.name@ + ": "@ + h.value@ + "\r\n"@
}

pub open spec fn headers_text(hs: Seq<Header>) -> Seq<char>
    decreases hs.len(),
{
    if hs.len() == 0 {
        Seq::empty()
    } else {
        header_text(hs[0]) + headers_text(hs.drop_first())
    }
}

/// The whole wire form of a `(status, headers, body)` triple.
pub open spec fn spec_render(status: u16, hs: Seq<Header>, body: Seq<u8>) -> Seq<u8> {
    encode_utf8(status_text(status) + headers_text(hs) + "\r\n"@) + body
}

/// True when no character of `s` is the ASCII character with code `b`.
pub open spec fn no_char(s: Seq<char>, b: u8) -> bool {
    forall|i: int| 0 <= i < s.len() ==> (#[trigger] s[i]) as u32 != b as u32
}

/// A header whose line parses back unambiguously: a non-empty name without
/// `:` or `\r`, and a non-empty value without `\r`.
pub open spec fn wf_header(h: Header) -> bool {
    &&& h.name@.len() > 0
    &&& no_char(h.name@, COLON)
    &&& no_char(h.name@, CR)
    &&& h.value@.len() > 0
    &&& no_char(h.value@, CR)
}

pub proof fn lemma_headers_text_concat(a: Seq<Header>, b: Seq<Header>)
    ensures
        headers_text(a + b) == headers_text(a) + headers_text(b),
    decreases a.len(),
{
    if a.len() == 0 {
        assert(a + b =~= b);
        assert(headers_text(a) + headers_text(b) =~= headers_text(b));
    } else {
        assert((a + b).drop_first() =~= a.drop_first() + b);
        lemma_headers_text_concat(a.drop_first(), b);
        assert((a + b)[0] == a[0]);
        assert(header_text(a[0]) + (headers_text(a.drop_first()) + headers_text(b)) =~= (
        header_text(a[0]) + headers_text(a.drop_first())) + headers_text(b));
    }
}

pub proof fn lemma_encode_utf8_concat(a: Seq<char>, b: Seq<char>)
    ensures
        encode_utf8(a + b) == encode_utf8(a) + encode_utf8(b),
    decreases a.len(),
{
    if a.len() == 0 {
        assert(a + b =~= b);
        assert(encode_utf8(a) + encode_utf8(b) =~= encode_utf8(b));
    } else {
        assert((a + b).drop_first() =~= a.drop_first() + b);
        lemma_encode_utf8_concat(a.drop_first(), b);
        assert((a + b)[0] == a[0]);
        assert(encode_scalar(a[0] as u32) + (encode_utf8(a.drop_first()) + encode_utf8(b)) =~= (
        encode_scalar(a[0] as u32) + encode_utf8(a.drop_first())) + encode_utf8(b));
    }
}

proof fn lemma_encode_scalar_absent(s: u32, b: u8)
    requires
        b < 0x80,
        is_scalar(s),
        s != b as u32,
    ensures
        forall|k: int| 0 <= k < encode_scalar(s).len() ==> encode_scalar(s)[k] != b,
{
    if has_width_1_encoding(s) {
        assert((s & 0x7F) as u8 != b) by (bit_vector)
            requires
                s <= 0x7F,
                b < 0x80,
                s != b as u32,
        ;
    } else {
        assert forall|z: u8| (0xC0u8 | z) != b && (0xE0u8 | z) != b && (0xF0u8 | z) != b && (
        0x80u8 | z) != b by {
            assert((0xC0u8 | z) != b && (0xE0u8 | z) != b && (0xF0u8 | z) != b && (0x80u8 | z)
                != b) by (bit_vector)
                requires
                    b < 0x80,
            ;
        }
    }
}

/// An ASCII byte that encodes no character of `s` does not occur in the
/// UTF-8 encoding of `s` at all.
pub proof fn lemma_encode_utf8_absent(chars: Seq<char>, b: u8)
    requires
        b < 0x80,
        no_char(chars, b),
    ensures
        forall|k: int| 0 <= k < encode_utf8(chars).len() ==> encode_utf8(chars)[k] != b,
    decreases chars.len(),
{
    if chars.len() == 0 {
    } else {
        char_is_scalar(chars[0]);
        lemma_encode_scalar_absent(chars[0] as u32, b);
        assert(forall|i: int|
            0 <= i < chars.drop_first().len() ==> chars.drop_first()[i] == chars[i + 1]);
        lemma_encode_utf8_absent(chars.drop_first(), b);
        let head = encode_scalar(chars[0] as u32);
        let tail = encode_utf8(chars.drop_first());
        assert forall|k: int| 0 <= k < encode_utf8(chars).len() implies encode_utf8(chars)[k]
            != b by {
            assert(encode_utf8(chars) == head + tail);
            if k < head.len() {
                assert(encode_utf8(chars)[k] == head[k]);
            } else {
                assert(encode_utf8(chars)[k] == tail[k - head.len()]);
            }
        }
    }
}

pub proof fn lemma_encode_utf8_nonempty(chars: Seq<char>)
    requires
        chars.len() > 0,
    ensures
        encode_utf8(chars).len() > 0,
{
    char_is_scalar(chars[0]);
}

impl Response {
    /// Writes the response in its wire form: status line, header lines, a
    /// blank line, then the body.
    pub fn render(&self) -> (out: Vec<u8>)
        ensures
            out@ == spec_render(self.status, self.headers@, self.body@),
    {
        let mut text = String::new();
        let line: &str = if self.status == 200 {
            "HTTP/1.1 200 OK\r\n"
        } else if self.status == 201 {
            "HTTP/1.1 201 Created\r\n"
        } else if self.status == 400 {
            "HTTP/1.1 400 Bad Request\r\n"
        } else if self.status == 404 {
            "HTTP/1.1 404 Not Found\r\n"
        } else {
            "HTTP/1.1 500 Internal Server Error\r\n"
        };
        text.append(line);
        let count = self.headers.len();
        let mut i: usize = 0;
        while i < count
            invariant
                i <= count,
                count == self.headers@.len(),
                text@ == status_text(self.status) + headers_text(self.headers@.take(i as int)),
            decreases count - i,
        {
            let h = &self.headers[i];
            text.append(h.name.as_str());
            text.append(": ");
            text.append(h.value.as_str());
            text.append("\r\n");
            proof {
                let hs = self.headers@;
                assert(hs.take(i + 1) =~= hs.take(i as int) + seq![hs[i as int]]);
                lemma_headers_text_concat(hs.take(i as int), seq![hs[i as int]]);
                assert(seq![hs[i as int]].drop_first() =~= Seq::<Header>::empty());
                assert(seq![hs[i as int]][0] == hs[i as int]);
                assert(headers_text(Seq::<Header>::empty()) =~= Seq::<char>::empty());
                assert(headers_text(seq![hs[i as int]]) =~= header_text(hs[i as int]) + Seq::<
                    char,
                >::empty());
                assert(header_text(hs[i as int]) + Seq::<char>::empty() =~= header_text(
                    hs[i as int],
                ));
                assert(text@ =~= status_text(self.status) + headers_text(hs.take(i + 1)));
            }
            i = i + 1;
        }
        text.append("\r\n");
        proof {
            assert(self.headers@.take(count as int) =~= self.headers@);
            assert(text@ =~= status_text(self.status) + headers_text(self.headers@) + "\r\n"@);
        }
        let mut out = text.as_str().as_bytes_vec();
        let blen = self.body.len();
        let mut j: usize = 0;
        while j < blen
            invariant
                j <= blen,
                blen == self.body@.len(),
                out@ == encode_utf8(status_text(self.status) + headers_text(self.headers@)
                    + "\r\n"@) + self.body@.take(j as int),
            decreases blen - j,
        {
            out.push(self.body[j]);
            proof {
                assert(self.body@.take(j + 1) =~= self.body@.take(j as int) + seq![
                    self.body@[j as int],
                ]);
            }
            j = j + 1;
        }
        proof {
            assert(self.body@.take(blen as int) =~= self.body@);
        }
        out
    }
}

/// True when `p` is a prefix of `s`.
pub open spec fn bytes_prefix(s: Seq<u8>, p: Seq<u8>) -> bool {
    p.len() <= s.len() && s.take(p.len() as int) == p
}

/// Parse of a status line at the front of `s`: the status code and the
/// number of bytes consumed, for the status lines this server writes.
pub open spec fn spec_status_line(s: Seq<u8>) -> Option<(u16, int)> {
    if bytes_prefix(s, status_bytes(200)) {
        Some((200u16, status_bytes(200).len() as int))
    } else if bytes_prefix(s, status_bytes(201)) {
        Some((201u16, status_bytes(201).len() as int))
    } else if bytes_prefix(s, status_bytes(400)) {
        Some((400u16, status_bytes(400).len() as int))
    } else if bytes_prefix(s, status_bytes(404)) {
        Some((404u16, status_bytes(404).len() as int))
    } else if bytes_prefix(s, status_bytes(500)) {
        Some((500u16, status_bytes(500).len() as int))
    } else {
        None
    }
}

proof fn lemma_crlf_bytes()
    ensures
        encode_utf8("\r\n"@).len() == 2,
        encode_utf8("\r\n"@)[0] == CR,
        encode_utf8("\r\n"@)[1] == LF,
{
    reveal_strlit("\r\n");
    assert(vstd::utf8::is_ascii_chars("\r\n"@));
    vstd::utf8::is_ascii_chars_encode_utf8("\r\n"@);
}

proof fn lemma_colon_sp_bytes()
    ensures
        encode_utf8(": "@).len() == 2,
        encode_utf8(": "@)[0] == COLON,
        encode_utf8(": "@)[1] == SP,
{
    reveal_strlit(": ");
    assert(vstd::utf8::is_ascii_chars(": "@));
    vstd::utf8::is_ascii_chars_encode_utf8(": "@);
}

/// Parsing the rendered header block gives the raw pairs back, one per
/// header, in order, with the body starting right after the blank line.
pub proof fn lemma_headers_round_trip(hs: Seq<Header>, body: Seq<u8>)
    requires
        forall|i: int| 0 <= i < hs.len() ==> wf_header(#[trigger] hs[i]),
    ensures
        ({
            let r = encode_utf8(headers_text(hs) + "\r\n"@) + body;
            match spec_headers(r) {
                Some((pairs, c)) => {
                    &&& pairs.len() == hs.len()
                    &&& forall|i: int|
                        0 <= i < hs.len() ==> (#[trigger] pairs[i]).0 == encode_utf8(hs[i].name@)
                            && pairs[i].1 == encode_utf8(hs[i].value@)
                    &&& r.skip(c) == body
                },
                None => false,
            }
        }),
    decreases hs.len(),
{
    lemma_crlf_bytes();
    lemma_colon_sp_bytes();
    let crlf_b = encode_utf8("\r\n"@);
    let r = encode_utf8(headers_text(hs) + "\r\n"@) + body;
    if hs.len() == 0 {
        assert(headers_text(hs) + "\r\n"@ =~= "\r\n"@);
        assert(r[0] == CR && r[1] == LF);
        assert(spec_headers(r) == Some((Seq::<(Seq<u8>, Seq<u8>)>::empty(), 2int)));
        assert(r.skip(2) =~= body);
    } else {
        let h = hs[0];
        let rest = hs.drop_first();
        assert(wf_header(h));
        assert(forall|i: int| 0 <= i < rest.len() ==> rest[i] == hs[i + 1]);
        let nm = encode_utf8(h.name@);
        let cs = encode_utf8(": "@);
        let vl = encode_utf8(h.value@);
        let tail_chars = headers_text(rest) + "\r\n"@;
        let tail = encode_utf8(tail_chars) + body;
        assert(headers_text(hs) == header_text(h) + headers_text(rest));
        assert(headers_text(hs) + "\r\n"@ =~= h.name@ + (": "@ + (h.value@ + ("\r\n"@
            + tail_chars))));
        lemma_encode_utf8_concat(h.name@, ": "@ + (h.value@ + ("\r\n"@ + tail_chars)));
        lemma_encode_utf8_concat(": "@, h.value@ + ("\r\n"@ + tail_chars));
        lemma_encode_utf8_concat(h.value@, "\r\n"@ + tail_chars);
        lemma_encode_utf8_concat("\r\n"@, tail_chars);
        assert(r =~= nm + cs + vl + crlf_b + tail);
        let ln = nm.len() as int;
        let lv = vl.len() as int;
        lemma_encode_utf8_nonempty(h.name@);
        lemma_encode_utf8_nonempty(h.value@);
        lemma_encode_utf8_absent(h.name@, COLON);
        lemma_encode_utf8_absent(h.name@, CR);
        lemma_encode_utf8_absent(h.value@, CR);
        assert(r[ln] == COLON);
        assert forall|j: int| 0 <= j < ln implies r[j] != COLON by {
            assert(r[j] == nm[j]);
        }
        lemma_spec_find_is(r, COLON, ln);
        assert(r[ln + 1] == SP);
        let t = r.skip(ln + 2);
        assert(t =~= vl + crlf_b + tail);
        assert(t[lv] == CR);
        assert forall|j: int| 0 <= j < lv implies t[j] != CR by {
            assert(t[j] == vl[j]);
        }
        lemma_spec_find_is(t, CR, lv);
        assert(t[lv + 1] == LF);
        assert(r.take(ln) =~= nm);
        assert(t.take(lv) =~= vl);
        assert(spec_header(r) == Some((nm, vl, ln + lv + 4)));
        assert(r[0] == nm[0]);
        assert(r[0] != CR);
        let c0 = ln + lv + 4;
        assert(r.skip(c0) =~= tail);
        lemma_headers_round_trip(rest, body);
        crate::http::lemma_spec_headers_bounds(tail);
        match spec_headers(tail) {
            Some((pairs_r, c_r)) => {
                assert(spec_headers(r) == Some((seq![(nm, vl)] + pairs_r, c0 + c_r)));
                let pairs = seq![(nm, vl)] + pairs_r;
                assert forall|i: int|
                    0 <= i < hs.len() implies (#[trigger] pairs[i]).0 == encode_utf8(hs[i].name@)
                    && pairs[i].1 == encode_utf8(hs[i].value@) by {
                    if i == 0 {
                        assert(pairs[0] == (nm, vl));
                    } else {
                        assert(pairs[i] == pairs_r[i - 1]);
                        assert(rest[i - 1] == hs[i]);
                    }
                }
                assert(r.skip(c0 + c_r) =~= tail.skip(c_r));
            },
            None => {
                assert(false);
            },
        }
    }
}

proof fn lemma_status_line_bytes()
    ensures
        11 < status_bytes(200).len(),
        status_bytes(200)[9] == 50,
        status_bytes(200)[11] == 48,
        11 < status_bytes(201).len(),
        status_bytes(201)[9] == 50,
        status_bytes(201)[11] == 49,
        11 < status_bytes(400).len(),
        status_bytes(400)[9] == 52,
        status_bytes(400)[11] == 48,
        11 < status_bytes(404).len(),
        status_bytes(404)[9] == 52,
        status_bytes(404)[11] == 52,
        11 < status_bytes(500).len(),
        status_bytes(500)[9] == 53,
{
    reveal_strlit("HTTP/1.1 200 OK\r\n");
    reveal_strlit("HTTP/1.1 201 Created\r\n");
    reveal_strlit("HTTP/1.1 400 Bad Request\r\n");
    reveal_strlit("HTTP/1.1 404 Not Found\r\n");
    reveal_strlit("HTTP/1.1 500 Internal Server Error\r\n");
    assert(vstd::utf8::is_ascii_chars("HTTP/1.1 200 OK\r\n"@));
    assert(vstd::utf8::is_ascii_chars("HTTP/1.1 201 Created\r\n"@));
    assert(vstd::utf8::is_ascii_chars("HTTP/1.1 400 Bad Request\r\n"@));
    assert(vstd::utf8::is_ascii_chars("HTTP/1.1 404 Not Found\r\n"@));
    assert(vstd::utf8::is_ascii_chars("HTTP/1.1 500 Internal Server Error\r\n"@));
    vstd::utf8::is_ascii_chars_encode_utf8("HTTP/1.1 200 OK\r\n"@);
    vstd::utf8::is_ascii_chars_encode_utf8("HTTP/1.1 201 Created\r\n"@);
    vstd::utf8::is_ascii_chars_encode_utf8("HTTP/1.1 400 Bad Request\r\n"@);
    vstd::utf8::is_ascii_chars_encode_utf8("HTTP/1.1 404 Not Found\r\n"@);
    vstd::utf8::is_ascii_chars_encode_utf8("HTTP/1.1 500 Internal Server Error\r\n"@);
}

/// Round trip: rendering a `(status, headers, body)` triple and parsing the
/// result back reproduces the status, every header name and value in order,
/// and leaves the remaining bytes exactly at the body.
pub proof fn lemma_render_round_trip(status: u16, hs: Seq<Header>, body: Seq<u8>)
    requires
        valid_status(status),
        forall|i: int| 0 <= i < hs.len() ==> wf_header(#[trigger] hs[i]),
    ensures
        ({
            let out = spec_render(status, hs, body);
            let sl = status_bytes(status).len() as int;
            &&& spec_status_line(out) == Some((status, sl))
            &&& match spec_headers(out.skip(sl)) {
                Some((pairs, c)) => {
                    &&& pairs.len() == hs.len()
                    &&& forall|i: int|
                        0 <= i < hs.len() ==> (#[trigger] pairs[i]).0 == encode_utf8(hs[i].name@)
                            && decode_utf8(pairs[i].0) == hs[i].name@ && pairs[i].1 == encode_utf8(
                            hs[i].value@,
                        ) && decode_utf8(pairs[i].1) == hs[i].value@
                    &&& out.skip(sl).skip(c) == body
                },
                None => false,
            }
        }),
{
    let out = spec_render(status, hs, body);
    let sb = status_bytes(status);
    let sl = sb.len() as int;
    let rest = encode_utf8(headers_text(hs) + "\r\n"@) + body;
    assert(status_text(status) + headers_text(hs) + "\r\n"@ =~= status_text(status) + (
    headers_text(hs) + "\r\n"@));
    lemma_encode_utf8_concat(status_text(status), headers_text(hs) + "\r\n"@);
    assert(out =~= sb + rest);
    lemma_status_line_bytes();
    assert(out.take(sl) =~= sb);
    assert(bytes_prefix(out, sb));
    if status != 200 {
        assert(!bytes_prefix(out, status_bytes(200))) by {
            if bytes_prefix(out, status_bytes(200)) {
                let p = status_bytes(200);
                assert(out.take(p.len() as int)[9] == out[9]);
                assert(out.take(p.len() as int)[11] == out[11]);
                assert(out[9] == sb[9] && out[11] == sb[11]);
                assert(false);
            }
        }
    }
    if status == 400 || status == 404 || status == 500 {
        assert(!bytes_prefix(out, status_bytes(201))) by {
            if bytes_prefix(out, status_bytes(201)) {
                let p = status_bytes(201);
                assert(out.take(p.len() as int)[9] == out[9]);
                assert(out.take(p.len() as int)[11] == out[11]);
                assert(out[9] == sb[9] && out[11] == sb[11]);
                assert(false);
            }
        }
    }
    if status == 404 || status == 500 {
        assert(!bytes_prefix(out, status_bytes(400))) by {
            if bytes_prefix(out, status_bytes(400)) {
                let p = status_bytes(400);
                assert(out.take(p.len() as int)[9] == out[9]);
                assert(out.take(p.len() as int)[11] == out[11]);
                assert(out[9] == sb[9] && out[11] == sb[11]);
                assert(false);
            }
        }
    }
    if status == 500 {
        assert(!bytes_prefix(out, status_bytes(404))) by {
            if bytes_prefix(out, status_bytes(404)) {
                let p = status_bytes(404);
                assert(out.take(p.len() as int)[9] == out[9]);
                assert(out.take(p.len() as int)[11] == out[11]);
                assert(out[9] == sb[9] && out[11] == sb[11]);
                assert(false);
            }
        }
    }
    assert(spec_status_line(out) == Some((status, sl)));
    lemma_headers_round_trip(hs, body);
    assert(out.skip(sl) =~= rest);
    match spec_headers(rest) {
        Some((pairs, c)) => {
            assert forall|i: int|
                0 <= i < hs.len() implies (#[trigger] pairs[i]).0 == encode_utf8(hs[i].name@)
                && decode_utf8(pairs[i].0) == hs[i].name@ && pairs[i].1 == encode_utf8(
                hs[i].value@,
            ) && decode_utf8(pairs[i].1) == hs[i].value@ by {
                encode_utf8_decode_utf8(hs[i].name@);
                encode_utf8_decode_utf8(hs[i].value@);
            }
        },
        None => {
            assert(false);
        },
    }
}

/// A rendered response that declares its body length declares it truly:
/// after the round trip, the `Content-Length` value reads back as exactly
/// the length of the bytes that follow the blank line.
pub proof fn lemma_round_trip_content_length(status: u16, hs: Seq<Header>, body: Seq<u8>, i: int)
    requires
        valid_status(status),
        forall|k: int| 0 <= k < hs.len() ==> wf_header(#[trigger] hs[k]),
        0 <= i < hs.len(),
        hs[i].name@ == "Content-Length"@,
        hs[i].value@ == crate::text::dec_digits(body.len()),
    ensures
        ({
            let out = spec_render(status, hs, body);
            let sl = status_bytes(status).len() as int;
            match spec_headers(out.skip(sl)) {
                Some((pairs, c)) => {
                    &&& decode_utf8(pairs[i].0) == "Content-Length"@
                    &&& crate::text::dec_value(decode_utf8(pairs[i].1)) == out.skip(sl).skip(
                        c,
                    ).len()
                },
                None => false,
            }
        }),
{
    lemma_render_round_trip(status, hs, body);
    crate::text::lemma_dec_digits_value(body.len());
}

/// Byte-for-byte prefix test against a literal's UTF-8 bytes.
fn bytes_have_prefix(s: &[u8], lit: &str) -> (r: bool)
    ensures
        r == bytes_prefix(s@, lit.spec_bytes()),
{
    let lb = lit.as_bytes();
    let plen = lb.len();
    if plen > s.len() {
        return false;
    }
    let mut i: usize = 0;
    while i < plen
        invariant
            i <= plen,
            plen == lb@.len(),
            plen <= s@.len(),
            lb@ == lit.spec_bytes(),
            forall|k: int| 0 <= k < i ==> s@[k] == lb@[k],
        decreases plen - i,
    {
        if s[i] != lb[i] {
            proof {
                assert(s@.take(plen as int)[i as int] == s@[i as int]);
            }
            return false;
        }
        i = i + 1;
    }
    proof {
        assert(s@.take(plen as int) =~= lb@);
    }
    true
}

/// Reads a status line this server writes; returns the offset of the first
/// byte after the CRLF and the status code.
pub fn parse_status_line(bytes: &[u8]) -> (r: Option<(usize, u16)>)
    ensures
        match spec_status_line(bytes@) {
            Some((st, c)) => r == Some((c as usize, st)),
            None => r is None,
        },
{
    if bytes_have_prefix(bytes, "HTTP/1.1 200 OK\r\n") {
        let n = "HTTP/1.1 200 OK\r\n".as_bytes().len();
        Some((n, 200))
    } else if bytes_have_prefix(bytes, "HTTP/1.1 201 Created\r\n") {
        let n = "HTTP/1.1 201 Created\r\n".as_bytes().len();
        Some((n, 201))
    } else if bytes_have_prefix(bytes, "HTTP/1.1 400 Bad Request\r\n") {
        let n = "HTTP/1.1 400 Bad Request\r\n".as_bytes().len();
        Some((n, 400))
    } else if bytes_have_prefix(bytes, "HTTP/1.1 404 Not Found\r\n") {
        let n = "HTTP/1.1 404 Not Found\r\n".as_bytes().len();
        Some((n, 404))
    } else if bytes_have_prefix(bytes, "HTTP/1.1 500 Internal Server Error\r\n") {
        let n = "HTTP/1.1 500 Internal Server Error\r\n".as_bytes().len();
        Some((n, 500))
    } else {
        None
    }
}

} // verus!
