//! Building a structured `HttpResponse` and serializing it into wire text.
//!
//! The builder fixes the version to `HTTP/1.1`, resolves the status text
//! from the status code, and guarantees a `Content-type` header without
//! overwriting a caller-supplied one. The serializer is a total,
//! deterministic function: status line, then one `\r\n`-prefixed line per
//! header in insertion order, then — only when a body is present — a
//! computed `Content-length` header (unless some header key already contains
//! `Content-length`) and the `\r\n\r\n` separator followed by the raw body.
//! When there is no body, no trailing `\r\n\r\n` is emitted.

use crate::headers::{map_of, Headers};
use crate::strutil::{contains_at, contains_char, contains_seq, contains_str, ends_with, str_eq};
use vstd::pervasive::arbitrary;
use vstd::prelude::*;
use vstd::string::StringSliceAdditionalSpecFns;

verus! {

/// A structured HTTP response: status line fields, optional headers,
/// optional body.
#[derive(Debug, PartialEq)]
pub struct HttpResponse {
    /// The protocol version of the status line.
    pub version: String,
    /// The status code of the status line.
    pub status_code: String,
    /// The status text of the status line, derived from the code at
    /// construction time.
    pub status_text: String,
    /// The response headers, `None` until the builder has run.
    pub headers: Option<Headers>,
    /// The response body, passed through the builder unchanged.
    pub body: Option<String>,
}

/// The status text a code resolves to; codes outside the table map to a
/// neutral default.
pub open spec fn status_text_of(code: Seq<char>) -> Seq<char> {
    if code == "200"@ {
        "OK"@
    } else if code == "400"@ {
        "Bad Request"@
    } else if code == "404"@ {
        "Not Found"@
    } else if code == "500"@ {
        "Internal Server Error"@
    } else {
        "Unknown"@
    }
}

/// The header pairs a response will serialize, in insertion order.
pub open spec fn pairs_of(headers: Option<Headers>) -> Seq<(Seq<char>, Seq<char>)> {
    match headers {
        Some(h) => h.seq_view(),
        None => Seq::empty(),
    }
}

/// The status line: version, code and text, space-separated.
pub open spec fn spec_status_line(r: HttpResponse) -> Seq<char> {
    r.version@ + " "@ + r.status_code@ + " "@ + r.status_text@
}

/// The serialized header lines: `\r\n<key>: <value>` for each pair in order.
pub open spec fn header_block(pairs: Seq<(Seq<char>, Seq<char>)>) -> Seq<char>
    decreases pairs.len(),
{
    if pairs.len() == 0 {
        Seq::empty()
    } else {
        header_block(pairs.drop_last()) + "\r\n"@ + pairs.last().0 + ": "@ + pairs.last().1
    }
}

/// Some header key contains `Content-length` as a substring.
pub open spec fn has_content_length_key(pairs: Seq<(Seq<char>, Seq<char>)>) -> bool {
    exists|i: int| 0 <= i < pairs.len() && contains_seq(pairs[i].0, "Content-length"@)
}

/// The character standing for one decimal digit.
pub open spec fn digit_char(d: nat) -> char
    recommends
        d < 10,
{
    if d == 0 {
        '0'
    } else if d == 1 {
        '1'
    } else if d == 2 {
        '2'
    } else if d == 3 {
        '3'
    } else if d == 4 {
        '4'
    } else if d == 5 {
        '5'
    } else if d == 6 {
        '6'
    } else if d == 7 {
        '7'
    } else if d == 8 {
        '8'
    } else {
        '9'
    }
}

/// The decimal rendering of `n`, most significant digit first, no sign, no
/// leading zero except for zero itself.
pub open spec fn dec_str(n: nat) -> Seq<char>
    decreases n,
{
    if n < 10 {
        seq![digit_char(n)]
    } else {
        dec_str(n / 10) + seq![digit_char(n % 10)]
    }
}

/// The length in bytes of the UTF-8 encoding of `s`, which is what
/// `str::len` returns and what `Content-length` reports.
pub open spec fn byte_len(s: Seq<char>) -> nat {
    vstd::utf8::encode_utf8(s).len()
}

/// The wire text of a response: status line, header lines, and — only with
/// a body — a computed `Content-length` header (unless one is already
/// present) and the blank-line separator followed by the body.
pub open spec fn spec_serialize(r: HttpResponse) -> Seq<char> {
    let head = spec_status_line(r) + header_block(pairs_of(r.headers));
    match r.body {
        None => head,
        Some(b) => {
            let head2 = if has_content_length_key(pairs_of(r.headers)) {
                head
            } else {
                head + "\r\nContent-length: "@ + dec_str(byte_len(b@))
            };
            head2 + "\r\n\r\n"@ + b@
        },
    }
}

impl Default for HttpResponse {
    /// The default response: `HTTP/1.1 200 OK`, no headers, no body.
    fn default() -> (r: Self)
        ensures
            r.version@ == "HTTP/1.1"@,
            r.status_code@ == "200"@,
            r.status_text@ == "OK"@,
            r.headers is None,
            r.body is None,
    {
        HttpResponse {
            version: String::from_str("HTTP/1.1"),
            status_code: String::from_str("200"),
            status_text: String::from_str("OK"),
            headers: None,
            body: None,
        }
    }
}

/// The status text for a code, matching `status_text_of`.
fn status_text_for(code: &str) -> (t: String)
    ensures
        t@ == status_text_of(code@),
{
    if str_eq(code, "200") {
        String::from_str("OK")
    } else if str_eq(code, "400") {
        String::from_str("Bad Request")
    } else if str_eq(code, "404") {
        String::from_str("Not Found")
    } else if str_eq(code, "500") {
        String::from_str("Internal Server Error")
    } else {
        String::from_str("Unknown")
    }
}

/// One decimal digit as a string slice.
fn digit_literal(d: usize) -> (s: &'static str)
    requires
        d < 10,
    ensures
        s@ == seq![digit_char(d as nat)],
{
    proof {
        reveal_strlit("0");
        reveal_strlit("1");
        reveal_strlit("2");
        reveal_strlit("3");
        reveal_strlit("4");
        reveal_strlit("5");
        reveal_strlit("6");
        reveal_strlit("7");
        reveal_strlit("8");
        reveal_strlit("9");
    }
    let s = if d == 0 {
        "0"
    } else if d == 1 {
        "1"
    } else if d == 2 {
        "2"
    } else if d == 3 {
        "3"
    } else if d == 4 {
        "4"
    } else if d == 5 {
        "5"
    } else if d == 6 {
        "6"
    } else if d == 7 {
        "7"
    } else if d == 8 {
        "8"
    } else {
        "9"
    };
    proof {
        assert(s@ =~= seq![digit_char(d as nat)]);
    }
    s
}

/// The decimal rendering of `n`, matching `dec_str`.
fn usize_to_dec_string(n: usize) -> (s: String)
    ensures
        s@ == dec_str(n as nat),
    decreases n,
{
    if n < 10 {
        String::from_str(digit_literal(n))
    } else {
        let high = usize_to_dec_string(n / 10);
        let s = high.concat(digit_literal(n % 10));
        s
    }
}

impl HttpResponse {
    /// Build a response from a status code, optional headers and an optional
    /// body: the version is fixed to `HTTP/1.1`, the status text is resolved
    /// from the code, and the headers are guaranteed a `Content-type` entry
    /// (defaulting to `text/html`) without overwriting a caller-supplied one.
    pub fn new(status_code: &str, headers: Option<Headers>, body: Option<String>) -> (r:
        HttpResponse)
        ensures
            r.version@ == "HTTP/1.1"@,
            r.status_code@ == status_code@,
            r.status_text@ == status_text_of(status_code@),
            r.body == body,
            match (r.headers, headers) {
                (Some(rh), Some(h)) => rh.seq_view() == (if map_of(h.seq_view()).contains_key(
                    "Content-type"@,
                ) {
                    h.seq_view()
                } else {
                    h.seq_view().push(("Content-type"@, "text/html"@))
                }),
                (Some(rh), None) => rh.seq_view() == seq![("Content-type"@, "text/html"@)],
                _ => false,
            },
    {
        let status_text = status_text_for(status_code);
        let out_headers = match headers {
            Some(mut h) => {
                if !h.contains_key("Content-type") {
                    proof {
                        crate::headers::lemma_map_of_domain(h.seq_view());
                    }
                    h.insert(String::from_str("Content-type"), String::from_str("text/html"));
                }
                h
            },
            None => {
                let mut h = Headers::new();
                h.insert(String::from_str("Content-type"), String::from_str("text/html"));
                proof {
                    assert(h.seq_view() =~= seq![("Content-type"@, "text/html"@)]);
                }
                h
            },
        };
        HttpResponse {
            version: String::from_str("HTTP/1.1"),
            status_code: String::from_str(status_code),
            status_text,
            headers: Some(out_headers),
            body,
        }
    }

    /// Serialize the response into its wire text.
    pub fn serialize(&self) -> (out: String)
        ensures
            out@ == spec_serialize(*self),
    {
        let mut res = String::new();
        res.append(self.version.as_str());
        res.append(" ");
        res.append(self.status_code.as_str());
        res.append(" ");
        res.append(self.status_text.as_str());
        proof {
            assert(res@ =~= spec_status_line(*self));
        }
        let mut content_length_defined = false;
        match &self.headers {
            None => {
                proof {
                    assert(res@ =~= spec_status_line(*self) + header_block(
                        pairs_of(self.headers),
                    ));
                }
            },
            Some(h) => {
                let n = h.len();
                let ghost pairs = h.seq_view();
                let mut i: usize = 0;
                while i < n
                    invariant
                        i <= n,
                        n == pairs.len(),
                        pairs == h.seq_view(),
                        res@ == spec_status_line(*self) + header_block(pairs.take(i as int)),
                        content_length_defined == has_content_length_key(pairs.take(i as int)),
                    decreases n - i,
                {
                    let kv = h.pair_at(i);
                    if contains_str(kv.0.as_str(), "Content-length") {
                        content_length_defined = true;
                    }
                    res.append("\r\n");
                    res.append(kv.0.as_str());
                    res.append(": ");
                    res.append(kv.1.as_str());
                    proof {
                        assert(pairs.take(i as int + 1).drop_last() =~= pairs.take(i as int));
                        assert(pairs.take(i as int + 1).last() == pairs[i as int]);
                        assert(res@ =~= spec_status_line(*self) + header_block(
                            pairs.take(i as int + 1),
                        ));
                        if has_content_length_key(pairs.take(i as int + 1))
                            && !has_content_length_key(pairs.take(i as int)) && !contains_seq(
                            pairs[i as int].0,
                            "Content-length"@,
                        ) {
                            let t = choose|t: int|
                                0 <= t < pairs.take(i as int + 1).len() && #[trigger] contains_seq(
                                    pairs.take(i as int + 1)[t].0,
                                    "Content-length"@,
                                );
                            assert(pairs.take(i as int)[t] == pairs.take(i as int + 1)[t]);
                        }
                        if contains_seq(pairs[i as int].0, "Content-length"@) {
                            assert(pairs.take(i as int + 1)[i as int] == pairs[i as int]);
                        }
                    }
                    i += 1;
                }
                proof {
                    assert(pairs.take(n as int) =~= pairs);
                }
            },
        }
        let ghost head = res@;
        proof {
            assert(head == spec_status_line(*self) + header_block(pairs_of(self.headers)));
            assert(content_length_defined == has_content_length_key(pairs_of(self.headers)));
        }
        match &self.body {
            None => {},
            Some(b) => {
                if !content_length_defined {
                    res.append("\r\nContent-length: ");
                    let bytes = b.as_str().as_bytes();
                    let blen = bytes.len();
                    proof {
                        broadcast use vstd::slice::axiom_spec_len;

                        assert(bytes@ == vstd::utf8::encode_utf8(b@));
                        assert(blen as nat == byte_len(b@));
                    }
                    let num = usize_to_dec_string(blen);
                    proof {
                        assert(num@ == dec_str(byte_len(b@)));
                    }
                    res.append(num.as_str());
                    proof {
                        assert(res@ =~= head + "\r\nContent-length: "@ + dec_str(byte_len(b@)));
                    }
                }
                res.append("\r\n\r\n");
                res.append(b.as_str());
            },
        }
        proof {
            assert(res@ =~= spec_serialize(*self));
        }
        res
    }

    /// Append the serialized wire text of the response to a sink.
    pub fn send_response(&self, writer: &mut String)
        ensures
            final(writer)@ == old(writer)@ + spec_serialize(*self),
    {
        let out = self.serialize();
        writer.append(out.as_str());
    }
}

/// Serialization is a function of the response's field values alone: two
/// responses built from equal inputs serialize to byte-identical wire text.
/// Header order is part of the input here, since `Headers` preserves
/// insertion order.
pub proof fn lemma_serialize_deterministic(r1: HttpResponse, r2: HttpResponse)
    requires
        r1.version@ == r2.version@,
        r1.status_code@ == r2.status_code@,
        r1.status_text@ == r2.status_text@,
        pairs_of(r1.headers) == pairs_of(r2.headers),
        match (r1.body, r2.body) {
            (None, None) => true,
            (Some(b1), Some(b2)) => b1@ == b2@,
            _ => false,
        },
    ensures
        spec_serialize(r1) == spec_serialize(r2),
{
    assert(spec_status_line(r1) == spec_status_line(r2));
}

/// Content-length invariant: for every body, when no header key already
/// contains `Content-length`, the wire text contains `Content-length: `
/// followed by the exact byte length of the body.
pub proof fn lemma_content_length_emitted(r: HttpResponse, b: String)
    requires
        r.body == Some(b),
        !has_content_length_key(pairs_of(r.headers)),
    ensures
        contains_seq(spec_serialize(r), "Content-length: "@ + dec_str(byte_len(b@))),
{
    reveal_strlit("\r\nContent-length: ");
    reveal_strlit("Content-length: ");
    let pre = "\r\nContent-length: "@;
    let cl = "Content-length: "@;
    assert(pre.skip(2) =~= cl);
    let dec = dec_str(byte_len(b@));
    let head = spec_status_line(r) + header_block(pairs_of(r.headers));
    let out = spec_serialize(r);
    assert(out =~= head + pre + dec + "\r\n\r\n"@ + b@);
    let i = head.len() as int + 2;
    let needle = cl + dec;
    assert(out.subrange(i, i + needle.len()) =~= needle);
    assert(contains_at(out, i, needle));
}

/// The last character of the serialized header lines comes from the last
/// value (or from the `: ` separator) and is never a line feed.
proof fn lemma_header_block_last(pairs: Seq<(Seq<char>, Seq<char>)>)
    requires
        pairs.len() > 0,
        !contains_char(pairs.last().1, '\n'),
    ensures
        header_block(pairs).len() > 0,
        header_block(pairs)[header_block(pairs).len() - 1] != '\n',
{
    reveal_strlit("\r\n");
    reveal_strlit(": ");
    let hb = header_block(pairs);
    let v = pairs.last().1;
    if v.len() > 0 {
        assert(hb[hb.len() - 1] == v[v.len() - 1]);
        if v[v.len() - 1] == '\n' {
            assert(contains_char(v, '\n'));
        }
    } else {
        assert(hb[hb.len() - 1] == ": "@[1]);
    }
}

/// No-body invariant: without a body the wire text ends with the last
/// header line (or the status line) and never with a blank `\r\n\r\n`
/// separator. Values and the status text are assumed free of line feeds, as
/// every wire-legal header is.
pub proof fn lemma_no_body_no_blank_line(r: HttpResponse)
    requires
        r.body is None,
        !contains_char(r.status_text@, '\n'),
        forall|i: int|
            0 <= i < pairs_of(r.headers).len() ==> !contains_char(
                #[trigger] pairs_of(r.headers)[i].1,
                '\n',
            ),
    ensures
        !ends_with(spec_serialize(r), "\r\n\r\n"@),
{
    reveal_strlit("\r\n\r\n");
    reveal_strlit(" ");
    let out = spec_serialize(r);
    let pairs = pairs_of(r.headers);
    let status = spec_status_line(r);
    assert(out == status + header_block(pairs));
    let t = r.status_text@;
    if pairs.len() == 0 {
        assert(header_block(pairs).len() == 0);
        assert(out =~= status);
        if t.len() > 0 {
            assert(out[out.len() - 1] == t[t.len() - 1]);
            if t[t.len() - 1] == '\n' {
                assert(contains_char(t, '\n'));
            }
        } else {
            assert(out[out.len() - 1] == " "@[0]);
        }
    } else {
        assert(!contains_char(pairs[pairs.len() - 1].1, '\n'));
        lemma_header_block_last(pairs);
        assert(out[out.len() - 1] == header_block(pairs)[header_block(pairs).len() - 1]);
    }
    if ends_with(out, "\r\n\r\n"@) {
        assert(out.skip(out.len() - 4) == "\r\n\r\n"@);
        assert(out[out.len() - 1] == out.skip(out.len() - 4)[3]);
        assert(out[out.len() - 1] == '\n');
    }
}

impl From<HttpResponse> for String {
    /// Serialize the response, as [`HttpResponse::serialize`] does.
    fn from(hrp: HttpResponse) -> (s: String)
        ensures
            s@ == spec_serialize(hrp),
    {
        hrp.serialize()
    }
}

// Spec code cannot construct the owned `String` result, so the trait-level
// contract is left disabled; `from` carries its contract directly.
impl vstd::std_specs::convert::FromSpecImpl<HttpResponse> for String {
    open spec fn obeys_from_spec() -> bool {
        false
    }

    open spec fn from_spec(r: HttpResponse) -> String {
        arbitrary()
    }
}

} // verus!
