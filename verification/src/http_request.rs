//! Parsing a raw text buffer into a structured `HttpRequest`.
//!
//! The parse never fails: a buffer without a recognizable request line, with
//! malformed headers or with arbitrary noise degrades to partial or default
//! values. Lines are read one at a time (terminated by `\n`, with one
//! trailing `\r` removed); each line is classified, in priority order, as a
//! request line (it contains `HTTP`), a header line (it contains `:`), a body
//! line (any other non-empty line, appended to the body without a separator)
//! or an empty line (ignored). A request line that does not split into at
//! least three whitespace-separated tokens is skipped rather than trusted:
//! parsing stays total and never panics.

use crate::headers::Headers;
use crate::strutil::{
    contains_at, contains_char, contains_seq, contains_str, find_char, find_first,
    lemma_find_first, lemma_find_first_is, str_eq, tokens, trim_cr, split_whitespace_tokens,
};
use vstd::pervasive::{arbitrary, unreached};
use vstd::prelude::*;

verus! {

/// The HTTP verb of a request; an unrecognized first token maps to
/// `Invalid`, never to an error.
#[derive(Debug, PartialEq, Eq, Structural)]
pub enum Method {
    Get,
    Post,
    Invalid,
}

/// The protocol version of a request; an unrecognized third token maps to
/// `Invalid`, never to an error.
#[derive(Debug, PartialEq, Eq, Structural)]
pub enum Version {
    V1_1,
    V2_0,
    Invalid,
}

/// The method a token denotes: `GET`, `POST`, anything else `Invalid`.
pub open spec fn method_of(s: Seq<char>) -> Method {
    if s == "GET"@ {
        Method::Get
    } else if s == "POST"@ {
        Method::Post
    } else {
        Method::Invalid
    }
}

/// The version a token denotes: `HTTP/1.1`, `HTTP/2`, anything else `Invalid`.
pub open spec fn version_of(s: Seq<char>) -> Version {
    if s == "HTTP/1.1"@ {
        Version::V1_1
    } else if s == "HTTP/2"@ {
        Version::V2_0
    } else {
        Version::Invalid
    }
}

impl From<&str> for Method {
    /// Read an HTTP method from its token.
    fn from(s: &str) -> (m: Self) {
        if str_eq(s, "GET") {
            Method::Get
        } else if str_eq(s, "POST") {
            Method::Post
        } else {
            Method::Invalid
        }
    }
}

impl vstd::std_specs::convert::FromSpecImpl<&str> for Method {
    open spec fn obeys_from_spec() -> bool {
        true
    }

    open spec fn from_spec(s: &str) -> Method {
        method_of(s@)
    }
}

impl From<&str> for Version {
    /// Read an HTTP version from its token.
    fn from(s: &str) -> (v: Self) {
        if str_eq(s, "HTTP/1.1") {
            Version::V1_1
        } else if str_eq(s, "HTTP/2") {
            Version::V2_0
        } else {
            Version::Invalid
        }
    }
}

impl vstd::std_specs::convert::FromSpecImpl<&str> for Version {
    open spec fn obeys_from_spec() -> bool {
        true
    }

    open spec fn from_spec(s: &str) -> Version {
        version_of(s@)
    }
}

/// The request path, taken verbatim from the second request-line token:
/// no decoding, no query-string splitting.
#[derive(Debug)]
pub struct Resource(String);

impl View for Resource {
    type V = Seq<char>;

    closed spec fn view(&self) -> Seq<char> {
        self.0@
    }
}

impl Resource {
    /// The path as a string slice.
    pub fn as_str(&self) -> (s: &str)
        ensures
            s@ == self@,
    {
        self.0.as_str()
    }
}

impl PartialEq for Resource {
    /// Two resources are equal when they hold the same path.
    fn eq(&self, other: &Resource) -> (r: bool) {
        str_eq(self.0.as_str(), other.0.as_str())
    }
}

impl vstd::std_specs::cmp::PartialEqSpecImpl for Resource {
    open spec fn obeys_eq_spec() -> bool {
        true
    }

    open spec fn eq_spec(&self, other: &Resource) -> bool {
        self@ == other@
    }
}

impl From<&str> for Resource {
    /// Copy a path token into an owned resource.
    fn from(s: &str) -> (r: Self)
        ensures
            r@ == s@,
    {
        Resource(String::from_str(s))
    }
}

// A `Resource` holds an owned string, which spec code cannot construct, so
// the trait-level contract is left disabled; `from` carries its contract
// directly.
impl vstd::std_specs::convert::FromSpecImpl<&str> for Resource {
    open spec fn obeys_from_spec() -> bool {
        false
    }

    open spec fn from_spec(s: &str) -> Resource {
        arbitrary()
    }
}

/// The mathematical value of a parsed request.
pub ghost struct SpecRequest {
    pub method: Method,
    pub version: Version,
    pub resource: Seq<char>,
    pub headers: Map<Seq<char>, Seq<char>>,
    pub body: Option<Seq<char>>,
}

/// A parsed HTTP request.
pub struct HttpRequest {
    /// The HTTP verb of the request line.
    pub method: Method,
    /// The HTTP version of the request line.
    pub version: Version,
    /// The path requested.
    pub resource: Resource,
    /// The header mapping, keys unique, the last occurrence of a duplicate
    /// key winning.
    pub headers: Headers,
    /// The body: every non-empty line that is neither a request line nor a
    /// header line, concatenated without a separator; `None` when there was
    /// no such line.
    pub body: Option<String>,
}

impl View for HttpRequest {
    type V = SpecRequest;

    open spec fn view(&self) -> SpecRequest {
        SpecRequest {
            method: self.method,
            version: self.version,
            resource: self.resource@,
            headers: self.headers@,
            body: match self.body {
                Some(b) => Some(b@),
                None => None,
            },
        }
    }
}

/// The state every parse starts from: everything invalid or empty.
pub open spec fn init_request() -> SpecRequest {
    SpecRequest {
        method: Method::Invalid,
        version: Version::Invalid,
        resource: Seq::empty(),
        headers: Map::empty(),
        body: None,
    }
}

/// How one logical line changes the parse state, in the classification
/// priority order: request line, header line, body line, empty line.
pub open spec fn parse_step(st: SpecRequest, line: Seq<char>) -> SpecRequest {
    if contains_seq(line, "HTTP"@) {
        if tokens(line).len() >= 3 {
            SpecRequest {
                method: method_of(tokens(line)[0]),
                version: version_of(tokens(line)[2]),
                resource: tokens(line)[1],
                ..st
            }
        } else {
            st
        }
    } else if contains_char(line, ':') {
        let i = find_first(line, ':');
        SpecRequest { headers: st.headers.insert(line.take(i), line.skip(i + 1)), ..st }
    } else if line.len() != 0 {
        SpecRequest {
            body: match st.body {
                None => Some(line),
                Some(b) => Some(b + line),
            },
            ..st
        }
    } else {
        st
    }
}

#[via_fn]
proof fn parse_rec_decreases(s: Seq<char>, st: SpecRequest) {
    lemma_find_first(s, '\n');
}

/// Folding `parse_step` over the logical lines of `s`, starting from `st`:
/// lines end at `\n` and lose one trailing `\r`, the last line may be
/// unterminated.
pub open spec fn parse_rec(s: Seq<char>, st: SpecRequest) -> SpecRequest
    decreases s.len(),
        via parse_rec_decreases
{
    if s.len() == 0 {
        st
    } else {
        let i = find_first(s, '\n');
        if i == -1 {
            parse_step(st, trim_cr(s))
        } else {
            parse_rec(s.skip(i + 1), parse_step(st, trim_cr(s.take(i))))
        }
    }
}

/// The request that parsing the buffer `s` yields.
pub open spec fn parse_spec(s: Seq<char>) -> SpecRequest {
    parse_rec(s, init_request())
}

/// Split the request line into its three tokens and read method, version
/// and resource from them. A line with fewer than three tokens yields
/// `None`: the caller skips it.
pub fn process_request_line(req: &str) -> (r: Option<(Method, Version, Resource)>)
    ensures
        tokens(req@).len() >= 3 ==> match r {
            Some(t) => t.0 == method_of(tokens(req@)[0]) && t.1 == version_of(tokens(req@)[2])
                && t.2@ == tokens(req@)[1],
            None => false,
        },
        tokens(req@).len() < 3 ==> r is None,
{
    let toks = split_whitespace_tokens(req);
    proof {
        assert(toks.deep_view().len() == toks@.len());
    }
    if toks.len() < 3 {
        return None;
    }
    proof {
        assert(toks.deep_view()[0] == toks@[0]@);
        assert(toks.deep_view()[1] == toks@[1]@);
        assert(toks.deep_view()[2] == toks@[2]@);
    }
    let method = Method::from(toks[0].as_str());
    let version = Version::from(toks[2].as_str());
    let resource = Resource(toks[1].clone());
    Some((method, version, resource))
}

/// Split a `Key:Value` line at its first colon; the key is everything
/// before it, the value everything after it, neither side trimmed.
pub fn process_header_line(header: &str) -> (kv: (String, String))
    requires
        contains_char(header@, ':'),
    ensures
        ({
            let i = find_first(header@, ':');
            &&& kv.0@ == header@.take(i)
            &&& kv.1@ == header@.skip(i + 1)
        }),
{
    proof {
        lemma_find_first(header@, ':');
    }
    let i = match find_char(header, ':') {
        Some(i) => i,
        None => unreached(),
    };
    let len = header.unicode_len();
    let k = header.substring_char(0, i).to_owned();
    let v = header.substring_char(i + 1, len).to_owned();
    proof {
        assert(k@ =~= header@.take(i as int));
        assert(v@ =~= header@.skip(i as int + 1));
    }
    (k, v)
}

/// Classify one logical line and fold it into the request being built.
fn apply_line(req: &mut HttpRequest, line: &str)
    ensures
        final(req)@ == parse_step(old(req)@, line@),
{
    if contains_str(line, "HTTP") {
        match process_request_line(line) {
            Some((m, v, r)) => {
                req.method = m;
                req.version = v;
                req.resource = r;
            },
            None => {},
        }
    } else {
        proof {
            lemma_find_first(line@, ':');
        }
        match find_char(line, ':') {
            Some(_) => {
                let (k, v) = process_header_line(line);
                req.headers.insert(k, v);
            },
            None => {
                if line.unicode_len() != 0 {
                    let prev = req.body.take();
                    match prev {
                        Some(b) => {
                            req.body = Some(b.concat(line));
                        },
                        None => {
                            req.body = Some(line.to_owned());
                        },
                    }
                }
            },
        }
    }
}

/// Parse a raw text buffer into a request. Total: every buffer yields a
/// request, a missing or malformed request line leaving method and version
/// `Invalid` and the resource empty.
pub fn parse(raw: &str) -> (req: HttpRequest)
    ensures
        req@ == parse_spec(raw@),
{
    let mut req = HttpRequest {
        method: Method::Invalid,
        version: Version::Invalid,
        resource: Resource(String::new()),
        headers: Headers::new(),
        body: None,
    };
    proof {
        assert(req@ == init_request());
        assert(raw@.skip(0) =~= raw@);
    }
    let len = raw.unicode_len();
    let mut pos: usize = 0;
    while pos < len
        invariant
            pos <= len,
            len == raw@.len(),
            parse_rec(raw@.skip(pos as int), req@) == parse_spec(raw@),
        decreases len - pos,
    {
        let ghost rem = raw@.skip(pos as int);
        let nl = find_char_from(raw, pos);
        match nl {
            Some(j) => {
                proof {
                    lemma_find_first(rem, '\n');
                }
                let line_end = if j > pos && raw.get_char(j - 1) == '\r' {
                    j - 1
                } else {
                    j
                };
                let line = raw.substring_char(pos, line_end);
                proof {
                    let i = (j - pos) as int;
                    assert(rem.take(i) =~= raw@.subrange(pos as int, j as int));
                    if j > pos && raw@[j - 1] == '\r' {
                        assert(rem.take(i)[i - 1] == '\r');
                        assert(line@ =~= rem.take(i).take(i - 1));
                        assert(trim_cr(rem.take(i)) == line@);
                    } else {
                        if i > 0 {
                            assert(rem.take(i)[i - 1] == raw@[j - 1]);
                        }
                        assert(trim_cr(rem.take(i)) == line@);
                    }
                }
                apply_line(&mut req, line);
                proof {
                    assert(rem.skip((j - pos) as int + 1) =~= raw@.skip(j as int + 1));
                }
                pos = j + 1;
            },
            None => {
                proof {
                    lemma_find_first(rem, '\n');
                }
                let line_end = if raw.get_char(len - 1) == '\r' {
                    len - 1
                } else {
                    len
                };
                let line = raw.substring_char(pos, line_end);
                proof {
                    assert(rem =~= raw@.subrange(pos as int, len as int));
                    if raw@[len - 1] == '\r' {
                        assert(rem[rem.len() - 1] == '\r');
                        assert(line@ =~= rem.take(rem.len() - 1));
                        assert(trim_cr(rem) == line@);
                    } else {
                        assert(rem[rem.len() - 1] == raw@[len - 1]);
                        assert(trim_cr(rem) == line@);
                    }
                }
                apply_line(&mut req, line);
                pos = len;
                proof {
                    assert(raw@.skip(len as int) =~= Seq::<char>::empty());
                }
            },
        }
    }
    proof {
        assert(raw@.skip(pos as int) =~= Seq::<char>::empty());
    }
    req
}

/// Index of the first `\n` at or after `from`, matching `find_first` on the
/// suffix.
fn find_char_from(s: &str, from: usize) -> (r: Option<usize>)
    requires
        from <= s@.len(),
    ensures
        match r {
            Some(j) => from <= j < s@.len() && find_first(s@.skip(from as int), '\n') == j - from,
            None => find_first(s@.skip(from as int), '\n') == -1,
        },
{
    let len = s.unicode_len();
    let ghost rem = s@.skip(from as int);
    let mut i: usize = from;
    while i < len
        invariant
            from <= i <= len,
            len == s@.len(),
            rem == s@.skip(from as int),
            forall|t: int| 0 <= t < i - from ==> rem[t] != '\n',
        decreases len - i,
    {
        let c = s.get_char(i);
        proof {
            assert(rem[i - from] == s@[i as int]);
        }
        if c == '\n' {
            proof {
                crate::strutil::lemma_find_first_is(rem, '\n', i - from);
            }
            return Some(i);
        }
        i += 1;
    }
    proof {
        crate::strutil::lemma_find_first_none(rem, '\n');
    }
    None
}

/// `needle` cannot straddle a separator character it does not contain: an
/// occurrence in `a + [mid] + b` lies wholly in `a` or wholly in `b`.
pub proof fn lemma_no_cross(a: Seq<char>, b: Seq<char>, mid: char, needle: Seq<char>)
    requires
        !contains_char(needle, mid),
        !contains_seq(a, needle),
        !contains_seq(b, needle),
        needle.len() > 0,
    ensures
        !contains_seq(a + seq![mid] + b, needle),
{
    let full = a + seq![mid] + b;
    assert forall|i: int| !contains_at(full, i, needle) by {
        if 0 <= i && i + needle.len() <= full.len() {
            let p = a.len() as int;
            if i + needle.len() <= p {
                assert(full.subrange(i, i + needle.len()) =~= a.subrange(i, i + needle.len()));
                assert(!contains_at(a, i, needle));
            } else if i > p {
                assert(full.subrange(i, i + needle.len()) =~= b.subrange(
                    i - p - 1,
                    i - p - 1 + needle.len(),
                ));
                assert(!contains_at(b, i - p - 1, needle));
            } else {
                // the occurrence would cover the separator at position p
                if full.subrange(i, i + needle.len()) == needle {
                    assert(needle[p - i] == full[p]);
                    assert(full[p] == mid);
                    assert(contains_char(needle, mid));
                }
            }
        }
    }
}

/// Parsing a buffer whose every complete line has been consumed composes:
/// when `a` ends at a line boundary, parsing `a + b` is parsing `a`, then
/// parsing `b` from the state reached.
pub proof fn lemma_parse_rec_append(a: Seq<char>, b: Seq<char>, st: SpecRequest)
    requires
        a.len() == 0 || a[a.len() - 1] == '\n',
    ensures
        parse_rec(a + b, st) == parse_rec(b, parse_rec(a, st)),
    decreases a.len(),
{
    if a.len() == 0 {
        assert(a + b =~= b);
    } else {
        lemma_find_first(a, '\n');
        let i = find_first(a, '\n');
        assert(i != -1) by {
            if i == -1 {
                assert(!contains_char(a, '\n'));
                assert(a[a.len() - 1] == '\n');
            }
        }
        assert forall|j: int| 0 <= j < i implies (a + b)[j] != '\n' by {
            assert((a + b)[j] == a[j]);
        }
        assert((a + b)[i] == a[i]);
        lemma_find_first_is(a + b, '\n', i);
        assert((a + b).take(i) =~= a.take(i));
        assert((a + b).skip(i + 1) =~= a.skip(i + 1) + b);
        let rest = a.skip(i + 1);
        if rest.len() > 0 {
            assert(rest[rest.len() - 1] == a[a.len() - 1]);
        }
        lemma_parse_rec_append(rest, b, parse_step(st, trim_cr(a.take(i))));
    }
}

/// Parsing one `\r\n`-terminated line without an inner `\n` is exactly one
/// classification step.
pub proof fn lemma_parse_single_line(line: Seq<char>, st: SpecRequest)
    requires
        !contains_char(line, '\n'),
    ensures
        parse_rec(line + "\r\n"@, st) == parse_step(st, line),
{
    reveal_strlit("\r\n");
    let a = line + "\r\n"@;
    let n = line.len() as int;
    assert(a[n] == '\r');
    assert(a[n + 1] == '\n');
    assert forall|j: int| 0 <= j < n + 1 implies a[j] != '\n' by {
        if j < n {
            assert(a[j] == line[j]);
            if a[j] == '\n' {
                assert(contains_char(line, '\n'));
            }
        }
    }
    lemma_find_first_is(a, '\n', n + 1);
    assert(a.take(n + 1) =~= line + seq!['\r']);
    assert((line + seq!['\r'])[(line + seq!['\r']).len() - 1] == '\r');
    assert(trim_cr(line + seq!['\r']) =~= line);
    assert(a.skip(n + 2) =~= Seq::<char>::empty());
    let stepped = parse_step(st, line);
    assert(trim_cr(a.take(n + 1)) == line);
    assert(parse_rec(a, st) == parse_rec(a.skip(n + 2), stepped));
    assert(parse_rec(Seq::<char>::empty(), stepped) == stepped);
}

#[via_fn]
proof fn no_request_line_decreases(s: Seq<char>) {
    lemma_find_first(s, '\n');
}

/// No logical line of `s` contains `HTTP`: nothing in `s` can be classified
/// as a request line.
pub open spec fn no_request_line(s: Seq<char>) -> bool
    decreases s.len(),
        via no_request_line_decreases
{
    if s.len() == 0 {
        true
    } else {
        let i = find_first(s, '\n');
        if i == -1 {
            !contains_seq(trim_cr(s), "HTTP"@)
        } else {
            &&& !contains_seq(trim_cr(s.take(i)), "HTTP"@)
            &&& no_request_line(s.skip(i + 1))
        }
    }
}

/// A buffer without a request line leaves method, version and resource as
/// they were.
pub proof fn lemma_parse_rec_preserves(s: Seq<char>, st: SpecRequest)
    requires
        no_request_line(s),
    ensures
        parse_rec(s, st).method == st.method,
        parse_rec(s, st).version == st.version,
        parse_rec(s, st).resource == st.resource,
    decreases s.len(),
{
    if s.len() == 0 {
    } else {
        lemma_find_first(s, '\n');
        let i = find_first(s, '\n');
        if i == -1 {
        } else {
            lemma_parse_rec_preserves(s.skip(i + 1), parse_step(st, trim_cr(s.take(i))));
        }
    }
}

/// A valid request line embedded in a buffer is recovered exactly: whatever
/// complete lines precede it and whatever headers or body follow it, as long
/// as no other line contains `HTTP`, the parsed method, resource and version
/// are its three tokens.
pub proof fn lemma_parse_recovers_request_line(pre: Seq<char>, line: Seq<char>, rest: Seq<char>)
    requires
        pre.len() == 0 || pre[pre.len() - 1] == '\n',
        no_request_line(pre),
        !contains_char(line, '\n'),
        contains_seq(line, "HTTP"@),
        tokens(line).len() >= 3,
        no_request_line(rest),
    ensures
        parse_spec(pre + line + "\r\n"@ + rest).method == method_of(tokens(line)[0]),
        parse_spec(pre + line + "\r\n"@ + rest).resource == tokens(line)[1],
        parse_spec(pre + line + "\r\n"@ + rest).version == version_of(tokens(line)[2]),
{
    reveal_strlit("\r\n");
    let a = line + "\r\n"@;
    assert(a[a.len() - 1] == '\n');
    assert(pre + line + "\r\n"@ + rest =~= pre + (a + rest));
    lemma_parse_rec_append(pre, a + rest, init_request());
    let st0 = parse_rec(pre, init_request());
    lemma_parse_rec_append(a, rest, st0);
    lemma_parse_single_line(line, st0);
    let st1 = parse_step(st0, line);
    assert(st1.method == method_of(tokens(line)[0]));
    lemma_parse_rec_preserves(rest, st1);
}

/// The wire text of a header mapping: one `<key>:<value>\r\n` line per pair,
/// in order.
pub open spec fn headers_buffer(pairs: Seq<(Seq<char>, Seq<char>)>) -> Seq<char>
    decreases pairs.len(),
{
    if pairs.len() == 0 {
        Seq::empty()
    } else {
        headers_buffer(pairs.drop_last()) + pairs.last().0 + seq![':'] + pairs.last().1 + "\r\n"@
    }
}

/// A key is acceptable in a header line when it has no colon and no line
/// break; a value when it has no line break; and neither may contain `HTTP`,
/// which would reclassify the line as a request line.
pub open spec fn roundtrip_pair_ok(p: (Seq<char>, Seq<char>)) -> bool {
    &&& !contains_char(p.0, ':')
    &&& !contains_char(p.0, '\n')
    &&& !contains_char(p.1, '\n')
    &&& !contains_seq(p.0, "HTTP"@)
    &&& !contains_seq(p.1, "HTTP"@)
}

/// `headers_buffer` ends at a line boundary.
proof fn lemma_headers_buffer_ends_nl(pairs: Seq<(Seq<char>, Seq<char>)>)
    ensures
        headers_buffer(pairs).len() == 0 || headers_buffer(pairs)[headers_buffer(pairs).len()
            - 1] == '\n',
    decreases pairs.len(),
{
    reveal_strlit("\r\n");
    if pairs.len() == 0 {
    } else {
        let buf = headers_buffer(pairs);
        assert(buf[buf.len() - 1] == "\r\n"@[1]);
    }
}

/// Parsing the wire text of a header mapping performs exactly its
/// insertions, touching nothing else in the state.
proof fn lemma_parse_headers_rec(pairs: Seq<(Seq<char>, Seq<char>)>, st: SpecRequest)
    requires
        forall|i: int| 0 <= i < pairs.len() ==> #[trigger] roundtrip_pair_ok(pairs[i]),
    ensures
        parse_rec(headers_buffer(pairs), st) == (SpecRequest {
            headers: map_of_over(st.headers, pairs),
            ..st
        }),
    decreases pairs.len(),
{
    reveal_strlit("\r\n");
    reveal_strlit("HTTP");
    if pairs.len() == 0 {
        assert(parse_rec(headers_buffer(pairs), st) == st);
        assert(SpecRequest { headers: st.headers, ..st } == st);
    } else {
        let dl = pairs.drop_last();
        let k = pairs.last().0;
        let v = pairs.last().1;
        let line = k + seq![':'] + v;
        assert(roundtrip_pair_ok(pairs[pairs.len() - 1]));
        assert forall|i: int| 0 <= i < dl.len() implies #[trigger] roundtrip_pair_ok(dl[i]) by {
            assert(dl[i] == pairs[i]);
        }
        assert(headers_buffer(pairs) =~= headers_buffer(dl) + (line + "\r\n"@));
        lemma_headers_buffer_ends_nl(dl);
        lemma_parse_rec_append(headers_buffer(dl), line + "\r\n"@, st);
        lemma_parse_headers_rec(dl, st);
        let st1 = parse_rec(headers_buffer(dl), st);
        assert forall|j: int| 0 <= j < line.len() implies line[j] != '\n' by {
            if j < k.len() {
                assert(line[j] == k[j]);
                if line[j] == '\n' {
                    assert(contains_char(k, '\n'));
                }
            } else if j == k.len() {
                assert(line[j] == ':');
            } else {
                assert(line[j] == v[j - k.len() - 1]);
                if line[j] == '\n' {
                    assert(contains_char(v, '\n'));
                }
            }
        }
        assert(!contains_char(line, '\n'));
        lemma_parse_single_line(line, st1);
        assert(!contains_char("HTTP"@, ':')) by {
            if contains_char("HTTP"@, ':') {
                let t = choose|t: int| 0 <= t < "HTTP"@.len() && "HTTP"@[t] == ':';
                assert("HTTP"@.len() == 4);
            }
        }
        lemma_no_cross(k, v, ':', "HTTP"@);
        assert(line[k.len() as int] == ':');
        assert(contains_char(line, ':'));
        assert forall|j: int| 0 <= j < k.len() implies line[j] != ':' by {
            assert(line[j] == k[j]);
            if line[j] == ':' {
                assert(contains_char(k, ':'));
            }
        }
        lemma_find_first_is(line, ':', k.len() as int);
        assert(line.take(k.len() as int) =~= k);
        assert(line.skip(k.len() as int + 1) =~= v);
        assert(parse_step(st1, line) == SpecRequest {
            headers: st1.headers.insert(k, v),
            ..st1
        });
    }
}

/// The mapping of `pairs` written over a base mapping `m`, a later pair with
/// the same key winning, as insertion does.
pub open spec fn map_of_over(
    m: Map<Seq<char>, Seq<char>>,
    pairs: Seq<(Seq<char>, Seq<char>)>,
) -> Map<Seq<char>, Seq<char>>
    decreases pairs.len(),
{
    if pairs.len() == 0 {
        m
    } else {
        map_of_over(m, pairs.drop_last()).insert(pairs.last().0, pairs.last().1)
    }
}

/// Written over the empty mapping, `pairs` denotes exactly `map_of(pairs)`.
pub proof fn lemma_map_of_over_empty(pairs: Seq<(Seq<char>, Seq<char>)>)
    ensures
        map_of_over(Map::empty(), pairs) == crate::headers::map_of(pairs),
    decreases pairs.len(),
{
    if pairs.len() == 0 {
    } else {
        lemma_map_of_over_empty(pairs.drop_last());
    }
}

/// Round trip: the buffer written from a header mapping parses back to
/// exactly that mapping, and to nothing else — method and version stay
/// `Invalid`, the resource stays empty and no body appears.
pub proof fn lemma_headers_roundtrip(pairs: Seq<(Seq<char>, Seq<char>)>)
    requires
        forall|i: int| 0 <= i < pairs.len() ==> #[trigger] roundtrip_pair_ok(pairs[i]),
    ensures
        parse_spec(headers_buffer(pairs)).headers == crate::headers::map_of(pairs),
        parse_spec(headers_buffer(pairs)).method == Method::Invalid,
        parse_spec(headers_buffer(pairs)).version == Version::Invalid,
        parse_spec(headers_buffer(pairs)).resource == Seq::<char>::empty(),
        parse_spec(headers_buffer(pairs)).body is None,
{
    lemma_parse_headers_rec(pairs, init_request());
    lemma_map_of_over_empty(pairs);
}

impl From<&String> for HttpRequest {
    /// Parse the buffer, as [`parse`] does.
    fn from(s: &String) -> (r: Self)
        ensures
            r@ == parse_spec(s@),
    {
        parse(s.as_str())
    }
}

// A parsed request holds owned strings, which spec code cannot construct, so
// the trait-level contract is left disabled; `from` carries its contract
// directly.
impl vstd::std_specs::convert::FromSpecImpl<&String> for HttpRequest {
    open spec fn obeys_from_spec() -> bool {
        false
    }

    open spec fn from_spec(s: &String) -> HttpRequest {
        arbitrary()
    }
}

} // verus!
