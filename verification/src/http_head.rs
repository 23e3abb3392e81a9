//! The HTTP side of the proxy: the line-oriented head codec, the canned
//! status responses, CONNECT detection and rewriting, and the `Host`
//! header extraction the inbound acceptor routes by.

use vstd::prelude::*;
use crate::text::{
    dec_digits, dec_val, find_byte, find_first, is_dec_seq, lemma_find_first, parse_u16_dec,
    push_dec_u16, starts_with_bytes, starts_with_seq, string_from_utf8,
};
use vstd::utf8::{encode_utf8, valid_utf8};

verus! {

use vstd::string::StringSliceAdditionalSpecFns;
use vstd::string::StrSliceExecFns;

/// The response sent when the request head carries no usable target.
pub open spec fn http_400_text() -> Seq<char> {
    "HTTP/1.1 400 Bad Request\r\nContent-Length: 0\r\n\r\n"@
}

/// The response sent when no egress can be reached for the target.
pub open spec fn http_502_text() -> Seq<char> {
    "HTTP/1.1 502 Bad Gateway\r\nContent-Length: 0\r\n\r\n"@
}

/// The response a CONNECT client receives once the tunnel stands.
pub open spec fn http_200_text() -> Seq<char> {
    "HTTP/1.1 200 Connection Established\r\n\r\n"@
}

/// The `400 Bad Request` response bytes.
pub fn http_400() -> (r: Vec<u8>)
    ensures
        r@ == encode_utf8(http_400_text()),
{
    "HTTP/1.1 400 Bad Request\r\nContent-Length: 0\r\n\r\n".as_bytes_vec()
}

/// The `502 Bad Gateway` response bytes.
pub fn http_502() -> (r: Vec<u8>)
    ensures
        r@ == encode_utf8(http_502_text()),
{
    "HTTP/1.1 502 Bad Gateway\r\nContent-Length: 0\r\n\r\n".as_bytes_vec()
}

/// The `200 Connection Established` response bytes.
pub fn http_200_established() -> (r: Vec<u8>)
    ensures
        r@ == encode_utf8(http_200_text()),
{
    "HTTP/1.1 200 Connection Established\r\n\r\n".as_bytes_vec()
}

/// The bytes `CONNECT` followed by a space.
pub open spec fn connect_prefix() -> Seq<u8> {
    seq![67u8, 79u8, 78u8, 78u8, 69u8, 67u8, 84u8, 32u8]
}

/// Whether a request preamble is a CONNECT request.
pub fn is_connect(preamble: &[u8]) -> (r: bool)
    ensures
        r == starts_with_seq(preamble@, connect_prefix()),
{
    let mut pat: Vec<u8> = Vec::new();
    pat.push(67);
    pat.push(79);
    pat.push(78);
    pat.push(78);
    pat.push(69);
    pat.push(67);
    pat.push(84);
    pat.push(32);
    assert(pat@ =~= connect_prefix());
    starts_with_bytes(preamble, pat.as_slice())
}

/// The freshly built head `CONNECT h:p HTTP/1.1` with a matching `Host`
/// header, as sent towards an upstream proxy.
pub open spec fn spec_connect_head(host: Seq<u8>, port: u16) -> Seq<u8> {
    connect_prefix() + host + seq![58u8] + dec_digits(port as nat) + encode_utf8(
        " HTTP/1.1\r\nHost: "@,
    ) + host + seq![58u8] + dec_digits(port as nat) + encode_utf8("\r\n\r\n"@)
}

/// Builds the CONNECT head for a target host and port.
pub fn connect_head(host: &str, port: u16) -> (r: Vec<u8>)
    ensures
        r@ == spec_connect_head(host.spec_bytes(), port),
{
    let mut out: Vec<u8> = Vec::new();
    let mut part = "CONNECT ".as_bytes_vec();
    proof {
        vstd::string::is_ascii_spec_bytes("CONNECT ");
        reveal_strlit("CONNECT ");
        assert(part@ =~= connect_prefix());
    }
    out.append(&mut part);
    let mut hb = host.as_bytes_vec();
    out.append(&mut hb);
    out.push(58);
    push_dec_u16(port, &mut out);
    let mut mid = " HTTP/1.1\r\nHost: ".as_bytes_vec();
    out.append(&mut mid);
    let mut hb2 = host.as_bytes_vec();
    out.append(&mut hb2);
    out.push(58);
    push_dec_u16(port, &mut out);
    let mut tail = "\r\n\r\n".as_bytes_vec();
    out.append(&mut tail);
    assert(out@ =~= spec_connect_head(host.spec_bytes(), port));
    out
}

/// A line with a trailing carriage return loses it.
pub open spec fn strip_cr(l: Seq<u8>) -> Seq<u8> {
    if l.len() > 0 && l.last() == 13 {
        l.drop_last()
    } else {
        l
    }
}

/// The lines of a byte buffer, split at each newline, carriage returns
/// stripped; an empty buffer has no lines.
pub open spec fn split_lines(s: Seq<u8>) -> Seq<Seq<u8>>
    decreases s.len(),
{
    if s.len() == 0 {
        Seq::empty()
    } else {
        let c = find_first(s, 10);
        if c < 0 || c >= s.len() {
            seq![strip_cr(s)]
        } else {
            seq![strip_cr(s.take(c))] + split_lines(s.skip(c + 1))
        }
    }
}

/// The views of collected lines.
pub open spec fn lines_view(v: Seq<Vec<u8>>) -> Seq<Seq<u8>> {
    v.map_values(|x: Vec<u8>| x@)
}

fn copy_range(s: &[u8], from: usize, to: usize) -> (r: Vec<u8>)
    requires
        from <= to <= s@.len(),
    ensures
        r@ == s@.subrange(from as int, to as int),
{
    let mut out: Vec<u8> = Vec::new();
    let mut i = from;
    while i < to
        invariant
            from <= i <= to <= s@.len(),
            out@ =~= s@.subrange(from as int, i as int),
        decreases to - i,
    {
        out.push(s[i]);
        assert(out@ =~= s@.subrange(from as int, i + 1));
        i = i + 1;
    }
    out
}

fn strip_cr_exec(mut l: Vec<u8>) -> (r: Vec<u8>)
    ensures
        r@ == strip_cr(l@),
{
    let n = l.len();
    if n > 0 && l[n - 1] == 13 {
        let _ = l.pop();
        l
    } else {
        l
    }
}

/// Splits a buffer into its lines.
#[verifier::loop_isolation(false)]
#[verifier::rlimit(30)]
pub fn split_lines_exec(s: &[u8]) -> (r: Vec<Vec<u8>>)
    ensures
        lines_view(r@) == split_lines(s@),
{
    let n = s.len();
    let mut out: Vec<Vec<u8>> = Vec::new();
    let mut pos: usize = 0;
    assert(lines_view(out@) =~= Seq::<Seq<u8>>::empty());
    assert(s@.skip(0) =~= s@);
    while pos < n
        invariant
            pos <= n,
            split_lines(s@) =~= lines_view(out@) + split_lines(s@.skip(pos as int)),
        decreases n - pos,
    {
        let ghost rem = s@.skip(pos as int);
        proof {
            lemma_find_first(rem, 10);
        }
        let found = find_byte(s, 10, pos);
        let ghost prev = out@;
        match found {
            None => {
                proof {
                    if find_first(rem, 10) >= 0 {
                        let f = find_first(rem, 10);
                        assert(rem[f] == s@[pos + f]);
                    }
                    assert(find_first(rem, 10) == -1);
                }
                let line = strip_cr_exec(copy_range(s, pos, n));
                assert(s@.subrange(pos as int, n as int) =~= rem);
                out.push(line);
                proof {
                    assert(split_lines(rem) == seq![strip_cr(rem)]);
                    assert forall|k: int| 0 <= k < out@.len() implies #[trigger] lines_view(
                        out@,
                    )[k] == (lines_view(prev) + seq![strip_cr(rem)])[k] by {
                        assert(lines_view(out@)[k] == out@[k]@);
                        if k < prev.len() {
                            assert(out@[k] == prev[k]);
                            assert(lines_view(prev)[k] == prev[k]@);
                        }
                    }
                    assert(lines_view(out@) =~= lines_view(prev) + seq![strip_cr(rem)]);
                    assert(split_lines(s@.skip(n as int)) =~= Seq::<Seq<u8>>::empty());
                }
                pos = n;
            },
            Some(c) => {
                proof {
                    let f = find_first(rem, 10);
                    if f >= 0 && pos + f < c {
                        assert(s@[pos + f] == rem[f]);
                    }
                    if f == -1 || pos + f > c {
                        assert(rem[c - pos] == s@[c as int]);
                    }
                    assert(f == c - pos);
                }
                let line = strip_cr_exec(copy_range(s, pos, c));
                assert(s@.subrange(pos as int, c as int) =~= rem.take(c - pos));
                out.push(line);
                proof {
                    assert(split_lines(rem) == seq![strip_cr(rem.take(c - pos))] + split_lines(
                        rem.skip(c - pos + 1),
                    ));
                    assert(rem.skip(c - pos + 1) =~= s@.skip(c + 1));
                    assert forall|k: int| 0 <= k < out@.len() implies #[trigger] lines_view(
                        out@,
                    )[k] == (lines_view(prev) + seq![strip_cr(rem.take(c - pos))])[k] by {
                        assert(lines_view(out@)[k] == out@[k]@);
                        if k < prev.len() {
                            assert(out@[k] == prev[k]);
                            assert(lines_view(prev)[k] == prev[k]@);
                        }
                    }
                    assert(lines_view(out@) =~= lines_view(prev) + seq![strip_cr(
                        rem.take(c - pos),
                    )]);
                }
                pos = c + 1;
            },
        }
    }
    assert(split_lines(s@.skip(pos as int)) =~= Seq::<Seq<u8>>::empty());
    out
}

/// The bytes `Host:`.
pub open spec fn host_prefix() -> Seq<u8> {
    seq![72u8, 111u8, 115u8, 116u8, 58u8]
}

/// The first line that starts with `Host:`, if any.
pub open spec fn spec_find_host_line(ls: Seq<Seq<u8>>) -> Option<Seq<u8>>
    decreases ls.len(),
{
    if ls.len() == 0 {
        None
    } else if starts_with_seq(ls.first(), host_prefix()) {
        Some(ls.first())
    } else {
        spec_find_host_line(ls.drop_first())
    }
}

/// ASCII space or horizontal tab.
pub open spec fn is_space(b: u8) -> bool {
    b == 32 || b == 9
}

pub open spec fn trim_front(s: Seq<u8>) -> Seq<u8>
    decreases s.len(),
{
    if s.len() > 0 && is_space(s[0]) {
        trim_front(s.drop_first())
    } else {
        s
    }
}

pub open spec fn trim_back(s: Seq<u8>) -> Seq<u8>
    decreases s.len(),
{
    if s.len() > 0 && is_space(s.last()) {
        trim_back(s.drop_last())
    } else {
        s
    }
}

/// The bytes with surrounding spaces and tabs removed.
pub open spec fn trim(s: Seq<u8>) -> Seq<u8> {
    trim_back(trim_front(s))
}

proof fn lemma_trim_front_skip(s: Seq<u8>, a: int)
    requires
        0 <= a <= s.len(),
        forall|k: int| 0 <= k < a ==> is_space(#[trigger] s[k]),
        a == s.len() || !is_space(s[a]),
    ensures
        trim_front(s) == s.skip(a),
    decreases a,
{
    if a == 0 {
        assert(s.skip(0) =~= s);
    } else {
        let rest = s.drop_first();
        assert(forall|k: int| 0 <= k < a - 1 ==> #[trigger] rest[k] == s[k + 1]);
        lemma_trim_front_skip(rest, a - 1);
        assert(rest.skip(a - 1) =~= s.skip(a));
    }
}

proof fn lemma_trim_back_take(s: Seq<u8>, b: int)
    requires
        0 <= b <= s.len(),
        forall|k: int| b <= k < s.len() ==> is_space(#[trigger] s[k]),
        b == 0 || !is_space(s[b - 1]),
    ensures
        trim_back(s) == s.take(b),
    decreases s.len() - b,
{
    if b == s.len() {
        assert(s.take(b) =~= s);
    } else {
        let rest = s.drop_last();
        assert(forall|k: int| 0 <= k < rest.len() ==> #[trigger] rest[k] == s[k]);
        lemma_trim_back_take(rest, b);
        assert(rest.take(b) =~= s.take(b));
    }
}

/// Removes surrounding spaces and tabs.
pub fn trim_exec(s: &Vec<u8>) -> (r: Vec<u8>)
    ensures
        r@ == trim(s@),
{
    let n = s.len();
    let mut a: usize = 0;
    while a < n && (s[a] == 32 || s[a] == 9)
        invariant
            a <= n,
            n == s@.len(),
            forall|k: int| 0 <= k < a ==> is_space(#[trigger] s@[k]),
        decreases n - a,
    {
        a = a + 1;
    }
    proof {
        lemma_trim_front_skip(s@, a as int);
    }
    let mut b: usize = n;
    while b > a && (s[b - 1] == 32 || s[b - 1] == 9)
        invariant
            a <= b <= n,
            n == s@.len(),
            forall|k: int| b <= k < n ==> is_space(#[trigger] s@[k]),
        decreases b,
    {
        b = b - 1;
    }
    let ghost f = s@.skip(a as int);
    proof {
        assert(forall|k: int| 0 <= k < f.len() ==> #[trigger] f[k] == s@[k + a]);
        lemma_trim_back_take(f, b - a);
    }
    let r = copy_range(s.as_slice(), a, b);
    assert(r@ =~= f.take(b - a));
    r
}

/// What the `Host:` header of a preamble denotes: the host text and the
/// port, which defaults to 80 when none is given.  `None` when no such
/// header exists or the port does not parse.
pub open spec fn spec_find_host(bytes: Seq<u8>) -> Option<(Seq<u8>, u16)> {
    match spec_find_host_line(split_lines(bytes)) {
        None => None,
        Some(line) => {
            let value = trim(line.skip(5));
            let c = find_first(value, 58);
            if c < 0 {
                Some((value, 80u16))
            } else {
                let port_tok = value.skip(c + 1);
                if is_dec_seq(port_tok) && dec_val(port_tok) <= 65535 {
                    Some((value.take(c), dec_val(port_tok) as u16))
                } else {
                    None
                }
            }
        },
    }
}

/// Finds the routing target in a request preamble: the first `Host:`
/// line, split into host text and port.  The host must be UTF-8 to
/// become a string.
#[verifier::loop_isolation(false)]
pub fn find_host(preamble: &[u8]) -> (r: Option<(String, u16)>)
    ensures
        r is Some <==> (spec_find_host(preamble@) matches Some(hp) && valid_utf8(hp.0)),
        r matches Some((h, p)) ==> spec_find_host(preamble@) == Some(
            (encode_utf8(h@), p),
        ),
{
    let lines = split_lines_exec(preamble);
    let ghost ls = split_lines(preamble@);
    let n = lines.len();
    let mut i: usize = 0;
    let mut pat: Vec<u8> = Vec::new();
    pat.push(72);
    pat.push(111);
    pat.push(115);
    pat.push(116);
    pat.push(58);
    assert(pat@ =~= host_prefix());
    assert(ls.skip(0) =~= ls);
    while i < n
        invariant
            i <= n,
            n == lines@.len(),
            pat@ == host_prefix(),
            spec_find_host_line(ls.skip(i as int)) == spec_find_host_line(ls),
            forall|k: int| 0 <= k < i ==> !starts_with_seq(#[trigger] ls[k], host_prefix()),
        decreases n - i,
    {
        let ghost pre = ls.skip(i as int);
        assert(pre.first() == ls[i as int]);
        assert(ls[i as int] == lines@[i as int]@);
        if starts_with_bytes(lines[i].as_slice(), pat.as_slice()) {
            let line = &lines[i];
            assert(spec_find_host_line(ls) == Some(line@));
            let rest = copy_range(line.as_slice(), 5, line.len());
            assert(rest@ =~= line@.skip(5));
            let value = trim_exec(&rest);
            proof {
                lemma_find_first(value@, 58);
            }
            let found = find_byte(value.as_slice(), 58, 0);
            match found {
                None => {
                    proof {
                        if find_first(value@, 58) >= 0 {
                            assert(value@[find_first(value@, 58)] == 58);
                        }
                    }
                    return match string_from_utf8(value) {
                        None => None,
                        Some(h) => Some((h, 80u16)),
                    };
                },
                Some(c) => {
                    proof {
                        let f = find_first(value@, 58);
                        if f >= 0 && f < c {
                            assert(value@[f] != 58);
                        }
                        if f == -1 || f > c {
                            assert(value@[c as int] == 58);
                        }
                        assert(f == c);
                    }
                    let vn = value.len();
                    let port_tok = copy_range(value.as_slice(), c + 1, vn);
                    assert(port_tok@ =~= value@.skip(c + 1));
                    match parse_u16_dec(port_tok.as_slice()) {
                        None => {
                            return None;
                        },
                        Some(p) => {
                            let hostb = copy_range(value.as_slice(), 0, c);
                            assert(hostb@ =~= value@.take(c as int));
                            return match string_from_utf8(hostb) {
                                None => None,
                                Some(h) => Some((h, p)),
                            };
                        },
                    }
                },
            }
        }
        assert(pre.drop_first() =~= ls.skip(i + 1));
        i = i + 1;
    }
    assert(ls.skip(n as int) =~= Seq::<Seq<u8>>::empty());
    None
}

/// The ASCII-lowercase image of a byte.
pub open spec fn lower_byte(b: u8) -> u8 {
    if 65 <= b <= 90 {
        (b + 32) as u8
    } else {
        b
    }
}

/// Byte-wise ASCII lowercasing.
pub open spec fn lower_bytes(s: Seq<u8>) -> Seq<u8> {
    s.map_values(|b: u8| lower_byte(b))
}

fn lower_bytes_exec(s: &Vec<u8>) -> (r: Vec<u8>)
    ensures
        r@ == lower_bytes(s@),
{
    let mut out: Vec<u8> = Vec::new();
    let n = s.len();
    let mut i: usize = 0;
    while i < n
        invariant
            i <= n,
            n == s@.len(),
            out@.len() == i,
            forall|k: int| 0 <= k < i ==> #[trigger] out@[k] == lower_byte(s@[k]),
        decreases n - i,
    {
        let b = s[i];
        if b >= 65 && b <= 90 {
            out.push(b + 32);
        } else {
            out.push(b);
        }
        i = i + 1;
    }
    assert forall|k: int| 0 <= k < n implies #[trigger] lower_bytes(s@)[k] == out@[k] by {
        assert(lower_bytes(s@)[k] == lower_byte(s@[k]));
    }
    assert(out@ =~= lower_bytes(s@));
    out
}

/// What one header line denotes: the key, trimmed and lowercased, and
/// the trimmed value; a line without a colon is malformed.
pub open spec fn spec_parse_header(line: Seq<u8>) -> Option<(Seq<u8>, Seq<u8>)> {
    let c = find_first(line, 58);
    if c < 0 {
        None
    } else {
        Some((lower_bytes(trim(line.take(c))), trim(line.skip(c + 1))))
    }
}

/// The header list a block of lines denotes, kept in order, stopping at
/// the first empty line; a malformed line spoils the block.
pub open spec fn spec_parse_headers(ls: Seq<Seq<u8>>) -> Option<Seq<(Seq<u8>, Seq<u8>)>>
    decreases ls.len(),
{
    if ls.len() == 0 {
        Some(Seq::empty())
    } else if ls.first().len() == 0 {
        Some(Seq::empty())
    } else {
        match spec_parse_header(ls.first()) {
            None => None,
            Some(h) => match spec_parse_headers(ls.drop_first()) {
                None => None,
                Some(rest) => Some(seq![h] + rest),
            },
        }
    }
}

/// An HTTP request head: the request line and the header fields, in the
/// order they appeared.
#[derive(Debug)]
pub struct RequestHead {
    pub method: String,
    pub uri: String,
    pub version: String,
    pub headers: Vec<(String, String)>,
}

/// An HTTP response head: the status line and the header fields.
#[derive(Debug)]
pub struct ResponseHead {
    pub status: u16,
    pub version: String,
    pub headers: Vec<(String, String)>,
}

/// The byte-level content of a request head.
pub ghost struct RequestHeadView {
    pub method: Seq<u8>,
    pub uri: Seq<u8>,
    pub version: Seq<u8>,
    pub headers: Seq<(Seq<u8>, Seq<u8>)>,
}

/// The byte-level content of a response head.
pub ghost struct ResponseHeadView {
    pub status: u16,
    pub version: Seq<u8>,
    pub headers: Seq<(Seq<u8>, Seq<u8>)>,
}

/// The byte-level image of a header list.
pub open spec fn headers_view(hs: Seq<(String, String)>) -> Seq<(Seq<u8>, Seq<u8>)> {
    hs.map_values(|p: (String, String)| (encode_utf8(p.0@), encode_utf8(p.1@)))
}

impl View for RequestHead {
    type V = RequestHeadView;

    open spec fn view(&self) -> RequestHeadView {
        RequestHeadView {
            method: encode_utf8(self.method@),
            uri: encode_utf8(self.uri@),
            version: encode_utf8(self.version@),
            headers: headers_view(self.headers@),
        }
    }
}

impl View for ResponseHead {
    type V = ResponseHeadView;

    open spec fn view(&self) -> ResponseHeadView {
        ResponseHeadView {
            status: self.status,
            version: encode_utf8(self.version@),
            headers: headers_view(self.headers@),
        }
    }
}

/// What decoding a request head yields: the first line split as
/// `method SP uri SP version`, each part non-empty, then the headers.
pub open spec fn spec_decode_request(bytes: Seq<u8>) -> Option<RequestHeadView> {
    let ls = split_lines(bytes);
    if ls.len() == 0 {
        None
    } else {
        match crate::host::split_groups(ls.first(), 32, 3) {
            None => None,
            Some(parts) => if parts[0].len() > 0 && parts[1].len() > 0 && parts[2].len() > 0 {
                match spec_parse_headers(ls.drop_first()) {
                    None => None,
                    Some(hs) => Some(
                        RequestHeadView {
                            method: parts[0],
                            uri: parts[1],
                            version: parts[2],
                            headers: hs,
                        },
                    ),
                }
            } else {
                None
            },
        }
    }
}

/// Every field of the view is valid UTF-8, so the head can be held as
/// strings.
pub open spec fn request_view_utf8(v: RequestHeadView) -> bool {
    &&& valid_utf8(v.method)
    &&& valid_utf8(v.uri)
    &&& valid_utf8(v.version)
    &&& forall|k: int|
        0 <= k < v.headers.len() ==> valid_utf8((#[trigger] v.headers[k]).0) && valid_utf8(
            v.headers[k].1,
        )
}

pub open spec fn response_view_utf8(v: ResponseHeadView) -> bool {
    &&& valid_utf8(v.version)
    &&& forall|k: int|
        0 <= k < v.headers.len() ==> valid_utf8((#[trigger] v.headers[k]).0) && valid_utf8(
            v.headers[k].1,
        )
}

#[verifier::loop_isolation(false)]
fn parse_header_block(lines: &Vec<Vec<u8>>, from: usize) -> (r: Option<Vec<(String, String)>>)
    requires
        from <= lines@.len(),
    ensures
        r is Some <==> (spec_parse_headers(lines_view(lines@).skip(from as int)) matches Some(hs)
            && (forall|k: int|
            0 <= k < hs.len() ==> valid_utf8((#[trigger] hs[k]).0) && valid_utf8(hs[k].1))),
        r matches Some(v) ==> spec_parse_headers(lines_view(lines@).skip(from as int)) == Some(
            headers_view(v@),
        ),
{
    let ghost ls = lines_view(lines@);
    let n = lines.len();
    let mut out: Vec<(String, String)> = Vec::new();
    let mut i = from;
    assert(headers_view(out@) =~= Seq::<(Seq<u8>, Seq<u8>)>::empty());
    while i < n
        invariant
            from <= i <= n,
            spec_parse_headers(ls.skip(i as int)) is Some ==> spec_parse_headers(
                ls.skip(from as int),
            ) == Some(headers_view(out@) + spec_parse_headers(ls.skip(i as int)).unwrap()),
            spec_parse_headers(ls.skip(i as int)) is None ==> spec_parse_headers(
                ls.skip(from as int),
            ) is None,
            forall|k: int|
                0 <= k < headers_view(out@).len() ==> valid_utf8(
                    (#[trigger] headers_view(out@)[k]).0,
                ) && valid_utf8(headers_view(out@)[k].1),
        decreases n - i,
    {
        let ghost pre = ls.skip(i as int);
        assert(pre.first() == ls[i as int]);
        assert(ls[i as int] == lines@[i as int]@);
        let line = &lines[i];
        if line.len() == 0 {
            assert(spec_parse_headers(pre) == Some(Seq::<(Seq<u8>, Seq<u8>)>::empty()));
            assert(headers_view(out@) + Seq::<(Seq<u8>, Seq<u8>)>::empty() =~= headers_view(out@));
            return Some(out);
        }
        proof {
            lemma_find_first(line@, 58);
        }
        let found = find_byte(line.as_slice(), 58, 0);
        match found {
            None => {
                proof {
                    if find_first(line@, 58) >= 0 {
                        assert(line@[find_first(line@, 58)] == 58);
                    }
                    assert(spec_parse_header(pre.first()) is None);
                    assert(spec_parse_headers(pre) is None);
                }
                return None;
            },
            Some(c) => {
                proof {
                    let f = find_first(line@, 58);
                    if f >= 0 && f < c {
                        assert(line@[f] != 58);
                    }
                    if f == -1 || f > c {
                        assert(line@[c as int] == 58);
                    }
                    assert(f == c);
                }
                let rawkey = copy_range(line.as_slice(), 0, c);
                assert(rawkey@ =~= line@.take(c as int));
                let key_bytes = lower_bytes_exec(&trim_exec(&rawkey));
                let ln = line.len();
                let rawval = copy_range(line.as_slice(), c + 1, ln);
                assert(rawval@ =~= line@.skip(c + 1));
                let val_bytes = trim_exec(&rawval);
                let ghost h = (key_bytes@, val_bytes@);
                assert(spec_parse_header(pre.first()) == Some(h));
                let key = match string_from_utf8(key_bytes) {
                    None => {
                        proof {
                            if spec_parse_headers(ls.skip(from as int)) is Some {
                                let hs = spec_parse_headers(pre).unwrap();
                                assert(hs == seq![h] + spec_parse_headers(pre.drop_first()).unwrap());
                                let all = spec_parse_headers(ls.skip(from as int)).unwrap();
                                assert(all == headers_view(out@) + hs);
                                let idx = headers_view(out@).len() as int;
                                assert(all[idx] == hs[0]);
                                assert(hs[0] == h);
                                assert(!valid_utf8(all[idx].0));
                            }
                        }
                        return None;
                    },
                    Some(k) => k,
                };
                let val = match string_from_utf8(val_bytes) {
                    None => {
                        proof {
                            if spec_parse_headers(ls.skip(from as int)) is Some {
                                let hs = spec_parse_headers(pre).unwrap();
                                assert(hs == seq![h] + spec_parse_headers(pre.drop_first()).unwrap());
                                let all = spec_parse_headers(ls.skip(from as int)).unwrap();
                                assert(all == headers_view(out@) + hs);
                                let idx = headers_view(out@).len() as int;
                                assert(all[idx] == hs[0]);
                                assert(hs[0] == h);
                                assert(!valid_utf8(all[idx].1));
                            }
                        }
                        return None;
                    },
                    Some(v) => v,
                };
                let ghost prev = out@;
                out.push((key, val));
                proof {
                    assert(headers_view(out@).len() == prev.len() + 1);
                    assert forall|k: int| 0 <= k < out@.len() implies #[trigger] headers_view(
                        out@,
                    )[k] == (headers_view(prev) + seq![h])[k] by {
                        assert(headers_view(out@)[k] == (
                        encode_utf8(out@[k].0@),
                        encode_utf8(out@[k].1@),
                        ));
                        if k < prev.len() {
                            assert(out@[k] == prev[k]);
                            assert(headers_view(prev)[k] == (
                            encode_utf8(prev[k].0@),
                            encode_utf8(prev[k].1@),
                            ));
                        }
                    }
                    assert(headers_view(out@) =~= headers_view(prev) + seq![h]);
                    assert(pre.drop_first() =~= ls.skip(i + 1));
                    if spec_parse_headers(ls.skip(i + 1)) is Some {
                        let hs = spec_parse_headers(ls.skip(i + 1)).unwrap();
                        assert(spec_parse_headers(pre) == Some(seq![h] + hs));
                        assert(headers_view(prev) + (seq![h] + hs) =~= headers_view(out@) + hs);
                    }
                }
                i = i + 1;
            },
        }
    }
    assert(ls.skip(n as int) =~= Seq::<Seq<u8>>::empty());
    assert(spec_parse_headers(ls.skip(n as int)) == Some(Seq::<(Seq<u8>, Seq<u8>)>::empty()));
    assert(headers_view(out@) + Seq::<(Seq<u8>, Seq<u8>)>::empty() =~= headers_view(out@));
    Some(out)
}

impl RequestHead {
    /// Decodes a request head from its bytes: the request line, strictly
    /// `method SP uri SP version`, then the header fields.
    pub fn decode(bytes: &[u8]) -> (r: Option<RequestHead>)
        ensures
            r is Some <==> (spec_decode_request(bytes@) matches Some(v) && request_view_utf8(v)),
            r matches Some(h) ==> spec_decode_request(bytes@) == Some(h@),
    {
        let lines = split_lines_exec(bytes);
        let ghost ls = split_lines(bytes@);
        if lines.len() == 0 {
            assert(ls.len() == 0);
            return None;
        }
        assert(ls.first() == lines@[0]@);
        let parts = match crate::host::split_groups_exec(lines[0].as_slice(), 32, 3) {
            None => {
                return None;
            },
            Some(p) => p,
        };
        proof {
            crate::host::lemma_split_groups_len(ls.first(), 32, 3);
            assert(crate::host::groups_view(parts@).len() == 3);
        }
        assert(crate::host::groups_view(parts@)[0] == parts@[0]@);
        assert(crate::host::groups_view(parts@)[1] == parts@[1]@);
        assert(crate::host::groups_view(parts@)[2] == parts@[2]@);
        if parts[0].len() == 0 || parts[1].len() == 0 || parts[2].len() == 0 {
            return None;
        }
        let headers = match parse_header_block(&lines, 1) {
            None => {
                proof {
                    assert(lines_view(lines@).skip(1) =~= ls.drop_first());
                    if spec_decode_request(bytes@) is Some {
                        let v = spec_decode_request(bytes@).unwrap();
                        assert(spec_parse_headers(ls.drop_first()) == Some(v.headers));
                        assert(!(forall|k: int|
                            0 <= k < v.headers.len() ==> valid_utf8((#[trigger] v.headers[k]).0)
                                && valid_utf8(v.headers[k].1)));
                        assert(!request_view_utf8(v));
                    }
                }
                return None;
            },
            Some(hs) => hs,
        };
        proof {
            assert(lines_view(lines@).skip(1) =~= ls.drop_first());
        }
        let p2 = copy_bytes(&parts[2]);
        let p1 = copy_bytes(&parts[1]);
        let p0 = copy_bytes(&parts[0]);
        let method = match string_from_utf8(p0) {
            None => {
                return None;
            },
            Some(s) => s,
        };
        let uri = match string_from_utf8(p1) {
            None => {
                return None;
            },
            Some(s) => s,
        };
        let version = match string_from_utf8(p2) {
            None => {
                return None;
            },
            Some(s) => s,
        };
        Some(RequestHead { method, uri, version, headers })
    }
}

/// Copies a byte vector.
pub fn copy_bytes(v: &Vec<u8>) -> (r: Vec<u8>)
    ensures
        r@ == v@,
{
    let mut out: Vec<u8> = Vec::new();
    let n = v.len();
    let mut i: usize = 0;
    while i < n
        invariant
            i <= n,
            n == v@.len(),
            out@ =~= v@.take(i as int),
        decreases n - i,
    {
        out.push(v[i]);
        assert(out@ =~= v@.take(i + 1));
        i = i + 1;
    }
    assert(v@.take(n as int) =~= v@);
    out
}

/// What decoding a response head yields: `version SP status ...` with an
/// optional ignored reason phrase, then the headers.
pub open spec fn spec_decode_response(bytes: Seq<u8>) -> Option<ResponseHeadView> {
    let ls = split_lines(bytes);
    if ls.len() == 0 {
        None
    } else {
        let line = ls.first();
        let c = find_first(line, 32);
        if c <= 0 {
            None
        } else {
            let version = line.take(c);
            let rest = line.skip(c + 1);
            let d = find_first(rest, 32);
            let tok = if d < 0 {
                rest
            } else {
                rest.take(d)
            };
            if is_dec_seq(tok) && dec_val(tok) <= 65535 {
                match spec_parse_headers(ls.drop_first()) {
                    None => None,
                    Some(hs) => Some(
                        ResponseHeadView {
                            status: dec_val(tok) as u16,
                            version,
                            headers: hs,
                        },
                    ),
                }
            } else {
                None
            }
        }
    }
}

impl ResponseHead {
    /// Decodes a response head from its bytes: the status line, then the
    /// header fields; the reason phrase is ignored.
    pub fn decode(bytes: &[u8]) -> (r: Option<ResponseHead>)
        ensures
            r is Some <==> (spec_decode_response(bytes@) matches Some(v) && response_view_utf8(v)),
            r matches Some(h) ==> spec_decode_response(bytes@) == Some(h@),
    {
        let lines = split_lines_exec(bytes);
        let ghost ls = split_lines(bytes@);
        if lines.len() == 0 {
            assert(ls.len() == 0);
            return None;
        }
        assert(ls.first() == lines@[0]@);
        let line = &lines[0];
        proof {
            lemma_find_first(line@, 32);
        }
        let c = match find_byte(line.as_slice(), 32, 0) {
            None => {
                proof {
                    if find_first(line@, 32) >= 0 {
                        assert(line@[find_first(line@, 32)] == 32);
                    }
                }
                return None;
            },
            Some(c) => c,
        };
        proof {
            let f = find_first(line@, 32);
            if f >= 0 && f < c {
                assert(line@[f] != 32);
            }
            if f == -1 || f > c {
                assert(line@[c as int] == 32);
            }
            assert(f == c);
        }
        if c == 0 {
            return None;
        }
        let version_bytes = copy_range(line.as_slice(), 0, c);
        assert(version_bytes@ =~= line@.take(c as int));
        let ln = line.len();
        let rest = copy_range(line.as_slice(), c + 1, ln);
        assert(rest@ =~= line@.skip(c + 1));
        proof {
            lemma_find_first(rest@, 32);
        }
        let tok = match find_byte(rest.as_slice(), 32, 0) {
            None => {
                proof {
                    if find_first(rest@, 32) >= 0 {
                        assert(rest@[find_first(rest@, 32)] == 32);
                    }
                }
                rest
            },
            Some(d) => {
                proof {
                    let f = find_first(rest@, 32);
                    if f >= 0 && f < d {
                        assert(rest@[f] != 32);
                    }
                    if f == -1 || f > d {
                        assert(rest@[d as int] == 32);
                    }
                    assert(f == d);
                }
                let t = copy_range(rest.as_slice(), 0, d);
                assert(t@ =~= rest@.take(d as int));
                t
            },
        };
        let status = match parse_u16_dec(tok.as_slice()) {
            None => {
                return None;
            },
            Some(s) => s,
        };
        let headers = match parse_header_block(&lines, 1) {
            None => {
                proof {
                    assert(lines_view(lines@).skip(1) =~= ls.drop_first());
                    if spec_decode_response(bytes@) is Some {
                        let v = spec_decode_response(bytes@).unwrap();
                        assert(spec_parse_headers(ls.drop_first()) == Some(v.headers));
                        assert(!(forall|k: int|
                            0 <= k < v.headers.len() ==> valid_utf8((#[trigger] v.headers[k]).0)
                                && valid_utf8(v.headers[k].1)));
                        assert(!response_view_utf8(v));
                    }
                }
                return None;
            },
            Some(hs) => hs,
        };
        proof {
            assert(lines_view(lines@).skip(1) =~= ls.drop_first());
        }
        let version = match string_from_utf8(version_bytes) {
            None => {
                return None;
            },
            Some(s) => s,
        };
        Some(ResponseHead { status, version, headers })
    }
}

/// The wire form of a header list: one `key: value` line per entry.
pub open spec fn spec_encode_headers(hs: Seq<(Seq<u8>, Seq<u8>)>) -> Seq<u8>
    decreases hs.len(),
{
    if hs.len() == 0 {
        Seq::empty()
    } else {
        hs.first().0 + seq![58u8, 32u8] + hs.first().1 + seq![13u8, 10u8] + spec_encode_headers(
            hs.drop_first(),
        )
    }
}

proof fn lemma_encode_headers_take_step(hs: Seq<(Seq<u8>, Seq<u8>)>, i: int)
    requires
        0 <= i < hs.len(),
    ensures
        spec_encode_headers(hs.take(i + 1)) == spec_encode_headers(hs.take(i)) + (hs[i].0 + seq![
            58u8,
            32u8,
        ] + hs[i].1 + seq![13u8, 10u8]),
    decreases i,
{
    if i == 0 {
        assert(hs.take(1).first() == hs[0]);
        assert(hs.take(1).drop_first() =~= Seq::<(Seq<u8>, Seq<u8>)>::empty());
        assert(hs.take(0) =~= Seq::<(Seq<u8>, Seq<u8>)>::empty());
        assert(spec_encode_headers(hs.take(1)) =~= spec_encode_headers(hs.take(0)) + (hs[0].0
            + seq![58u8, 32u8] + hs[0].1 + seq![13u8, 10u8]));
    } else {
        let rest = hs.drop_first();
        lemma_encode_headers_take_step(rest, i - 1);
        assert(hs.take(i + 1).drop_first() =~= rest.take(i));
        assert(hs.take(i).drop_first() =~= rest.take(i - 1));
        assert(hs.take(i + 1).first() == hs.first());
        assert(hs.take(i).first() == hs.first());
        assert(rest[i - 1] == hs[i]);
        assert(spec_encode_headers(hs.take(i + 1)) =~= spec_encode_headers(hs.take(i)) + (hs[i].0
            + seq![58u8, 32u8] + hs[i].1 + seq![13u8, 10u8]));
    }
}

fn push_headers(headers: &Vec<(String, String)>, out: &mut Vec<u8>)
    ensures
        final(out)@ == old(out)@ + spec_encode_headers(headers_view(headers@)),
{
    let ghost hv = headers_view(headers@);
    let ghost base = out@;
    let n = headers.len();
    let mut i: usize = 0;
    assert(hv.take(0) =~= Seq::<(Seq<u8>, Seq<u8>)>::empty());
    assert(out@ =~= base + spec_encode_headers(hv.take(0)));
    while i < n
        invariant
            i <= n,
            n == headers@.len(),
            hv == headers_view(headers@),
            out@ == base + spec_encode_headers(hv.take(i as int)),
        decreases n - i,
    {
        assert(hv[i as int] == (
        encode_utf8(headers@[i as int].0@),
        encode_utf8(headers@[i as int].1@),
        ));
        let mut kb = headers[i].0.as_str().as_bytes_vec();
        out.append(&mut kb);
        out.push(58);
        out.push(32);
        let mut vb = headers[i].1.as_str().as_bytes_vec();
        out.append(&mut vb);
        out.push(13);
        out.push(10);
        proof {
            lemma_encode_headers_take_step(hv, i as int);
            assert(out@ =~= base + spec_encode_headers(hv.take(i + 1)));
        }
        i = i + 1;
    }
    assert(hv.take(n as int) =~= hv);
}

/// The wire form of a request head.
pub open spec fn spec_encode_request(v: RequestHeadView) -> Seq<u8> {
    v.method + seq![32u8] + v.uri + seq![32u8] + v.version + seq![13u8, 10u8]
        + spec_encode_headers(v.headers) + seq![13u8, 10u8]
}

impl RequestHead {
    /// Encodes the head back to bytes: the request line, each header as
    /// `key: value`, and the final empty line.
    pub fn encode(&self) -> (r: Vec<u8>)
        ensures
            r@ == spec_encode_request(self@),
    {
        let mut out: Vec<u8> = Vec::new();
        let mut m = self.method.as_str().as_bytes_vec();
        out.append(&mut m);
        out.push(32);
        let mut u = self.uri.as_str().as_bytes_vec();
        out.append(&mut u);
        out.push(32);
        let mut v = self.version.as_str().as_bytes_vec();
        out.append(&mut v);
        out.push(13);
        out.push(10);
        push_headers(&self.headers, &mut out);
        out.push(13);
        out.push(10);
        assert(out@ =~= spec_encode_request(self@));
        out
    }
}

/// The reason phrase sent with a status code.
pub open spec fn spec_reason_phrase(status: u16) -> Seq<char> {
    if status == 200 {
        "OK"@
    } else if status == 201 {
        "Created"@
    } else if status == 204 {
        "No Content"@
    } else if status == 400 {
        "Bad Request"@
    } else if status == 401 {
        "Unauthorized"@
    } else if status == 403 {
        "Forbidden"@
    } else if status == 404 {
        "Not Found"@
    } else if status == 500 {
        "Internal Server Error"@
    } else if status == 502 {
        "Bad Gateway"@
    } else if status == 503 {
        "Service Unavailable"@
    } else {
        "Unknown Status"@
    }
}

/// The reason phrase for a status code, with a generic phrase for codes
/// not listed.
pub fn reason_phrase(status: u16) -> (r: &'static str)
    ensures
        r@ == spec_reason_phrase(status),
{
    match status {
        200 => "OK",
        201 => "Created",
        204 => "No Content",
        400 => "Bad Request",
        401 => "Unauthorized",
        403 => "Forbidden",
        404 => "Not Found",
        500 => "Internal Server Error",
        502 => "Bad Gateway",
        503 => "Service Unavailable",
        _ => "Unknown Status",
    }
}

/// The wire form of a response head.
pub open spec fn spec_encode_response(v: ResponseHeadView) -> Seq<u8> {
    v.version + seq![32u8] + dec_digits(v.status as nat) + seq![32u8] + encode_utf8(
        spec_reason_phrase(v.status),
    ) + seq![13u8, 10u8] + spec_encode_headers(v.headers) + seq![13u8, 10u8]
}

impl ResponseHead {
    /// Encodes the head back to bytes: the status line with its reason
    /// phrase, each header, and the final empty line.
    pub fn encode(&self) -> (r: Vec<u8>)
        ensures
            r@ == spec_encode_response(self@),
    {
        let mut out: Vec<u8> = Vec::new();
        let mut v = self.version.as_str().as_bytes_vec();
        out.append(&mut v);
        out.push(32);
        push_dec_u16(self.status, &mut out);
        out.push(32);
        let mut p = reason_phrase(self.status).as_bytes_vec();
        out.append(&mut p);
        out.push(13);
        out.push(10);
        push_headers(&self.headers, &mut out);
        out.push(13);
        out.push(10);
        assert(out@ =~= spec_encode_response(self@));
        out
    }
}

/// The first position where `pat` occurs in `s` at or after `from`, or
/// -1.
pub open spec fn find_match(s: Seq<u8>, pat: Seq<u8>, from: int) -> int
    decreases s.len() - from,
{
    if from < 0 || pat.len() == 0 || from + pat.len() > s.len() {
        -1
    } else if crate::text::matches_at(s, pat, from) {
        from
    } else {
        find_match(s, pat, from + 1)
    }
}

proof fn lemma_find_match(s: Seq<u8>, pat: Seq<u8>, from: int)
    requires
        0 <= from,
        pat.len() > 0,
    ensures
        find_match(s, pat, from) == -1 || find_match(s, pat, from) >= from,
        find_match(s, pat, from) == -1 ==> forall|k: int|
            from <= k ==> !crate::text::matches_at(s, pat, k),
        find_match(s, pat, from) >= 0 ==> {
            &&& from <= find_match(s, pat, from)
            &&& crate::text::matches_at(s, pat, find_match(s, pat, from))
            &&& forall|k: int|
                from <= k < find_match(s, pat, from) ==> !crate::text::matches_at(s, pat, k)
        },
    decreases s.len() - from,
{
    if from + pat.len() > s.len() {
        assert(forall|k: int| from <= k ==> !crate::text::matches_at(s, pat, k));
    } else if crate::text::matches_at(s, pat, from) {
    } else {
        lemma_find_match(s, pat, from + 1);
    }
}

/// The bytes `\r\n\r\n` that end an HTTP head.
pub open spec fn head_terminator() -> Seq<u8> {
    seq![13u8, 10u8, 13u8, 10u8]
}

/// Splits a raw HTTP message at the first empty line: the head as text
/// and the body bytes.  `None` when there is no empty line or the head
/// is not UTF-8.
#[verifier::loop_isolation(false)]
pub fn separate_headers(data: &[u8]) -> (r: Option<(String, Vec<u8>)>)
    ensures
        r is Some <==> find_match(data@, head_terminator(), 0) >= 0 && valid_utf8(
            data@.take(find_match(data@, head_terminator(), 0)),
        ),
        r matches Some((h, b)) ==> {
            let cut = find_match(data@, head_terminator(), 0);
            encode_utf8(h@) == data@.take(cut) && b@ == data@.skip(cut + 4)
        },
{
    let ghost pat = head_terminator();
    let mut sep: Vec<u8> = Vec::new();
    sep.push(13);
    sep.push(10);
    sep.push(13);
    sep.push(10);
    assert(sep@ =~= pat);
    proof {
        lemma_find_match(data@, pat, 0);
    }
    let n = data.len();
    if n < 4 {
        assert(find_match(data@, pat, 0) == -1) by {
            if find_match(data@, pat, 0) >= 0 {
                assert(crate::text::matches_at(data@, pat, find_match(data@, pat, 0)));
            }
        }
        return None;
    }
    let mut i: usize = 0;
    while i <= n - 4
        invariant
            4 <= n == data@.len(),
            i <= n - 3,
            sep@ == pat,
            forall|k: int| 0 <= k < i ==> !crate::text::matches_at(data@, pat, k),
        decreases n - i,
    {
        if crate::text::matches_here(data, sep.as_slice(), i) {
            proof {
                lemma_find_match(data@, pat, 0);
                assert(crate::text::matches_at(data@, pat, i as int));
                let f = find_match(data@, pat, 0);
                assert(f >= 0);
                if f < i {
                    assert(!crate::text::matches_at(data@, pat, f));
                }
                if f > i {
                    assert(!crate::text::matches_at(data@, pat, i as int));
                }
                assert(f == i);
            }
            let head_bytes = copy_range(data, 0, i);
            assert(head_bytes@ =~= data@.take(i as int));
            let body = copy_range(data, i + 4, n);
            assert(body@ =~= data@.skip(i + 4));
            return match string_from_utf8(head_bytes) {
                None => None,
                Some(h) => Some((h, body)),
            };
        }
        i = i + 1;
    }
    proof {
        let f = find_match(data@, pat, 0);
        if f >= 0 {
            assert(crate::text::matches_at(data@, pat, f));
            assert(f + 4 <= n);
            assert(f < i);
        }
    }
    None
}

/// The bytes `http://`.
pub open spec fn http_scheme_prefix() -> Seq<u8> {
    seq![104u8, 116u8, 116u8, 112u8, 58u8, 47u8, 47u8]
}

/// What a plain HTTP URL denotes: the host, the port (80 when absent)
/// and the request path, always beginning with a slash.
pub open spec fn spec_parse_url(b: Seq<u8>) -> Option<(Seq<u8>, u16, Seq<u8>)> {
    let after = if starts_with_seq(b, http_scheme_prefix()) {
        b.skip(7)
    } else {
        b
    };
    let c = find_first(after, 47);
    let host_port = if c < 0 {
        after
    } else {
        after.take(c)
    };
    let path0 = if c < 0 {
        Seq::<u8>::empty()
    } else {
        after.skip(c + 1)
    };
    let path1 = if path0.len() == 0 {
        seq![47u8]
    } else {
        path0
    };
    let path = seq![47u8] + path1;
    let d = find_first(host_port, 58);
    if d < 0 {
        Some((host_port, 80u16, path))
    } else {
        let tok = host_port.skip(d + 1);
        if is_dec_seq(tok) && dec_val(tok) <= 65535 {
            Some((host_port.take(d), dec_val(tok) as u16, path))
        } else {
            None
        }
    }
}

/// Splits a plain HTTP URL into host, port and path.  Host and path
/// must be UTF-8 to become strings.
#[verifier::loop_isolation(false)]
pub fn parse_url(url: &str) -> (r: Option<(String, u16, String)>)
    ensures
        r is Some <==> (spec_parse_url(url.spec_bytes()) matches Some(v) && valid_utf8(v.0)
            && valid_utf8(v.2)),
        r matches Some((h, p, path)) ==> spec_parse_url(url.spec_bytes()) == Some(
            (encode_utf8(h@), p, encode_utf8(path@)),
        ),
{
    let b = url.as_bytes();
    let ghost bv = url.spec_bytes();
    let mut scheme: Vec<u8> = Vec::new();
    scheme.push(104);
    scheme.push(116);
    scheme.push(116);
    scheme.push(112);
    scheme.push(58);
    scheme.push(47);
    scheme.push(47);
    assert(scheme@ =~= http_scheme_prefix());
    let n = b.len();
    let start: usize = if starts_with_bytes(b, scheme.as_slice()) {
        7
    } else {
        0
    };
    let after = copy_range(b, start, n);
    assert(after@ =~= (if starts_with_seq(bv, http_scheme_prefix()) {
        bv.skip(7)
    } else {
        bv
    }));
    proof {
        lemma_find_first(after@, 47);
    }
    let an = after.len();
    let (host_port, path0) = match find_byte(after.as_slice(), 47, 0) {
        None => {
            proof {
                if find_first(after@, 47) >= 0 {
                    assert(after@[find_first(after@, 47)] == 47);
                }
            }
            let empty: Vec<u8> = Vec::new();
            (after, empty)
        },
        Some(c) => {
            proof {
                let f = find_first(after@, 47);
                if f >= 0 && f < c {
                    assert(after@[f] != 47);
                }
                if f == -1 || f > c {
                    assert(after@[c as int] == 47);
                }
                assert(f == c);
            }
            let hp = copy_range(after.as_slice(), 0, c);
            assert(hp@ =~= after@.take(c as int));
            let p0 = copy_range(after.as_slice(), c + 1, an);
            assert(p0@ =~= after@.skip(c + 1));
            (hp, p0)
        },
    };
    let mut path: Vec<u8> = Vec::new();
    path.push(47);
    if path0.len() == 0 {
        path.push(47);
        assert(path@ =~= seq![47u8] + seq![47u8]);
    } else {
        let ghost p0 = path0@;
        let m = path0.len();
        let mut j: usize = 0;
        while j < m
            invariant
                j <= m,
                m == path0@.len(),
                path@ == seq![47u8] + path0@.take(j as int),
            decreases m - j,
        {
            path.push(path0[j]);
            assert(path@ =~= seq![47u8] + path0@.take(j + 1));
            j = j + 1;
        }
        assert(path0@.take(m as int) =~= path0@);
    }
    proof {
        lemma_find_first(host_port@, 58);
    }
    let hn = host_port.len();
    match find_byte(host_port.as_slice(), 58, 0) {
        None => {
            proof {
                if find_first(host_port@, 58) >= 0 {
                    assert(host_port@[find_first(host_port@, 58)] == 58);
                }
            }
            match (string_from_utf8(host_port), string_from_utf8(path)) {
                (Some(h), Some(p)) => Some((h, 80u16, p)),
                _ => None,
            }
        },
        Some(d) => {
            proof {
                let f = find_first(host_port@, 58);
                if f >= 0 && f < d {
                    assert(host_port@[f] != 58);
                }
                if f == -1 || f > d {
                    assert(host_port@[d as int] == 58);
                }
                assert(f == d);
            }
            let tok = copy_range(host_port.as_slice(), d + 1, hn);
            assert(tok@ =~= host_port@.skip(d + 1));
            match parse_u16_dec(tok.as_slice()) {
                None => None,
                Some(port) => {
                    let host = copy_range(host_port.as_slice(), 0, d);
                    assert(host@ =~= host_port@.take(d as int));
                    match (string_from_utf8(host), string_from_utf8(path)) {
                        (Some(h), Some(p)) => Some((h, port, p)),
                        _ => None,
                    }
                },
            }
        },
    }
}

/// The status code of a response, read from its first line alone.
pub open spec fn spec_response_status(bytes: Seq<u8>) -> Option<u16> {
    let ls = split_lines(bytes);
    if ls.len() == 0 {
        None
    } else {
        let line = ls.first();
        let c = find_first(line, 32);
        if c <= 0 {
            None
        } else {
            let rest = line.skip(c + 1);
            let d = find_first(rest, 32);
            let tok = if d < 0 {
                rest
            } else {
                rest.take(d)
            };
            if is_dec_seq(tok) && dec_val(tok) <= 65535 {
                Some(dec_val(tok) as u16)
            } else {
                None
            }
        }
    }
}

/// Whether upstream's answer to a CONNECT is a success: a well-formed
/// status line with a 2xx code.
pub fn response_is_success(bytes: &[u8]) -> (r: bool)
    ensures
        r == (spec_response_status(bytes@) matches Some(s) && 200 <= s < 300),
{
    let lines = split_lines_exec(bytes);
    let ghost ls = split_lines(bytes@);
    if lines.len() == 0 {
        assert(ls.len() == 0);
        return false;
    }
    assert(ls.first() == lines@[0]@);
    let line = &lines[0];
    proof {
        lemma_find_first(line@, 32);
    }
    let c = match find_byte(line.as_slice(), 32, 0) {
        None => {
            proof {
                if find_first(line@, 32) >= 0 {
                    assert(line@[find_first(line@, 32)] == 32);
                }
            }
            return false;
        },
        Some(c) => c,
    };
    proof {
        let f = find_first(line@, 32);
        if f >= 0 && f < c {
            assert(line@[f] != 32);
        }
        if f == -1 || f > c {
            assert(line@[c as int] == 32);
        }
        assert(f == c);
    }
    if c == 0 {
        return false;
    }
    let ln = line.len();
    let rest = copy_range(line.as_slice(), c + 1, ln);
    assert(rest@ =~= line@.skip(c + 1));
    proof {
        lemma_find_first(rest@, 32);
    }
    let tok = match find_byte(rest.as_slice(), 32, 0) {
        None => {
            proof {
                if find_first(rest@, 32) >= 0 {
                    assert(rest@[find_first(rest@, 32)] == 32);
                }
            }
            rest
        },
        Some(d) => {
            proof {
                let f = find_first(rest@, 32);
                if f >= 0 && f < d {
                    assert(rest@[f] != 32);
                }
                if f == -1 || f > d {
                    assert(rest@[d as int] == 32);
                }
                assert(f == d);
            }
            let t = copy_range(rest.as_slice(), 0, d);
            assert(t@ =~= rest@.take(d as int));
            t
        },
    };
    let status = match parse_u16_dec(tok.as_slice()) {
        None => {
            return false;
        },
        Some(s) => s,
    };
    status >= 200 && status < 300
}

} // verus!
