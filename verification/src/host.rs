//! Classification of a target host as an IPv4 literal, an IPv6 literal
//! or a domain name, and the exact textual forms used on the wire: a
//! dotted quad for IPv4 and eight fixed-width lowercase hex groups for
//! IPv6, with no zero-group compression.

use vstd::prelude::*;
use crate::text::{
    dec_val, dec_digits, find_byte, find_first, is_dec_seq, lemma_dec_digits_are_digits,
    lemma_dec_digits_len, lemma_dec_digits_no_leading_zero, lemma_dec_val_of_digits,
    lemma_find_first, lemma_find_first_concat, parse_u16_dec, push_dec_u16,
};
use vstd::slice::slice_to_vec;

verus! {

use vstd::string::StringSliceAdditionalSpecFns;

/// ASCII hex digit, either case.
pub open spec fn is_hex_digit(b: u8) -> bool {
    48 <= b <= 57 || 97 <= b <= 102 || 65 <= b <= 70
}

/// The value of one hex digit.
pub open spec fn hex_digit_val(b: u8) -> int {
    if 48 <= b <= 57 {
        b - 48
    } else if 97 <= b <= 102 {
        b - 87
    } else {
        b - 55
    }
}

/// The number a hex digit string denotes.
pub open spec fn hex_val(s: Seq<u8>) -> int
    decreases s.len(),
{
    if s.len() == 0 {
        0
    } else {
        16 * hex_val(s.drop_last()) + hex_digit_val(s.last())
    }
}

/// One group of an IPv6 literal: one to four hex digits.
pub open spec fn is_hex_group(s: Seq<u8>) -> bool {
    1 <= s.len() <= 4 && forall|i: int| 0 <= i < s.len() ==> is_hex_digit(#[trigger] s[i])
}

/// The lowercase hex digit for a value below sixteen.
pub open spec fn hex_digit_char(n: int) -> u8 {
    if n < 10 {
        (48 + n) as u8
    } else {
        (87 + n) as u8
    }
}

/// The fixed-width rendering of one group: four lowercase hex digits.
pub open spec fn hex4(v: u16) -> Seq<u8> {
    seq![
        hex_digit_char((v as int / 4096) % 16),
        hex_digit_char((v as int / 256) % 16),
        hex_digit_char((v as int / 16) % 16),
        hex_digit_char(v as int % 16),
    ]
}

/// The dotted-quad rendering of an IPv4 address.
pub open spec fn ipv4_text(a: u8, b: u8, c: u8, d: u8) -> Seq<u8> {
    dec_digits(a as nat) + seq![46u8] + dec_digits(b as nat) + seq![46u8] + dec_digits(c as nat)
        + seq![46u8] + dec_digits(d as nat)
}

/// The eight-group rendering of an IPv6 address.
pub open spec fn ipv6_text(g: Seq<u16>) -> Seq<u8>
    recommends
        g.len() == 8,
{
    hex4(g[0]) + seq![58u8] + hex4(g[1]) + seq![58u8] + hex4(g[2]) + seq![58u8] + hex4(g[3])
        + seq![58u8] + hex4(g[4]) + seq![58u8] + hex4(g[5]) + seq![58u8] + hex4(g[6]) + seq![58u8]
        + hex4(g[7])
}

/// A well-formed decimal octet: no stray characters, no superfluous
/// leading zero, value at most 255.
pub open spec fn valid_octet(g: Seq<u8>) -> bool {
    is_dec_seq(g) && g.len() <= 3 && (g.len() == 1 || g[0] != 48) && dec_val(g) <= 255
}

/// Splits `s` into exactly `n` groups at `sep`; the last group must be
/// free of the separator.
pub open spec fn split_groups(s: Seq<u8>, sep: u8, n: int) -> Option<Seq<Seq<u8>>>
    decreases n,
{
    if n <= 1 {
        if find_first(s, sep) == -1 {
            Some(seq![s])
        } else {
            None
        }
    } else {
        let c = find_first(s, sep);
        if c < 0 {
            None
        } else {
            match split_groups(s.skip(c + 1), sep, n - 1) {
                None => None,
                Some(gs) => Some(seq![s.take(c)] + gs),
            }
        }
    }
}

pub proof fn lemma_split_groups_len(s: Seq<u8>, sep: u8, n: int)
    requires
        n >= 1,
        split_groups(s, sep, n) is Some,
    ensures
        split_groups(s, sep, n).unwrap().len() == n,
    decreases n,
{
    if n > 1 {
        let c = find_first(s, sep);
        lemma_split_groups_len(s.skip(c + 1), sep, n - 1);
    }
}

/// What parsing a dotted quad yields.
pub open spec fn spec_parse_ipv4(s: Seq<u8>) -> Option<(u8, u8, u8, u8)> {
    match split_groups(s, 46, 4) {
        None => None,
        Some(gs) => if valid_octet(gs[0]) && valid_octet(gs[1]) && valid_octet(gs[2])
            && valid_octet(gs[3]) {
            Some(
                (
                    dec_val(gs[0]) as u8,
                    dec_val(gs[1]) as u8,
                    dec_val(gs[2]) as u8,
                    dec_val(gs[3]) as u8,
                ),
            )
        } else {
            None
        },
    }
}

/// What parsing an eight-group IPv6 literal yields.
pub open spec fn spec_parse_ipv6(s: Seq<u8>) -> Option<Seq<u16>> {
    match split_groups(s, 58, 8) {
        None => None,
        Some(gs) => if forall|i: int| 0 <= i < 8 ==> is_hex_group(#[trigger] gs[i]) {
            Some(Seq::new(8, |i: int| hex_val(gs[i]) as u16))
        } else {
            None
        },
    }
}

/// The views of the collected groups.
pub open spec fn groups_view(v: Seq<Vec<u8>>) -> Seq<Seq<u8>> {
    v.map_values(|x: Vec<u8>| x@)
}

pub(crate) fn split_groups_exec(s: &[u8], sep: u8, n: usize) -> (r: Option<Vec<Vec<u8>>>)
    requires
        1 <= n,
    ensures
        r is Some <==> split_groups(s@, sep, n as int) is Some,
        r matches Some(v) ==> split_groups(s@, sep, n as int) == Some(groups_view(v@)),
    decreases n,
{
    proof {
        lemma_find_first(s@, sep);
    }
    let found = find_byte(s, sep, 0);
    if n == 1 {
        match found {
            Some(_) => {
                assert(find_first(s@, sep) != -1);
                None
            },
            None => {
                assert(find_first(s@, sep) == -1) by {
                    if find_first(s@, sep) >= 0 {
                        assert(s@[find_first(s@, sep)] == sep);
                    }
                }
                let whole = slice_to_vec(s);
                let mut v: Vec<Vec<u8>> = Vec::new();
                v.push(whole);
                assert(groups_view(v@) =~= seq![s@]);
                Some(v)
            },
        }
    } else {
        match found {
            None => {
                assert(find_first(s@, sep) == -1) by {
                    if find_first(s@, sep) >= 0 {
                        assert(s@[find_first(s@, sep)] == sep);
                    }
                }
                None
            },
            Some(c) => {
                proof {
                    let ff = find_first(s@, sep);
                    assert(ff != -1);
                    if ff < c {
                        assert(s@[ff] != sep);
                    }
                    if ff > c {
                        assert(s@[c as int] != sep);
                    }
                    assert(ff == c);
                }
                let head = slice_to_vec(&s[0..c]);
                assert(head@ =~= s@.take(c as int));
                let n_s = s.len();
                let tail = &s[c + 1..n_s];
                assert(tail@ =~= s@.skip(c + 1));
                match split_groups_exec(tail, sep, n - 1) {
                    None => None,
                    Some(mut v) => {
                        let ghost gs = groups_view(v@);
                        let ghost prev = v@;
                        v.insert(0, head);
                        proof {
                            assert(v@.len() == prev.len() + 1);
                            assert forall|k: int| 0 <= k < v@.len() implies #[trigger] groups_view(
                                v@,
                            )[k] == (seq![s@.take(c as int)] + gs)[k] by {
                                assert(groups_view(v@)[k] == v@[k]@);
                                if k > 0 {
                                    assert(v@[k] == prev[k - 1]);
                                    assert(gs[k - 1] == prev[k - 1]@);
                                }
                            }
                            assert(groups_view(v@) =~= seq![s@.take(c as int)] + gs);
                        }
                        Some(v)
                    },
                }
            },
        }
    }
}

fn parse_octet(g: &Vec<u8>) -> (r: Option<u8>)
    ensures
        r is Some <==> valid_octet(g@),
        r matches Some(x) ==> x as int == dec_val(g@),
{
    if g.len() > 3 {
        return None;
    }
    if g.len() > 1 && g[0] == 48 {
        return None;
    }
    match parse_u16_dec(g.as_slice()) {
        None => None,
        Some(x) => {
            if x > 255 {
                None
            } else {
                Some(x as u8)
            }
        },
    }
}

fn parse_hex_group(g: &Vec<u8>) -> (r: Option<u16>)
    ensures
        r is Some <==> is_hex_group(g@),
        r matches Some(x) ==> x as int == hex_val(g@),
{
    let n = g.len();
    if n == 0 || n > 4 {
        return None;
    }
    let mut acc: u16 = 0;
    let mut i: usize = 0;
    while i < n
        invariant
            i <= n <= 4,
            n == g@.len(),
            forall|k: int| 0 <= k < i ==> is_hex_digit(#[trigger] g@[k]),
            acc as int == hex_val(g@.take(i as int)),
            i == 0 ==> acc == 0,
            i == 1 ==> acc < 16,
            i == 2 ==> acc < 0x100,
            i == 3 ==> acc < 0x1000,
            i == 4 ==> acc <= 0xffff,
        decreases n - i,
    {
        let b = g[i];
        let d: u16 = if b >= 48 && b <= 57 {
            (b - 48) as u16
        } else if b >= 97 && b <= 102 {
            (b - 87) as u16
        } else if b >= 65 && b <= 70 {
            (b - 55) as u16
        } else {
            return None;
        };
        assert(g@.take(i + 1).drop_last() =~= g@.take(i as int));
        acc = acc * 16 + d;
        i = i + 1;
    }
    assert(g@.take(n as int) =~= g@);
    Some(acc)
}

/// Parses a dotted-quad IPv4 literal.
pub fn parse_ipv4(s: &[u8]) -> (r: Option<(u8, u8, u8, u8)>)
    ensures
        r == spec_parse_ipv4(s@),
{
    match split_groups_exec(s, 46, 4) {
        None => None,
        Some(v) => {
            let ghost gs = groups_view(v@);
            proof {
                lemma_split_groups_len(s@, 46, 4);
                assert(gs.len() == 4);
            }
            proof {
                assert(gs[0] == v@[0]@);
                assert(gs[1] == v@[1]@);
                assert(gs[2] == v@[2]@);
                assert(gs[3] == v@[3]@);
            }
            let a = parse_octet(&v[0]);
            let b = parse_octet(&v[1]);
            let c = parse_octet(&v[2]);
            let d = parse_octet(&v[3]);
            match (a, b, c, d) {
                (Some(a), Some(b), Some(c), Some(d)) => Some((a, b, c, d)),
                _ => None,
            }
        },
    }
}

/// Parses an eight-group IPv6 literal into its group values.
#[verifier::loop_isolation(false)]
pub fn parse_ipv6(s: &[u8]) -> (r: Option<Vec<u16>>)
    ensures
        r is Some <==> spec_parse_ipv6(s@) is Some,
        r matches Some(v) ==> spec_parse_ipv6(s@) == Some(v@) && v@.len() == 8,
{
    match split_groups_exec(s, 58, 8) {
        None => None,
        Some(v) => {
            let ghost gs = groups_view(v@);
            proof {
                lemma_split_groups_len(s@, 58, 8);
                assert(gs.len() == 8);
            }
            let mut groups: Vec<u16> = Vec::new();
            let mut i: usize = 0;
            while i < 8
                invariant
                    i <= 8,
                    v@.len() == 8,
                    gs == groups_view(v@),
                    groups@.len() == i,
                    forall|k: int|
                        0 <= k < i ==> is_hex_group(#[trigger] gs[k]) && groups@[k] as int
                            == hex_val(gs[k]),
                decreases 8 - i,
            {
                assert(gs[i as int] == v@[i as int]@);
                match parse_hex_group(&v[i]) {
                    None => {
                        proof {
                            assert(!(forall|k: int|
                                0 <= k < 8 ==> is_hex_group(#[trigger] gs[k]))) by {
                                assert(!is_hex_group(gs[i as int]));
                            }
                        }
                        return None;
                    },
                    Some(x) => {
                        groups.push(x);
                    },
                }
                i = i + 1;
            }
            proof {
                assert(groups@ =~= Seq::new(8, |k: int| hex_val(gs[k]) as u16));
            }
            Some(groups)
        },
    }
}

/// Renders four octets as a dotted quad.
pub fn ipv4_string_bytes(o: &[u8]) -> (r: Vec<u8>)
    requires
        o@.len() == 4,
    ensures
        r@ == ipv4_text(o@[0], o@[1], o@[2], o@[3]),
{
    let mut out: Vec<u8> = Vec::new();
    push_dec_u16(o[0] as u16, &mut out);
    out.push(46);
    push_dec_u16(o[1] as u16, &mut out);
    out.push(46);
    push_dec_u16(o[2] as u16, &mut out);
    out.push(46);
    push_dec_u16(o[3] as u16, &mut out);
    assert(out@ =~= ipv4_text(o@[0], o@[1], o@[2], o@[3]));
    out
}

fn push_hex4(v: u16, out: &mut Vec<u8>)
    ensures
        final(out)@ == old(out)@ + hex4(v),
{
    let d0 = ((v / 4096) % 16) as u8;
    let d1 = ((v / 256) % 16) as u8;
    let d2 = ((v / 16) % 16) as u8;
    let d3 = (v % 16) as u8;
    out.push(if d0 < 10 { 48 + d0 } else { 87 + d0 });
    out.push(if d1 < 10 { 48 + d1 } else { 87 + d1 });
    out.push(if d2 < 10 { 48 + d2 } else { 87 + d2 });
    out.push(if d3 < 10 { 48 + d3 } else { 87 + d3 });
    assert(final(out)@ =~= old(out)@ + hex4(v));
}

/// Renders eight group values as an uncompressed IPv6 literal.
pub fn ipv6_string_bytes(g: &[u16]) -> (r: Vec<u8>)
    requires
        g@.len() == 8,
    ensures
        r@ == ipv6_text(g@),
{
    let mut out: Vec<u8> = Vec::new();
    push_hex4(g[0], &mut out);
    out.push(58);
    push_hex4(g[1], &mut out);
    out.push(58);
    push_hex4(g[2], &mut out);
    out.push(58);
    push_hex4(g[3], &mut out);
    out.push(58);
    push_hex4(g[4], &mut out);
    out.push(58);
    push_hex4(g[5], &mut out);
    out.push(58);
    push_hex4(g[6], &mut out);
    out.push(58);
    push_hex4(g[7], &mut out);
    assert(out@ =~= ipv6_text(g@));
    out
}

/// What kind of target host a string denotes.
#[derive(Debug, Clone, Copy, PartialEq, Eq, Structural)]
pub enum HostType {
    Ipv4,
    Ipv6,
    Domain,
}

/// Classification: an IPv4 literal first, else an IPv6 literal, else a
/// domain name.
pub open spec fn spec_host_type(s: Seq<u8>) -> HostType {
    if spec_parse_ipv4(s) is Some {
        HostType::Ipv4
    } else if spec_parse_ipv6(s) is Some {
        HostType::Ipv6
    } else {
        HostType::Domain
    }
}

impl HostType {
    /// Classifies a target host string.
    pub fn check(host: &str) -> (r: Self)
        ensures
            r == spec_host_type(host.spec_bytes()),
    {
        let bytes = host.as_bytes();
        if parse_ipv4(bytes).is_some() {
            HostType::Ipv4
        } else if parse_ipv6(bytes).is_some() {
            HostType::Ipv6
        } else {
            HostType::Domain
        }
    }
}

proof fn lemma_split_single(x: Seq<u8>, sep: u8)
    requires
        forall|i: int| 0 <= i < x.len() ==> x[i] != sep,
    ensures
        split_groups(x, sep, 1) == Some(seq![x]),
{
    lemma_find_first(x, sep);
    if find_first(x, sep) >= 0 {
        assert(x[find_first(x, sep)] == sep);
    }
}

proof fn lemma_split_step(x: Seq<u8>, rest: Seq<u8>, sep: u8, n: int)
    requires
        n >= 2,
        forall|i: int| 0 <= i < x.len() ==> x[i] != sep,
    ensures
        split_groups(x + seq![sep] + rest, sep, n) == match split_groups(rest, sep, n - 1) {
            None => None,
            Some(gs) => Some(seq![x] + gs),
        },
{
    let s = x + seq![sep] + rest;
    lemma_find_first_concat(x, rest, sep);
    assert(find_first(s, sep) == x.len());
    assert(s.take(x.len() as int) =~= x);
    assert(s.skip(x.len() as int + 1) =~= rest);
}

/// The eight group values packed in sixteen raw address bytes.
pub open spec fn bytes_groups(raw: Seq<u8>) -> Seq<u16>
    recommends
        raw.len() == 16,
{
    Seq::new(8, |i: int| (256 * raw[2 * i] + raw[2 * i + 1]) as u16)
}

/// The sixteen raw address bytes of eight group values.
pub open spec fn groups_bytes(g: Seq<u16>) -> Seq<u8>
    recommends
        g.len() == 8,
{
    Seq::new(
        16,
        |i: int|
            if i % 2 == 0 {
                (g[i / 2] as int / 256) as u8
            } else {
                (g[i / 2] as int % 256) as u8
            },
    )
}

/// Packing raw bytes into groups and unpacking them again is the
/// identity.
pub proof fn lemma_bytes_groups_id(raw: Seq<u8>)
    requires
        raw.len() == 16,
    ensures
        groups_bytes(bytes_groups(raw)) == raw,
{
    assert forall|i: int| 0 <= i < 16 implies groups_bytes(bytes_groups(raw))[i] == raw[i] by {
        vstd::arithmetic::div_mod::lemma_fundamental_div_mod(i, 2);
        let k = i / 2;
        let g = bytes_groups(raw)[k] as int;
        assert(g == 256 * raw[2 * k] + raw[2 * k + 1]);
        vstd::arithmetic::div_mod::lemma_div_multiples_vanish_fancy(
            raw[2 * k] as int,
            raw[2 * k + 1] as int,
            256,
        );
        vstd::arithmetic::div_mod::lemma_mod_multiples_vanish(
            raw[2 * k] as int,
            raw[2 * k + 1] as int,
            256,
        );
        vstd::arithmetic::div_mod::lemma_small_mod(raw[2 * k + 1] as nat, 256);
        if i % 2 == 0 {
            assert(i == 2 * k);
        } else {
            assert(i == 2 * k + 1);
        }
    }
    assert(groups_bytes(bytes_groups(raw)) =~= raw);
}

/// Every byte of a split input is the separator or sits in some group.
proof fn lemma_split_groups_bytes(s: Seq<u8>, sep: u8, n: int)
    requires
        n >= 1,
        split_groups(s, sep, n) is Some,
    ensures
        forall|i: int|
            0 <= i < s.len() ==> s[i] == sep || exists|k: int, j: int|
                0 <= k < split_groups(s, sep, n).unwrap().len() && 0 <= j < split_groups(
                    s,
                    sep,
                    n,
                ).unwrap()[k].len() && s[i] == (#[trigger] split_groups(s, sep, n).unwrap()[k][j]),
    decreases n,
{
    let gs = split_groups(s, sep, n).unwrap();
    if n == 1 {
        assert forall|i: int| 0 <= i < s.len() implies s[i] == sep || exists|k: int, j: int|
            0 <= k < gs.len() && 0 <= j < gs[k].len() && s[i] == (#[trigger] gs[k][j]) by {
            assert(gs[0][i] == s[i]);
        }
    } else {
        let c = find_first(s, sep);
        lemma_find_first(s, sep);
        assert(s[c] == sep);
        let rest = s.skip(c + 1);
        let tail_gs = split_groups(rest, sep, n - 1).unwrap();
        lemma_split_groups_bytes(rest, sep, n - 1);
        assert(gs == seq![s.take(c)] + tail_gs);
        assert forall|i: int| 0 <= i < s.len() implies s[i] == sep || exists|k: int, j: int|
            0 <= k < gs.len() && 0 <= j < gs[k].len() && s[i] == (#[trigger] gs[k][j]) by {
            if i < c {
                assert(gs[0][i] == s.take(c)[i]);
                assert(gs[0][i] == s[i]);
            } else if i > c {
                let ii = i - c - 1;
                assert(rest[ii] == s[i]);
                if rest[ii] != sep {
                    let (k, j) = choose|k: int, j: int|
                        0 <= k < tail_gs.len() && 0 <= j < tail_gs[k].len() && rest[ii] == (
                        #[trigger] tail_gs[k][j]);
                    assert(gs[k + 1][j] == tail_gs[k][j]);
                }
            }
        }
    }
}

/// An uncompressed IPv6 literal is never an IPv4 literal: it holds a
/// colon, which a dotted quad has no room for.
pub proof fn lemma_ipv6_text_not_ipv4(g: Seq<u16>)
    requires
        g.len() == 8,
    ensures
        spec_parse_ipv4(ipv6_text(g)) is None,
{
    let t = ipv6_text(g);
    lemma_hex4_digits(g[0]);
    assert(t[4] == 58);
    if split_groups(t, 46, 4) is Some {
        let gs = split_groups(t, 46, 4).unwrap();
        lemma_split_groups_len(t, 46, 4);
        lemma_split_groups_bytes(t, 46, 4);
        if valid_octet(gs[0]) && valid_octet(gs[1]) && valid_octet(gs[2]) && valid_octet(gs[3]) {
            assert(t[4] == 46 || exists|k: int, j: int|
                0 <= k < gs.len() && 0 <= j < gs[k].len() && t[4] == (#[trigger] gs[k][j]));
            let (k, j) = choose|k: int, j: int|
                0 <= k < gs.len() && 0 <= j < gs[k].len() && t[4] == (#[trigger] gs[k][j]);
            assert(48 <= gs[k][j] <= 57);
            assert(false);
        }
    }
}

/// A dotted quad is ASCII, hence valid UTF-8.
pub proof fn lemma_ip_text_ascii_v4(a: u8, b: u8, c: u8, d: u8)
    ensures
        vstd::utf8::valid_utf8(ipv4_text(a, b, c, d)),
{
    let t = ipv4_text(a, b, c, d);
    lemma_dec_digits_are_digits(a as nat);
    lemma_dec_digits_are_digits(b as nat);
    lemma_dec_digits_are_digits(c as nat);
    lemma_dec_digits_are_digits(d as nat);
    assert forall|i: int| 0 <= i < t.len() implies t[i] < 128 by {}
    crate::text::lemma_ascii_valid_utf8(t);
}

/// An eight-group IPv6 literal is ASCII, hence valid UTF-8.
pub proof fn lemma_ip_text_ascii_v6(g: Seq<u16>)
    requires
        g.len() == 8,
    ensures
        vstd::utf8::valid_utf8(ipv6_text(g)),
{
    let t = ipv6_text(g);
    lemma_hex4_digits(g[0]);
    lemma_hex4_digits(g[1]);
    lemma_hex4_digits(g[2]);
    lemma_hex4_digits(g[3]);
    lemma_hex4_digits(g[4]);
    lemma_hex4_digits(g[5]);
    lemma_hex4_digits(g[6]);
    lemma_hex4_digits(g[7]);
    assert forall|i: int| 0 <= i < t.len() implies t[i] < 128 by {}
    crate::text::lemma_ascii_valid_utf8(t);
}

/// Rendering an IPv4 address and parsing it back is the identity.
#[verifier::rlimit(50)]
pub proof fn lemma_parse_ipv4_text(a: u8, b: u8, c: u8, d: u8)
    ensures
        spec_parse_ipv4(ipv4_text(a, b, c, d)) == Some((a, b, c, d)),
{
    let va = dec_digits(a as nat);
    let vb = dec_digits(b as nat);
    let vc = dec_digits(c as nat);
    let vd = dec_digits(d as nat);
    lemma_dec_digits_are_digits(a as nat);
    lemma_dec_digits_are_digits(b as nat);
    lemma_dec_digits_are_digits(c as nat);
    lemma_dec_digits_are_digits(d as nat);
    lemma_dec_digits_len(a as nat);
    lemma_dec_digits_len(b as nat);
    lemma_dec_digits_len(c as nat);
    lemma_dec_digits_len(d as nat);
    lemma_dec_digits_no_leading_zero(a as nat);
    lemma_dec_digits_no_leading_zero(b as nat);
    lemma_dec_digits_no_leading_zero(c as nat);
    lemma_dec_digits_no_leading_zero(d as nat);
    lemma_dec_val_of_digits(a as nat);
    lemma_dec_val_of_digits(b as nat);
    lemma_dec_val_of_digits(c as nat);
    lemma_dec_val_of_digits(d as nat);
    let t = ipv4_text(a, b, c, d);
    let r2 = vb + seq![46u8] + (vc + seq![46u8] + vd);
    let r3 = vc + seq![46u8] + vd;
    assert(t =~= va + seq![46u8] + r2);
    lemma_split_step(va, r2, 46, 4);
    lemma_split_step(vb, r3, 46, 3);
    lemma_split_step(vc, vd, 46, 2);
    lemma_split_single(vd, 46);
    assert(split_groups(t, 46, 4) == Some(seq![va] + (seq![vb] + (seq![vc] + seq![vd]))));
    let gs = seq![va] + (seq![vb] + (seq![vc] + seq![vd]));
    assert(gs =~= seq![va, vb, vc, vd]);
    assert(valid_octet(va) && dec_val(va) == a);
    assert(valid_octet(vb) && dec_val(vb) == b);
    assert(valid_octet(vc) && dec_val(vc) == c);
    assert(valid_octet(vd) && dec_val(vd) == d);
}

proof fn lemma_hex4_digits(v: u16)
    ensures
        is_hex_group(hex4(v)),
        forall|i: int| 0 <= i < hex4(v).len() ==> #[trigger] hex4(v)[i] != 58,
        hex_val(hex4(v)) == v,
{
    let h = hex4(v);
    let x = v as int;
    vstd::arithmetic::div_mod::lemma_mod_bound(x / 4096, 16);
    vstd::arithmetic::div_mod::lemma_mod_bound(x / 256, 16);
    vstd::arithmetic::div_mod::lemma_mod_bound(x / 16, 16);
    vstd::arithmetic::div_mod::lemma_mod_bound(x, 16);
    let d0 = (x / 4096) % 16;
    let d1 = (x / 256) % 16;
    let d2 = (x / 16) % 16;
    let d3 = x % 16;
    assert forall|n: int| 0 <= n < 16 implies is_hex_digit(hex_digit_char(n)) && hex_digit_char(n)
        != 58 && hex_digit_val(hex_digit_char(n)) == n by {}
    let s3 = seq![h[0], h[1], h[2]];
    let s2 = seq![h[0], h[1]];
    let s1 = seq![h[0]];
    assert(h.drop_last() =~= s3);
    assert(s3.drop_last() =~= s2);
    assert(s2.drop_last() =~= s1);
    assert(s1.drop_last() =~= Seq::<u8>::empty());
    assert(hex_val(Seq::<u8>::empty()) == 0);
    assert(hex_val(s1) == 16 * hex_val(s1.drop_last()) + hex_digit_val(s1.last()));
    assert(hex_val(s1) == hex_digit_val(h[0]));
    assert(hex_val(s2) == 16 * hex_val(s1) + hex_digit_val(h[1]));
    assert(hex_val(s3) == 16 * hex_val(s2) + hex_digit_val(h[2]));
    assert(hex_val(h) == 16 * hex_val(s3) + hex_digit_val(h[3]));
    assert(hex_val(h) == 4096 * d0 + 256 * d1 + 16 * d2 + d3);
    vstd::arithmetic::div_mod::lemma_small_mod(v as nat, 65536);
    vstd::arithmetic::div_mod::lemma_breakdown(x, 4096, 16);
    assert(4096 * 16 == 65536);
    assert(x == 4096 * d0 + x % 4096);
    vstd::arithmetic::div_mod::lemma_breakdown(x, 256, 16);
    assert(256 * 16 == 4096);
    assert(x % 4096 == 256 * d1 + x % 256);
    vstd::arithmetic::div_mod::lemma_breakdown(x, 16, 16);
    assert(16 * 16 == 256);
    assert(x % 256 == 16 * d2 + d3);
}

/// Rendering an IPv6 address and parsing it back is the identity.
#[verifier::rlimit(100)]
pub proof fn lemma_parse_ipv6_text(g: Seq<u16>)
    requires
        g.len() == 8,
    ensures
        spec_parse_ipv6(ipv6_text(g)) == Some(g),
{
    let h0 = hex4(g[0]);
    let h1 = hex4(g[1]);
    let h2 = hex4(g[2]);
    let h3 = hex4(g[3]);
    let h4 = hex4(g[4]);
    let h5 = hex4(g[5]);
    let h6 = hex4(g[6]);
    let h7 = hex4(g[7]);
    lemma_hex4_digits(g[0]);
    lemma_hex4_digits(g[1]);
    lemma_hex4_digits(g[2]);
    lemma_hex4_digits(g[3]);
    lemma_hex4_digits(g[4]);
    lemma_hex4_digits(g[5]);
    lemma_hex4_digits(g[6]);
    lemma_hex4_digits(g[7]);
    let t = ipv6_text(g);
    let r6 = h6 + seq![58u8] + h7;
    let r5 = h5 + seq![58u8] + r6;
    let r4 = h4 + seq![58u8] + r5;
    let r3 = h3 + seq![58u8] + r4;
    let r2 = h2 + seq![58u8] + r3;
    let r1 = h1 + seq![58u8] + r2;
    assert(t =~= h0 + seq![58u8] + r1);
    lemma_split_step(h0, r1, 58, 8);
    lemma_split_step(h1, r2, 58, 7);
    lemma_split_step(h2, r3, 58, 6);
    lemma_split_step(h3, r4, 58, 5);
    lemma_split_step(h4, r5, 58, 4);
    lemma_split_step(h5, r6, 58, 3);
    lemma_split_step(h6, h7, 58, 2);
    lemma_split_single(h7, 58);
    let gs = seq![h0] + (seq![h1] + (seq![h2] + (seq![h3] + (seq![h4] + (seq![h5] + (seq![h6]
        + seq![h7]))))));
    assert(split_groups(t, 58, 8) == Some(gs));
    let flat = seq![h0, h1, h2, h3, h4, h5, h6, h7];
    assert(gs =~= flat);
    assert(forall|i: int| 0 <= i < 8 ==> is_hex_group(#[trigger] flat[i]));
    assert(Seq::new(8, |i: int| hex_val(flat[i]) as u16) =~= g);
}

} // verus!
