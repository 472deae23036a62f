//! The library's own IPv4 address value: four octets held as plain bytes,
//! plus the dotted-quad text conversions the resolver needs, and the
//! canonical reverse-lookup query name.

use crate::names::{ascii_bytes, char_bytes, split_labels, string_from_ascii, text_of};
use vstd::prelude::*;
use vstd::string::*;
use vstd::utf8::is_ascii_chars;

verus! {

/// An IPv4 address as four octets, most significant first.
#[derive(Debug, Clone, Copy, PartialEq, Eq, Structural, Hash)]
pub struct Ipv4 {
    pub a: u8,
    pub b: u8,
    pub c: u8,
    pub d: u8,
}

impl Ipv4 {
    /// Builds an address from its four octets.
    pub fn new(a: u8, b: u8, c: u8, d: u8) -> (r: Ipv4)
        ensures
            r == (Ipv4 { a, b, c, d }),
    {
        Ipv4 { a, b, c, d }
    }
}

/// The decimal digits of a non-negative number, most significant first.
pub open spec fn dec_rep(n: int) -> Seq<u8>
    decreases n,
{
    if n < 10 {
        seq![(48 + n) as u8]
    } else {
        dec_rep(n / 10) + seq![(48 + n % 10) as u8]
    }
}

/// Every byte of a decimal representation is an ASCII digit.
pub proof fn lemma_dec_rep_digits(n: int)
    requires
        0 <= n,
    ensures
        forall|i: int| 0 <= i < dec_rep(n).len() ==> 48 <= #[trigger] dec_rep(n)[i] <= 57,
    decreases n,
{
    if n >= 10 {
        lemma_dec_rep_digits(n / 10);
        assert forall|i: int| 0 <= i < dec_rep(n).len() implies 48 <= #[trigger] dec_rep(n)[i]
            <= 57 by {
            if i < dec_rep(n / 10).len() {
                assert(dec_rep(n)[i] == dec_rep(n / 10)[i]);
            }
        }
    }
}

/// Appends the decimal digits of `n`.
fn push_dec(out: &mut Vec<u8>, n: u8)
    ensures
        final(out)@ == old(out)@ + dec_rep(n as int),
{
    if n >= 100 {
        out.push(48 + n / 100);
        out.push(48 + (n / 10) % 10);
        out.push(48 + n % 10);
        proof {
            let ni = n as int;
            assert(10 <= ni / 10 && ni / 10 <= 25) by (nonlinear_arith)
                requires
                    100 <= ni <= 255,
            ;
            assert(ni / 10 / 10 == ni / 100) by (nonlinear_arith)
                requires
                    0 <= ni,
            ;
            assert(ni / 100 < 10) by (nonlinear_arith)
                requires
                    0 <= ni <= 255,
            ;
            assert(ni / 10 % 10 == ni / 10 - 10 * (ni / 10 / 10)) by (nonlinear_arith)
                requires
                    0 <= ni,
            ;
            assert(dec_rep(ni / 100) == seq![(48 + ni / 100) as u8]);
            assert(dec_rep(ni / 10) == dec_rep(ni / 100) + seq![(48 + (ni / 10) % 10) as u8]);
            assert(dec_rep(ni) =~= seq![
                (48 + ni / 100) as u8,
                (48 + (ni / 10) % 10) as u8,
                (48 + ni % 10) as u8,
            ]);
            assert(out@ =~= old(out)@ + dec_rep(ni));
        }
    } else if n >= 10 {
        out.push(48 + n / 10);
        out.push(48 + n % 10);
        proof {
            let ni = n as int;
            assert(1 <= ni / 10 && ni / 10 < 10) by (nonlinear_arith)
                requires
                    10 <= ni <= 99,
            ;
            assert(dec_rep(ni / 10) == seq![(48 + ni / 10) as u8]);
            assert(dec_rep(ni) =~= seq![(48 + ni / 10) as u8, (48 + ni % 10) as u8]);
            assert(out@ =~= old(out)@ + dec_rep(ni));
        }
    } else {
        out.push(48 + n);
        proof {
            assert(dec_rep(n as int) =~= seq![(48 + n as int) as u8]);
            assert(out@ =~= old(out)@ + dec_rep(n as int));
        }
    }
}

/// The value a run of decimal digit bytes spells.
pub open spec fn dec_value(digs: Seq<u8>) -> int
    decreases digs.len(),
{
    if digs.len() == 0 {
        0
    } else {
        dec_value(digs.take(digs.len() - 1)) * 10 + (digs.last() - 48)
    }
}

/// A run of bytes that spells one address octet: one to three ASCII
/// digits whose value fits a byte.
pub open spec fn valid_octet_text(s: Seq<u8>) -> bool {
    &&& 1 <= s.len() <= 3
    &&& forall|i: int| 0 <= i < s.len() ==> 48 <= #[trigger] s[i] <= 57
    &&& dec_value(s) <= 255
}

/// The address a dotted-quad text spells, if it is one: four dot-separated
/// octet texts.
pub open spec fn spec_parse_ipv4(s: Seq<u8>) -> Option<Ipv4> {
    let parts = split_labels(s);
    if parts.len() == 4 && valid_octet_text(parts[0]) && valid_octet_text(parts[1])
        && valid_octet_text(parts[2]) && valid_octet_text(parts[3]) {
        Some(
            Ipv4 {
                a: dec_value(parts[0]) as u8,
                b: dec_value(parts[1]) as u8,
                c: dec_value(parts[2]) as u8,
                d: dec_value(parts[3]) as u8,
            },
        )
    } else {
        None
    }
}

/// Reads the octet text `bytes[from..to]`; the whole run must be one to
/// three digits spelling a value up to 255.
fn parse_octet(bytes: &[u8], from: usize, to: usize) -> (r: Option<u8>)
    requires
        from <= to <= bytes@.len(),
    ensures
        r is Some <==> valid_octet_text(bytes@.subrange(from as int, to as int)),
        r matches Some(v) ==> v as int == dec_value(bytes@.subrange(from as int, to as int)),
{
    let ghost part = bytes@.subrange(from as int, to as int);
    if to - from < 1 || to - from > 3 {
        return None;
    }
    let mut val: u32 = 0;
    let mut j = from;
    while j < to
        invariant
            from <= j <= to <= bytes@.len(),
            to - from <= 3,
            part == bytes@.subrange(from as int, to as int),
            forall|i: int| 0 <= i < j - from ==> 48 <= #[trigger] part[i] <= 57,
            val as int == dec_value(part.take(j - from)),
            j - from == 0 ==> val == 0,
            j - from == 1 ==> val < 10,
            j - from == 2 ==> val < 100,
            j - from == 3 ==> val < 1000,
        decreases to - j,
    {
        let b = bytes[j];
        if b < 48 || b > 57 {
            proof {
                assert(part[j - from] == b);
            }
            return None;
        }
        val = val * 10 + ((b - 48) as u32);
        proof {
            assert(part.take(j + 1 - from).take(j - from) =~= part.take(j - from));
            assert(part.take(j + 1 - from).last() == b);
        }
        j += 1;
    }
    proof {
        assert(part.take(to - from) =~= part);
    }
    if val > 255 {
        return None;
    }
    Some(val as u8)
}

/// Parses dotted-quad IPv4 text such as a root-hint address.
pub fn parse_ipv4(s: &str) -> (r: Option<Ipv4>)
    ensures
        is_ascii_chars(s@) ==> r == spec_parse_ipv4(char_bytes(s@)),
{
    if !s.is_ascii() {
        return None;
    }
    let bytes = s.as_bytes();
    proof {
        is_ascii_spec_bytes(s);
        assert(bytes@ =~= char_bytes(s@));
    }
    let n = bytes.len();
    let d1 = crate::names::find_dot(bytes, 0);
    if d1 == n {
        proof {
            crate::names::lemma_split_at_dot(bytes@, d1 as int);
        }
        return None;
    }
    let d2 = crate::names::find_dot(bytes, d1 + 1);
    let d3 = if d2 < n {
        crate::names::find_dot(bytes, d2 + 1)
    } else {
        n
    };
    let d4 = if d3 < n {
        crate::names::find_dot(bytes, d3 + 1)
    } else {
        n
    };
    proof {
        lemma_split_four(bytes@, d1 as int, d2 as int, d3 as int, d4 as int);
    }
    if d2 == n || d3 == n || d4 < n {
        return None;
    }
    let o0 = parse_octet(bytes, 0, d1);
    let o1 = parse_octet(bytes, d1 + 1, d2);
    let o2 = parse_octet(bytes, d2 + 1, d3);
    let o3 = parse_octet(bytes, d3 + 1, n);
    match (o0, o1, o2, o3) {
        (Some(a), Some(b), Some(c), Some(d)) => Some(Ipv4 { a, b, c, d }),
        _ => None,
    }
}

/// With dots exactly at `d1 < d2 < d3` and none after, the text splits
/// into exactly the four runs between them.
proof fn lemma_split_four(s: Seq<u8>, d1: int, d2: int, d3: int, d4: int)
    requires
        0 <= d1 <= s.len(),
        forall|k: int| 0 <= k < d1 ==> s[k] != 46u8,
        d1 < s.len() ==> s[d1] == 46u8,
        d1 < s.len() ==> d1 + 1 <= d2 <= s.len() && (forall|k: int|
            d1 + 1 <= k < d2 ==> s[k] != 46u8) && (d2 < s.len() ==> s[d2] == 46u8),
        d2 < s.len() ==> d2 + 1 <= d3 <= s.len() && (forall|k: int|
            d2 + 1 <= k < d3 ==> s[k] != 46u8) && (d3 < s.len() ==> s[d3] == 46u8),
        d3 < s.len() ==> d3 + 1 <= d4 <= s.len() && (forall|k: int|
            d3 + 1 <= k < d4 ==> s[k] != 46u8) && (d4 < s.len() ==> s[d4] == 46u8),
    ensures
        d1 < s.len() && d2 < s.len() && d3 < s.len() && d4 == s.len() ==> split_labels(s)
            =~~= seq![
            s.subrange(0, d1),
            s.subrange(d1 + 1, d2),
            s.subrange(d2 + 1, d3),
            s.subrange(d3 + 1, s.len() as int),
        ],
        d1 < s.len() && d2 == s.len() ==> split_labels(s).len() == 2,
        d1 < s.len() && d2 < s.len() && d3 == s.len() ==> split_labels(s).len() == 3,
        d1 < s.len() && d2 < s.len() && d3 < s.len() && d4 < s.len() ==> split_labels(s).len()
            >= 5,
{
    if d1 < s.len() {
        crate::names::lemma_split_at_dot(s, d1);
        let s1 = s.skip(d1 + 1);
        assert forall|k: int| 0 <= k < d2 - (d1 + 1) implies s1[k] != 46u8 by {
            assert(s1[k] == s[d1 + 1 + k]);
        }
        assert(d2 - (d1 + 1) < s1.len() ==> s1[d2 - (d1 + 1)] == 46u8);
        crate::names::lemma_split_at_dot(s1, d2 - (d1 + 1));
        if d2 < s.len() {
            let s2 = s1.skip(d2 - (d1 + 1) + 1);
            assert(s2 =~= s.skip(d2 + 1));
            assert forall|k: int| 0 <= k < d3 - (d2 + 1) implies s2[k] != 46u8 by {
                assert(s2[k] == s[d2 + 1 + k]);
            }
            assert(d3 - (d2 + 1) < s2.len() ==> s2[d3 - (d2 + 1)] == 46u8);
            crate::names::lemma_split_at_dot(s2, d3 - (d2 + 1));
            if d3 < s.len() {
                let s3 = s2.skip(d3 - (d2 + 1) + 1);
                assert(s3 =~= s.skip(d3 + 1));
                assert forall|k: int| 0 <= k < d4 - (d3 + 1) implies s3[k] != 46u8 by {
                    assert(s3[k] == s[d3 + 1 + k]);
                }
                assert(d4 - (d3 + 1) < s3.len() ==> s3[d4 - (d3 + 1)] == 46u8);
                crate::names::lemma_split_at_dot(s3, d4 - (d3 + 1));
                if d4 < s.len() {
                    crate::names::lemma_split_nonempty(s3.skip(d4 - (d3 + 1) + 1));
                } else {
                    assert(s1.take(d2 - (d1 + 1)) =~= s.subrange(d1 + 1, d2));
                    assert(s2.take(d3 - (d2 + 1)) =~= s.subrange(d2 + 1, d3));
                    assert(s.take(d1) =~= s.subrange(0, d1));
                    assert(s3 =~= s.subrange(d3 + 1, s.len() as int));
                }
            }
        }
    }
}

/// The suffix of every reverse-lookup query name: the conventional
/// reverse-mapping zone, with its leading dot.
pub open spec fn reverse_zone_suffix() -> Seq<u8> {
    seq![46u8, 105u8, 110u8, 45u8, 97u8, 100u8, 100u8, 114u8, 46u8, 97u8, 114u8, 112u8, 97u8]
}

/// The canonical reverse-lookup query name for an address: the octets in
/// reverse order, dotted, under the reverse-mapping zone.
pub open spec fn reverse_name_bytes(ip: Ipv4) -> Seq<u8> {
    dec_rep(ip.d as int) + seq![46u8] + dec_rep(ip.c as int) + seq![46u8] + dec_rep(ip.b as int)
        + seq![46u8] + dec_rep(ip.a as int) + reverse_zone_suffix()
}

/// Builds the reverse-lookup query name for `ip` as text:
/// octets reversed, suffixed with the reverse-mapping zone.
pub fn reverse_query_name(ip: &Ipv4) -> (r: String)
    ensures
        text_of(r@, reverse_name_bytes(*ip)),
        ascii_bytes(reverse_name_bytes(*ip)),
{
    let mut out: Vec<u8> = Vec::new();
    push_dec(&mut out, ip.d);
    out.push(46);
    push_dec(&mut out, ip.c);
    out.push(46);
    push_dec(&mut out, ip.b);
    out.push(46);
    push_dec(&mut out, ip.a);
    out.push(46);
    out.push(105);
    out.push(110);
    out.push(45);
    out.push(97);
    out.push(100);
    out.push(100);
    out.push(114);
    out.push(46);
    out.push(97);
    out.push(114);
    out.push(112);
    out.push(97);
    proof {
        assert(out@ =~= reverse_name_bytes(*ip));
        lemma_dec_rep_digits(ip.a as int);
        lemma_dec_rep_digits(ip.b as int);
        lemma_dec_rep_digits(ip.c as int);
        lemma_dec_rep_digits(ip.d as int);
        assert(ascii_bytes(out@)) by {
            assert forall|i: int| 0 <= i < out@.len() implies (#[trigger] out@[i]) < 128 by {}
        }
    }
    string_from_ascii(out)
}

} // verus!
