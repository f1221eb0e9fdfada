//! IP addresses of both families: dotted quads held as octets with a
//! canonical rendering, IPv6 literals validated against the textual
//! grammar and held as text, and parsers whose contracts pin exactly
//! which strings are accepted and which address each one denotes.

use crate::num::{dec_digits, digit_val, digits_val, fmt_u64, is_digit_char};
use crate::text::{split_char, split_sep};
use vstd::prelude::*;
use vstd::string::StrSliceExecFns;
use vstd::string::StringExecFns;

verus! {

/// An IP address held as its four octets.
#[derive(PartialEq, Eq, Structural, Clone, Copy, Debug)]
pub struct IpAddrV4 {
    pub a: u8,
    pub b: u8,
    pub c: u8,
    pub d: u8,
}

/// The canonical text of an address: four decimal octets joined by dots.
pub open spec fn ip_str(ip: IpAddrV4) -> Seq<char> {
    dec_digits(ip.a as nat) + seq!['.'] + dec_digits(ip.b as nat) + seq!['.'] + dec_digits(
        ip.c as nat,
    ) + seq!['.'] + dec_digits(ip.d as nat)
}

/// Render a dotted quad as its canonical text.
pub fn format_ipv4(ip: &IpAddrV4) -> (r: String)
    ensures
        r@ == ip_str(*ip),
{
    proof {
        reveal_strlit(".");
    }
    let mut s = fmt_u64(ip.a as u64);
    s.append(".");
    let sb = fmt_u64(ip.b as u64);
    s.append(sb.as_str());
    s.append(".");
    let sc = fmt_u64(ip.c as u64);
    s.append(sc.as_str());
    s.append(".");
    let sd = fmt_u64(ip.d as u64);
    s.append(sd.as_str());
    proof {
        assert(s@ =~= ip_str(*ip));
    }
    s
}

/// A well-formed decimal octet: one to three digits, no leading zero,
/// value at most 255.
pub open spec fn valid_octet(s: Seq<char>) -> bool {
    &&& 1 <= s.len() <= 3
    &&& forall|i: int| 0 <= i < s.len() ==> is_digit_char(#[trigger] s[i])
    &&& (s.len() > 1 ==> s[0] != '0')
    &&& digits_val(s) <= 255
}

/// A well-formed dotted-quad literal: exactly four dot-separated
/// well-formed octets.
pub open spec fn valid_ip_literal(s: Seq<char>) -> bool {
    let p = split_sep(s, '.');
    p.len() == 4 && valid_octet(p[0]) && valid_octet(p[1]) && valid_octet(p[2]) && valid_octet(
        p[3],
    )
}

/// The address a well-formed literal denotes.
pub open spec fn ip_of_literal(s: Seq<char>) -> IpAddrV4 {
    let p = split_sep(s, '.');
    IpAddrV4 {
        a: digits_val(p[0]) as u8,
        b: digits_val(p[1]) as u8,
        c: digits_val(p[2]) as u8,
        d: digits_val(p[3]) as u8,
    }
}

fn parse_octet(piece: &str) -> (r: Option<u8>)
    ensures
        valid_octet(piece@) ==> r == Some(digits_val(piece@) as u8),
        !valid_octet(piece@) ==> r is None,
{
    let n = piece.unicode_len();
    if n == 0 || n > 3 {
        return None;
    }
    let mut value: u32 = 0;
    let mut i: usize = 0;
    while i < n
        invariant
            0 <= i <= n,
            n == piece@.len(),
            1 <= n <= 3,
            forall|k: int| 0 <= k < i ==> is_digit_char(#[trigger] piece@[k]),
            value == digits_val(piece@.subrange(0, i as int)),
            i == 0 ==> value == 0,
            i <= 1 ==> value <= 9,
            i <= 2 ==> value <= 99,
            value <= 999,
        decreases n - i,
    {
        let c = piece.get_char(i);
        if c < '0' || c > '9' {
            return None;
        }
        let d: u32 = c as u32 - 48;
        proof {
            let pre = piece@.subrange(0, i + 1);
            assert(pre.drop_last() =~= piece@.subrange(0, i as int));
            assert(pre.last() == c);
            assert(digit_val(c) == d);
        }
        value = value * 10 + d;
        i = i + 1;
    }
    proof {
        assert(piece@.subrange(0, n as int) =~= piece@);
    }
    if n > 1 && piece.get_char(0) == '0' {
        return None;
    }
    if value > 255 {
        return None;
    }
    Some(value as u8)
}

/// Parse a dotted-quad literal; `None` exactly on malformed input.
pub fn parse_ip(s: &str) -> (r: Option<IpAddrV4>)
    ensures
        valid_ip_literal(s@) ==> r == Some(ip_of_literal(s@)),
        !valid_ip_literal(s@) ==> r is None,
{
    let parts = crate::text::split_char(s, '.');
    if parts.len() != 4 {
        return None;
    }
    let a = match parse_octet(parts[0].as_str()) {
        Some(v) => v,
        None => { return None },
    };
    let b = match parse_octet(parts[1].as_str()) {
        Some(v) => v,
        None => { return None },
    };
    let c = match parse_octet(parts[2].as_str()) {
        Some(v) => v,
        None => { return None },
    };
    let d = match parse_octet(parts[3].as_str()) {
        Some(v) => v,
        None => { return None },
    };
    Some(IpAddrV4 { a, b, c, d })
}


pub open spec fn is_hex_digit(c: char) -> bool {
    ('0' <= c && c <= '9') || ('a' <= c && c <= 'f') || ('A' <= c && c <= 'F')
}

/// A hexadecimal group of one to four digits.
pub open spec fn is_h16(p: Seq<char>) -> bool {
    1 <= p.len() <= 4 && (forall|i: int| 0 <= i < p.len() ==> is_hex_digit(#[trigger] p[i]))
}

/// The group weight of the colon-separated pieces `p[from..to)`: one per
/// hexadecimal group, two for an embedded dotted quad standing last;
/// `None` where any piece is neither.
pub open spec fn run_weight(p: Seq<Seq<char>>, from: int, to: int, v4_tail: bool) -> Option<int>
    decreases to - from,
{
    if from >= to {
        Some(0)
    } else if is_h16(p[from]) {
        match run_weight(p, from + 1, to, v4_tail) {
            Some(w) => Some(w + 1),
            None => None,
        }
    } else if from == to - 1 && v4_tail && valid_ip_literal(p[from]) {
        Some(2)
    } else {
        None
    }
}

/// A well-formed IPv6 literal, split on colons: eight groups, or a
/// single `::` compression standing for the missing zero groups, with an
/// embedded dotted quad allowed as the final piece.
pub open spec fn valid_ipv6_literal(s: Seq<char>) -> bool {
    let p = split_sep(s, ':');
    let n = p.len() as int;
    if n == 3 && p[0].len() == 0 && p[1].len() == 0 && p[2].len() == 0 {
        true
    } else if n >= 3 && p[0].len() == 0 && p[1].len() == 0 {
        (forall|i: int| 2 <= i < n ==> (#[trigger] p[i]).len() > 0) && (match run_weight(
            p,
            2,
            n,
            true,
        ) {
            Some(w) => w <= 7,
            None => false,
        })
    } else if n >= 3 && p[n - 1].len() == 0 && p[n - 2].len() == 0 {
        (forall|i: int| 0 <= i < n - 2 ==> (#[trigger] p[i]).len() > 0) && (match run_weight(
            p,
            0,
            n - 2,
            false,
        ) {
            Some(w) => w <= 7,
            None => false,
        })
    } else if (forall|i: int| 0 <= i < n ==> (#[trigger] p[i]).len() > 0) {
        run_weight(p, 0, n, true) == Some(8int)
    } else {
        exists|k: int|
            1 <= k < n - 1 && (#[trigger] p[k]).len() == 0 && (forall|i: int|
                0 <= i < n && i != k ==> (#[trigger] p[i]).len() > 0) && (match (
                run_weight(p, 0, k, false),
                run_weight(p, k + 1, n, true),
            ) {
                (Some(l), Some(r)) => l + r <= 7,
                _ => false,
            })
    }
}

/// The views of split pieces.
pub open spec fn piece_views(parts: Seq<String>) -> Seq<Seq<char>> {
    parts.map_values(|p: String| p@)
}

fn is_h16_str(p: &str) -> (r: bool)
    ensures
        r == is_h16(p@),
{
    let n = p.unicode_len();
    if n < 1 || n > 4 {
        return false;
    }
    let mut i: usize = 0;
    while i < n
        invariant
            0 <= i <= n,
            n == p@.len(),
            forall|k: int| 0 <= k < i ==> is_hex_digit(#[trigger] p@[k]),
        decreases n - i,
    {
        let c = p.get_char(i);
        let hex = ('0' <= c && c <= '9') || ('a' <= c && c <= 'f') || ('A' <= c && c <= 'F');
        if !hex {
            return false;
        }
        i = i + 1;
    }
    true
}

proof fn lemma_run_weight_nonneg(p: Seq<Seq<char>>, from: int, to: int, v4_tail: bool)
    ensures
        (match run_weight(p, from, to, v4_tail) {
            Some(w) => w >= 0,
            None => true,
        }),
    decreases to - from,
{
    if from < to {
        lemma_run_weight_nonneg(p, from + 1, to, v4_tail);
    }
}

fn run_weight_exec(parts: &Vec<String>, from: usize, to: usize, v4_tail: bool) -> (r: Option<u32>)
    requires
        from <= to <= parts@.len(),
    ensures
        (match r {
            Some(w) => w <= 8 && run_weight(piece_views(parts@), from as int, to as int, v4_tail)
                == Some(w as int),
            None => (match run_weight(piece_views(parts@), from as int, to as int, v4_tail) {
                Some(v) => v > 8,
                None => true,
            }),
        }),
{
    let ghost pv = piece_views(parts@);
    let mut w: u32 = 0;
    let mut j = from;
    while j < to
        invariant
            from <= j <= to <= parts@.len(),
            pv == piece_views(parts@),
            w <= 8,
            run_weight(pv, from as int, to as int, v4_tail) == (match run_weight(
                pv,
                j as int,
                to as int,
                v4_tail,
            ) {
                Some(w2) => Some(w as int + w2),
                None => None::<int>,
            }),
        decreases to - j,
    {
        let ghost before = run_weight(pv, j as int, to as int, v4_tail);
        let piece = parts[j].as_str();
        proof {
            assert(pv[j as int] == parts@[j as int]@);
        }
        let step: u32;
        if is_h16_str(piece) {
            step = 1;
        } else if j == to - 1 && v4_tail && parse_ip(piece).is_some() {
            step = 2;
        } else {
            proof {
                assert(run_weight(pv, j as int, to as int, v4_tail) is None);
            }
            return None;
        }
        proof {
            lemma_run_weight_nonneg(pv, j + 1, to as int, v4_tail);
        }
        if w + step > 8 {
            proof {
                assert((match run_weight(pv, from as int, to as int, v4_tail) {
                    Some(v) => v > 8,
                    None => true,
                }));
            }
            return None;
        }
        w = w + step;
        j = j + 1;
    }
    Some(w)
}

/// An address of either family: a dotted quad held as its octets, or an
/// IPv6 literal held as its validated text.
#[derive(Debug, Clone)]
pub enum IpAddress {
    V4(IpAddrV4),
    V6(String),
}

pub ghost enum IpAddressV {
    V4(IpAddrV4),
    V6(Seq<char>),
}

impl View for IpAddress {
    type V = IpAddressV;

    open spec fn view(&self) -> IpAddressV {
        match self {
            IpAddress::V4(q) => IpAddressV::V4(*q),
            IpAddress::V6(t) => IpAddressV::V6(t@),
        }
    }
}

/// A well-formed address: a V6 form holds a valid IPv6 literal.
pub open spec fn ip_wf(ip: IpAddressV) -> bool {
    match ip {
        IpAddressV::V4(_) => true,
        IpAddressV::V6(t) => valid_ipv6_literal(t),
    }
}

/// The text of an address: the canonical dotted quad, or the stored
/// IPv6 literal verbatim.
pub open spec fn ip_text(ip: IpAddressV) -> Seq<char> {
    match ip {
        IpAddressV::V4(q) => ip_str(q),
        IpAddressV::V6(t) => t,
    }
}

/// A valid IP literal of either family.
pub open spec fn valid_ip_any(s: Seq<char>) -> bool {
    valid_ip_literal(s) || valid_ipv6_literal(s)
}

/// The address a valid literal denotes: a dotted quad parses to its
/// octets; any other valid literal is an IPv6 form kept as text.
pub open spec fn ip_of_any(s: Seq<char>) -> IpAddressV {
    if valid_ip_literal(s) {
        IpAddressV::V4(ip_of_literal(s))
    } else {
        IpAddressV::V6(s)
    }
}

/// Validate an IPv6 literal; `true` exactly on well-formed input.
pub fn check_ipv6(s: &str) -> (r: bool)
    ensures
        r == valid_ipv6_literal(s@),
{
    let ghost pv = split_sep(s@, ':');
    let parts = split_char(s, ':');
    proof {
        assert(piece_views(parts@) =~= pv);
    }
    let n = parts.len();
    proof {
        crate::text::lemma_split_sep_len(s@, ':');
    }
    let e0 = parts[0].as_str().unicode_len() == 0;
    let e1 = n >= 2 && parts[1].as_str().unicode_len() == 0;
    let elast = parts[n - 1].as_str().unicode_len() == 0;
    let eprev = n >= 2 && parts[n - 2].as_str().unicode_len() == 0;
    if n == 3 && e0 && e1 && elast {
        return true;
    }
    if n >= 3 && e0 && e1 {
        let mut i: usize = 2;
        while i < n
            invariant
                2 <= i <= n,
                n == parts@.len(),
                pv == piece_views(parts@),
                pv == split_sep(s@, ':'),
                n >= 3,
                pv[0].len() == 0,
                pv[1].len() == 0,
                n == 3 ==> pv[2].len() > 0,
                forall|k: int| 2 <= k < i ==> (#[trigger] pv[k]).len() > 0,
            decreases n - i,
        {
            if parts[i].as_str().unicode_len() == 0 {
                proof {
                    assert(pv[i as int].len() == 0);
                }
                return false;
            }
            i = i + 1;
        }
        let w = run_weight_exec(&parts, 2, n, true);
        return match w {
            Some(w) => w <= 7,
            None => false,
        };
    }
    if n >= 3 && elast && eprev {
        let mut i: usize = 0;
        while i < n - 2
            invariant
                0 <= i <= n - 2,
                n == parts@.len(),
                n >= 3,
                pv == piece_views(parts@),
                pv == split_sep(s@, ':'),
                pv[n - 1].len() == 0,
                pv[n - 2].len() == 0,
                !(pv[0].len() == 0 && pv[1].len() == 0),
                forall|k: int| 0 <= k < i ==> (#[trigger] pv[k]).len() > 0,
            decreases n - 2 - i,
        {
            if parts[i].as_str().unicode_len() == 0 {
                proof {
                    assert(pv[i as int].len() == 0);
                }
                return false;
            }
            i = i + 1;
        }
        let w = run_weight_exec(&parts, 0, n - 2, false);
        return match w {
            Some(w) => w <= 7,
            None => false,
        };
    }
    // scan for empty pieces
    let mut k_found: usize = 0;
    let mut have_k = false;
    let mut second = false;
    let mut i: usize = 0;
    while i < n
        invariant
            0 <= i <= n,
            n == parts@.len(),
            pv == piece_views(parts@),
            have_k ==> k_found < i && pv[k_found as int].len() == 0,
            !have_k ==> (forall|k: int| 0 <= k < i ==> (#[trigger] pv[k]).len() > 0),
            second ==> have_k,
            (have_k && !second) ==> (forall|k: int|
                0 <= k < i && k != k_found ==> (#[trigger] pv[k]).len() > 0),
            second ==> (exists|a: int, b: int|
                0 <= a < b < i && (#[trigger] pv[a]).len() == 0 && (#[trigger] pv[b]).len()
                    == 0),
        decreases n - i,
    {
        if parts[i].as_str().unicode_len() == 0 {
            proof {
                assert(pv[i as int].len() == 0);
            }
            if have_k {
                second = true;
            } else {
                k_found = i;
                have_k = true;
            }
        }
        i = i + 1;
    }
    if !have_k {
        let w = run_weight_exec(&parts, 0, n, true);
        return match w {
            Some(w) => w == 8,
            None => false,
        };
    }
    if second {
        proof {
            let (a, b) = choose|a: int, b: int|
                0 <= a < b < n && (#[trigger] pv[a]).len() == 0 && (#[trigger] pv[b]).len() == 0;
            assert forall|k: int|
                !(1 <= k < n - 1 && (#[trigger] pv[k]).len() == 0 && (forall|i2: int|
                    0 <= i2 < pv.len() && i2 != k ==> (#[trigger] pv[i2]).len() > 0) && (match (
                    run_weight(pv, 0, k, false),
                    run_weight(pv, k + 1, n as int, true),
                ) {
                    (Some(l), Some(r)) => l + r <= 7,
                    _ => false,
                })) by {
                if 1 <= k < n - 1 && pv[k].len() == 0 && (forall|i2: int|
                    0 <= i2 < pv.len() && i2 != k ==> (#[trigger] pv[i2]).len() > 0) {
                    if a != k {
                        assert(pv[a].len() > 0);
                    } else {
                        assert(pv[b].len() > 0);
                    }
                }
            }
        }
        return false;
    }
    // exactly one empty piece, at k_found
    if k_found == 0 || k_found >= n - 1 {
        proof {
            assert forall|k: int|
                !(1 <= k < n - 1 && (#[trigger] pv[k]).len() == 0 && (forall|i2: int|
                    0 <= i2 < pv.len() && i2 != k ==> (#[trigger] pv[i2]).len() > 0) && (match (
                    run_weight(pv, 0, k, false),
                    run_weight(pv, k + 1, n as int, true),
                ) {
                    (Some(l), Some(r)) => l + r <= 7,
                    _ => false,
                })) by {
                if 1 <= k < n - 1 && pv[k].len() == 0 {
                    assert(k == k_found);
                }
            }
        }
        return false;
    }
    let lw = run_weight_exec(&parts, 0, k_found, false);
    let rw = run_weight_exec(&parts, k_found + 1, n, true);
    let ok = match (lw, rw) {
        (Some(l), Some(r)) => l + r <= 7,
        _ => false,
    };
    proof {
        if ok {
            assert(1 <= k_found < n - 1 && pv[k_found as int].len() == 0 && (forall|i2: int|
                0 <= i2 < pv.len() && i2 != k_found ==> (#[trigger] pv[i2]).len() > 0) && (
            match (
                run_weight(pv, 0, k_found as int, false),
                run_weight(pv, k_found + 1, n as int, true),
            ) {
                (Some(l), Some(r)) => l + r <= 7,
                _ => false,
            }));
        } else {
            assert forall|k: int|
                !(1 <= k < n - 1 && (#[trigger] pv[k]).len() == 0 && (forall|i2: int|
                    0 <= i2 < pv.len() && i2 != k ==> (#[trigger] pv[i2]).len() > 0) && (match (
                    run_weight(pv, 0, k, false),
                    run_weight(pv, k + 1, n as int, true),
                ) {
                    (Some(l), Some(r)) => l + r <= 7,
                    _ => false,
                })) by {
                if 1 <= k < n - 1 && pv[k].len() == 0 {
                    assert(k == k_found);
                }
            }
        }
    }
    ok
}

/// Parse an IP literal of either family; `None` exactly on malformed
/// input. A dotted quad yields its octets; a valid IPv6 literal is kept
/// as its text.
pub fn parse_ip_any(s: &str) -> (r: Option<IpAddress>)
    ensures
        valid_ip_any(s@) ==> (match r {
            Some(ip) => ip@ == ip_of_any(s@) && ip_wf(ip@),
            None => false,
        }),
        !valid_ip_any(s@) ==> r is None,
{
    match parse_ip(s) {
        Some(q) => Some(IpAddress::V4(q)),
        None => {
            if check_ipv6(s) {
                Some(IpAddress::V6(String::from_str(s)))
            } else {
                None
            }
        },
    }
}

/// Render an address: the canonical dotted quad, or the stored IPv6
/// literal verbatim.
pub fn format_ip(ip: &IpAddress) -> (r: String)
    ensures
        r@ == ip_text(ip@),
{
    match ip {
        IpAddress::V4(q) => format_ipv4(q),
        IpAddress::V6(t) => t.clone(),
    }
}


} // verus!
