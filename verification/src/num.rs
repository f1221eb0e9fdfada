//! Decimal rendering and its specification: the digit string of a number,
//! the value of a digit string, and the facts tying the two together that
//! the store codec and the write-up renderer rely on.

use vstd::arithmetic::div_mod::{lemma_fundamental_div_mod, lemma_fundamental_div_mod_converse};
use vstd::prelude::*;
use vstd::string::StrSliceExecFns;
use vstd::string::StringExecFns;

verus! {

pub open spec fn is_digit_char(c: char) -> bool {
    '0' <= c && c <= '9'
}

pub open spec fn digit_val(c: char) -> int {
    c as int - '0' as int
}

pub open spec fn digit_char(d: int) -> char {
    if d == 0 {
        '0'
    } else if d == 1 {
        '1'
    } else if d == 2 {
        '2'
    } else if d == 3 {
        '3'
    } else if d == 4 {
        '4'
    } else if d == 5 {
        '5'
    } else if d == 6 {
        '6'
    } else if d == 7 {
        '7'
    } else if d == 8 {
        '8'
    } else {
        '9'
    }
}

/// The decimal digit string of `n`, most significant digit first.
pub open spec fn dec_digits(n: nat) -> Seq<char>
    decreases n,
{
    if n < 10 {
        seq![digit_char(n as int)]
    } else {
        dec_digits(n / 10) + seq![digit_char((n % 10) as int)]
    }
}

/// The decimal rendering of a signed number: a minus sign before the
/// digit string when it is negative.
pub open spec fn dec_int(n: int) -> Seq<char> {
    if n < 0 {
        seq!['-'] + dec_digits((-n) as nat)
    } else {
        dec_digits(n as nat)
    }
}

/// The value of a digit string read most significant digit first.
pub open spec fn digits_val(s: Seq<char>) -> nat
    decreases s.len(),
{
    if s.len() == 0 {
        0
    } else {
        digits_val(s.drop_last()) * 10 + (if 0 <= digit_val(s.last()) {
            digit_val(s.last()) as nat
        } else {
            0
        })
    }
}

pub proof fn lemma_dec_digits_shape(n: nat)
    ensures
        dec_digits(n).len() >= 1,
        forall|i: int| 0 <= i < dec_digits(n).len() ==> is_digit_char(#[trigger] dec_digits(n)[i]),
        n >= 1 ==> dec_digits(n)[0] != '0',
    decreases n,
{
    if n >= 10 {
        lemma_dec_digits_shape(n / 10);
        assert(n / 10 >= 1);
        assert(dec_digits(n)[0] == dec_digits(n / 10)[0]);
    }
}

/// Reading back the digit string of `n` yields `n`.
pub proof fn lemma_digits_val_dec(n: nat)
    ensures
        digits_val(dec_digits(n)) == n,
    decreases n,
{
    if n < 10 {
        let s = dec_digits(n);
        assert(s.drop_last() =~= Seq::<char>::empty());
        assert(digit_val(digit_char(n as int)) == n);
        assert(s.last() == digit_char(n as int));
        assert(digits_val(s) == digits_val(s.drop_last()) * 10 + n);
    } else {
        lemma_digits_val_dec(n / 10);
        let s = dec_digits(n);
        assert(s.drop_last() =~= dec_digits(n / 10));
        assert(s.last() == digit_char((n % 10) as int));
        assert(digit_val(digit_char((n % 10) as int)) == n % 10);
        lemma_fundamental_div_mod(n as int, 10);
        assert(digits_val(s) == (n / 10) * 10 + n % 10);
    }
}

/// Every prefix of the digit string of `n` reads back as at most `n`.
pub proof fn lemma_digits_val_prefix(n: nat, i: int)
    requires
        0 <= i <= dec_digits(n).len(),
    ensures
        digits_val(dec_digits(n).subrange(0, i)) <= n,
    decreases n,
{
    let s = dec_digits(n);
    if i == s.len() {
        lemma_digits_val_dec(n);
        assert(s.subrange(0, i) =~= s);
    } else if n < 10 {
        assert(s.subrange(0, i) =~= Seq::<char>::empty());
    } else {
        assert(s.subrange(0, i) =~= dec_digits(n / 10).subrange(0, i));
        lemma_digits_val_prefix(n / 10, i);
    }
}

pub fn digit_str(d: u64) -> (r: &'static str)
    requires
        d < 10,
    ensures
        r@ == seq![digit_char(d as int)],
{
    proof {
        reveal_strlit("0");
        reveal_strlit("1");
        reveal_strlit("2");
        reveal_strlit("3");
        reveal_strlit("4");
        reveal_strlit("5");
        reveal_strlit("6");
        reveal_strlit("7");
        reveal_strlit("8");
        reveal_strlit("9");
    }
    let r = if d == 0 {
        "0"
    } else if d == 1 {
        "1"
    } else if d == 2 {
        "2"
    } else if d == 3 {
        "3"
    } else if d == 4 {
        "4"
    } else if d == 5 {
        "5"
    } else if d == 6 {
        "6"
    } else if d == 7 {
        "7"
    } else if d == 8 {
        "8"
    } else {
        "9"
    };
    proof {
        assert(r@ =~= seq![digit_char(d as int)]);
    }
    r
}

/// Render `n` in decimal.
pub fn fmt_u64(n: u64) -> (r: String)
    ensures
        r@ == dec_digits(n as nat),
    decreases n,
{
    if n < 10 {
        String::from_str(digit_str(n))
    } else {
        let mut s = fmt_u64(n / 10);
        s.append(digit_str(n % 10));
        s
    }
}

/// Render a signed number in decimal.
pub fn fmt_i64(n: i64) -> (r: String)
    ensures
        r@ == dec_int(n as int),
{
    if n >= 0 {
        fmt_u64(n as u64)
    } else {
        proof {
            reveal_strlit("-");
        }
        let mag: u64 = (-(n as i128)) as u64;
        let mut s = String::from_str("-");
        let ds = fmt_u64(mag);
        s.append(ds.as_str());
        proof {
            assert(s@ =~= dec_int(n as int));
        }
        s
    }
}


/// A digit string with a leading non-zero digit reads back as at least 1.
pub proof fn lemma_digits_val_lower(s: Seq<char>)
    requires
        s.len() >= 1,
        forall|i: int| 0 <= i < s.len() ==> is_digit_char(#[trigger] s[i]),
        s[0] != '0',
    ensures
        digits_val(s) >= 1,
    decreases s.len(),
{
    if s.len() == 1 {
        assert(digit_val(s[0]) >= 1);
        assert(s.drop_last() =~= Seq::<char>::empty());
    } else {
        let dl = s.drop_last();
        assert(dl[0] == s[0]);
        assert(forall|i: int| 0 <= i < dl.len() ==> dl[i] == s[i]);
        lemma_digits_val_lower(dl);
    }
}

/// A digit string without a leading zero is the digit string of its own
/// value: decimal numerals are canonical.
pub proof fn lemma_digits_canonical(s: Seq<char>)
    requires
        s.len() >= 1,
        forall|i: int| 0 <= i < s.len() ==> is_digit_char(#[trigger] s[i]),
        s.len() > 1 ==> s[0] != '0',
    ensures
        dec_digits(digits_val(s)) == s,
    decreases s.len(),
{
    if s.len() == 1 {
        assert(s.drop_last() =~= Seq::<char>::empty());
        let d = digit_val(s[0]);
        assert(s.last() == s[0]);
        assert(0 <= d <= 9);
        assert(digits_val(s.drop_last()) == 0);
        assert(digits_val(s) == digits_val(s.drop_last()) * 10 + d);
        assert(digits_val(s) == d);
        assert(digit_char(d) == s[0]);
        assert(dec_digits(d as nat) =~= s);
    } else {
        let dl = s.drop_last();
        assert(dl[0] == s[0]);
        assert(forall|i: int| 0 <= i < dl.len() ==> dl[i] == s[i]);
        lemma_digits_canonical(dl);
        lemma_digits_val_lower(dl);
        let d = digit_val(s.last());
        assert(0 <= d <= 9);
        let v = digits_val(s);
        assert(v == digits_val(dl) * 10 + d);
        lemma_fundamental_div_mod_converse(v as int, 10, digits_val(dl) as int, d);
        assert(v / 10 == digits_val(dl) && v % 10 == d);
        assert(v >= 10);
        assert(digit_char((v % 10) as int) == s.last());
        assert(dec_digits(v) =~= s);
    }
}

} // verus!
