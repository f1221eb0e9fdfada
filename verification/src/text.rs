//! Character-sequence utilities shared by the model, the forms and the
//! write-up renderer: whitespace trimming, separator splitting, substring
//! search and token extraction, each specified over `Seq<char>`.

use vstd::prelude::*;
use vstd::string::StrSliceExecFns;
use vstd::string::StringExecFns;

verus! {

/// The characters with the Unicode `White_Space` property.
pub open spec fn is_space_char(c: char) -> bool {
    c == '\u{0009}' || c == '\u{000A}' || c == '\u{000B}' || c == '\u{000C}' || c == '\u{000D}'
        || c == '\u{0020}' || c == '\u{0085}' || c == '\u{00A0}' || c == '\u{1680}'
        || c == '\u{2000}' || c == '\u{2001}' || c == '\u{2002}' || c == '\u{2003}'
        || c == '\u{2004}' || c == '\u{2005}' || c == '\u{2006}' || c == '\u{2007}'
        || c == '\u{2008}' || c == '\u{2009}' || c == '\u{200A}' || c == '\u{2028}'
        || c == '\u{2029}' || c == '\u{202F}' || c == '\u{205F}' || c == '\u{3000}'
}

pub fn is_space(c: char) -> (r: bool)
    ensures
        r == is_space_char(c),
{
    c == '\u{0009}' || c == '\u{000A}' || c == '\u{000B}' || c == '\u{000C}' || c == '\u{000D}'
        || c == '\u{0020}' || c == '\u{0085}' || c == '\u{00A0}' || c == '\u{1680}'
        || c == '\u{2000}' || c == '\u{2001}' || c == '\u{2002}' || c == '\u{2003}'
        || c == '\u{2004}' || c == '\u{2005}' || c == '\u{2006}' || c == '\u{2007}'
        || c == '\u{2008}' || c == '\u{2009}' || c == '\u{200A}' || c == '\u{2028}'
        || c == '\u{2029}' || c == '\u{202F}' || c == '\u{205F}' || c == '\u{3000}'
}

/// `s` with its leading whitespace removed.
pub open spec fn trim_front(s: Seq<char>) -> Seq<char>
    decreases s.len(),
{
    if s.len() > 0 && is_space_char(s[0]) {
        trim_front(s.subrange(1, s.len() as int))
    } else {
        s
    }
}

/// `s` with its trailing whitespace removed.
pub open spec fn trim_back(s: Seq<char>) -> Seq<char>
    decreases s.len(),
{
    if s.len() > 0 && is_space_char(s[s.len() - 1]) {
        trim_back(s.subrange(0, s.len() - 1))
    } else {
        s
    }
}

/// `s` with leading and trailing whitespace removed.
pub open spec fn trim_spec(s: Seq<char>) -> Seq<char> {
    trim_back(trim_front(s))
}

proof fn lemma_trim_front_at(s: Seq<char>, lo: int)
    requires
        0 <= lo <= s.len(),
        forall|k: int| 0 <= k < lo ==> is_space_char(s[k]),
        lo < s.len() ==> !is_space_char(s[lo]),
    ensures
        trim_front(s) == s.subrange(lo, s.len() as int),
    decreases lo,
{
    if lo == 0 {
        assert(s.subrange(0, s.len() as int) =~= s);
    } else {
        let s1 = s.subrange(1, s.len() as int);
        lemma_trim_front_at(s1, lo - 1);
        assert(s1.subrange(lo - 1, s1.len() as int) =~= s.subrange(lo, s.len() as int));
    }
}

proof fn lemma_trim_back_at(s: Seq<char>, hi: int)
    requires
        0 <= hi <= s.len(),
        forall|k: int| hi <= k < s.len() ==> is_space_char(s[k]),
        hi > 0 ==> !is_space_char(s[hi - 1]),
    ensures
        trim_back(s) == s.subrange(0, hi),
    decreases s.len() - hi,
{
    if hi == s.len() {
        assert(s.subrange(0, s.len() as int) =~= s);
    } else {
        let s1 = s.subrange(0, s.len() - 1);
        lemma_trim_back_at(s1, hi);
        assert(s1.subrange(0, hi) =~= s.subrange(0, hi));
    }
}

/// Remove leading and trailing whitespace from a string.
pub fn trim_str(s: &str) -> (r: String)
    ensures
        r@ == trim_spec(s@),
{
    let n = s.unicode_len();
    let mut lo: usize = 0;
    while lo < n && is_space(s.get_char(lo))
        invariant
            0 <= lo <= n,
            n == s@.len(),
            forall|k: int| 0 <= k < lo ==> is_space_char(s@[k]),
        decreases n - lo,
    {
        lo = lo + 1;
    }
    if lo == n {
        proof {
            lemma_trim_front_at(s@, lo as int);
            assert(trim_front(s@) =~= Seq::<char>::empty());
        }
        return String::new();
    }
    let mut hi: usize = n;
    while hi > lo && is_space(s.get_char(hi - 1))
        invariant
            lo <= hi <= n,
            n == s@.len(),
            forall|k: int| hi <= k < n ==> is_space_char(s@[k]),
        decreases hi,
    {
        hi = hi - 1;
    }
    proof {
        lemma_trim_front_at(s@, lo as int);
        let t = s@.subrange(lo as int, n as int);
        assert(!is_space_char(s@[lo as int]));
        if hi == lo {
            assert(is_space_char(s@[lo as int]));
        }
        lemma_trim_back_at(t, hi - lo);
        assert(t.subrange(0, hi - lo) =~= s@.subrange(lo as int, hi as int));
    }
    let piece = s.substring_char(lo, hi);
    String::from_str(piece)
}

proof fn lemma_trim_front_head(s: Seq<char>)
    ensures
        trim_front(s).len() > 0 ==> !is_space_char(trim_front(s)[0]),
    decreases s.len(),
{
    if s.len() > 0 && is_space_char(s[0]) {
        lemma_trim_front_head(s.subrange(1, s.len() as int));
    }
}

proof fn lemma_trim_back_shape(s: Seq<char>)
    ensures
        trim_back(s).len() <= s.len(),
        trim_back(s) == s.subrange(0, trim_back(s).len() as int),
        trim_back(s).len() > 0 ==> !is_space_char(trim_back(s).last()),
    decreases s.len(),
{
    if s.len() > 0 && is_space_char(s[s.len() - 1]) {
        let s1 = s.subrange(0, s.len() - 1);
        lemma_trim_back_shape(s1);
        assert(s1.subrange(0, trim_back(s1).len() as int) =~= s.subrange(
            0,
            trim_back(s1).len() as int,
        ));
    } else if s.len() > 0 {
        assert(s.subrange(0, s.len() as int) =~= s);
    } else {
        assert(s.subrange(0, 0) =~= s);
    }
}

/// Trimming is idempotent: a trimmed string trims to itself.
pub proof fn lemma_trim_idempotent(s: Seq<char>)
    ensures
        trim_spec(trim_spec(s)) == trim_spec(s),
{
    let f = trim_front(s);
    let t = trim_spec(s);
    lemma_trim_front_head(s);
    lemma_trim_back_shape(f);
    if t.len() > 0 {
        assert(t[0] == f[0]);
        assert(!is_space_char(t[0]));
        assert(trim_front(t) == t);
        assert(!is_space_char(t.last()));
        assert(trim_back(t) == t);
    } else {
        assert(trim_front(t) == t);
        assert(trim_back(t) == t);
    }
}

/// The tags denoted by comma-separated pieces: each piece trimmed, empty
/// pieces dropped.
pub open spec fn tag_seq(parts: Seq<Seq<char>>) -> Seq<Seq<char>>
    decreases parts.len(),
{
    if parts.len() == 0 {
        Seq::empty()
    } else {
        let t = trim_spec(parts[0]);
        (if t.len() > 0 {
            seq![t]
        } else {
            Seq::empty()
        }) + tag_seq(parts.subrange(1, parts.len() as int))
    }
}

/// The tag list denoted by a raw comma-separated field.
pub open spec fn tags_spec(s: Seq<char>) -> Seq<Seq<char>> {
    tag_seq(split_sep(s, ','))
}

/// Every tag produced by `tag_seq` is trimmed and non-empty.
pub proof fn lemma_tag_seq_wf(parts: Seq<Seq<char>>)
    ensures
        forall|i: int| 0 <= i < tag_seq(parts).len() ==> (#[trigger] tag_seq(parts)[i]).len() > 0
            && trim_spec(tag_seq(parts)[i]) == tag_seq(parts)[i],
    decreases parts.len(),
{
    if parts.len() > 0 {
        let rest = parts.subrange(1, parts.len() as int);
        lemma_tag_seq_wf(rest);
        lemma_trim_idempotent(parts[0]);
        let t = trim_spec(parts[0]);
        let head: Seq<Seq<char>> = if t.len() > 0 {
            seq![t]
        } else {
            Seq::empty()
        };
        assert(tag_seq(parts) == head + tag_seq(rest));
        assert forall|i: int| 0 <= i < tag_seq(parts).len() implies (#[trigger] tag_seq(
            parts,
        )[i]).len() > 0 && trim_spec(tag_seq(parts)[i]) == tag_seq(parts)[i] by {
            if i < head.len() {
                assert(tag_seq(parts)[i] == t);
            } else {
                assert(tag_seq(parts)[i] == tag_seq(rest)[i - head.len()]);
            }
        }
    }
}

/// Split a raw field on commas, trim each piece, and drop the empties.
pub fn parse_tags(s: &str) -> (r: Vec<String>)
    ensures
        r@.len() == tags_spec(s@).len(),
        forall|i: int| 0 <= i < r@.len() ==> #[trigger] r@[i]@ == tags_spec(s@)[i],
{
    let parts = split_char(s, ',');
    let ghost pv = split_sep(s@, ',');
    let mut r: Vec<String> = Vec::new();
    let mut i: usize = 0;
    proof {
        assert(pv.subrange(0, pv.len() as int) =~= pv);
    }
    while i < parts.len()
        invariant
            0 <= i <= parts.len(),
            parts@.len() == pv.len(),
            forall|j: int| 0 <= j < pv.len() ==> #[trigger] parts@[j]@ == pv[j],
            tag_seq(pv).len() == r@.len() + tag_seq(pv.subrange(i as int, pv.len() as int)).len(),
            forall|j: int| 0 <= j < r@.len() ==> #[trigger] r@[j]@ == tag_seq(pv)[j],
            forall|j: int| 0 <= j < tag_seq(pv.subrange(i as int, pv.len() as int)).len()
                ==> #[trigger] tag_seq(pv.subrange(i as int, pv.len() as int))[j] == tag_seq(
                pv,
            )[r@.len() + j],
        decreases parts.len() - i,
    {
        let ghost rest = pv.subrange(i as int, pv.len() as int);
        let ghost rest2 = pv.subrange(i + 1, pv.len() as int);
        proof {
            assert(rest[0] == pv[i as int]);
            assert(rest.subrange(1, rest.len() as int) =~= rest2);
        }
        let t = trim_str(parts[i].as_str());
        if t.as_str().unicode_len() > 0 {
            proof {
                assert(tag_seq(rest) == seq![trim_spec(pv[i as int])] + tag_seq(rest2));
                assert(tag_seq(rest)[0] == t@);
                assert forall|j: int| 0 <= j < tag_seq(rest2).len() implies #[trigger] tag_seq(
                    rest2,
                )[j] == tag_seq(pv)[r@.len() + 1 + j] by {
                    assert(tag_seq(rest)[j + 1] == tag_seq(rest2)[j]);
                }
            }
            r.push(t);
        } else {
            proof {
                assert(tag_seq(rest) == tag_seq(rest2));
            }
        }
        i = i + 1;
    }
    proof {
        assert(pv.subrange(pv.len() as int, pv.len() as int) =~= Seq::<Seq<char>>::empty());
    }
    r
}

/// Does `h` contain `n` as a contiguous subsequence?
pub open spec fn contains_sub(h: Seq<char>, n: Seq<char>) -> bool {
    exists|i: int| 0 <= i && i + n.len() <= h.len() && #[trigger] h.subrange(i, i + n.len()) == n
}

fn matches_at(h: &str, pat: &str, i: usize, hn: usize, m: usize) -> (r: bool)
    requires
        hn == h@.len(),
        m == pat@.len(),
        i + m <= hn,
    ensures
        r == (h@.subrange(i as int, i + pat@.len()) == pat@),
{
    let mut j: usize = 0;
    while j < m
        invariant
            0 <= j <= m,
            hn == h@.len(),
            m == pat@.len(),
            i + m <= hn,
            forall|k: int| 0 <= k < j ==> h@[i + k] == pat@[k],
        decreases m - j,
    {
        if s_ne(h.get_char(i + j), pat.get_char(j)) {
            proof {
                let sub = h@.subrange(i as int, i + pat@.len());
                assert(sub[j as int] != pat@[j as int]);
            }
            return false;
        }
        j = j + 1;
    }
    proof {
        assert(h@.subrange(i as int, i + pat@.len()) =~= pat@);
    }
    true
}

#[inline]
fn s_ne(a: char, b: char) -> (r: bool)
    ensures
        r == (a != b),
{
    a != b
}

/// Substring search: does `h` contain `pat`?
pub fn contains_str(h: &str, pat: &str) -> (r: bool)
    ensures
        r == contains_sub(h@, pat@),
{
    let hn = h.unicode_len();
    let m = pat.unicode_len();
    if m > hn {
        return false;
    }
    if m == 0 {
        proof {
            assert(h@.subrange(0, 0 + pat@.len() as int) =~= pat@);
        }
        return true;
    }
    let mut i: usize = 0;
    while i <= hn - m
        invariant
            1 <= m <= hn,
            hn == h@.len(),
            m == pat@.len(),
            0 <= i <= hn - m + 1,
            forall|k: int| 0 <= k < i ==> #[trigger] h@.subrange(k, k + pat@.len()) != pat@,
        decreases hn - i,
    {
        if matches_at(h, pat, i, hn, m) {
            return true;
        }
        i = i + 1;
    }
    false
}

/// The longest whitespace-free prefix of `s`.
pub open spec fn head_token(s: Seq<char>) -> Seq<char>
    decreases s.len(),
{
    if s.len() > 0 && !is_space_char(s[0]) {
        seq![s[0]] + head_token(s.subrange(1, s.len() as int))
    } else {
        Seq::empty()
    }
}

/// The first whitespace-delimited token of `s`; empty when `s` is blank.
pub open spec fn first_token_spec(s: Seq<char>) -> Seq<char> {
    head_token(trim_front(s))
}

proof fn lemma_head_token_range(s: Seq<char>, e: int)
    requires
        0 <= e <= s.len(),
        forall|k: int| 0 <= k < e ==> !is_space_char(s[k]),
        e < s.len() ==> is_space_char(s[e]),
    ensures
        head_token(s) == s.subrange(0, e),
    decreases e,
{
    if e == 0 {
        assert(s.subrange(0, 0) =~= Seq::<char>::empty());
    } else {
        let s1 = s.subrange(1, s.len() as int);
        lemma_head_token_range(s1, e - 1);
        assert(seq![s[0]] + s1.subrange(0, e - 1) =~= s.subrange(0, e));
    }
}

/// The first whitespace-delimited token of `s`, as the empty string when
/// `s` holds no token.
pub fn first_token(s: &str) -> (r: String)
    ensures
        r@ == first_token_spec(s@),
{
    let n = s.unicode_len();
    let mut lo: usize = 0;
    while lo < n && is_space(s.get_char(lo))
        invariant
            0 <= lo <= n,
            n == s@.len(),
            forall|k: int| 0 <= k < lo ==> is_space_char(s@[k]),
        decreases n - lo,
    {
        lo = lo + 1;
    }
    proof {
        lemma_trim_front_at(s@, lo as int);
    }
    if lo == n {
        proof {
            assert(trim_front(s@) =~= Seq::<char>::empty());
        }
        return String::new();
    }
    let mut e: usize = lo;
    while e < n && !is_space(s.get_char(e))
        invariant
            lo <= e <= n,
            n == s@.len(),
            forall|k: int| lo <= k < e ==> !is_space_char(s@[k]),
        decreases n - e,
    {
        e = e + 1;
    }
    proof {
        let t = s@.subrange(lo as int, n as int);
        lemma_head_token_range(t, e - lo);
        assert(t.subrange(0, e - lo) =~= s@.subrange(lo as int, e as int));
    }
    let piece = s.substring_char(lo, e);
    String::from_str(piece)
}

/// The pieces of `s` between occurrences of the separator `sep`;
/// always at least one piece, as `str::split` yields.
pub open spec fn split_sep(s: Seq<char>, sep: char) -> Seq<Seq<char>>
    decreases s.len(),
{
    if s.len() == 0 {
        seq![Seq::<char>::empty()]
    } else if s[0] == sep {
        seq![Seq::<char>::empty()] + split_sep(s.subrange(1, s.len() as int), sep)
    } else {
        let r = split_sep(s.subrange(1, s.len() as int), sep);
        seq![seq![s[0]] + r[0]] + r.subrange(1, r.len() as int)
    }
}

pub proof fn lemma_split_sep_len(s: Seq<char>, sep: char)
    ensures
        split_sep(s, sep).len() >= 1,
    decreases s.len(),
{
    if s.len() > 0 {
        lemma_split_sep_len(s.subrange(1, s.len() as int), sep);
    }
}

/// Splitting a string whose first separator stands at `idx` yields the
/// prefix before `idx` and then the pieces of what follows it.
pub proof fn lemma_split_sep_at(s: Seq<char>, sep: char, idx: int)
    requires
        0 <= idx < s.len(),
        s[idx] == sep,
        forall|k: int| 0 <= k < idx ==> s[k] != sep,
    ensures
        split_sep(s, sep) == seq![s.subrange(0, idx)] + split_sep(
            s.subrange(idx + 1, s.len() as int),
            sep,
        ),
    decreases idx,
{
    let s1 = s.subrange(1, s.len() as int);
    if idx == 0 {
        assert(s.subrange(0, 0) =~= Seq::<char>::empty());
        assert(split_sep(s, sep) =~= seq![s.subrange(0, 0)] + split_sep(
            s.subrange(1, s.len() as int),
            sep,
        ));
    } else {
        lemma_split_sep_at(s1, sep, idx - 1);
        lemma_split_sep_len(s1.subrange(idx, s1.len() as int), sep);
        let r = split_sep(s1, sep);
        assert(r[0] == s1.subrange(0, idx - 1));
        assert(seq![s[0]] + s1.subrange(0, idx - 1) =~= s.subrange(0, idx));
        assert(s1.subrange(idx, s1.len() as int) =~= s.subrange(idx + 1, s.len() as int));
        assert(split_sep(s, sep) =~= seq![s.subrange(0, idx)] + split_sep(
            s.subrange(idx + 1, s.len() as int),
            sep,
        ));
    }
}

/// Splitting a string free of the separator yields that string alone.
pub proof fn lemma_split_sep_none(s: Seq<char>, sep: char)
    requires
        forall|k: int| 0 <= k < s.len() ==> s[k] != sep,
    ensures
        split_sep(s, sep) == seq![s],
    decreases s.len(),
{
    if s.len() == 0 {
        assert(s =~= Seq::<char>::empty());
        assert(split_sep(s, sep) =~= seq![s]);
    } else {
        let s1 = s.subrange(1, s.len() as int);
        lemma_split_sep_none(s1, sep);
        assert(seq![s[0]] + s1 =~= s);
        assert(split_sep(s, sep) =~= seq![s]);
    }
}

/// Split `s` at every occurrence of `sep`.
pub fn split_char(s: &str, sep: char) -> (r: Vec<String>)
    ensures
        r@.len() == split_sep(s@, sep).len(),
        forall|i: int| 0 <= i < r@.len() ==> #[trigger] r@[i]@ == split_sep(s@, sep)[i],
{
    let n = s.unicode_len();
    let mut r: Vec<String> = Vec::new();
    let mut st: usize = 0;
    let mut i: usize = 0;
    proof {
        assert(s@.subrange(0, n as int) =~= s@);
    }
    while i < n
        invariant
            0 <= st <= i <= n,
            n == s@.len(),
            forall|k: int| st <= k < i ==> s@[k] != sep,
            split_sep(s@, sep).len() == r@.len() + split_sep(
                s@.subrange(st as int, n as int),
                sep,
            ).len(),
            forall|j: int| 0 <= j < r@.len() ==> #[trigger] r@[j]@ == split_sep(s@, sep)[j],
            forall|j: int| 0 <= j < split_sep(s@.subrange(st as int, n as int), sep).len()
                ==> #[trigger] split_sep(s@.subrange(st as int, n as int), sep)[j] == split_sep(
                s@,
                sep,
            )[r@.len() + j],
        decreases n - i,
    {
        if s_ne(s.get_char(i), sep) {
            i = i + 1;
        } else {
            let ghost tail = s@.subrange(st as int, n as int);
            let ghost tail2 = s@.subrange(i + 1, n as int);
            let ghost done = r@.len() as int;
            let piece = s.substring_char(st, i);
            proof {
                lemma_split_sep_at(tail, sep, i - st);
                assert(tail.subrange(0, i - st) =~= s@.subrange(st as int, i as int));
                assert(tail.subrange(i - st + 1, tail.len() as int) =~= tail2);
                assert(split_sep(tail, sep) == seq![piece@] + split_sep(tail2, sep));
                assert(split_sep(tail, sep)[0] == piece@);
                assert(piece@ == split_sep(s@, sep)[done]);
                assert forall|j: int| 0 <= j < split_sep(tail2, sep).len() implies #[trigger]
                    split_sep(tail2, sep)[j] == split_sep(s@, sep)[done + 1 + j] by {
                    assert(split_sep(tail, sep)[j + 1] == split_sep(tail2, sep)[j]);
                }
            }
            r.push(String::from_str(piece));
            st = i + 1;
            i = i + 1;
        }
    }
    let piece = s.substring_char(st, n);
    proof {
        let tail = s@.subrange(st as int, n as int);
        lemma_split_sep_none(tail, sep);
        assert(split_sep(tail, sep)[0] == tail);
    }
    r.push(String::from_str(piece));
    proof {
        assert(forall|j: int| 0 <= j < r@.len() - 1 ==> #[trigger] r@[j]@ == split_sep(s@, sep)[j]);
        assert(r@[r@.len() - 1]@ == split_sep(s@, sep)[r@.len() - 1]);
    }
    r
}


/// The pieces joined with `sep` between them.
pub open spec fn sep_join(parts: Seq<Seq<char>>, sep: char) -> Seq<char>
    decreases parts.len(),
{
    if parts.len() == 0 {
        Seq::empty()
    } else if parts.len() == 1 {
        parts[0]
    } else {
        parts[0] + seq![sep] + sep_join(parts.subrange(1, parts.len() as int), sep)
    }
}

/// What of the joined text is still to come once `i` pieces are written.
pub open spec fn rest_join(parts: Seq<Seq<char>>, sep: char, i: int) -> Seq<char>
    decreases parts.len() - i,
{
    if i >= parts.len() {
        Seq::empty()
    } else {
        seq![sep] + parts[i] + rest_join(parts, sep, i + 1)
    }
}

proof fn lemma_sep_join_rest(parts: Seq<Seq<char>>, sep: char)
    requires
        parts.len() >= 1,
    ensures
        sep_join(parts, sep) == parts[0] + rest_join(parts, sep, 1),
    decreases parts.len(),
{
    if parts.len() == 1 {
        assert(parts[0] + rest_join(parts, sep, 1) =~= parts[0]);
    } else {
        let tail = parts.subrange(1, parts.len() as int);
        lemma_sep_join_rest(tail, sep);
        lemma_rest_join_shift(parts, sep, 1);
        assert(parts[0] + seq![sep] + (tail[0] + rest_join(tail, sep, 1)) =~= parts[0] + (seq![
            sep,
        ] + parts[1] + rest_join(parts, sep, 2)));
    }
}

proof fn lemma_rest_join_shift(parts: Seq<Seq<char>>, sep: char, i: int)
    requires
        1 <= i < parts.len(),
    ensures
        rest_join(parts.subrange(1, parts.len() as int), sep, i - 1) == rest_join(parts, sep, i),
    decreases parts.len() - i,
{
    let tail = parts.subrange(1, parts.len() as int);
    assert(tail[i - 1] == parts[i]);
    if i + 1 < parts.len() {
        lemma_rest_join_shift(parts, sep, i + 1);
    } else {
        assert(rest_join(tail, sep, i) =~= Seq::<char>::empty());
        assert(rest_join(parts, sep, i + 1) =~= Seq::<char>::empty());
    }
    assert(rest_join(tail, sep, i) == rest_join(parts, sep, i + 1));
    assert(rest_join(tail, sep, i - 1) == seq![sep] + tail[i - 1] + rest_join(tail, sep, i));
    assert(rest_join(parts, sep, i) == seq![sep] + parts[i] + rest_join(parts, sep, i + 1));
}

/// `s` with every occurrence of `from` replaced by `to`.
pub open spec fn replace_char(s: Seq<char>, from: char, to: char) -> Seq<char> {
    Seq::new(s.len(), |i: int| if s[i] == from { to } else { s[i] })
}

/// Joining the split pieces with another separator is replacement.
pub proof fn lemma_join_split_replace(s: Seq<char>, a: char, b: char)
    ensures
        sep_join(split_sep(s, a), b) == replace_char(s, a, b),
    decreases s.len(),
{
    if s.len() == 0 {
        assert(sep_join(split_sep(s, a), b) =~= replace_char(s, a, b));
    } else {
        let rest = s.subrange(1, s.len() as int);
        lemma_join_split_replace(rest, a, b);
        let r = split_sep(rest, a);
        lemma_split_sep_len(rest, a);
        if s[0] == a {
            let p = split_sep(s, a);
            assert(p == seq![Seq::<char>::empty()] + r);
            assert(p.len() >= 2);
            assert(p.subrange(1, p.len() as int) =~= r);
            assert(p[0] + seq![b] + sep_join(r, b) =~= seq![b] + replace_char(rest, a, b));
            assert(seq![b] + replace_char(rest, a, b) =~= replace_char(s, a, b));
        } else {
            let p = split_sep(s, a);
            assert(p == seq![seq![s[0]] + r[0]] + r.subrange(1, r.len() as int));
            if r.len() == 1 {
                assert(p.len() == 1);
                assert(sep_join(p, b) == seq![s[0]] + r[0]);
                assert(sep_join(r, b) == r[0]);
                assert(seq![s[0]] + replace_char(rest, a, b) =~= replace_char(s, a, b));
            } else {
                assert(p.len() >= 2);
                lemma_sep_join_rest(r, b);
                lemma_sep_join_rest(p, b);
                assert(p.subrange(1, p.len() as int) =~= r.subrange(1, r.len() as int));
                lemma_rest_join_shift(p, b, 1);
                lemma_rest_join_shift(r, b, 1);
                assert(rest_join(p, b, 1) == rest_join(p.subrange(1, p.len() as int), b, 0));
                assert(rest_join(r, b, 1) == rest_join(r.subrange(1, r.len() as int), b, 0));
                assert(rest_join(p, b, 1) == rest_join(r, b, 1));
                assert(sep_join(p, b) == (seq![s[0]] + r[0]) + rest_join(p, b, 1));
                assert(sep_join(r, b) == r[0] + rest_join(r, b, 1));
                assert((seq![s[0]] + r[0]) + rest_join(p, b, 1) =~= seq![s[0]] + (r[0] + rest_join(
                    r,
                    b,
                    1,
                )));
                assert(seq![s[0]] + replace_char(rest, a, b) =~= replace_char(s, a, b));
            }
        }
    }
}

/// Join pieces with a hyphen between them.
pub fn join_dash(parts: &Vec<String>) -> (r: String)
    requires
        parts@.len() >= 1,
    ensures
        r@ == sep_join(Seq::new(parts@.len(), |i: int| parts@[i]@), '-'),
{
    proof {
        reveal_strlit("-");
    }
    let ghost pv = Seq::new(parts@.len(), |i: int| parts@[i]@);
    let mut out: String = parts[0].clone();
    let mut i: usize = 1;
    proof {
        lemma_sep_join_rest(pv, '-');
    }
    while i < parts.len()
        invariant
            1 <= i <= parts@.len(),
            pv == Seq::new(parts@.len(), |k: int| parts@[k]@),
            out@ + rest_join(pv, '-', i as int) == sep_join(pv, '-'),
        decreases parts@.len() - i,
    {
        out.append("-");
        out.append(parts[i].as_str());
        proof {
            reveal_strlit("-");
            assert(rest_join(pv, '-', i as int) == seq!['-'] + pv[i as int] + rest_join(
                pv,
                '-',
                i + 1,
            ));
            assert(pv[i as int] == parts@[i as int]@);
            assert((out@ + rest_join(pv, '-', i + 1)) =~= (sep_join(pv, '-')));
        }
        i = i + 1;
    }
    proof {
        assert(rest_join(pv, '-', i as int) =~= Seq::<char>::empty());
        assert(out@ =~= sep_join(pv, '-'));
    }
    out
}

} // verus!
