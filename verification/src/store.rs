//! The persistent document codec: a collection of boxes encoded as one
//! text, with numbers in decimal and strings length-prefixed so that no
//! escaping is needed. Decoding inverts encoding exactly — loading a
//! saved document yields an equal collection — and anything else is a
//! corrupt store.

use crate::ip::{check_ipv6, ip_wf, IpAddress, IpAddressV, IpAddrV4};
use crate::model::{
    box_wf, boxes_wf, Action, ActionResult, ActionV, BoxV, CtfBox, EnvVar, EnvVarV, Note,
    NoteCategory, NoteV,
};
use crate::num::{
    dec_digits, digits_val, is_digit_char, lemma_dec_digits_shape, lemma_digits_canonical,
    lemma_digits_val_dec, lemma_digits_val_prefix,
};
use vstd::prelude::*;
use vstd::string::StrSliceExecFns;
use vstd::string::StringExecFns;

verus! {

/// Failure of the store layer: the document on disk is not a valid
/// encoding.
#[derive(PartialEq, Eq, Structural, Clone, Copy, Debug)]
pub enum StoreError {
    CorruptStore,
}

/// A number: its decimal digits and a terminator.
pub open spec fn enc_u64(n: nat) -> Seq<char> {
    dec_digits(n) + seq![';']
}

/// A string: its character count, then its characters verbatim.
pub open spec fn enc_str(t: Seq<char>) -> Seq<char> {
    enc_u64(t.len()) + t
}

/// An optional string: a marker for absence or presence.
pub open spec fn enc_opt_str(o: Option<Seq<char>>) -> Seq<char> {
    match o {
        None => seq!['N'],
        Some(t) => seq!['V'] + enc_str(t),
    }
}

pub open spec fn enc_result(r: ActionResult) -> Seq<char> {
    match r {
        ActionResult::Success => seq!['S'],
        ActionResult::Fail => seq!['F'],
        ActionResult::Unknown => seq!['U'],
    }
}

/// The position of a category in the fixed presentation order.
pub open spec fn cat_index(c: NoteCategory) -> int {
    match c {
        NoteCategory::Recon => 0,
        NoteCategory::Foothold => 1,
        NoteCategory::Privesc => 2,
        NoteCategory::Web => 3,
        NoteCategory::Pwn => 4,
        NoteCategory::Crypto => 5,
        NoteCategory::Reversing => 6,
        NoteCategory::Stego => 7,
        NoteCategory::Misc => 8,
    }
}

pub open spec fn enc_cat(c: NoteCategory) -> Seq<char> {
    seq![crate::num::digit_char(cat_index(c))]
}

pub open spec fn enc_action(a: ActionV) -> Seq<char> {
    enc_u64(a.timestamp as nat) + enc_str(a.command) + enc_result(a.result) + enc_opt_str(a.note)
        + enc_opt_str(a.output)
}

pub open spec fn enc_note(n: NoteV) -> Seq<char> {
    enc_cat(n.category) + enc_str(n.content) + enc_u64(n.created_date as nat)
}

pub open spec fn enc_env(e: EnvVarV) -> Seq<char> {
    enc_str(e.key) + enc_str(e.value)
}

/// The tag strings of a list, in order.
pub open spec fn enc_tags(s: Seq<Seq<char>>) -> Seq<char>
    decreases s.len(),
{
    if s.len() == 0 {
        Seq::empty()
    } else {
        enc_tags(s.drop_last()) + enc_str(s.last())
    }
}

pub open spec fn enc_actions(s: Seq<ActionV>) -> Seq<char>
    decreases s.len(),
{
    if s.len() == 0 {
        Seq::empty()
    } else {
        enc_actions(s.drop_last()) + enc_action(s.last())
    }
}

pub open spec fn enc_notes(s: Seq<NoteV>) -> Seq<char>
    decreases s.len(),
{
    if s.len() == 0 {
        Seq::empty()
    } else {
        enc_notes(s.drop_last()) + enc_note(s.last())
    }
}

pub open spec fn enc_envs(s: Seq<EnvVarV>) -> Seq<char>
    decreases s.len(),
{
    if s.len() == 0 {
        Seq::empty()
    } else {
        enc_envs(s.drop_last()) + enc_env(s.last())
    }
}

pub open spec fn enc_boxes(s: Seq<BoxV>) -> Seq<char>
    decreases s.len(),
{
    if s.len() == 0 {
        Seq::empty()
    } else {
        enc_boxes(s.drop_last()) + enc_box(s.last())
    }
}

proof fn lemma_enc_tags_first(s: Seq<Seq<char>>)
    requires
        s.len() > 0,
    ensures
        enc_tags(s) == enc_str(s[0]) + enc_tags(s.subrange(1, s.len() as int)),
    decreases s.len(),
{
    if s.len() == 1 {
        assert(s.drop_last() =~= Seq::<Seq<char>>::empty());
        assert(s.subrange(1, 1) =~= Seq::<Seq<char>>::empty());
        assert(enc_tags(s) =~= enc_str(s[0]) + enc_tags(s.subrange(1, 1)));
    } else {
        let pre = s.drop_last();
        lemma_enc_tags_first(pre);
        let tail = s.subrange(1, s.len() as int);
        assert(pre.subrange(1, pre.len() as int) =~= tail.drop_last());
        assert(tail.last() == s.last());
        assert((enc_str(s[0]) + enc_tags(tail.drop_last())) + enc_str(s.last()) =~= enc_str(s[0])
            + (enc_tags(tail.drop_last()) + enc_str(s.last())));
    }
}

proof fn lemma_enc_actions_first(s: Seq<ActionV>)
    requires
        s.len() > 0,
    ensures
        enc_actions(s) == enc_action(s[0]) + enc_actions(s.subrange(1, s.len() as int)),
    decreases s.len(),
{
    if s.len() == 1 {
        assert(s.drop_last() =~= Seq::<ActionV>::empty());
        assert(s.subrange(1, 1) =~= Seq::<ActionV>::empty());
        assert(enc_actions(s) =~= enc_action(s[0]) + enc_actions(s.subrange(1, 1)));
    } else {
        let pre = s.drop_last();
        lemma_enc_actions_first(pre);
        let tail = s.subrange(1, s.len() as int);
        assert(pre.subrange(1, pre.len() as int) =~= tail.drop_last());
        assert(tail.last() == s.last());
        assert((enc_action(s[0]) + enc_actions(tail.drop_last())) + enc_action(s.last())
            =~= enc_action(s[0]) + (enc_actions(tail.drop_last()) + enc_action(s.last())));
    }
}

proof fn lemma_enc_notes_first(s: Seq<NoteV>)
    requires
        s.len() > 0,
    ensures
        enc_notes(s) == enc_note(s[0]) + enc_notes(s.subrange(1, s.len() as int)),
    decreases s.len(),
{
    if s.len() == 1 {
        assert(s.drop_last() =~= Seq::<NoteV>::empty());
        assert(s.subrange(1, 1) =~= Seq::<NoteV>::empty());
        assert(enc_notes(s) =~= enc_note(s[0]) + enc_notes(s.subrange(1, 1)));
    } else {
        let pre = s.drop_last();
        lemma_enc_notes_first(pre);
        let tail = s.subrange(1, s.len() as int);
        assert(pre.subrange(1, pre.len() as int) =~= tail.drop_last());
        assert(tail.last() == s.last());
        assert((enc_note(s[0]) + enc_notes(tail.drop_last())) + enc_note(s.last()) =~= enc_note(
            s[0],
        ) + (enc_notes(tail.drop_last()) + enc_note(s.last())));
    }
}

proof fn lemma_enc_envs_first(s: Seq<EnvVarV>)
    requires
        s.len() > 0,
    ensures
        enc_envs(s) == enc_env(s[0]) + enc_envs(s.subrange(1, s.len() as int)),
    decreases s.len(),
{
    if s.len() == 1 {
        assert(s.drop_last() =~= Seq::<EnvVarV>::empty());
        assert(s.subrange(1, 1) =~= Seq::<EnvVarV>::empty());
        assert(enc_envs(s) =~= enc_env(s[0]) + enc_envs(s.subrange(1, 1)));
    } else {
        let pre = s.drop_last();
        lemma_enc_envs_first(pre);
        let tail = s.subrange(1, s.len() as int);
        assert(pre.subrange(1, pre.len() as int) =~= tail.drop_last());
        assert(tail.last() == s.last());
        assert((enc_env(s[0]) + enc_envs(tail.drop_last())) + enc_env(s.last()) =~= enc_env(s[0])
            + (enc_envs(tail.drop_last()) + enc_env(s.last())));
    }
}

#[verifier::rlimit(50)]
proof fn lemma_enc_boxes_first(s: Seq<BoxV>)
    requires
        s.len() > 0,
    ensures
        enc_boxes(s) == enc_box(s[0]) + enc_boxes(s.subrange(1, s.len() as int)),
    decreases s.len(),
{
    if s.len() == 1 {
        assert(s.drop_last() =~= Seq::<BoxV>::empty());
        assert(s.subrange(1, 1) =~= Seq::<BoxV>::empty());
        assert(enc_boxes(s) =~= enc_box(s[0]) + enc_boxes(s.subrange(1, 1)));
    } else {
        let pre = s.drop_last();
        lemma_enc_boxes_first(pre);
        let tail = s.subrange(1, s.len() as int);
        assert(pre.subrange(1, pre.len() as int) =~= tail.drop_last());
        assert(tail.last() == s.last());
        assert((enc_box(s[0]) + enc_boxes(tail.drop_last())) + enc_box(s.last()) =~= enc_box(s[0])
            + (enc_boxes(tail.drop_last()) + enc_box(s.last())));
    }
}

/// What follows a known prefix of the remaining text.
proof fn lemma_tail_split(s: Seq<char>, pos: int, slen: int, pre: Seq<char>, rem: Seq<char>)
    requires
        0 <= pos <= slen <= s.len(),
        s.subrange(pos, slen) == pre + rem,
    ensures
        s.subrange(pos + pre.len(), slen) == rem,
{
    assert(s.subrange(pos, slen).len() == slen - pos);
    assert((pre + rem).len() == pre.len() + rem.len());
    assert(pre.len() + rem.len() == slen - pos);
    assert(s.subrange(pos + pre.len() as int, slen) =~= rem) by {
        assert(pre.len() + rem.len() == slen - pos);
        assert forall|k: int| 0 <= k < rem.len() implies #[trigger] s.subrange(
            pos + pre.len() as int,
            slen,
        )[k] == rem[k] by {
            let j: int = pre.len() as int + k;
            assert(0 <= j < slen - pos);
            assert(s.subrange(pos, slen)[j] == (pre + rem)[j]);
            assert((pre + rem)[j] == rem[k]);
            assert(s.subrange(pos, slen)[j] == s[pos + j]);
            assert(s.subrange(pos + pre.len() as int, slen)[k] == s[(pos + pre.len() as int)
                + k]);
        }
    }
}

/// An address: a family tag, then the dotted quad's octets or the IPv6
/// literal's text.
pub open spec fn enc_ip(ip: IpAddressV) -> Seq<char> {
    match ip {
        IpAddressV::V4(q) => seq!['4'] + (enc_u64(q.a as nat) + (enc_u64(q.b as nat) + (enc_u64(
            q.c as nat,
        ) + enc_u64(q.d as nat)))),
        IpAddressV::V6(t) => seq!['6'] + enc_str(t),
    }
}

/// A counted list of tags.
pub open spec fn enc_ctags(items: Seq<Seq<char>>) -> Seq<char> {
    enc_u64(items.len()) + enc_tags(items)
}

/// A counted list of actions.
pub open spec fn enc_cacts(items: Seq<ActionV>) -> Seq<char> {
    enc_u64(items.len()) + enc_actions(items)
}

/// A counted list of notes.
pub open spec fn enc_cnotes(items: Seq<NoteV>) -> Seq<char> {
    enc_u64(items.len()) + enc_notes(items)
}

/// A counted list of environment entries.
pub open spec fn enc_cenvs(items: Seq<EnvVarV>) -> Seq<char> {
    enc_u64(items.len()) + enc_envs(items)
}

/// The environment section of a box: omitted entirely when there are no
/// entries, else a marker and the counted list. The omission keeps older
/// env-less box records readable, defaulting them to an empty mapping.
pub open spec fn enc_envs_opt(items: Seq<EnvVarV>) -> Seq<char> {
    if items.len() == 0 {
        Seq::empty()
    } else {
        seq!['E'] + enc_cenvs(items)
    }
}

pub open spec fn enc_box(b: BoxV) -> Seq<char> {
    enc_u64(b.id as nat) + enc_u64(b.created_date as nat) + enc_u64(b.updated_date as nat)
        + enc_str(b.title) + enc_str(b.platform) + enc_ip(b.ip_address) + enc_ctags(b.tags)
        + enc_cacts(b.actions) + enc_cnotes(b.notes) + enc_envs_opt(b.env_vars)
}

/// The document: how many boxes, then each in order.
pub open spec fn encode_spec(bs: Seq<BoxV>) -> Seq<char> {
    enc_u64(bs.len()) + enc_boxes(bs)
}

/// A subrange splits at any interior point.
proof fn lemma_subrange_concat(s: Seq<char>, a: int, b: int, c: int)
    requires
        0 <= a <= b <= c <= s.len(),
    ensures
        s.subrange(a, c) == s.subrange(a, b) + s.subrange(b, c),
{
    assert(s.subrange(a, c) =~= s.subrange(a, b) + s.subrange(b, c));
}

fn is_digit(c: char) -> (r: bool)
    ensures
        r == is_digit_char(c),
{
    '0' <= c && c <= '9'
}

/// Parse a terminated decimal number. Where the text at `pos` is the
/// encoding of a number followed by anything, exactly that number is
/// returned and the cursor stands after its terminator.
fn parse_u64(s: &str, pos: usize, slen: usize) -> (r: Option<(u64, usize)>)
    requires
        slen == s@.len(),
        pos <= slen,
    ensures
        (match r {
            Some(v) => pos < v.1 <= slen,
            None => true,
        }),
        forall|n: u64, rest: Seq<char>|
            s@.subrange(pos as int, slen as int) == #[trigger] (enc_u64(n as nat) + rest) ==> r
                == Some((n, (pos + dec_digits(n as nat).len() + 1) as usize)),
        (match r {
            Some(v) => s@.subrange(pos as int, v.1 as int) == enc_u64(v.0 as nat),
            None => true,
        }),
{
    let ghost tail = s@.subrange(pos as int, slen as int);
    let mut i: usize = pos;
    let mut value: u64 = 0;
    while i < slen && is_digit(s.get_char(i))
        invariant
            pos <= i <= slen,
            slen == s@.len(),
            forall|k: int| pos <= k < i ==> is_digit_char(s@[k]),
            value as nat == digits_val(s@.subrange(pos as int, i as int)),
        decreases slen - i,
    {
        let c = s.get_char(i);
        let d: u64 = (c as u32 - 48) as u64;
        let step = match value.checked_mul(10) {
            Some(v) => v.checked_add(d),
            None => None,
        };
        match step {
            Some(v) => {
                proof {
                    let pre = s@.subrange(pos as int, i + 1);
                    assert(pre.drop_last() =~= s@.subrange(pos as int, i as int));
                    assert(pre.last() == c);
                }
                value = v;
            },
            None => {
                proof {
                    let tail = s@.subrange(pos as int, slen as int);
                    assert forall|n: u64, rest: Seq<char>|
                        tail != #[trigger] (enc_u64(n as nat) + rest) by {
                        if tail == enc_u64(n as nat) + rest {
                            let dd = dec_digits(n as nat);
                            lemma_dec_digits_shape(n as nat);
                            // every char up to and including position i is a digit,
                            // so the digit string extends past i - pos
                            assert(tail[dd.len() as int] == ';');
                            assert(!is_digit_char(';'));
                            assert forall|k: int| pos <= k <= i implies is_digit_char(
                                s@[k],
                            ) by {}
                            assert(i - pos + 1 <= dd.len()) by {
                                if i - pos >= dd.len() {
                                    assert(s@[pos + dd.len()] == tail[dd.len() as int]);
                                }
                            }
                            assert(s@.subrange(pos as int, i + 1) =~= dd.subrange(
                                0,
                                i - pos + 1,
                            )) by {
                                assert forall|k: int| 0 <= k < i - pos + 1 implies #[trigger] s@.subrange(
                                    pos as int,
                                    i + 1,
                                )[k] == dd.subrange(0, i - pos + 1)[k] by {
                                    assert(dd[k] == tail[k]);
                                    assert(tail[k] == s@[pos + k]);
                                }
                            }
                            lemma_digits_val_prefix(n as nat, i - pos + 1);
                            let pre = s@.subrange(pos as int, i + 1);
                            assert(pre.drop_last() =~= s@.subrange(pos as int, i as int));
                            assert(pre.last() == s@[i as int]);
                            assert(digits_val(pre) == value * 10 + (s@[i as int] as int - 48));
                            assert(digits_val(pre) > u64::MAX);
                        }
                    }
                }
                return None;
            },
        }
        i = i + 1;
    }
    if i == pos {
        proof {
            assert forall|n: u64, rest: Seq<char>|
                tail != #[trigger] (enc_u64(n as nat) + rest) by {
                if tail == enc_u64(n as nat) + rest {
                    lemma_dec_digits_shape(n as nat);
                    assert(tail[0] == dec_digits(n as nat)[0]);
                    assert(is_digit_char(s@[pos as int]));
                    if pos < slen {
                        assert(!is_digit_char(s@[pos as int]));
                    } else {
                        assert(tail.len() == 0);
                    }
                }
            }
        }
        return None;
    }
    if i > pos + 1 && s.get_char(pos) == '0' {
        proof {
            let tail = s@.subrange(pos as int, slen as int);
            assert forall|n: u64, rest: Seq<char>|
                tail != #[trigger] (enc_u64(n as nat) + rest) by {
                if tail == enc_u64(n as nat) + rest {
                    let dd = dec_digits(n as nat);
                    lemma_dec_digits_shape(n as nat);
                    assert(tail[0] == dd[0]);
                    assert(tail[0] == s@[pos as int]);
                    assert(n == 0);
                    assert(dd =~= seq![crate::num::digit_char(0)]);
                    assert(tail[1] == ';');
                    assert(s@[pos + 1] == ';');
                    assert(is_digit_char(s@[pos + 1]));
                }
            }
        }
        return None;
    }
    let terminated = i < slen && s.get_char(i) == ';';
    proof {
        assert forall|n: u64, rest: Seq<char>|
            tail == #[trigger] (enc_u64(n as nat) + rest) implies terminated && value == n && i
            == pos + dec_digits(n as nat).len() by {
            let dd = dec_digits(n as nat);
            lemma_dec_digits_shape(n as nat);
            assert(tail[dd.len() as int] == ';');
            assert(i - pos <= dd.len()) by {
                if i - pos > dd.len() {
                    assert(s@[pos + dd.len()] == tail[dd.len() as int]);
                    assert(is_digit_char(s@[pos + dd.len()]));
                }
            }
            assert(i - pos >= dd.len()) by {
                if i - pos < dd.len() {
                    assert(dd[i - pos] == tail[i - pos]);
                    assert(tail[i - pos] == s@[i as int]);
                    assert(is_digit_char(s@[i as int]));
                    if i < slen {
                        assert(!is_digit_char(s@[i as int]));
                    } else {
                        assert(pos + dd.len() + 1 <= slen);
                    }
                }
            }
            assert(i == pos + dd.len());
            assert(s@[i as int] == tail[dd.len() as int]);
            assert(terminated);
            assert(s@.subrange(pos as int, i as int) =~= dd) by {
                assert forall|k: int| 0 <= k < dd.len() implies #[trigger] s@.subrange(
                    pos as int,
                    i as int,
                )[k] == dd[k] by {
                    assert(dd[k] == tail[k]);
                    assert(tail[k] == s@[pos + k]);
                }
            }
            lemma_digits_val_dec(n as nat);
        }
    }
    if terminated {
        proof {
            let cs = s@.subrange(pos as int, i as int);
            assert(cs.len() >= 1);
            assert(forall|k: int| 0 <= k < cs.len() ==> is_digit_char(#[trigger] cs[k])) by {
                assert(forall|k: int| 0 <= k < cs.len() ==> cs[k] == s@[pos + k]);
            }
            if cs.len() > 1 {
                assert(cs[0] == s@[pos as int]);
            }
            lemma_digits_canonical(cs);
            assert(dec_digits(value as nat) == cs);
            assert(s@.subrange(pos as int, i + 1) =~= cs + seq![';']);
        }
        Some((value, i + 1))
    } else {
        None
    }
}

/// Parse a length-prefixed string. Where the text at `pos` is the
/// encoding of a string followed by anything, exactly that string is
/// returned.
fn parse_str(s: &str, pos: usize, slen: usize) -> (r: Option<(String, usize)>)
    requires
        slen == s@.len(),
        pos <= slen,
    ensures
        (match r {
            Some(v) => pos < v.1 <= slen,
            None => true,
        }),
        forall|t: Seq<char>, rest: Seq<char>|
            s@.subrange(pos as int, slen as int) == #[trigger] (enc_str(t) + rest) ==> (match r {
                Some(v) => v.0@ == t && v.1 == pos + enc_str(t).len(),
                None => false,
            }),
        (match r {
            Some(v) => s@.subrange(pos as int, v.1 as int) == enc_str(v.0@),
            None => true,
        }),
{
    let ghost tail = s@.subrange(pos as int, slen as int);
    proof {
        assert forall|t: Seq<char>, rest: Seq<char>|
            tail == #[trigger] (enc_str(t) + rest) implies tail == enc_u64(t.len()) + (t
            + rest) && t.len() <= slen - pos by {
            assert(enc_str(t) + rest =~= enc_u64(t.len()) + (t + rest));
            assert(tail.len() == enc_str(t).len() + rest.len());
            assert(enc_str(t).len() >= t.len());
        }
    }
    let (len, p2) = match parse_u64(s, pos, slen) {
        Some(v) => v,
        None => {
            return None;
        },
    };
    if len > (slen - p2) as u64 {
        proof {
            assert forall|t: Seq<char>, rest: Seq<char>|
                tail != #[trigger] (enc_str(t) + rest) by {
                if tail == enc_str(t) + rest {
                    let n: u64 = t.len() as u64;
                    assert(tail == enc_u64(n as nat) + (t + rest));
                    assert(len == n && p2 == pos + dec_digits(n as nat).len() + 1);
                    assert(enc_str(t).len() == dec_digits(t.len()).len() + 1 + t.len());
                }
            }
        }
        return None;
    }
    let l = len as usize;
    let content = s.substring_char(p2, p2 + l);
    proof {
        assert forall|t: Seq<char>, rest: Seq<char>|
            tail == #[trigger] (enc_str(t) + rest) implies content@ == t && p2 + l == pos
            + enc_str(t).len() by {
            let n: u64 = t.len() as u64;
            assert(tail == enc_u64(n as nat) + (t + rest));
            assert(len == n && p2 == pos + dec_digits(n as nat).len() + 1);
            assert(content@ =~= t) by {
                assert forall|k: int| 0 <= k < t.len() implies content@[k] == t[k] by {
                    assert((t + rest)[k] == t[k]);
                    assert(tail[(p2 - pos) + k] == (enc_u64(n as nat) + (t + rest))[(p2 - pos)
                        + k]);
                    assert(tail[(p2 - pos) + k] == s@[p2 + k]);
                }
            }
            assert(enc_str(t).len() == dec_digits(t.len()).len() + 1 + t.len());
        }
    }
    proof {
        lemma_subrange_concat(s@, pos as int, p2 as int, p2 + l);
        assert(content@.len() == len as nat);
        assert(enc_str(content@) == enc_u64(content@.len()) + content@);
        assert(s@.subrange(pos as int, p2 + l) == enc_str(content@));
    }
    Some((String::from_str(content), p2 + l))
}


/// Parse an optional string marked by its presence byte.
fn parse_opt_str(s: &str, pos: usize, slen: usize) -> (r: Option<(Option<String>, usize)>)
    requires
        slen == s@.len(),
        pos <= slen,
    ensures
        (match r {
            Some(v) => pos < v.1 <= slen,
            None => true,
        }),
        forall|o: Option<Seq<char>>, rest: Seq<char>|
            s@.subrange(pos as int, slen as int) == #[trigger] (enc_opt_str(o) + rest) ==> (match r {
                Some(v) => (match o {
                    None => v.0 is None,
                    Some(t) => v.0 is Some && v.0->0@ == t,
                }) && v.1 == pos + enc_opt_str(o).len(),
                None => false,
            }),
        (match r {
            Some(v) => s@.subrange(pos as int, v.1 as int) == enc_opt_str(
                match v.0 {
                    Some(t) => Some(t@),
                    None => None,
                },
            ),
            None => true,
        }),
{
    if pos >= slen {
        proof {
            let tail = s@.subrange(pos as int, slen as int);
            assert forall|o: Option<Seq<char>>, rest: Seq<char>|
                tail != #[trigger] (enc_opt_str(o) + rest) by {
                assert(enc_opt_str(o).len() >= 1);
                assert(tail.len() == 0);
            }
        }
        return None;
    }
    let c = s.get_char(pos);
    if c == 'N' {
        proof {
            let tail = s@.subrange(pos as int, slen as int);
            assert forall|o: Option<Seq<char>>, rest: Seq<char>|
                tail == #[trigger] (enc_opt_str(o) + rest) implies (o is None) && 1
                == enc_opt_str(o).len() by {
                assert(tail[0] == enc_opt_str(o)[0]);
                if o is Some {
                    assert(enc_opt_str(o)[0] == 'V');
                }
            }
        }
        proof {
            assert(s@.subrange(pos as int, pos + 1 as int) =~= enc_opt_str(None::<Seq<char>>));
        }
        return Some((None, pos + 1));
    }
    if c != 'V' {
        proof {
            let tail = s@.subrange(pos as int, slen as int);
            assert forall|o: Option<Seq<char>>, rest: Seq<char>|
                tail != #[trigger] (enc_opt_str(o) + rest) by {
                if tail == enc_opt_str(o) + rest {
                    assert(tail[0] == enc_opt_str(o)[0]);
                    if o is Some {
                        assert(enc_opt_str(o)[0] == 'V');
                    } else {
                        assert(enc_opt_str(o)[0] == 'N');
                    }
                }
            }
        }
        return None;
    }
    let inner = parse_str(s, pos + 1, slen);
    proof {
        let tail = s@.subrange(pos as int, slen as int);
        assert forall|o: Option<Seq<char>>, rest: Seq<char>|
            tail == #[trigger] (enc_opt_str(o) + rest) implies (o is Some) && s@.subrange(
            pos + 1,
            slen as int,
        ) == enc_str(o->0) + rest by {
            assert(tail[0] == enc_opt_str(o)[0]);
            if o is None {
                assert(enc_opt_str(o)[0] == 'N');
            }
            let t = o->0;
            assert(enc_opt_str(o) + rest =~= seq!['V'] + (enc_str(t) + rest));
            lemma_tail_split(s@, pos as int, slen as int, seq!['V'], enc_str(t) + rest);
        }
    }
    match inner {
        Some(v) => {
            proof {
                lemma_subrange_concat(s@, pos as int, pos + 1, v.1 as int);
                assert(s@.subrange(pos as int, pos + 1 as int) =~= seq!['V']);
                assert(s@.subrange(pos as int, v.1 as int) == enc_opt_str(Some(v.0@)));
            }
            Some((Some(v.0), v.1))
        },
        None => None,
    }
}


fn parse_result(s: &str, pos: usize, slen: usize) -> (r: Option<(ActionResult, usize)>)
    requires
        slen == s@.len(),
        pos <= slen,
    ensures
        (match r {
            Some(v) => pos < v.1 <= slen,
            None => true,
        }),
        forall|x: ActionResult, rest: Seq<char>|
            s@.subrange(pos as int, slen as int) == #[trigger] (enc_result(x) + rest) ==> (match r {
                Some(v) => v.0 == x && v.1 == pos + 1,
                None => false,
            }),
        (match r {
            Some(v) => s@.subrange(pos as int, v.1 as int) == enc_result(v.0),
            None => true,
        }),
{
    let ghost tail = s@.subrange(pos as int, slen as int);
    if pos >= slen {
        proof {
            assert forall|x: ActionResult, rest: Seq<char>|
                tail != #[trigger] (enc_result(x) + rest) by {
                assert(enc_result(x).len() == 1);
                assert(tail.len() == 0);
            }
        }
        return None;
    }
    let c = s.get_char(pos);
    let out: Option<ActionResult> = if c == 'S' {
        Some(ActionResult::Success)
    } else if c == 'F' {
        Some(ActionResult::Fail)
    } else if c == 'U' {
        Some(ActionResult::Unknown)
    } else {
        None
    };
    proof {
        assert forall|x: ActionResult, rest: Seq<char>|
            tail == #[trigger] (enc_result(x) + rest) implies out == Some(x) by {
            assert(tail[0] == enc_result(x)[0]);
            if x is Success {
                assert(enc_result(x)[0] == 'S');
            } else if x is Fail {
                assert(enc_result(x)[0] == 'F');
            } else {
                assert(enc_result(x)[0] == 'U');
            }
        }
    }
    match out {
        Some(x) => {
            proof {
                assert(s@.subrange(pos as int, pos + 1 as int) =~= enc_result(x));
            }
            Some((x, pos + 1))
        },
        None => None,
    }
}

fn parse_cat(s: &str, pos: usize, slen: usize) -> (r: Option<(NoteCategory, usize)>)
    requires
        slen == s@.len(),
        pos <= slen,
    ensures
        (match r {
            Some(v) => pos < v.1 <= slen,
            None => true,
        }),
        forall|x: NoteCategory, rest: Seq<char>|
            s@.subrange(pos as int, slen as int) == #[trigger] (enc_cat(x) + rest) ==> (match r {
                Some(v) => v.0 == x && v.1 == pos + 1,
                None => false,
            }),
        (match r {
            Some(v) => s@.subrange(pos as int, v.1 as int) == enc_cat(v.0),
            None => true,
        }),
{
    let ghost tail = s@.subrange(pos as int, slen as int);
    if pos >= slen {
        proof {
            assert forall|x: NoteCategory, rest: Seq<char>|
                tail != #[trigger] (enc_cat(x) + rest) by {
                assert(enc_cat(x).len() == 1);
                assert(tail.len() == 0);
            }
        }
        return None;
    }
    let c = s.get_char(pos);
    let out: Option<NoteCategory> = if c == '0' {
        Some(NoteCategory::Recon)
    } else if c == '1' {
        Some(NoteCategory::Foothold)
    } else if c == '2' {
        Some(NoteCategory::Privesc)
    } else if c == '3' {
        Some(NoteCategory::Web)
    } else if c == '4' {
        Some(NoteCategory::Pwn)
    } else if c == '5' {
        Some(NoteCategory::Crypto)
    } else if c == '6' {
        Some(NoteCategory::Reversing)
    } else if c == '7' {
        Some(NoteCategory::Stego)
    } else if c == '8' {
        Some(NoteCategory::Misc)
    } else {
        None
    };
    proof {
        assert forall|x: NoteCategory, rest: Seq<char>|
            tail == #[trigger] (enc_cat(x) + rest) implies out == Some(x) by {
            assert(tail[0] == enc_cat(x)[0]);
            assert(enc_cat(x)[0] == crate::num::digit_char(cat_index(x)));
        }
    }
    match out {
        Some(x) => {
            proof {
                assert(s@.subrange(pos as int, pos + 1 as int) =~= enc_cat(x));
            }
            Some((x, pos + 1))
        },
        None => None,
    }
}

#[verifier::spinoff_prover]
#[verifier::rlimit(100)]
fn parse_action(s: &str, pos: usize, slen: usize) -> (r: Option<(Action, usize)>)
    requires
        slen == s@.len(),
        pos <= slen,
    ensures
        (match r {
            Some(v) => pos < v.1 <= slen,
            None => true,
        }),
        forall|a: ActionV, rest: Seq<char>|
            crate::model::action_wf(a) && s@.subrange(pos as int, slen as int) == #[trigger] (
            enc_action(a) + rest) ==> (match r {
                Some(v) => v.0@ == a && v.1 == pos + enc_action(a).len(),
                None => false,
            }),
        (match r {
            Some(v) => s@.subrange(pos as int, v.1 as int) == enc_action(v.0@),
            None => true,
        }),
{
    let ghost tail = s@.subrange(pos as int, slen as int);
    let r1 = parse_u64(s, pos, slen);
    let ok1: bool;
    let tsu: u64;
    let p1: usize;
    match r1 {
        Some(v) => {
            ok1 = v.0 <= crate::MAX_TS_MS as u64;
            tsu = v.0;
            p1 = v.1;
        },
        None => {
            ok1 = false;
            tsu = 0;
            p1 = pos;
        },
    }
    let r2 = if ok1 {
        parse_str(s, p1, slen)
    } else {
        None
    };
    let ok2: bool;
    let cmd: String;
    let p2: usize;
    match r2 {
        Some(v) => {
            ok2 = true;
            cmd = v.0;
            p2 = v.1;
        },
        None => {
            ok2 = false;
            cmd = String::new();
            p2 = p1;
        },
    }
    let r3 = if ok2 {
        parse_result(s, p2, slen)
    } else {
        None
    };
    let ok3: bool;
    let res: ActionResult;
    let p3: usize;
    match r3 {
        Some(v) => {
            ok3 = true;
            res = v.0;
            p3 = v.1;
        },
        None => {
            ok3 = false;
            res = ActionResult::Unknown;
            p3 = p2;
        },
    }
    let r4 = if ok3 {
        parse_opt_str(s, p3, slen)
    } else {
        None
    };
    let ok4: bool;
    let note: Option<String>;
    let p4: usize;
    match r4 {
        Some(v) => {
            ok4 = true;
            note = v.0;
            p4 = v.1;
        },
        None => {
            ok4 = false;
            note = None;
            p4 = p3;
        },
    }
    let r5 = if ok4 {
        parse_opt_str(s, p4, slen)
    } else {
        None
    };
    let ok5: bool;
    let output: Option<String>;
    let p5: usize;
    match r5 {
        Some(v) => {
            ok5 = true;
            output = v.0;
            p5 = v.1;
        },
        None => {
            ok5 = false;
            output = None;
            p5 = p4;
        },
    }
    proof {
        assert forall|a: ActionV, rest: Seq<char>|
            crate::model::action_wf(a) && tail == #[trigger] (enc_action(a) + rest) implies ok5
            && tsu as i64 == a.timestamp && cmd@ == a.command && res == a.result && (match a.note {
            None => note is None,
            Some(t) => note is Some && note->0@ == t,
        }) && (match a.output {
            None => output is None,
            Some(t) => output is Some && output->0@ == t,
        }) && p5 == pos + enc_action(a).len() by {
            let e1 = enc_u64((a.timestamp as u64) as nat);
            let q2 = enc_str(a.command);
            let q3 = enc_result(a.result);
            let q4 = enc_opt_str(a.note);
            let q5 = enc_opt_str(a.output);
            assert((a.timestamp as u64) as nat == a.timestamp as nat);
            assert(tail == e1 + (q2 + (q3 + (q4 + (q5 + rest))))) by {
                assert(enc_action(a) + rest =~= e1 + (q2 + (q3 + (q4 + (q5 + rest)))));
            }
            let n1: u64 = a.timestamp as u64;
            assert(tail == enc_u64(n1 as nat) + (q2 + (q3 + (q4 + (q5 + rest)))));
            assert(r1 == Some(
                (n1, (pos + dec_digits(n1 as nat).len() + 1) as usize),
            ));
            assert(e1.len() == dec_digits(n1 as nat).len() + 1);
            assert(0 <= a.timestamp <= crate::MAX_TS_MS);
            assert(n1 <= crate::MAX_TS_MS as u64);
            assert(tsu == n1);
            assert(ok1);
            assert(tail.len() == slen - pos);
            assert(e1.len() + (q2 + (q3 + (q4 + (q5 + rest)))).len() == slen - pos);
            assert(pos + dec_digits(n1 as nat).len() + 1 <= slen);
            assert(p1 == pos + e1.len());
            lemma_tail_split(s@, pos as int, slen as int, e1, q2 + (q3 + (q4 + (q5 + rest))));
            assert(ok2 && cmd@ == a.command && p2 == p1 + q2.len());
            lemma_tail_split(s@, p1 as int, slen as int, q2, q3 + (q4 + (q5 + rest)));
            assert(ok3 && res == a.result && p3 == p2 + 1);
            lemma_tail_split(s@, p2 as int, slen as int, q3, q4 + (q5 + rest));
            assert(ok4 && p4 == p3 + q4.len());
            lemma_tail_split(s@, p3 as int, slen as int, q4, q5 + rest);
            assert(ok5 && p5 == p4 + q5.len());
            assert(enc_action(a).len() == e1.len() + q2.len() + 1 + q4.len() + q5.len());
        }
    }
    if ok5 {
        proof {
            lemma_subrange_concat(s@, pos as int, p1 as int, p2 as int);
            lemma_subrange_concat(s@, pos as int, p2 as int, p3 as int);
            lemma_subrange_concat(s@, pos as int, p3 as int, p4 as int);
            lemma_subrange_concat(s@, pos as int, p4 as int, p5 as int);
            assert((tsu as i64) as nat == tsu as nat);
        }
        Some((Action { timestamp: tsu as i64, command: cmd, result: res, note, output }, p5))
    } else {
        None
    }
}


fn parse_note(s: &str, pos: usize, slen: usize) -> (r: Option<(Note, usize)>)
    requires
        slen == s@.len(),
        pos <= slen,
    ensures
        (match r {
            Some(v) => pos < v.1 <= slen,
            None => true,
        }),
        forall|n: NoteV, rest: Seq<char>|
            crate::model::note_wf(n) && s@.subrange(pos as int, slen as int) == #[trigger] (
            enc_note(n) + rest) ==> (match r {
                Some(v) => v.0@ == n && v.1 == pos + enc_note(n).len(),
                None => false,
            }),
        (match r {
            Some(v) => s@.subrange(pos as int, v.1 as int) == enc_note(v.0@),
            None => true,
        }),
{
    let ghost tail = s@.subrange(pos as int, slen as int);
    let r1 = parse_cat(s, pos, slen);
    let ok1: bool;
    let cat: NoteCategory;
    let p1: usize;
    match r1 {
        Some(v) => {
            ok1 = true;
            cat = v.0;
            p1 = v.1;
        },
        None => {
            ok1 = false;
            cat = NoteCategory::Misc;
            p1 = pos;
        },
    }
    let r2 = if ok1 {
        parse_str(s, p1, slen)
    } else {
        None
    };
    let ok2: bool;
    let content: String;
    let p2: usize;
    match r2 {
        Some(v) => {
            ok2 = true;
            content = v.0;
            p2 = v.1;
        },
        None => {
            ok2 = false;
            content = String::new();
            p2 = p1;
        },
    }
    let r3 = if ok2 {
        parse_u64(s, p2, slen)
    } else {
        None
    };
    let ok3: bool;
    let tsu: u64;
    let p3: usize;
    match r3 {
        Some(v) => {
            ok3 = v.0 <= crate::MAX_TS_MS as u64;
            tsu = v.0;
            p3 = v.1;
        },
        None => {
            ok3 = false;
            tsu = 0;
            p3 = p2;
        },
    }
    proof {
        assert forall|n: NoteV, rest: Seq<char>|
            crate::model::note_wf(n) && tail == #[trigger] (enc_note(n) + rest) implies ok3 && cat
            == n.category && content@ == n.content && tsu as i64 == n.created_date && p3 == pos
            + enc_note(n).len() by {
            let q1 = enc_cat(n.category);
            let q2 = enc_str(n.content);
            let n3: u64 = n.created_date as u64;
            let q3 = enc_u64(n3 as nat);
            assert((n.created_date as u64) as nat == n.created_date as nat);
            assert(tail == q1 + (q2 + (q3 + rest))) by {
                assert(enc_note(n) + rest =~= q1 + (q2 + (q3 + rest)));
            }
            assert(ok1 && cat == n.category && p1 == pos + 1);
            lemma_tail_split(s@, pos as int, slen as int, q1, q2 + (q3 + rest));
            assert(ok2 && content@ == n.content && p2 == p1 + q2.len());
            lemma_tail_split(s@, p1 as int, slen as int, q2, q3 + rest);
            assert(r3 == Some((n3, (p2 + dec_digits(n3 as nat).len() + 1) as usize)));
            assert(q3.len() == dec_digits(n3 as nat).len() + 1);
            assert(ok3 && tsu == n3 && p3 == p2 + q3.len());
            assert(enc_note(n).len() == 1 + q2.len() + q3.len());
        }
    }
    if ok3 {
        proof {
            lemma_subrange_concat(s@, pos as int, p1 as int, p2 as int);
            lemma_subrange_concat(s@, pos as int, p2 as int, p3 as int);
            assert((tsu as i64) as nat == tsu as nat);
        }
        Some((Note { category: cat, content, created_date: tsu as i64 }, p3))
    } else {
        None
    }
}

fn parse_env(s: &str, pos: usize, slen: usize) -> (r: Option<(EnvVar, usize)>)
    requires
        slen == s@.len(),
        pos <= slen,
    ensures
        (match r {
            Some(v) => pos < v.1 <= slen,
            None => true,
        }),
        forall|e: EnvVarV, rest: Seq<char>|
            s@.subrange(pos as int, slen as int) == #[trigger] (enc_env(e) + rest) ==> (match r {
                Some(v) => v.0@ == e && v.1 == pos + enc_env(e).len(),
                None => false,
            }),
        (match r {
            Some(v) => s@.subrange(pos as int, v.1 as int) == enc_env(v.0@),
            None => true,
        }),
{
    let ghost tail = s@.subrange(pos as int, slen as int);
    let r1 = parse_str(s, pos, slen);
    let ok1: bool;
    let key: String;
    let p1: usize;
    match r1 {
        Some(v) => {
            ok1 = true;
            key = v.0;
            p1 = v.1;
        },
        None => {
            ok1 = false;
            key = String::new();
            p1 = pos;
        },
    }
    let r2 = if ok1 {
        parse_str(s, p1, slen)
    } else {
        None
    };
    let ok2: bool;
    let value: String;
    let p2: usize;
    match r2 {
        Some(v) => {
            ok2 = true;
            value = v.0;
            p2 = v.1;
        },
        None => {
            ok2 = false;
            value = String::new();
            p2 = p1;
        },
    }
    proof {
        assert forall|e: EnvVarV, rest: Seq<char>|
            tail == #[trigger] (enc_env(e) + rest) implies ok2 && key@ == e.key && value@
            == e.value && p2 == pos + enc_env(e).len() by {
            let q1 = enc_str(e.key);
            let q2 = enc_str(e.value);
            assert(tail == q1 + (q2 + rest)) by {
                assert(enc_env(e) + rest =~= q1 + (q2 + rest));
            }
            assert(ok1 && key@ == e.key && p1 == pos + q1.len());
            lemma_tail_split(s@, pos as int, slen as int, q1, q2 + rest);
            assert(ok2 && value@ == e.value && p2 == p1 + q2.len());
        }
    }
    if ok2 {
        proof {
            lemma_subrange_concat(s@, pos as int, p1 as int, p2 as int);
        }
        Some((EnvVar { key, value }, p2))
    } else {
        None
    }
}

proof fn lemma_tags_step(s: Seq<char>, pos: int, slen: int, items: Seq<Seq<char>>, rest: Seq<char>)
    requires
        0 <= pos <= slen <= s.len(),
        items.len() > 0,
        s.subrange(pos, slen) == enc_tags(items) + rest,
    ensures
        s.subrange(pos, slen) == enc_str(items[0]) + (enc_tags(
            items.subrange(1, items.len() as int),
        ) + rest),
{
    lemma_enc_tags_first(items);
    assert((enc_str(items[0]) + enc_tags(items.subrange(1, items.len() as int))) + rest
        =~= enc_str(items[0]) + (enc_tags(items.subrange(1, items.len() as int)) + rest));
}

proof fn lemma_actions_step(s: Seq<char>, pos: int, slen: int, items: Seq<ActionV>, rest: Seq<char>)
    requires
        0 <= pos <= slen <= s.len(),
        items.len() > 0,
        s.subrange(pos, slen) == enc_actions(items) + rest,
    ensures
        s.subrange(pos, slen) == enc_action(items[0]) + (enc_actions(
            items.subrange(1, items.len() as int),
        ) + rest),
{
    lemma_enc_actions_first(items);
    assert((enc_action(items[0]) + enc_actions(items.subrange(1, items.len() as int))) + rest
        =~= enc_action(items[0]) + (enc_actions(items.subrange(1, items.len() as int)) + rest));
}

proof fn lemma_notes_step(s: Seq<char>, pos: int, slen: int, items: Seq<NoteV>, rest: Seq<char>)
    requires
        0 <= pos <= slen <= s.len(),
        items.len() > 0,
        s.subrange(pos, slen) == enc_notes(items) + rest,
    ensures
        s.subrange(pos, slen) == enc_note(items[0]) + (enc_notes(
            items.subrange(1, items.len() as int),
        ) + rest),
{
    lemma_enc_notes_first(items);
    assert((enc_note(items[0]) + enc_notes(items.subrange(1, items.len() as int))) + rest
        =~= enc_note(items[0]) + (enc_notes(items.subrange(1, items.len() as int)) + rest));
}

proof fn lemma_envs_step(s: Seq<char>, pos: int, slen: int, items: Seq<EnvVarV>, rest: Seq<char>)
    requires
        0 <= pos <= slen <= s.len(),
        items.len() > 0,
        s.subrange(pos, slen) == enc_envs(items) + rest,
    ensures
        s.subrange(pos, slen) == enc_env(items[0]) + (enc_envs(
            items.subrange(1, items.len() as int),
        ) + rest),
{
    lemma_enc_envs_first(items);
    assert((enc_env(items[0]) + enc_envs(items.subrange(1, items.len() as int))) + rest
        =~= enc_env(items[0]) + (enc_envs(items.subrange(1, items.len() as int)) + rest));
}

fn parse_tags_list(s: &str, pos: usize, slen: usize, count: u64) -> (r: Option<(Vec<String>, usize)>)
    requires
        slen == s@.len(),
        pos <= slen,
    ensures
        (match r {
            Some(v) => pos <= v.1 <= slen,
            None => true,
        }),
        forall|items: Seq<Seq<char>>, rest: Seq<char>|
            items.len() == count && s@.subrange(pos as int, slen as int) == #[trigger] (enc_tags(
                items,
            ) + rest) ==> (match r {
                Some(v) => v.0@.map_values(|x: String| x@) == items && v.1 == pos + enc_tags(
                    items,
                ).len(),
                None => false,
            }),
        (match r {
            Some(v) => v.0@.len() == count && s@.subrange(pos as int, v.1 as int) == enc_tags(
                v.0@.map_values(|x: String| x@),
            ),
            None => true,
        }),
    decreases count,
{
    let ghost tail = s@.subrange(pos as int, slen as int);
    if count == 0 {
        let out: Vec<String> = Vec::new();
        proof {
            assert(out@.map_values(|x: String| x@) =~= Seq::<Seq<char>>::empty());
            assert(s@.subrange(pos as int, pos as int) =~= Seq::<char>::empty());
            assert(enc_tags(out@.map_values(|x: String| x@)) == Seq::<char>::empty());
        }
        proof {
            assert forall|items: Seq<Seq<char>>, rest: Seq<char>|
                items.len() == count && tail == #[trigger] (enc_tags(items) + rest) implies
                out@.map_values(|x: String| x@) == items by {
                assert(out@.map_values(|x: String| x@) =~= items);
            }
        }
        return Some((out, pos));
    }
    let first = parse_str(s, pos, slen);
    let t0: String;
    let p1: usize;
    match first {
        Some(v) => {
            t0 = v.0;
            p1 = v.1;
        },
        None => {
            proof {
                assert forall|items: Seq<Seq<char>>, rest: Seq<char>|
                    !(items.len() == count && tail == #[trigger] (enc_tags(items) + rest)) by {
                    if items.len() == count && tail == enc_tags(items) + rest {
                        lemma_tags_step(s@, pos as int, slen as int, items, rest);
                    }
                }
            }
            return None;
        },
    }
    let rec = parse_tags_list(s, p1, slen, count - 1);
    match rec {
        Some(w) => {
            let mut out = w.0;
            let p2 = w.1;
            out.insert(0, t0);
            proof {
                let ov = out@.map_values(|x: String| x@);
                let wv = w.0@.map_values(|x: String| x@);
                assert(out@ == w.0@.insert(0, t0));
                assert(ov =~= seq![t0@] + wv) by {
                    assert forall|k: int| 0 <= k < ov.len() implies ov[k] == #[trigger] (seq![
                        t0@,
                    ] + wv)[k] by {
                        if k == 0 {
                            assert(out@[0] == t0);
                        } else {
                            assert(out@[k] == w.0@[k - 1]);
                        }
                    }
                }
                assert(ov[0] == t0@);
                assert(ov.subrange(1, ov.len() as int) =~= wv);
                lemma_enc_tags_first(ov);
                lemma_subrange_concat(s@, pos as int, p1 as int, p2 as int);
                assert(s@.subrange(pos as int, p2 as int) == enc_tags(ov));
            }
            proof {
                assert forall|items: Seq<Seq<char>>, rest: Seq<char>|
                    items.len() == count && tail == #[trigger] (enc_tags(items) + rest) implies
                    out@.map_values(|x: String| x@) == items && p2 == pos + enc_tags(
                    items,
                ).len() by {
                    lemma_tags_step(s@, pos as int, slen as int, items, rest);
                    let items1 = items.subrange(1, items.len() as int);
                    assert(t0@ == items[0] && p1 == pos + enc_str(items[0]).len());
                    lemma_tail_split(
                        s@,
                        pos as int,
                        slen as int,
                        enc_str(items[0]),
                        enc_tags(items1) + rest,
                    );
                    assert(w.0@.map_values(|x: String| x@) == items1);
                    assert(out@.map_values(|x: String| x@) =~= items) by {
                        assert(out@ == w.0@.insert(0, t0));
                        assert forall|k: int| 0 <= k < items.len() implies out@.map_values(
                            |x: String| x@,
                        )[k] == #[trigger] items[k] by {
                            if k == 0 {
                                assert(out@[0] == t0);
                            } else {
                                assert(out@[k] == w.0@[k - 1]);
                                assert(w.0@.map_values(|x: String| x@)[k - 1] == items1[k - 1]);
                            }
                        }
                    }
                    lemma_enc_tags_first(items);
                }
            }
            Some((out, p2))
        },
        None => {
            proof {
                assert forall|items: Seq<Seq<char>>, rest: Seq<char>|
                    !(items.len() == count && tail == #[trigger] (enc_tags(items) + rest)) by {
                    if items.len() == count && tail == enc_tags(items) + rest {
                        lemma_tags_step(s@, pos as int, slen as int, items, rest);
                        let items1 = items.subrange(1, items.len() as int);
                        assert(t0@ == items[0] && p1 == pos + enc_str(items[0]).len());
                        lemma_tail_split(
                            s@,
                            pos as int,
                            slen as int,
                            enc_str(items[0]),
                            enc_tags(items1) + rest,
                        );
                    }
                }
            }
            None
        },
    }
}


fn parse_actions_list(s: &str, pos: usize, slen: usize, count: u64) -> (r: Option<(Vec<Action>, usize)>)
    requires
        slen == s@.len(),
        pos <= slen,
    ensures
        (match r {
            Some(v) => pos <= v.1 <= slen,
            None => true,
        }),
        forall|items: Seq<ActionV>, rest: Seq<char>|
            (forall|k: int| 0 <= k < items.len() ==> crate::model::action_wf(#[trigger] items[k])) && items.len() == count && s@.subrange(pos as int, slen as int) == #[trigger] (enc_actions(
                items,
            ) + rest) ==> (match r {
                Some(v) => v.0@.map_values(|x: Action| x@) == items && v.1 == pos + enc_actions(
                    items,
                ).len(),
                None => false,
            }),
        (match r {
            Some(v) => v.0@.len() == count && s@.subrange(pos as int, v.1 as int) == enc_actions(
                v.0@.map_values(|x: Action| x@),
            ),
            None => true,
        }),
    decreases count,
{
    let ghost tail = s@.subrange(pos as int, slen as int);
    if count == 0 {
        let out: Vec<Action> = Vec::new();
        proof {
            assert(out@.map_values(|x: Action| x@) =~= Seq::<ActionV>::empty());
            assert(s@.subrange(pos as int, pos as int) =~= Seq::<char>::empty());
            assert(enc_actions(out@.map_values(|x: Action| x@)) == Seq::<char>::empty());
        }
        proof {
            assert forall|items: Seq<ActionV>, rest: Seq<char>|
                (forall|k: int| 0 <= k < items.len() ==> crate::model::action_wf(#[trigger] items[k])) && items.len() == count && tail == #[trigger] (enc_actions(items) + rest) implies
                out@.map_values(|x: Action| x@) == items by {
                assert(out@.map_values(|x: Action| x@) =~= items);
            }
        }
        return Some((out, pos));
    }
    let first = parse_action(s, pos, slen);
    let t0: Action;
    let p1: usize;
    match first {
        Some(v) => {
            t0 = v.0;
            p1 = v.1;
        },
        None => {
            proof {
                assert forall|items: Seq<ActionV>, rest: Seq<char>|
                    !((forall|k: int| 0 <= k < items.len() ==> crate::model::action_wf(#[trigger] items[k])) && items.len() == count && tail == #[trigger] (enc_actions(items) + rest)) by {
                    if (forall|k: int| 0 <= k < items.len() ==> crate::model::action_wf(#[trigger] items[k])) && items.len() == count && tail == enc_actions(items) + rest {
                        lemma_actions_step(s@, pos as int, slen as int, items, rest);
                    }
                }
            }
            return None;
        },
    }
    let rec = parse_actions_list(s, p1, slen, count - 1);
    match rec {
        Some(w) => {
            let mut out = w.0;
            let p2 = w.1;
            out.insert(0, t0);
            proof {
                let ov = out@.map_values(|x: Action| x@);
                let wv = w.0@.map_values(|x: Action| x@);
                assert(out@ == w.0@.insert(0, t0));
                assert(ov =~= seq![t0@] + wv) by {
                    assert forall|k: int| 0 <= k < ov.len() implies ov[k] == #[trigger] (seq![
                        t0@,
                    ] + wv)[k] by {
                        if k == 0 {
                            assert(out@[0] == t0);
                        } else {
                            assert(out@[k] == w.0@[k - 1]);
                        }
                    }
                }
                assert(ov[0] == t0@);
                assert(ov.subrange(1, ov.len() as int) =~= wv);
                lemma_enc_actions_first(ov);
                lemma_subrange_concat(s@, pos as int, p1 as int, p2 as int);
                assert(s@.subrange(pos as int, p2 as int) == enc_actions(ov));
            }
            proof {
                assert forall|items: Seq<ActionV>, rest: Seq<char>|
                    (forall|k: int| 0 <= k < items.len() ==> crate::model::action_wf(#[trigger] items[k])) && items.len() == count && tail == #[trigger] (enc_actions(items) + rest) implies
                    out@.map_values(|x: Action| x@) == items && p2 == pos + enc_actions(
                    items,
                ).len() by {
                    lemma_actions_step(s@, pos as int, slen as int, items, rest);
                    let items1 = items.subrange(1, items.len() as int);
                    assert(t0@ == items[0] && p1 == pos + enc_action(items[0]).len());
                    lemma_tail_split(
                        s@,
                        pos as int,
                        slen as int,
                        enc_action(items[0]),
                        enc_actions(items1) + rest,
                    );
                    assert(w.0@.map_values(|x: Action| x@) == items1);
                    assert(out@.map_values(|x: Action| x@) =~= items) by {
                        assert(out@ == w.0@.insert(0, t0));
                        assert forall|k: int| 0 <= k < items.len() implies out@.map_values(
                            |x: Action| x@,
                        )[k] == #[trigger] items[k] by {
                            if k == 0 {
                                assert(out@[0] == t0);
                            } else {
                                assert(out@[k] == w.0@[k - 1]);
                                assert(w.0@.map_values(|x: Action| x@)[k - 1] == items1[k - 1]);
                            }
                        }
                    }
                    lemma_enc_actions_first(items);
                }
            }
            Some((out, p2))
        },
        None => {
            proof {
                assert forall|items: Seq<ActionV>, rest: Seq<char>|
                    !((forall|k: int| 0 <= k < items.len() ==> crate::model::action_wf(#[trigger] items[k])) && items.len() == count && tail == #[trigger] (enc_actions(items) + rest)) by {
                    if (forall|k: int| 0 <= k < items.len() ==> crate::model::action_wf(#[trigger] items[k])) && items.len() == count && tail == enc_actions(items) + rest {
                        lemma_actions_step(s@, pos as int, slen as int, items, rest);
                        let items1 = items.subrange(1, items.len() as int);
                        assert(t0@ == items[0] && p1 == pos + enc_action(items[0]).len());
                        lemma_tail_split(
                            s@,
                            pos as int,
                            slen as int,
                            enc_action(items[0]),
                            enc_actions(items1) + rest,
                        );
                    }
                }
            }
            None
        },
    }
}

fn parse_notes_list(s: &str, pos: usize, slen: usize, count: u64) -> (r: Option<(Vec<Note>, usize)>)
    requires
        slen == s@.len(),
        pos <= slen,
    ensures
        (match r {
            Some(v) => pos <= v.1 <= slen,
            None => true,
        }),
        forall|items: Seq<NoteV>, rest: Seq<char>|
            (forall|k: int| 0 <= k < items.len() ==> crate::model::note_wf(#[trigger] items[k])) && items.len() == count && s@.subrange(pos as int, slen as int) == #[trigger] (enc_notes(
                items,
            ) + rest) ==> (match r {
                Some(v) => v.0@.map_values(|x: Note| x@) == items && v.1 == pos + enc_notes(
                    items,
                ).len(),
                None => false,
            }),
        (match r {
            Some(v) => v.0@.len() == count && s@.subrange(pos as int, v.1 as int) == enc_notes(
                v.0@.map_values(|x: Note| x@),
            ),
            None => true,
        }),
    decreases count,
{
    let ghost tail = s@.subrange(pos as int, slen as int);
    if count == 0 {
        let out: Vec<Note> = Vec::new();
        proof {
            assert(out@.map_values(|x: Note| x@) =~= Seq::<NoteV>::empty());
            assert(s@.subrange(pos as int, pos as int) =~= Seq::<char>::empty());
            assert(enc_notes(out@.map_values(|x: Note| x@)) == Seq::<char>::empty());
        }
        proof {
            assert forall|items: Seq<NoteV>, rest: Seq<char>|
                (forall|k: int| 0 <= k < items.len() ==> crate::model::note_wf(#[trigger] items[k])) && items.len() == count && tail == #[trigger] (enc_notes(items) + rest) implies
                out@.map_values(|x: Note| x@) == items by {
                assert(out@.map_values(|x: Note| x@) =~= items);
            }
        }
        return Some((out, pos));
    }
    let first = parse_note(s, pos, slen);
    let t0: Note;
    let p1: usize;
    match first {
        Some(v) => {
            t0 = v.0;
            p1 = v.1;
        },
        None => {
            proof {
                assert forall|items: Seq<NoteV>, rest: Seq<char>|
                    !((forall|k: int| 0 <= k < items.len() ==> crate::model::note_wf(#[trigger] items[k])) && items.len() == count && tail == #[trigger] (enc_notes(items) + rest)) by {
                    if (forall|k: int| 0 <= k < items.len() ==> crate::model::note_wf(#[trigger] items[k])) && items.len() == count && tail == enc_notes(items) + rest {
                        lemma_notes_step(s@, pos as int, slen as int, items, rest);
                    }
                }
            }
            return None;
        },
    }
    let rec = parse_notes_list(s, p1, slen, count - 1);
    match rec {
        Some(w) => {
            let mut out = w.0;
            let p2 = w.1;
            out.insert(0, t0);
            proof {
                let ov = out@.map_values(|x: Note| x@);
                let wv = w.0@.map_values(|x: Note| x@);
                assert(out@ == w.0@.insert(0, t0));
                assert(ov =~= seq![t0@] + wv) by {
                    assert forall|k: int| 0 <= k < ov.len() implies ov[k] == #[trigger] (seq![
                        t0@,
                    ] + wv)[k] by {
                        if k == 0 {
                            assert(out@[0] == t0);
                        } else {
                            assert(out@[k] == w.0@[k - 1]);
                        }
                    }
                }
                assert(ov[0] == t0@);
                assert(ov.subrange(1, ov.len() as int) =~= wv);
                lemma_enc_notes_first(ov);
                lemma_subrange_concat(s@, pos as int, p1 as int, p2 as int);
                assert(s@.subrange(pos as int, p2 as int) == enc_notes(ov));
            }
            proof {
                assert forall|items: Seq<NoteV>, rest: Seq<char>|
                    (forall|k: int| 0 <= k < items.len() ==> crate::model::note_wf(#[trigger] items[k])) && items.len() == count && tail == #[trigger] (enc_notes(items) + rest) implies
                    out@.map_values(|x: Note| x@) == items && p2 == pos + enc_notes(
                    items,
                ).len() by {
                    lemma_notes_step(s@, pos as int, slen as int, items, rest);
                    let items1 = items.subrange(1, items.len() as int);
                    assert(t0@ == items[0] && p1 == pos + enc_note(items[0]).len());
                    lemma_tail_split(
                        s@,
                        pos as int,
                        slen as int,
                        enc_note(items[0]),
                        enc_notes(items1) + rest,
                    );
                    assert(w.0@.map_values(|x: Note| x@) == items1);
                    assert(out@.map_values(|x: Note| x@) =~= items) by {
                        assert(out@ == w.0@.insert(0, t0));
                        assert forall|k: int| 0 <= k < items.len() implies out@.map_values(
                            |x: Note| x@,
                        )[k] == #[trigger] items[k] by {
                            if k == 0 {
                                assert(out@[0] == t0);
                            } else {
                                assert(out@[k] == w.0@[k - 1]);
                                assert(w.0@.map_values(|x: Note| x@)[k - 1] == items1[k - 1]);
                            }
                        }
                    }
                    lemma_enc_notes_first(items);
                }
            }
            Some((out, p2))
        },
        None => {
            proof {
                assert forall|items: Seq<NoteV>, rest: Seq<char>|
                    !((forall|k: int| 0 <= k < items.len() ==> crate::model::note_wf(#[trigger] items[k])) && items.len() == count && tail == #[trigger] (enc_notes(items) + rest)) by {
                    if (forall|k: int| 0 <= k < items.len() ==> crate::model::note_wf(#[trigger] items[k])) && items.len() == count && tail == enc_notes(items) + rest {
                        lemma_notes_step(s@, pos as int, slen as int, items, rest);
                        let items1 = items.subrange(1, items.len() as int);
                        assert(t0@ == items[0] && p1 == pos + enc_note(items[0]).len());
                        lemma_tail_split(
                            s@,
                            pos as int,
                            slen as int,
                            enc_note(items[0]),
                            enc_notes(items1) + rest,
                        );
                    }
                }
            }
            None
        },
    }
}

fn parse_envs_list(s: &str, pos: usize, slen: usize, count: u64) -> (r: Option<(Vec<EnvVar>, usize)>)
    requires
        slen == s@.len(),
        pos <= slen,
    ensures
        (match r {
            Some(v) => pos <= v.1 <= slen,
            None => true,
        }),
        forall|items: Seq<EnvVarV>, rest: Seq<char>|
            items.len() == count && s@.subrange(pos as int, slen as int) == #[trigger] (enc_envs(
                items,
            ) + rest) ==> (match r {
                Some(v) => v.0@.map_values(|x: EnvVar| x@) == items && v.1 == pos + enc_envs(
                    items,
                ).len(),
                None => false,
            }),
        (match r {
            Some(v) => v.0@.len() == count && s@.subrange(pos as int, v.1 as int) == enc_envs(
                v.0@.map_values(|x: EnvVar| x@),
            ),
            None => true,
        }),
    decreases count,
{
    let ghost tail = s@.subrange(pos as int, slen as int);
    if count == 0 {
        let out: Vec<EnvVar> = Vec::new();
        proof {
            assert(out@.map_values(|x: EnvVar| x@) =~= Seq::<EnvVarV>::empty());
            assert(s@.subrange(pos as int, pos as int) =~= Seq::<char>::empty());
            assert(enc_envs(out@.map_values(|x: EnvVar| x@)) == Seq::<char>::empty());
        }
        proof {
            assert forall|items: Seq<EnvVarV>, rest: Seq<char>|
                items.len() == count && tail == #[trigger] (enc_envs(items) + rest) implies
                out@.map_values(|x: EnvVar| x@) == items by {
                assert(out@.map_values(|x: EnvVar| x@) =~= items);
            }
        }
        return Some((out, pos));
    }
    let first = parse_env(s, pos, slen);
    let t0: EnvVar;
    let p1: usize;
    match first {
        Some(v) => {
            t0 = v.0;
            p1 = v.1;
        },
        None => {
            proof {
                assert forall|items: Seq<EnvVarV>, rest: Seq<char>|
                    !(items.len() == count && tail == #[trigger] (enc_envs(items) + rest)) by {
                    if items.len() == count && tail == enc_envs(items) + rest {
                        lemma_envs_step(s@, pos as int, slen as int, items, rest);
                    }
                }
            }
            return None;
        },
    }
    let rec = parse_envs_list(s, p1, slen, count - 1);
    match rec {
        Some(w) => {
            let mut out = w.0;
            let p2 = w.1;
            out.insert(0, t0);
            proof {
                let ov = out@.map_values(|x: EnvVar| x@);
                let wv = w.0@.map_values(|x: EnvVar| x@);
                assert(out@ == w.0@.insert(0, t0));
                assert(ov =~= seq![t0@] + wv) by {
                    assert forall|k: int| 0 <= k < ov.len() implies ov[k] == #[trigger] (seq![
                        t0@,
                    ] + wv)[k] by {
                        if k == 0 {
                            assert(out@[0] == t0);
                        } else {
                            assert(out@[k] == w.0@[k - 1]);
                        }
                    }
                }
                assert(ov[0] == t0@);
                assert(ov.subrange(1, ov.len() as int) =~= wv);
                lemma_enc_envs_first(ov);
                lemma_subrange_concat(s@, pos as int, p1 as int, p2 as int);
                assert(s@.subrange(pos as int, p2 as int) == enc_envs(ov));
            }
            proof {
                assert forall|items: Seq<EnvVarV>, rest: Seq<char>|
                    items.len() == count && tail == #[trigger] (enc_envs(items) + rest) implies
                    out@.map_values(|x: EnvVar| x@) == items && p2 == pos + enc_envs(
                    items,
                ).len() by {
                    lemma_envs_step(s@, pos as int, slen as int, items, rest);
                    let items1 = items.subrange(1, items.len() as int);
                    assert(t0@ == items[0] && p1 == pos + enc_env(items[0]).len());
                    lemma_tail_split(
                        s@,
                        pos as int,
                        slen as int,
                        enc_env(items[0]),
                        enc_envs(items1) + rest,
                    );
                    assert(w.0@.map_values(|x: EnvVar| x@) == items1);
                    assert(out@.map_values(|x: EnvVar| x@) =~= items) by {
                        assert(out@ == w.0@.insert(0, t0));
                        assert forall|k: int| 0 <= k < items.len() implies out@.map_values(
                            |x: EnvVar| x@,
                        )[k] == #[trigger] items[k] by {
                            if k == 0 {
                                assert(out@[0] == t0);
                            } else {
                                assert(out@[k] == w.0@[k - 1]);
                                assert(w.0@.map_values(|x: EnvVar| x@)[k - 1] == items1[k - 1]);
                            }
                        }
                    }
                    lemma_enc_envs_first(items);
                }
            }
            Some((out, p2))
        },
        None => {
            proof {
                assert forall|items: Seq<EnvVarV>, rest: Seq<char>|
                    !(items.len() == count && tail == #[trigger] (enc_envs(items) + rest)) by {
                    if items.len() == count && tail == enc_envs(items) + rest {
                        lemma_envs_step(s@, pos as int, slen as int, items, rest);
                        let items1 = items.subrange(1, items.len() as int);
                        assert(t0@ == items[0] && p1 == pos + enc_env(items[0]).len());
                        lemma_tail_split(
                            s@,
                            pos as int,
                            slen as int,
                            enc_env(items[0]),
                            enc_envs(items1) + rest,
                        );
                    }
                }
            }
            None
        },
    }
}

proof fn lemma_enc_tags_len(items: Seq<Seq<char>>)
    ensures
        enc_tags(items).len() >= items.len(),
    decreases items.len(),
{
    if items.len() > 0 {
        lemma_enc_tags_len(items.drop_last());
        lemma_dec_digits_shape(items.last().len());
    }
}

proof fn lemma_enc_actions_len(items: Seq<ActionV>)
    ensures
        enc_actions(items).len() >= items.len(),
    decreases items.len(),
{
    if items.len() > 0 {
        lemma_enc_actions_len(items.drop_last());
        lemma_dec_digits_shape((items.last().timestamp as u64) as nat);
        lemma_dec_digits_shape(items.last().timestamp as nat);
    }
}

proof fn lemma_enc_notes_len(items: Seq<NoteV>)
    ensures
        enc_notes(items).len() >= items.len(),
    decreases items.len(),
{
    if items.len() > 0 {
        lemma_enc_notes_len(items.drop_last());
        lemma_dec_digits_shape(items.last().content.len());
    }
}

proof fn lemma_enc_envs_len(items: Seq<EnvVarV>)
    ensures
        enc_envs(items).len() >= items.len(),
    decreases items.len(),
{
    if items.len() > 0 {
        lemma_enc_envs_len(items.drop_last());
        lemma_dec_digits_shape(items.last().key.len());
    }
}


fn parse_quad(s: &str, pos: usize, slen: usize) -> (r: Option<(IpAddrV4, usize)>)
    requires
        slen == s@.len(),
        pos <= slen,
    ensures
        (match r {
            Some(v) => pos < v.1 <= slen,
            None => true,
        }),
        forall|q: IpAddrV4, rest: Seq<char>|
            s@.subrange(pos as int, slen as int) == #[trigger] ((enc_u64(q.a as nat) + (enc_u64(
                q.b as nat,
            ) + (enc_u64(q.c as nat) + enc_u64(q.d as nat)))) + rest) ==> (match r {
                Some(v) => v.0 == q && v.1 == pos + (enc_u64(q.a as nat) + (enc_u64(q.b as nat)
                    + (enc_u64(q.c as nat) + enc_u64(q.d as nat)))).len(),
                None => false,
            }),
        (match r {
            Some(v) => s@.subrange(pos as int, v.1 as int) == enc_u64(v.0.a as nat) + (enc_u64(
                v.0.b as nat,
            ) + (enc_u64(v.0.c as nat) + enc_u64(v.0.d as nat))),
            None => true,
        }),
{
    let ghost tail = s@.subrange(pos as int, slen as int);
    let r1 = parse_u64(s, pos, slen);
    let ok1: bool;
    let oa: u64;
    let p1: usize;
    match r1 {
        Some(v) => {
            ok1 = v.0 <= 255;
            oa = v.0;
            p1 = v.1;
        },
        None => {
            ok1 = false;
            oa = 0;
            p1 = pos;
        },
    }
    let r2 = if ok1 {
        parse_u64(s, p1, slen)
    } else {
        None
    };
    let ok2: bool;
    let ob: u64;
    let p2: usize;
    match r2 {
        Some(v) => {
            ok2 = v.0 <= 255;
            ob = v.0;
            p2 = v.1;
        },
        None => {
            ok2 = false;
            ob = 0;
            p2 = p1;
        },
    }
    let r3 = if ok2 {
        parse_u64(s, p2, slen)
    } else {
        None
    };
    let ok3: bool;
    let oc: u64;
    let p3: usize;
    match r3 {
        Some(v) => {
            ok3 = v.0 <= 255;
            oc = v.0;
            p3 = v.1;
        },
        None => {
            ok3 = false;
            oc = 0;
            p3 = p2;
        },
    }
    let r4 = if ok3 {
        parse_u64(s, p3, slen)
    } else {
        None
    };
    let ok4: bool;
    let od: u64;
    let p4: usize;
    match r4 {
        Some(v) => {
            ok4 = v.0 <= 255;
            od = v.0;
            p4 = v.1;
        },
        None => {
            ok4 = false;
            od = 0;
            p4 = p3;
        },
    }
    proof {
        assert forall|q: IpAddrV4, rest: Seq<char>|
            tail == #[trigger] ((enc_u64(q.a as nat) + (enc_u64(q.b as nat) + (enc_u64(
                q.c as nat,
            ) + enc_u64(q.d as nat)))) + rest) implies ok4 && oa as u8 == q.a && ob as u8 == q.b
            && oc as u8 == q.c && od as u8 == q.d && p4 == pos + (enc_u64(q.a as nat) + (enc_u64(
            q.b as nat,
        ) + (enc_u64(q.c as nat) + enc_u64(q.d as nat)))).len() by {
            let na: u64 = q.a as u64;
            let nb: u64 = q.b as u64;
            let nc: u64 = q.c as u64;
            let nd: u64 = q.d as u64;
            let qa = enc_u64(na as nat);
            let qb = enc_u64(nb as nat);
            let qc = enc_u64(nc as nat);
            let qd = enc_u64(nd as nat);
            assert(tail == qa + (qb + (qc + (qd + rest)))) by {
                assert((qa + (qb + (qc + qd))) + rest =~= qa + (qb + (qc + (qd + rest))));
            }
            assert(tail.len() == slen - pos);
            assert(qa.len() + (qb + (qc + (qd + rest))).len() == slen - pos);
            assert(r1 == Some((na, (pos + dec_digits(na as nat).len() + 1) as usize)));
            assert(qa.len() == dec_digits(na as nat).len() + 1);
            assert(ok1 && oa == na && p1 == pos + qa.len());
            lemma_tail_split(s@, pos as int, slen as int, qa, qb + (qc + (qd + rest)));
            assert(r2 == Some((nb, (p1 + dec_digits(nb as nat).len() + 1) as usize)));
            assert(qb.len() == dec_digits(nb as nat).len() + 1);
            assert(ok2 && ob == nb && p2 == p1 + qb.len());
            lemma_tail_split(s@, p1 as int, slen as int, qb, qc + (qd + rest));
            assert(r3 == Some((nc, (p2 + dec_digits(nc as nat).len() + 1) as usize)));
            assert(qc.len() == dec_digits(nc as nat).len() + 1);
            assert(ok3 && oc == nc && p3 == p2 + qc.len());
            lemma_tail_split(s@, p2 as int, slen as int, qc, qd + rest);
            assert(r4 == Some((nd, (p3 + dec_digits(nd as nat).len() + 1) as usize)));
            assert(qd.len() == dec_digits(nd as nat).len() + 1);
            assert(ok4 && od == nd && p4 == p3 + qd.len());
            assert((qa + (qb + (qc + qd))).len() == qa.len() + qb.len() + qc.len() + qd.len());
        }
    }
    if ok4 {
        proof {
            lemma_subrange_concat(s@, p2 as int, p3 as int, p4 as int);
            lemma_subrange_concat(s@, p1 as int, p2 as int, p4 as int);
            lemma_subrange_concat(s@, pos as int, p1 as int, p4 as int);
            assert((oa as u8) as nat == oa as nat);
            assert((ob as u8) as nat == ob as nat);
            assert((oc as u8) as nat == oc as nat);
            assert((od as u8) as nat == od as nat);
        }
        Some((IpAddrV4 { a: oa as u8, b: ob as u8, c: oc as u8, d: od as u8 }, p4))
    } else {
        None
    }
}

/// Parse an address piece. Where the text at `pos` is the encoding of a
/// well-formed address followed by anything, exactly that address comes
/// back.
fn parse_ip_enc(s: &str, pos: usize, slen: usize) -> (r: Option<(IpAddress, usize)>)
    requires
        slen == s@.len(),
        pos <= slen,
    ensures
        (match r {
            Some(v) => pos < v.1 <= slen,
            None => true,
        }),
        forall|ip: IpAddressV, rest: Seq<char>|
            ip_wf(ip) && s@.subrange(pos as int, slen as int) == #[trigger] (enc_ip(ip) + rest)
                ==> (match r {
                Some(v) => v.0@ == ip && v.1 == pos + enc_ip(ip).len(),
                None => false,
            }),
        (match r {
            Some(v) => s@.subrange(pos as int, v.1 as int) == enc_ip(v.0@),
            None => true,
        }),
{
    let ghost tail = s@.subrange(pos as int, slen as int);
    if pos >= slen {
        proof {
            assert forall|ip: IpAddressV, rest: Seq<char>|
                tail != #[trigger] (enc_ip(ip) + rest) by {
                assert(enc_ip(ip).len() >= 1);
                assert(tail.len() == 0);
            }
        }
        return None;
    }
    let c = s.get_char(pos);
    if c == '4' {
        let inner = parse_quad(s, pos + 1, slen);
        proof {
            assert forall|ip: IpAddressV, rest: Seq<char>|
                ip_wf(ip) && tail == #[trigger] (enc_ip(ip) + rest) implies (ip is V4)
                && s@.subrange(pos + 1, slen as int) == (enc_u64(ip->V4_0.a as nat) + (enc_u64(
                ip->V4_0.b as nat,
            ) + (enc_u64(ip->V4_0.c as nat) + enc_u64(ip->V4_0.d as nat)))) + rest by {
                assert(tail[0] == enc_ip(ip)[0]);
                if ip is V6 {
                    assert(enc_ip(ip)[0] == '6');
                }
                let q = ip->V4_0;
                let body = enc_u64(q.a as nat) + (enc_u64(q.b as nat) + (enc_u64(q.c as nat)
                    + enc_u64(q.d as nat)));
                assert(enc_ip(ip) + rest =~= seq!['4'] + (body + rest));
                lemma_tail_split(s@, pos as int, slen as int, seq!['4'], body + rest);
            }
        }
        match inner {
            Some(v) => {
                proof {
                    lemma_subrange_concat(s@, pos as int, pos + 1, v.1 as int);
                    assert(s@.subrange(pos as int, pos + 1 as int) =~= seq!['4']);
                }
                Some((IpAddress::V4(v.0), v.1))
            },
            None => None,
        }
    } else if c == '6' {
        let inner = parse_str(s, pos + 1, slen);
        let t: String;
        let np: usize;
        match inner {
            Some(v) => {
                t = v.0;
                np = v.1;
            },
            None => {
                proof {
                    assert forall|ip: IpAddressV, rest: Seq<char>|
                        !(ip_wf(ip) && tail == #[trigger] (enc_ip(ip) + rest)) by {
                        if ip_wf(ip) && tail == enc_ip(ip) + rest {
                            assert(tail[0] == enc_ip(ip)[0]);
                            if ip is V4 {
                                assert(enc_ip(ip)[0] == '4');
                            }
                            let tx = ip->V6_0;
                            assert(enc_ip(ip) + rest =~= seq!['6'] + (enc_str(tx) + rest));
                            lemma_tail_split(
                                s@,
                                pos as int,
                                slen as int,
                                seq!['6'],
                                enc_str(tx) + rest,
                            );
                        }
                    }
                }
                return None;
            },
        }
        let valid = check_ipv6(t.as_str());
        proof {
            assert forall|ip: IpAddressV, rest: Seq<char>|
                ip_wf(ip) && tail == #[trigger] (enc_ip(ip) + rest) implies (ip is V6) && valid
                && t@ == ip->V6_0 && np == pos + enc_ip(ip).len() by {
                assert(tail[0] == enc_ip(ip)[0]);
                if ip is V4 {
                    assert(enc_ip(ip)[0] == '4');
                }
                let tx = ip->V6_0;
                assert(enc_ip(ip) + rest =~= seq!['6'] + (enc_str(tx) + rest));
                lemma_tail_split(s@, pos as int, slen as int, seq!['6'], enc_str(tx) + rest);
            }
        }
        if valid {
            proof {
                lemma_subrange_concat(s@, pos as int, pos + 1, np as int);
                assert(s@.subrange(pos as int, pos + 1 as int) =~= seq!['6']);
            }
            Some((IpAddress::V6(t), np))
        } else {
            None
        }
    } else {
        proof {
            assert forall|ip: IpAddressV, rest: Seq<char>|
                tail != #[trigger] (enc_ip(ip) + rest) by {
                if tail == enc_ip(ip) + rest {
                    assert(tail[0] == enc_ip(ip)[0]);
                    if ip is V4 {
                        assert(enc_ip(ip)[0] == '4');
                    } else {
                        assert(enc_ip(ip)[0] == '6');
                    }
                }
            }
        }
        None
    }
}

fn parse_ctags(s: &str, pos: usize, slen: usize) -> (r: Option<(Vec<String>, usize)>)
    requires
        slen == s@.len(),
        pos <= slen,
    ensures
        (match r {
            Some(v) => pos < v.1 <= slen,
            None => true,
        }),
        forall|items: Seq<Seq<char>>, rest: Seq<char>|
            s@.subrange(pos as int, slen as int) == #[trigger] (enc_ctags(items) + rest) ==> (
            match r {
                Some(v) => v.0@.map_values(|x: String| x@) == items && v.1 == pos + enc_ctags(
                    items,
                ).len(),
                None => false,
            }),
        (match r {
            Some(v) => s@.subrange(pos as int, v.1 as int) == enc_ctags(
                v.0@.map_values(|x: String| x@),
            ),
            None => true,
        }),
{
    let ghost tail = s@.subrange(pos as int, slen as int);
    let r1 = parse_u64(s, pos, slen);
    let ok1: bool;
    let count: u64;
    let p1: usize;
    match r1 {
        Some(v) => {
            ok1 = true;
            count = v.0;
            p1 = v.1;
        },
        None => {
            ok1 = false;
            count = 0;
            p1 = pos;
        },
    }
    let r2 = if ok1 {
        parse_tags_list(s, p1, slen, count)
    } else {
        None
    };
    let ok2: bool;
    let out: Vec<String>;
    let p2: usize;
    match r2 {
        Some(v) => {
            ok2 = true;
            out = v.0;
            p2 = v.1;
        },
        None => {
            ok2 = false;
            out = Vec::new();
            p2 = p1;
        },
    }
    proof {
        assert forall|items: Seq<Seq<char>>, rest: Seq<char>|
            tail == #[trigger] (enc_ctags(items) + rest) implies ok2 && out@.map_values(
            |x: String| x@,
        ) == items && p2 == pos + enc_ctags(items).len() by {
            lemma_enc_tags_len(items);
            assert(tail.len() == slen - pos);
            assert(enc_u64(items.len()).len() + (enc_tags(items) + rest).len() == slen - pos);
            assert(items.len() <= slen - pos);
            let n: u64 = items.len() as u64;
            assert(tail == enc_u64(n as nat) + (enc_tags(items) + rest)) by {
                assert(enc_ctags(items) + rest =~= enc_u64(items.len()) + (enc_tags(items) + rest));
            }
            assert(r1 == Some((n, (pos + dec_digits(n as nat).len() + 1) as usize)));
            assert(enc_u64(n as nat).len() == dec_digits(n as nat).len() + 1);
            assert(ok1 && count == n && p1 == pos + enc_u64(n as nat).len());
            lemma_tail_split(s@, pos as int, slen as int, enc_u64(n as nat), enc_tags(items) + rest);
            assert(ok2 && out@.map_values(|x: String| x@) == items && p2 == p1 + enc_tags(items).len());
        }
    }
    if ok2 {
        proof {
            let ov = out@.map_values(|x: String| x@);
            assert(ov.len() == count as nat);
            lemma_subrange_concat(s@, pos as int, p1 as int, p2 as int);
            assert(s@.subrange(pos as int, p2 as int) == enc_ctags(ov)) by {
                assert(enc_ctags(ov) == enc_u64(ov.len()) + enc_tags(ov));
            }
        }
        Some((out, p2))
    } else {
        None
    }
}

fn parse_cactions(s: &str, pos: usize, slen: usize) -> (r: Option<(Vec<Action>, usize)>)
    requires
        slen == s@.len(),
        pos <= slen,
    ensures
        (match r {
            Some(v) => pos < v.1 <= slen,
            None => true,
        }),
        forall|items: Seq<ActionV>, rest: Seq<char>|
            (forall|k: int| 0 <= k < items.len() ==> crate::model::action_wf(#[trigger] items[k])) && s@.subrange(pos as int, slen as int) == #[trigger] (enc_cacts(items) + rest) ==> (
            match r {
                Some(v) => v.0@.map_values(|x: Action| x@) == items && v.1 == pos + enc_cacts(
                    items,
                ).len(),
                None => false,
            }),
        (match r {
            Some(v) => s@.subrange(pos as int, v.1 as int) == enc_cacts(
                v.0@.map_values(|x: Action| x@),
            ),
            None => true,
        }),
{
    let ghost tail = s@.subrange(pos as int, slen as int);
    let r1 = parse_u64(s, pos, slen);
    let ok1: bool;
    let count: u64;
    let p1: usize;
    match r1 {
        Some(v) => {
            ok1 = true;
            count = v.0;
            p1 = v.1;
        },
        None => {
            ok1 = false;
            count = 0;
            p1 = pos;
        },
    }
    let r2 = if ok1 {
        parse_actions_list(s, p1, slen, count)
    } else {
        None
    };
    let ok2: bool;
    let out: Vec<Action>;
    let p2: usize;
    match r2 {
        Some(v) => {
            ok2 = true;
            out = v.0;
            p2 = v.1;
        },
        None => {
            ok2 = false;
            out = Vec::new();
            p2 = p1;
        },
    }
    proof {
        assert forall|items: Seq<ActionV>, rest: Seq<char>|
            (forall|k: int| 0 <= k < items.len() ==> crate::model::action_wf(#[trigger] items[k])) && tail == #[trigger] (enc_cacts(items) + rest) implies ok2 && out@.map_values(
            |x: Action| x@,
        ) == items && p2 == pos + enc_cacts(items).len() by {
            lemma_enc_actions_len(items);
            assert(tail.len() == slen - pos);
            assert(enc_u64(items.len()).len() + (enc_actions(items) + rest).len() == slen - pos);
            assert(items.len() <= slen - pos);
            let n: u64 = items.len() as u64;
            assert(tail == enc_u64(n as nat) + (enc_actions(items) + rest)) by {
                assert(enc_cacts(items) + rest =~= enc_u64(items.len()) + (enc_actions(items) + rest));
            }
            assert(r1 == Some((n, (pos + dec_digits(n as nat).len() + 1) as usize)));
            assert(enc_u64(n as nat).len() == dec_digits(n as nat).len() + 1);
            assert(ok1 && count == n && p1 == pos + enc_u64(n as nat).len());
            lemma_tail_split(s@, pos as int, slen as int, enc_u64(n as nat), enc_actions(items) + rest);
            assert(ok2 && out@.map_values(|x: Action| x@) == items && p2 == p1 + enc_actions(items).len());
        }
    }
    if ok2 {
        proof {
            let ov = out@.map_values(|x: Action| x@);
            assert(ov.len() == count as nat);
            lemma_subrange_concat(s@, pos as int, p1 as int, p2 as int);
            assert(s@.subrange(pos as int, p2 as int) == enc_cacts(ov)) by {
                assert(enc_cacts(ov) == enc_u64(ov.len()) + enc_actions(ov));
            }
        }
        Some((out, p2))
    } else {
        None
    }
}

fn parse_cnotes(s: &str, pos: usize, slen: usize) -> (r: Option<(Vec<Note>, usize)>)
    requires
        slen == s@.len(),
        pos <= slen,
    ensures
        (match r {
            Some(v) => pos < v.1 <= slen,
            None => true,
        }),
        forall|items: Seq<NoteV>, rest: Seq<char>|
            (forall|k: int| 0 <= k < items.len() ==> crate::model::note_wf(#[trigger] items[k])) && s@.subrange(pos as int, slen as int) == #[trigger] (enc_cnotes(items) + rest) ==> (
            match r {
                Some(v) => v.0@.map_values(|x: Note| x@) == items && v.1 == pos + enc_cnotes(
                    items,
                ).len(),
                None => false,
            }),
        (match r {
            Some(v) => s@.subrange(pos as int, v.1 as int) == enc_cnotes(
                v.0@.map_values(|x: Note| x@),
            ),
            None => true,
        }),
{
    let ghost tail = s@.subrange(pos as int, slen as int);
    let r1 = parse_u64(s, pos, slen);
    let ok1: bool;
    let count: u64;
    let p1: usize;
    match r1 {
        Some(v) => {
            ok1 = true;
            count = v.0;
            p1 = v.1;
        },
        None => {
            ok1 = false;
            count = 0;
            p1 = pos;
        },
    }
    let r2 = if ok1 {
        parse_notes_list(s, p1, slen, count)
    } else {
        None
    };
    let ok2: bool;
    let out: Vec<Note>;
    let p2: usize;
    match r2 {
        Some(v) => {
            ok2 = true;
            out = v.0;
            p2 = v.1;
        },
        None => {
            ok2 = false;
            out = Vec::new();
            p2 = p1;
        },
    }
    proof {
        assert forall|items: Seq<NoteV>, rest: Seq<char>|
            (forall|k: int| 0 <= k < items.len() ==> crate::model::note_wf(#[trigger] items[k])) && tail == #[trigger] (enc_cnotes(items) + rest) implies ok2 && out@.map_values(
            |x: Note| x@,
        ) == items && p2 == pos + enc_cnotes(items).len() by {
            lemma_enc_notes_len(items);
            assert(tail.len() == slen - pos);
            assert(enc_u64(items.len()).len() + (enc_notes(items) + rest).len() == slen - pos);
            assert(items.len() <= slen - pos);
            let n: u64 = items.len() as u64;
            assert(tail == enc_u64(n as nat) + (enc_notes(items) + rest)) by {
                assert(enc_cnotes(items) + rest =~= enc_u64(items.len()) + (enc_notes(items) + rest));
            }
            assert(r1 == Some((n, (pos + dec_digits(n as nat).len() + 1) as usize)));
            assert(enc_u64(n as nat).len() == dec_digits(n as nat).len() + 1);
            assert(ok1 && count == n && p1 == pos + enc_u64(n as nat).len());
            lemma_tail_split(s@, pos as int, slen as int, enc_u64(n as nat), enc_notes(items) + rest);
            assert(ok2 && out@.map_values(|x: Note| x@) == items && p2 == p1 + enc_notes(items).len());
        }
    }
    if ok2 {
        proof {
            let ov = out@.map_values(|x: Note| x@);
            assert(ov.len() == count as nat);
            lemma_subrange_concat(s@, pos as int, p1 as int, p2 as int);
            assert(s@.subrange(pos as int, p2 as int) == enc_cnotes(ov)) by {
                assert(enc_cnotes(ov) == enc_u64(ov.len()) + enc_notes(ov));
            }
        }
        Some((out, p2))
    } else {
        None
    }
}

fn parse_cenvs(s: &str, pos: usize, slen: usize) -> (r: Option<(Vec<EnvVar>, usize)>)
    requires
        slen == s@.len(),
        pos <= slen,
    ensures
        (match r {
            Some(v) => pos < v.1 <= slen,
            None => true,
        }),
        forall|items: Seq<EnvVarV>, rest: Seq<char>|
            s@.subrange(pos as int, slen as int) == #[trigger] (enc_cenvs(items) + rest) ==> (
            match r {
                Some(v) => v.0@.map_values(|x: EnvVar| x@) == items && v.1 == pos + enc_cenvs(
                    items,
                ).len(),
                None => false,
            }),
        (match r {
            Some(v) => s@.subrange(pos as int, v.1 as int) == enc_cenvs(
                v.0@.map_values(|x: EnvVar| x@),
            ),
            None => true,
        }),
{
    let ghost tail = s@.subrange(pos as int, slen as int);
    let r1 = parse_u64(s, pos, slen);
    let ok1: bool;
    let count: u64;
    let p1: usize;
    match r1 {
        Some(v) => {
            ok1 = true;
            count = v.0;
            p1 = v.1;
        },
        None => {
            ok1 = false;
            count = 0;
            p1 = pos;
        },
    }
    let r2 = if ok1 {
        parse_envs_list(s, p1, slen, count)
    } else {
        None
    };
    let ok2: bool;
    let out: Vec<EnvVar>;
    let p2: usize;
    match r2 {
        Some(v) => {
            ok2 = true;
            out = v.0;
            p2 = v.1;
        },
        None => {
            ok2 = false;
            out = Vec::new();
            p2 = p1;
        },
    }
    proof {
        assert forall|items: Seq<EnvVarV>, rest: Seq<char>|
            tail == #[trigger] (enc_cenvs(items) + rest) implies ok2 && out@.map_values(
            |x: EnvVar| x@,
        ) == items && p2 == pos + enc_cenvs(items).len() by {
            lemma_enc_envs_len(items);
            assert(tail.len() == slen - pos);
            assert(enc_u64(items.len()).len() + (enc_envs(items) + rest).len() == slen - pos);
            assert(items.len() <= slen - pos);
            let n: u64 = items.len() as u64;
            assert(tail == enc_u64(n as nat) + (enc_envs(items) + rest)) by {
                assert(enc_cenvs(items) + rest =~= enc_u64(items.len()) + (enc_envs(items) + rest));
            }
            assert(r1 == Some((n, (pos + dec_digits(n as nat).len() + 1) as usize)));
            assert(enc_u64(n as nat).len() == dec_digits(n as nat).len() + 1);
            assert(ok1 && count == n && p1 == pos + enc_u64(n as nat).len());
            lemma_tail_split(s@, pos as int, slen as int, enc_u64(n as nat), enc_envs(items) + rest);
            assert(ok2 && out@.map_values(|x: EnvVar| x@) == items && p2 == p1 + enc_envs(items).len());
        }
    }
    if ok2 {
        proof {
            let ov = out@.map_values(|x: EnvVar| x@);
            assert(ov.len() == count as nat);
            lemma_subrange_concat(s@, pos as int, p1 as int, p2 as int);
            assert(s@.subrange(pos as int, p2 as int) == enc_cenvs(ov)) by {
                assert(enc_cenvs(ov) == enc_u64(ov.len()) + enc_envs(ov));
            }
        }
        Some((out, p2))
    } else {
        None
    }
}


/// Parse a box's environment section: a marked counted list, or nothing
/// at all, which denotes an empty mapping.
fn parse_envs_opt(s: &str, pos: usize, slen: usize) -> (r: Option<(Vec<EnvVar>, usize)>)
    requires
        slen == s@.len(),
        pos <= slen,
    ensures
        (match r {
            Some(v) => pos <= v.1 <= slen,
            None => true,
        }),
        forall|items: Seq<EnvVarV>, rest: Seq<char>|
            (rest.len() > 0 ==> rest[0] != 'E') && s@.subrange(pos as int, slen as int)
                == #[trigger] (enc_envs_opt(items) + rest) ==> (match r {
                Some(v) => v.0@.map_values(|x: EnvVar| x@) == items && v.1 == pos + enc_envs_opt(
                    items,
                ).len(),
                None => false,
            }),
        (match r {
            Some(v) => s@.subrange(pos as int, v.1 as int) == enc_envs_opt(
                v.0@.map_values(|x: EnvVar| x@),
            ),
            None => true,
        }),
{
    let ghost tail = s@.subrange(pos as int, slen as int);
    if pos < slen && s.get_char(pos) == 'E' {
        let inner = parse_cenvs(s, pos + 1, slen);
        match inner {
            Some(v) => {
                if v.0.len() == 0 {
                    proof {
                        assert forall|items: Seq<EnvVarV>, rest: Seq<char>|
                            !((rest.len() > 0 ==> rest[0] != 'E') && tail == #[trigger] (
                            enc_envs_opt(items) + rest)) by {
                            if (rest.len() > 0 ==> rest[0] != 'E') && tail == enc_envs_opt(items)
                                + rest {
                                if items.len() == 0 {
                                    assert(tail =~= rest);
                                    assert(rest[0] == 'E');
                                } else {
                                    assert(enc_envs_opt(items) + rest =~= seq!['E'] + (enc_cenvs(
                                        items,
                                    ) + rest));
                                    lemma_tail_split(
                                        s@,
                                        pos as int,
                                        slen as int,
                                        seq!['E'],
                                        enc_cenvs(items) + rest,
                                    );
                                }
                            }
                        }
                    }
                    return None;
                }
                proof {
                    lemma_subrange_concat(s@, pos as int, pos + 1, v.1 as int);
                    assert(s@.subrange(pos as int, pos + 1 as int) =~= seq!['E']);
                    assert(v.0@.map_values(|x: EnvVar| x@).len() > 0);
                    assert forall|items: Seq<EnvVarV>, rest: Seq<char>|
                        (rest.len() > 0 ==> rest[0] != 'E') && tail == #[trigger] (enc_envs_opt(
                            items,
                        ) + rest) implies v.0@.map_values(|x: EnvVar| x@) == items && v.1 == pos
                        + enc_envs_opt(items).len() by {
                        if items.len() == 0 {
                            assert(tail =~= rest);
                            assert(rest[0] == 'E');
                        } else {
                            assert(enc_envs_opt(items) + rest =~= seq!['E'] + (enc_cenvs(items)
                                + rest));
                            lemma_tail_split(
                                s@,
                                pos as int,
                                slen as int,
                                seq!['E'],
                                enc_cenvs(items) + rest,
                            );
                        }
                    }
                }
                Some((v.0, v.1))
            },
            None => {
                proof {
                    assert forall|items: Seq<EnvVarV>, rest: Seq<char>|
                        !((rest.len() > 0 ==> rest[0] != 'E') && tail == #[trigger] (enc_envs_opt(
                            items,
                        ) + rest)) by {
                        if (rest.len() > 0 ==> rest[0] != 'E') && tail == enc_envs_opt(items)
                            + rest {
                            if items.len() == 0 {
                                assert(tail =~= rest);
                                assert(rest[0] == 'E');
                            } else {
                                assert(enc_envs_opt(items) + rest =~= seq!['E'] + (enc_cenvs(
                                    items,
                                ) + rest));
                                lemma_tail_split(
                                    s@,
                                    pos as int,
                                    slen as int,
                                    seq!['E'],
                                    enc_cenvs(items) + rest,
                                );
                            }
                        }
                    }
                }
                None
            },
        }
    } else {
        let out: Vec<EnvVar> = Vec::new();
        proof {
            assert(out@.map_values(|x: EnvVar| x@) =~= Seq::<EnvVarV>::empty());
            assert(s@.subrange(pos as int, pos as int) =~= Seq::<char>::empty());
            assert forall|items: Seq<EnvVarV>, rest: Seq<char>|
                (rest.len() > 0 ==> rest[0] != 'E') && tail == #[trigger] (enc_envs_opt(items)
                    + rest) implies out@.map_values(|x: EnvVar| x@) == items && pos == pos
                + enc_envs_opt(items).len() by {
                if items.len() > 0 {
                    assert(enc_envs_opt(items)[0] == 'E');
                    assert(tail[0] == 'E');
                    assert(tail[0] == s@[pos as int]);
                }
                assert(out@.map_values(|x: EnvVar| x@) =~= items);
            }
        }
        Some((out, pos))
    }
}

/// Piece `k` of a box encoding (1-based).
pub open spec fn box_piece(b: BoxV, k: int) -> Seq<char> {
    if k == 1 {
        enc_u64(b.id as nat)
    } else if k == 2 {
        enc_u64(b.created_date as nat)
    } else if k == 3 {
        enc_u64(b.updated_date as nat)
    } else if k == 4 {
        enc_str(b.title)
    } else if k == 5 {
        enc_str(b.platform)
    } else if k == 6 {
        enc_ip(b.ip_address)
    } else if k == 7 {
        enc_ctags(b.tags)
    } else if k == 8 {
        enc_cacts(b.actions)
    } else if k == 9 {
        enc_cnotes(b.notes)
    } else if k == 10 {
        enc_envs_opt(b.env_vars)
    } else {
        Seq::empty()
    }
}

/// Total length of the first `k` pieces of a box encoding.
pub open spec fn box_pre_len(b: BoxV, k: int) -> int
    decreases k,
{
    if k <= 0 {
        0
    } else {
        box_pre_len(b, k - 1) + box_piece(b, k).len()
    }
}

#[verifier::spinoff_prover]
#[verifier::rlimit(100)]
proof fn lemma_box_chain(s: Seq<char>, pos: int, slen: int, b: BoxV, rest: Seq<char>)
    requires
        0 <= pos <= slen <= s.len(),
        s.subrange(pos, slen) == enc_box(b) + rest,
    ensures
        forall|k: int|
            1 <= k <= 10 ==> s.subrange(pos + box_pre_len(b, k - 1), slen)
                == #[trigger] box_piece(b, k) + s.subrange(pos + box_pre_len(b, k), slen),
        s.subrange(pos + box_pre_len(b, 10), slen) == rest,
        box_pre_len(b, 10) == enc_box(b).len(),
{
    let r10 = box_piece(b, 10) + rest;
    let r9 = box_piece(b, 9) + r10;
    let r8 = box_piece(b, 8) + r9;
    let r7 = box_piece(b, 7) + r8;
    let r6 = box_piece(b, 6) + r7;
    let r5 = box_piece(b, 5) + r6;
    let r4 = box_piece(b, 4) + r5;
    let r3 = box_piece(b, 3) + r4;
    let r2 = box_piece(b, 2) + r3;
    let r1 = box_piece(b, 1) + r2;
    assert(enc_box(b) == enc_u64(b.id as nat) + enc_u64(b.created_date as nat) + enc_u64(b.updated_date as nat) + enc_str(b.title) + enc_str(b.platform) + enc_ip(b.ip_address) + enc_ctags(b.tags) + enc_cacts(b.actions) + enc_cnotes(b.notes) + enc_envs_opt(b.env_vars));
    assert(s.subrange(pos, slen) == (enc_u64(b.id as nat) + enc_u64(b.created_date as nat) + enc_u64(b.updated_date as nat) + enc_str(b.title) + enc_str(b.platform) + enc_ip(b.ip_address) + enc_ctags(b.tags) + enc_cacts(b.actions) + enc_cnotes(b.notes)) + r10) by {
        assert((enc_u64(b.id as nat) + enc_u64(b.created_date as nat) + enc_u64(b.updated_date as nat) + enc_str(b.title) + enc_str(b.platform) + enc_ip(b.ip_address) + enc_ctags(b.tags) + enc_cacts(b.actions) + enc_cnotes(b.notes) + enc_envs_opt(b.env_vars)) + rest =~= (enc_u64(b.id as nat) + enc_u64(b.created_date as nat) + enc_u64(b.updated_date as nat) + enc_str(b.title) + enc_str(b.platform) + enc_ip(b.ip_address) + enc_ctags(b.tags) + enc_cacts(b.actions) + enc_cnotes(b.notes)) + r10);
    }
    assert(s.subrange(pos, slen) == (enc_u64(b.id as nat) + enc_u64(b.created_date as nat) + enc_u64(b.updated_date as nat) + enc_str(b.title) + enc_str(b.platform) + enc_ip(b.ip_address) + enc_ctags(b.tags) + enc_cacts(b.actions)) + r9) by {
        assert((enc_u64(b.id as nat) + enc_u64(b.created_date as nat) + enc_u64(b.updated_date as nat) + enc_str(b.title) + enc_str(b.platform) + enc_ip(b.ip_address) + enc_ctags(b.tags) + enc_cacts(b.actions) + enc_cnotes(b.notes)) + r10 =~= (enc_u64(b.id as nat) + enc_u64(b.created_date as nat) + enc_u64(b.updated_date as nat) + enc_str(b.title) + enc_str(b.platform) + enc_ip(b.ip_address) + enc_ctags(b.tags) + enc_cacts(b.actions)) + r9);
    }
    assert(s.subrange(pos, slen) == (enc_u64(b.id as nat) + enc_u64(b.created_date as nat) + enc_u64(b.updated_date as nat) + enc_str(b.title) + enc_str(b.platform) + enc_ip(b.ip_address) + enc_ctags(b.tags)) + r8) by {
        assert((enc_u64(b.id as nat) + enc_u64(b.created_date as nat) + enc_u64(b.updated_date as nat) + enc_str(b.title) + enc_str(b.platform) + enc_ip(b.ip_address) + enc_ctags(b.tags) + enc_cacts(b.actions)) + r9 =~= (enc_u64(b.id as nat) + enc_u64(b.created_date as nat) + enc_u64(b.updated_date as nat) + enc_str(b.title) + enc_str(b.platform) + enc_ip(b.ip_address) + enc_ctags(b.tags)) + r8);
    }
    assert(s.subrange(pos, slen) == (enc_u64(b.id as nat) + enc_u64(b.created_date as nat) + enc_u64(b.updated_date as nat) + enc_str(b.title) + enc_str(b.platform) + enc_ip(b.ip_address)) + r7) by {
        assert((enc_u64(b.id as nat) + enc_u64(b.created_date as nat) + enc_u64(b.updated_date as nat) + enc_str(b.title) + enc_str(b.platform) + enc_ip(b.ip_address) + enc_ctags(b.tags)) + r8 =~= (enc_u64(b.id as nat) + enc_u64(b.created_date as nat) + enc_u64(b.updated_date as nat) + enc_str(b.title) + enc_str(b.platform) + enc_ip(b.ip_address)) + r7);
    }
    assert(s.subrange(pos, slen) == (enc_u64(b.id as nat) + enc_u64(b.created_date as nat) + enc_u64(b.updated_date as nat) + enc_str(b.title) + enc_str(b.platform)) + r6) by {
        assert((enc_u64(b.id as nat) + enc_u64(b.created_date as nat) + enc_u64(b.updated_date as nat) + enc_str(b.title) + enc_str(b.platform) + enc_ip(b.ip_address)) + r7 =~= (enc_u64(b.id as nat) + enc_u64(b.created_date as nat) + enc_u64(b.updated_date as nat) + enc_str(b.title) + enc_str(b.platform)) + r6);
    }
    assert(s.subrange(pos, slen) == (enc_u64(b.id as nat) + enc_u64(b.created_date as nat) + enc_u64(b.updated_date as nat) + enc_str(b.title)) + r5) by {
        assert((enc_u64(b.id as nat) + enc_u64(b.created_date as nat) + enc_u64(b.updated_date as nat) + enc_str(b.title) + enc_str(b.platform)) + r6 =~= (enc_u64(b.id as nat) + enc_u64(b.created_date as nat) + enc_u64(b.updated_date as nat) + enc_str(b.title)) + r5);
    }
    assert(s.subrange(pos, slen) == (enc_u64(b.id as nat) + enc_u64(b.created_date as nat) + enc_u64(b.updated_date as nat)) + r4) by {
        assert((enc_u64(b.id as nat) + enc_u64(b.created_date as nat) + enc_u64(b.updated_date as nat) + enc_str(b.title)) + r5 =~= (enc_u64(b.id as nat) + enc_u64(b.created_date as nat) + enc_u64(b.updated_date as nat)) + r4);
    }
    assert(s.subrange(pos, slen) == (enc_u64(b.id as nat) + enc_u64(b.created_date as nat)) + r3) by {
        assert((enc_u64(b.id as nat) + enc_u64(b.created_date as nat) + enc_u64(b.updated_date as nat)) + r4 =~= (enc_u64(b.id as nat) + enc_u64(b.created_date as nat)) + r3);
    }
    assert(s.subrange(pos, slen) == (enc_u64(b.id as nat)) + r2) by {
        assert((enc_u64(b.id as nat) + enc_u64(b.created_date as nat)) + r3 =~= (enc_u64(b.id as nat)) + r2);
    }
    assert(s.subrange(pos, slen) == r1);
    assert(pos + box_pre_len(b, 0) == pos);
    assert(s.subrange(pos + box_pre_len(b, 0), slen).len() == slen - (pos + box_pre_len(b, 0)));
    assert(0 <= pos + box_pre_len(b, 0) <= slen);
    lemma_tail_split(s, pos + box_pre_len(b, 0), slen, box_piece(b, 1), r2);
    assert(pos + box_pre_len(b, 1) == pos + box_pre_len(b, 0) + box_piece(b, 1).len());
    assert(s.subrange(pos + box_pre_len(b, 1), slen) == r2);
    assert(s.subrange(pos + box_pre_len(b, 1), slen).len() == slen - (pos + box_pre_len(b, 1)));
    assert(0 <= pos + box_pre_len(b, 1) <= slen);
    lemma_tail_split(s, pos + box_pre_len(b, 1), slen, box_piece(b, 2), r3);
    assert(pos + box_pre_len(b, 2) == pos + box_pre_len(b, 1) + box_piece(b, 2).len());
    assert(s.subrange(pos + box_pre_len(b, 2), slen) == r3);
    assert(s.subrange(pos + box_pre_len(b, 2), slen).len() == slen - (pos + box_pre_len(b, 2)));
    assert(0 <= pos + box_pre_len(b, 2) <= slen);
    lemma_tail_split(s, pos + box_pre_len(b, 2), slen, box_piece(b, 3), r4);
    assert(pos + box_pre_len(b, 3) == pos + box_pre_len(b, 2) + box_piece(b, 3).len());
    assert(s.subrange(pos + box_pre_len(b, 3), slen) == r4);
    assert(s.subrange(pos + box_pre_len(b, 3), slen).len() == slen - (pos + box_pre_len(b, 3)));
    assert(0 <= pos + box_pre_len(b, 3) <= slen);
    lemma_tail_split(s, pos + box_pre_len(b, 3), slen, box_piece(b, 4), r5);
    assert(pos + box_pre_len(b, 4) == pos + box_pre_len(b, 3) + box_piece(b, 4).len());
    assert(s.subrange(pos + box_pre_len(b, 4), slen) == r5);
    assert(s.subrange(pos + box_pre_len(b, 4), slen).len() == slen - (pos + box_pre_len(b, 4)));
    assert(0 <= pos + box_pre_len(b, 4) <= slen);
    lemma_tail_split(s, pos + box_pre_len(b, 4), slen, box_piece(b, 5), r6);
    assert(pos + box_pre_len(b, 5) == pos + box_pre_len(b, 4) + box_piece(b, 5).len());
    assert(s.subrange(pos + box_pre_len(b, 5), slen) == r6);
    assert(s.subrange(pos + box_pre_len(b, 5), slen).len() == slen - (pos + box_pre_len(b, 5)));
    assert(0 <= pos + box_pre_len(b, 5) <= slen);
    lemma_tail_split(s, pos + box_pre_len(b, 5), slen, box_piece(b, 6), r7);
    assert(pos + box_pre_len(b, 6) == pos + box_pre_len(b, 5) + box_piece(b, 6).len());
    assert(s.subrange(pos + box_pre_len(b, 6), slen) == r7);
    assert(s.subrange(pos + box_pre_len(b, 6), slen).len() == slen - (pos + box_pre_len(b, 6)));
    assert(0 <= pos + box_pre_len(b, 6) <= slen);
    lemma_tail_split(s, pos + box_pre_len(b, 6), slen, box_piece(b, 7), r8);
    assert(pos + box_pre_len(b, 7) == pos + box_pre_len(b, 6) + box_piece(b, 7).len());
    assert(s.subrange(pos + box_pre_len(b, 7), slen) == r8);
    assert(s.subrange(pos + box_pre_len(b, 7), slen).len() == slen - (pos + box_pre_len(b, 7)));
    assert(0 <= pos + box_pre_len(b, 7) <= slen);
    lemma_tail_split(s, pos + box_pre_len(b, 7), slen, box_piece(b, 8), r9);
    assert(pos + box_pre_len(b, 8) == pos + box_pre_len(b, 7) + box_piece(b, 8).len());
    assert(s.subrange(pos + box_pre_len(b, 8), slen) == r9);
    assert(s.subrange(pos + box_pre_len(b, 8), slen).len() == slen - (pos + box_pre_len(b, 8)));
    assert(0 <= pos + box_pre_len(b, 8) <= slen);
    lemma_tail_split(s, pos + box_pre_len(b, 8), slen, box_piece(b, 9), r10);
    assert(pos + box_pre_len(b, 9) == pos + box_pre_len(b, 8) + box_piece(b, 9).len());
    assert(s.subrange(pos + box_pre_len(b, 9), slen) == r10);
    assert(s.subrange(pos + box_pre_len(b, 9), slen).len() == slen - (pos + box_pre_len(b, 9)));
    assert(0 <= pos + box_pre_len(b, 9) <= slen);
    lemma_tail_split(s, pos + box_pre_len(b, 9), slen, box_piece(b, 10), rest);
    assert(pos + box_pre_len(b, 10) == pos + box_pre_len(b, 9) + box_piece(b, 10).len());
    assert(box_pre_len(b, 10) == enc_box(b).len()) by {
        assert(enc_box(b).len() == box_piece(b, 1).len() + box_piece(b, 2).len() + box_piece(b, 3).len() + box_piece(b, 4).len() + box_piece(b, 5).len() + box_piece(b, 6).len() + box_piece(b, 7).len() + box_piece(b, 8).len() + box_piece(b, 9).len() + box_piece(b, 10).len());
    }
}

/// Parse one encoded box. Where the text at `pos` is the encoding of
/// a well-formed box followed by anything, exactly that box comes back.
#[verifier::spinoff_prover]
#[verifier::rlimit(100)]
fn parse_box(s: &str, pos: usize, slen: usize) -> (r: Option<(CtfBox, usize)>)
    requires
        slen == s@.len(),
        pos <= slen,
    ensures
        (match r {
            Some(v) => pos < v.1 <= slen,
            None => true,
        }),
        forall|b: BoxV, rest: Seq<char>|
            (rest.len() > 0 ==> rest[0] != 'E') && box_wf(b) && s@.subrange(
                pos as int,
                slen as int,
            ) == #[trigger] (enc_box(b) + rest) ==> (match r {
                Some(v) => v.0@ == b && v.1 == pos + enc_box(b).len(),
                None => false,
            }),
        (match r {
            Some(v) => s@.subrange(pos as int, v.1 as int) == enc_box(v.0@),
            None => true,
        }),
{
    let ghost tail = s@.subrange(pos as int, slen as int);
    let r1 = parse_u64(s, pos, slen);
    let ok1: bool;
    let idu: u64;
    let p1: usize;
    match r1 {
        Some(v) => {
            ok1 = v.0 >= 1 && v.0 <= (i32::MAX as u64);
            idu = v.0;
            p1 = v.1;
        },
        None => {
            ok1 = false;
            idu = 0;
            p1 = pos;
        },
    }
    let r2 = if ok1 {
        parse_u64(s, p1, slen)
    } else {
        None
    };
    let ok2: bool;
    let cru: u64;
    let p2: usize;
    match r2 {
        Some(v) => {
            ok2 = v.0 <= crate::MAX_TS_MS as u64;
            cru = v.0;
            p2 = v.1;
        },
        None => {
            ok2 = false;
            cru = 0;
            p2 = p1;
        },
    }
    let r3 = if ok2 {
        parse_u64(s, p2, slen)
    } else {
        None
    };
    let ok3: bool;
    let upu: u64;
    let p3: usize;
    match r3 {
        Some(v) => {
            ok3 = v.0 <= crate::MAX_TS_MS as u64;
            upu = v.0;
            p3 = v.1;
        },
        None => {
            ok3 = false;
            upu = 0;
            p3 = p2;
        },
    }
    let r4 = if ok3 {
        parse_str(s, p3, slen)
    } else {
        None
    };
    let ok4: bool;
    let title: String;
    let p4: usize;
    match r4 {
        Some(v) => {
            ok4 = true;
            title = v.0;
            p4 = v.1;
        },
        None => {
            ok4 = false;
            title = String::new();
            p4 = p3;
        },
    }
    let r5 = if ok4 {
        parse_str(s, p4, slen)
    } else {
        None
    };
    let ok5: bool;
    let platform: String;
    let p5: usize;
    match r5 {
        Some(v) => {
            ok5 = true;
            platform = v.0;
            p5 = v.1;
        },
        None => {
            ok5 = false;
            platform = String::new();
            p5 = p4;
        },
    }
    let r6 = if ok5 {
        parse_ip_enc(s, p5, slen)
    } else {
        None
    };
    let ok6: bool;
    let ip: IpAddress;
    let p6: usize;
    match r6 {
        Some(v) => {
            ok6 = true;
            ip = v.0;
            p6 = v.1;
        },
        None => {
            ok6 = false;
            ip = IpAddress::V4(IpAddrV4 { a: 0, b: 0, c: 0, d: 0 });
            p6 = p5;
        },
    }
    let r7 = if ok6 {
        parse_ctags(s, p6, slen)
    } else {
        None
    };
    let ok7: bool;
    let tags: Vec<String>;
    let p7: usize;
    match r7 {
        Some(v) => {
            ok7 = true;
            tags = v.0;
            p7 = v.1;
        },
        None => {
            ok7 = false;
            tags = Vec::new();
            p7 = p6;
        },
    }
    let r8 = if ok7 {
        parse_cactions(s, p7, slen)
    } else {
        None
    };
    let ok8: bool;
    let actions: Vec<Action>;
    let p8: usize;
    match r8 {
        Some(v) => {
            ok8 = true;
            actions = v.0;
            p8 = v.1;
        },
        None => {
            ok8 = false;
            actions = Vec::new();
            p8 = p7;
        },
    }
    let r9 = if ok8 {
        parse_cnotes(s, p8, slen)
    } else {
        None
    };
    let ok9: bool;
    let notes: Vec<Note>;
    let p9: usize;
    match r9 {
        Some(v) => {
            ok9 = true;
            notes = v.0;
            p9 = v.1;
        },
        None => {
            ok9 = false;
            notes = Vec::new();
            p9 = p8;
        },
    }
    let r10 = if ok9 {
        parse_envs_opt(s, p9, slen)
    } else {
        None
    };
    let ok10: bool;
    let envs: Vec<EnvVar>;
    let p10: usize;
    match r10 {
        Some(v) => {
            ok10 = true;
            envs = v.0;
            p10 = v.1;
        },
        None => {
            ok10 = false;
            envs = Vec::new();
            p10 = p9;
        },
    }
    proof {
        assert forall|b: BoxV, rest: Seq<char>|
            (rest.len() > 0 ==> rest[0] != 'E') && box_wf(b) && tail == #[trigger] (enc_box(b)
                + rest) implies ok10
            && idu as i32 == b.id && cru as i64 == b.created_date && upu as i64
            == b.updated_date && title@ == b.title && platform@ == b.platform && ip@
            == b.ip_address && tags@.map_values(|x: String| x@) == b.tags
            && actions@.map_values(|x: Action| x@) == b.actions && notes@.map_values(
            |x: Note| x@,
        ) == b.notes && envs@.map_values(|x: EnvVar| x@) == b.env_vars && p10 == pos
            + enc_box(b).len() by {
            lemma_box_chain(s@, pos as int, slen as int, b, rest);
            assert(tail.len() == slen - pos);
            assert(enc_box(b).len() <= slen - pos) by {
                assert(enc_box(b).len() + rest.len() == slen - pos);
            }
            // piece 1
            assert(box_pre_len(b, 1) <= enc_box(b).len()) by {
                assert(enc_box(b).len() == box_pre_len(b, 10));
                assert(box_pre_len(b, 10) == box_pre_len(b, 1) + box_piece(b, 2).len() + box_piece(b, 3).len() + box_piece(b, 4).len() + box_piece(b, 5).len() + box_piece(b, 6).len() + box_piece(b, 7).len() + box_piece(b, 8).len() + box_piece(b, 9).len() + box_piece(b, 10).len());
            }
            let n1: u64 = b.id as u64;
            assert(box_piece(b, 1) == enc_u64(n1 as nat));
            assert(s@.subrange(pos as int, slen as int) == enc_u64(n1 as nat)
                + s@.subrange(pos + box_pre_len(b, 1), slen as int));
            assert(pos + dec_digits(n1 as nat).len() + 1 <= slen) by {
                assert(box_piece(b, 1).len() == dec_digits(n1 as nat).len() + 1);
            }
            assert(r1 == Some(
                (n1, (pos + dec_digits(n1 as nat).len() + 1) as usize),
            ));
            assert(ok1 && idu == n1 && p1 == pos + box_pre_len(b, 1));
            // piece 2
            assert(box_pre_len(b, 2) <= enc_box(b).len()) by {
                assert(enc_box(b).len() == box_pre_len(b, 10));
                assert(box_pre_len(b, 10) == box_pre_len(b, 2) + box_piece(b, 3).len() + box_piece(b, 4).len() + box_piece(b, 5).len() + box_piece(b, 6).len() + box_piece(b, 7).len() + box_piece(b, 8).len() + box_piece(b, 9).len() + box_piece(b, 10).len());
            }
            let n2: u64 = b.created_date as u64;
            assert(box_piece(b, 2) == enc_u64(n2 as nat));
            assert(s@.subrange(p1 as int, slen as int) == enc_u64(n2 as nat)
                + s@.subrange(pos + box_pre_len(b, 2), slen as int));
            assert(p1 + dec_digits(n2 as nat).len() + 1 <= slen) by {
                assert(box_piece(b, 2).len() == dec_digits(n2 as nat).len() + 1);
            }
            assert(r2 == Some(
                (n2, (p1 + dec_digits(n2 as nat).len() + 1) as usize),
            ));
            assert(ok2 && cru == n2 && p2 == pos + box_pre_len(b, 2));
            // piece 3
            assert(box_pre_len(b, 3) <= enc_box(b).len()) by {
                assert(enc_box(b).len() == box_pre_len(b, 10));
                assert(box_pre_len(b, 10) == box_pre_len(b, 3) + box_piece(b, 4).len() + box_piece(b, 5).len() + box_piece(b, 6).len() + box_piece(b, 7).len() + box_piece(b, 8).len() + box_piece(b, 9).len() + box_piece(b, 10).len());
            }
            let n3: u64 = b.updated_date as u64;
            assert(box_piece(b, 3) == enc_u64(n3 as nat));
            assert(s@.subrange(p2 as int, slen as int) == enc_u64(n3 as nat)
                + s@.subrange(pos + box_pre_len(b, 3), slen as int));
            assert(p2 + dec_digits(n3 as nat).len() + 1 <= slen) by {
                assert(box_piece(b, 3).len() == dec_digits(n3 as nat).len() + 1);
            }
            assert(r3 == Some(
                (n3, (p2 + dec_digits(n3 as nat).len() + 1) as usize),
            ));
            assert(ok3 && upu == n3 && p3 == pos + box_pre_len(b, 3));
            // piece 4
            assert(box_pre_len(b, 4) <= enc_box(b).len()) by {
                assert(enc_box(b).len() == box_pre_len(b, 10));
                assert(box_pre_len(b, 10) == box_pre_len(b, 4) + box_piece(b, 5).len() + box_piece(b, 6).len() + box_piece(b, 7).len() + box_piece(b, 8).len() + box_piece(b, 9).len() + box_piece(b, 10).len());
            }
            assert(box_piece(b, 4) == enc_str(b.title));
            assert(s@.subrange(p3 as int, slen as int) == enc_str(b.title)
                + s@.subrange(pos + box_pre_len(b, 4), slen as int));
            assert(ok4 && title@ == b.title && p4 == pos + box_pre_len(b, 4));
            // piece 5
            assert(box_pre_len(b, 5) <= enc_box(b).len()) by {
                assert(enc_box(b).len() == box_pre_len(b, 10));
                assert(box_pre_len(b, 10) == box_pre_len(b, 5) + box_piece(b, 6).len() + box_piece(b, 7).len() + box_piece(b, 8).len() + box_piece(b, 9).len() + box_piece(b, 10).len());
            }
            assert(box_piece(b, 5) == enc_str(b.platform));
            assert(s@.subrange(p4 as int, slen as int) == enc_str(b.platform)
                + s@.subrange(pos + box_pre_len(b, 5), slen as int));
            assert(ok5 && platform@ == b.platform && p5 == pos + box_pre_len(b, 5));
            // piece 6
            assert(box_pre_len(b, 6) <= enc_box(b).len()) by {
                assert(enc_box(b).len() == box_pre_len(b, 10));
                assert(box_pre_len(b, 10) == box_pre_len(b, 6) + box_piece(b, 7).len() + box_piece(b, 8).len() + box_piece(b, 9).len() + box_piece(b, 10).len());
            }
            assert(box_piece(b, 6) == enc_ip(b.ip_address));
            assert(s@.subrange(p5 as int, slen as int) == enc_ip(b.ip_address)
                + s@.subrange(pos + box_pre_len(b, 6), slen as int));
            assert(ok6 && ip@ == b.ip_address && p6 == pos + box_pre_len(b, 6));
            // piece 7
            assert(box_pre_len(b, 7) <= enc_box(b).len()) by {
                assert(enc_box(b).len() == box_pre_len(b, 10));
                assert(box_pre_len(b, 10) == box_pre_len(b, 7) + box_piece(b, 8).len() + box_piece(b, 9).len() + box_piece(b, 10).len());
            }
            assert(box_piece(b, 7) == enc_ctags(b.tags));
            assert(s@.subrange(p6 as int, slen as int) == enc_ctags(b.tags)
                + s@.subrange(pos + box_pre_len(b, 7), slen as int));
            assert(ok7 && tags@.map_values(|x: String| x@) == b.tags && p7 == pos + box_pre_len(b, 7));
            // piece 8
            assert(box_pre_len(b, 8) <= enc_box(b).len()) by {
                assert(enc_box(b).len() == box_pre_len(b, 10));
                assert(box_pre_len(b, 10) == box_pre_len(b, 8) + box_piece(b, 9).len() + box_piece(b, 10).len());
            }
            assert(box_piece(b, 8) == enc_cacts(b.actions));
            assert(s@.subrange(p7 as int, slen as int) == enc_cacts(b.actions)
                + s@.subrange(pos + box_pre_len(b, 8), slen as int));
            assert(ok8 && actions@.map_values(|x: Action| x@) == b.actions && p8 == pos + box_pre_len(b, 8));
            // piece 9
            assert(box_pre_len(b, 9) <= enc_box(b).len()) by {
                assert(enc_box(b).len() == box_pre_len(b, 10));
                assert(box_pre_len(b, 10) == box_pre_len(b, 9) + box_piece(b, 10).len());
            }
            assert(box_piece(b, 9) == enc_cnotes(b.notes));
            assert(s@.subrange(p8 as int, slen as int) == enc_cnotes(b.notes)
                + s@.subrange(pos + box_pre_len(b, 9), slen as int));
            assert(ok9 && notes@.map_values(|x: Note| x@) == b.notes && p9 == pos + box_pre_len(b, 9));
            // piece 10
            assert(box_pre_len(b, 10) <= enc_box(b).len());
            assert(box_piece(b, 10) == enc_envs_opt(b.env_vars));
            assert(s@.subrange(p9 as int, slen as int) == enc_envs_opt(b.env_vars)
                + s@.subrange(pos + box_pre_len(b, 10), slen as int));
            assert(s@.subrange(pos + box_pre_len(b, 10), slen as int) == rest);
            assert(s@.subrange(pos + box_pre_len(b, 10), slen as int).len() > 0 ==> s@.subrange(
                pos + box_pre_len(b, 10),
                slen as int,
            )[0] != 'E');
            assert(ok10 && envs@.map_values(|x: EnvVar| x@) == b.env_vars && p10 == pos + box_pre_len(b, 10));
        }
    }
    if ok10 {
        proof {
            lemma_subrange_concat(s@, pos as int, p1 as int, p2 as int);
            lemma_subrange_concat(s@, pos as int, p2 as int, p3 as int);
            lemma_subrange_concat(s@, pos as int, p3 as int, p4 as int);
            lemma_subrange_concat(s@, pos as int, p4 as int, p5 as int);
            lemma_subrange_concat(s@, pos as int, p5 as int, p6 as int);
            lemma_subrange_concat(s@, pos as int, p6 as int, p7 as int);
            lemma_subrange_concat(s@, pos as int, p7 as int, p8 as int);
            lemma_subrange_concat(s@, pos as int, p8 as int, p9 as int);
            lemma_subrange_concat(s@, pos as int, p9 as int, p10 as int);
            assert((idu as i32) as nat == idu as nat);
            assert((cru as i64) as nat == cru as nat);
            assert((upu as i64) as nat == upu as nat);
        }
        Some(
            (
                CtfBox {
                    id: idu as i32,
                    title,
                    platform,
                    ip_address: ip,
                    tags,
                    created_date: cru as i64,
                    updated_date: upu as i64,
                    actions,
                    notes,
                    env_vars: envs,
                },
                p10,
            ),
        )
    } else {
        None
    }
}


proof fn lemma_boxes_step(s: Seq<char>, pos: int, slen: int, items: Seq<BoxV>, rest: Seq<char>)
    requires
        0 <= pos <= slen <= s.len(),
        items.len() > 0,
        s.subrange(pos, slen) == enc_boxes(items) + rest,
    ensures
        s.subrange(pos, slen) == enc_box(items[0]) + (enc_boxes(
            items.subrange(1, items.len() as int),
        ) + rest),
{
    lemma_enc_boxes_first(items);
    assert((enc_box(items[0]) + enc_boxes(items.subrange(1, items.len() as int))) + rest
        =~= enc_box(items[0]) + (enc_boxes(items.subrange(1, items.len() as int)) + rest));
}

proof fn lemma_enc_boxes_len(items: Seq<BoxV>)
    ensures
        enc_boxes(items).len() >= items.len(),
    decreases items.len(),
{
    if items.len() > 0 {
        lemma_enc_boxes_len(items.drop_last());
        lemma_dec_digits_shape(items.last().id as nat);
    }
}

#[verifier::spinoff_prover]
/// A box encoding opens with a decimal digit, never the env marker.
proof fn lemma_enc_box_head(b: BoxV)
    ensures
        enc_box(b).len() >= 1,
        enc_box(b)[0] != 'E',
{
    lemma_dec_digits_shape(b.id as nat);
    assert(enc_u64(b.id as nat)[0] == dec_digits(b.id as nat)[0]);
    assert(enc_box(b)[0] == enc_u64(b.id as nat)[0]);
    assert(is_digit_char(enc_box(b)[0]));
}

#[verifier::spinoff_prover]
#[verifier::rlimit(100)]
fn parse_boxes_list(s: &str, pos: usize, slen: usize, count: u64) -> (r: Option<(Vec<CtfBox>, usize)>)
    requires
        slen == s@.len(),
        pos <= slen,
    ensures
        (match r {
            Some(v) => pos <= v.1 <= slen,
            None => true,
        }),
        forall|items: Seq<BoxV>, rest: Seq<char>|
            (rest.len() > 0 ==> rest[0] != 'E') && (forall|k: int|
                0 <= k < items.len() ==> box_wf(#[trigger] items[k])) && items.len() == count
                && s@.subrange(pos as int, slen as int) == #[trigger] (enc_boxes(items) + rest)
                ==> (match r {
                Some(v) => v.0@.map_values(|x: CtfBox| x@) == items && v.1 == pos + enc_boxes(
                    items,
                ).len(),
                None => false,
            }),
        (match r {
            Some(v) => v.0@.len() == count && s@.subrange(pos as int, v.1 as int) == enc_boxes(
                v.0@.map_values(|x: CtfBox| x@),
            ),
            None => true,
        }),
    decreases count,
{
    let ghost tail = s@.subrange(pos as int, slen as int);
    if count == 0 {
        let out: Vec<CtfBox> = Vec::new();
        proof {
            assert(out@.map_values(|x: CtfBox| x@) =~= Seq::<BoxV>::empty());
            assert(s@.subrange(pos as int, pos as int) =~= Seq::<char>::empty());
            assert(enc_boxes(out@.map_values(|x: CtfBox| x@)) == Seq::<char>::empty());
            assert forall|items: Seq<BoxV>, rest: Seq<char>|
                (rest.len() > 0 ==> rest[0] != 'E') && (forall|k: int|
                    0 <= k < items.len() ==> box_wf(#[trigger] items[k])) && items.len() == count
                    && tail == #[trigger] (enc_boxes(items) + rest) implies out@.map_values(
                |x: CtfBox| x@,
            ) == items by {
                assert(out@.map_values(|x: CtfBox| x@) =~= items);
            }
        }
        return Some((out, pos));
    }
    let first = parse_box(s, pos, slen);
    let t0: CtfBox;
    let p1: usize;
    match first {
        Some(v) => {
            t0 = v.0;
            p1 = v.1;
        },
        None => {
            proof {
                assert forall|items: Seq<BoxV>, rest: Seq<char>|
                    !((rest.len() > 0 ==> rest[0] != 'E') && (forall|k: int|
                        0 <= k < items.len() ==> box_wf(#[trigger] items[k])) && items.len()
                        == count && tail == #[trigger] (enc_boxes(items) + rest)) by {
                    if (rest.len() > 0 ==> rest[0] != 'E') && (forall|k: int|
                        0 <= k < items.len() ==> box_wf(#[trigger] items[k])) && items.len()
                        == count && tail == enc_boxes(items) + rest {
                        lemma_boxes_step(s@, pos as int, slen as int, items, rest);
                        let items1 = items.subrange(1, items.len() as int);
                        assert((enc_boxes(items1) + rest).len() > 0 ==> (enc_boxes(items1)
                            + rest)[0] != 'E') by {
                            if items1.len() > 0 {
                                lemma_enc_boxes_first(items1);
                                lemma_enc_box_head(items1[0]);
                                assert((enc_boxes(items1) + rest)[0] == (enc_box(items1[0])
                                    + enc_boxes(
                                    items1.subrange(1, items1.len() as int),
                                ))[0]);
                            } else {
                                assert(enc_boxes(items1) =~= Seq::<char>::empty());
                                assert((enc_boxes(items1) + rest) =~= rest);
                            }
                        }
                    }
                }
            }
            return None;
        },
    }
    let rec = parse_boxes_list(s, p1, slen, count - 1);
    match rec {
        Some(w) => {
            let mut out = w.0;
            let p2 = w.1;
            out.insert(0, t0);
            proof {
                let ov = out@.map_values(|x: CtfBox| x@);
                let wv = w.0@.map_values(|x: CtfBox| x@);
                assert(out@ == w.0@.insert(0, t0));
                assert(ov =~= seq![t0@] + wv) by {
                    assert forall|k: int| 0 <= k < ov.len() implies ov[k] == #[trigger] (seq![
                        t0@,
                    ] + wv)[k] by {
                        if k == 0 {
                            assert(out@[0] == t0);
                        } else {
                            assert(out@[k] == w.0@[k - 1]);
                        }
                    }
                }
                assert(ov[0] == t0@);
                assert(ov.subrange(1, ov.len() as int) =~= wv);
                lemma_enc_boxes_first(ov);
                lemma_subrange_concat(s@, pos as int, p1 as int, p2 as int);
                assert(s@.subrange(pos as int, p2 as int) == enc_boxes(ov));
                assert forall|items: Seq<BoxV>, rest: Seq<char>|
                    (rest.len() > 0 ==> rest[0] != 'E') && (forall|k: int|
                        0 <= k < items.len() ==> box_wf(#[trigger] items[k])) && items.len()
                        == count && tail == #[trigger] (enc_boxes(items) + rest) implies
                    out@.map_values(|x: CtfBox| x@) == items && p2 == pos + enc_boxes(
                    items,
                ).len() by {
                    lemma_boxes_step(s@, pos as int, slen as int, items, rest);
                        let items1 = items.subrange(1, items.len() as int);
                        assert((enc_boxes(items1) + rest).len() > 0 ==> (enc_boxes(items1)
                            + rest)[0] != 'E') by {
                            if items1.len() > 0 {
                                lemma_enc_boxes_first(items1);
                                lemma_enc_box_head(items1[0]);
                                assert((enc_boxes(items1) + rest)[0] == (enc_box(items1[0])
                                    + enc_boxes(
                                    items1.subrange(1, items1.len() as int),
                                ))[0]);
                            } else {
                                assert(enc_boxes(items1) =~= Seq::<char>::empty());
                                assert((enc_boxes(items1) + rest) =~= rest);
                            }
                        }
                    assert(t0@ == items[0] && p1 == pos + enc_box(items[0]).len());
                    lemma_tail_split(
                        s@,
                        pos as int,
                        slen as int,
                        enc_box(items[0]),
                        enc_boxes(items1) + rest,
                    );
                    assert(w.0@.map_values(|x: CtfBox| x@) == items1);
                    assert(out@.map_values(|x: CtfBox| x@) =~= items) by {
                        assert(out@ == w.0@.insert(0, t0));
                        assert forall|k: int| 0 <= k < items.len() implies out@.map_values(
                            |x: CtfBox| x@,
                        )[k] == #[trigger] items[k] by {
                            if k == 0 {
                                assert(out@[0] == t0);
                            } else {
                                assert(out@[k] == w.0@[k - 1]);
                                assert(w.0@.map_values(|x: CtfBox| x@)[k - 1] == items1[k - 1]);
                            }
                        }
                    }
                    lemma_enc_boxes_first(items);
                }
            }
            Some((out, p2))
        },
        None => {
            proof {
                assert forall|items: Seq<BoxV>, rest: Seq<char>|
                    !((rest.len() > 0 ==> rest[0] != 'E') && (forall|k: int|
                        0 <= k < items.len() ==> box_wf(#[trigger] items[k])) && items.len()
                        == count && tail == #[trigger] (enc_boxes(items) + rest)) by {
                    if (rest.len() > 0 ==> rest[0] != 'E') && (forall|k: int|
                        0 <= k < items.len() ==> box_wf(#[trigger] items[k])) && items.len()
                        == count && tail == enc_boxes(items) + rest {
                        lemma_boxes_step(s@, pos as int, slen as int, items, rest);
                        let items1 = items.subrange(1, items.len() as int);
                        assert((enc_boxes(items1) + rest).len() > 0 ==> (enc_boxes(items1)
                            + rest)[0] != 'E') by {
                            if items1.len() > 0 {
                                lemma_enc_boxes_first(items1);
                                lemma_enc_box_head(items1[0]);
                                assert((enc_boxes(items1) + rest)[0] == (enc_box(items1[0])
                                    + enc_boxes(
                                    items1.subrange(1, items1.len() as int),
                                ))[0]);
                            } else {
                                assert(enc_boxes(items1) =~= Seq::<char>::empty());
                                assert((enc_boxes(items1) + rest) =~= rest);
                            }
                        }
                        assert(t0@ == items[0] && p1 == pos + enc_box(items[0]).len());
                        lemma_tail_split(
                            s@,
                            pos as int,
                            slen as int,
                            enc_box(items[0]),
                            enc_boxes(items1) + rest,
                        );
                    }
                }
            }
            None
        },
    }
}

fn check_note_wf(n: &Note) -> (r: bool)
    ensures
        r == crate::model::note_wf(n@),
{
    if !(0 <= n.created_date && n.created_date <= crate::MAX_TS_MS) {
        return false;
    }
    let t = crate::text::trim_str(n.content.as_str());
    if !t.eq(&n.content) {
        return false;
    }
    n.content.as_str().unicode_len() > 0
}

fn check_tag_wf(t: &String) -> (r: bool)
    ensures
        r == crate::model::tag_wf(t@),
{
    let tt = crate::text::trim_str(t.as_str());
    if !tt.eq(t) {
        return false;
    }
    t.as_str().unicode_len() > 0
}

fn check_env_distinct(env: &Vec<EnvVar>) -> (r: bool)
    ensures
        r == crate::model::env_wf(env@.map_values(|e: EnvVar| e@)),
{
    let ghost ev = env@.map_values(|e: EnvVar| e@);
    let n = env.len();
    let mut i: usize = 0;
    while i < n
        invariant
            0 <= i <= n,
            n == env@.len(),
            ev == env@.map_values(|e: EnvVar| e@),
            forall|a: int, b: int| 0 <= a < b < ev.len() && a < i ==> ev[a].key != ev[b].key,
        decreases n - i,
    {
        let mut j: usize = i + 1;
        while j < n
            invariant
                0 <= i < j <= n,
                n == env@.len(),
                ev == env@.map_values(|e: EnvVar| e@),
                forall|b: int| i < b < j ==> ev[i as int].key != ev[b].key,
            decreases n - j,
        {
            if env[i].key.eq(&env[j].key) {
                proof {
                    assert(ev[i as int].key == ev[j as int].key);
                    assert(!crate::model::env_wf(ev));
                }
                return false;
            }
            j = j + 1;
        }
        i = i + 1;
    }
    true
}

/// Does a box satisfy the model's well-formedness conditions?
pub fn check_box_wf(b: &CtfBox) -> (r: bool)
    ensures
        r == box_wf(b@),
{
    if b.id < 1 {
        return false;
    }
    if !(0 <= b.created_date && b.created_date <= crate::MAX_TS_MS) {
        return false;
    }
    if !(0 <= b.updated_date && b.updated_date <= crate::MAX_TS_MS) {
        return false;
    }
    let mut i: usize = 0;
    while i < b.actions.len()
        invariant
            0 <= i <= b.actions@.len(),
            forall|k: int|
                0 <= k < i ==> crate::model::action_wf(#[trigger] b@.actions[k]),
        decreases b.actions@.len() - i,
    {
        if !(0 <= b.actions[i].timestamp && b.actions[i].timestamp <= crate::MAX_TS_MS) {
            proof {
                assert(!crate::model::action_wf(b@.actions[i as int]));
            }
            return false;
        }
        i = i + 1;
    }
    let mut i: usize = 0;
    while i < b.notes.len()
        invariant
            0 <= i <= b.notes@.len(),
            forall|k: int| 0 <= k < i ==> crate::model::note_wf(#[trigger] b@.notes[k]),
        decreases b.notes@.len() - i,
    {
        if !check_note_wf(&b.notes[i]) {
            proof {
                assert(!crate::model::note_wf(b@.notes[i as int]));
            }
            return false;
        }
        i = i + 1;
    }
    let mut i: usize = 0;
    while i < b.tags.len()
        invariant
            0 <= i <= b.tags@.len(),
            forall|k: int| 0 <= k < i ==> crate::model::tag_wf(#[trigger] b@.tags[k]),
        decreases b.tags@.len() - i,
    {
        if !check_tag_wf(&b.tags[i]) {
            proof {
                assert(!crate::model::tag_wf(b@.tags[i as int]));
            }
            return false;
        }
        i = i + 1;
    }
    let ip_ok = match &b.ip_address {
        IpAddress::V4(_) => true,
        IpAddress::V6(t) => check_ipv6(t.as_str()),
    };
    if !ip_ok {
        proof {
            assert(!ip_wf(b@.ip_address));
        }
        return false;
    }
    check_env_distinct(&b.env_vars)
}

/// Does a whole collection satisfy the model's conditions: each box
/// well-formed and all ids distinct?
pub fn check_boxes_wf(boxes: &Vec<CtfBox>) -> (r: bool)
    ensures
        r == boxes_wf(boxes@.map_values(|b: CtfBox| b@)),
{
    let ghost bs = boxes@.map_values(|b: CtfBox| b@);
    let n = boxes.len();
    let mut i: usize = 0;
    while i < n
        invariant
            0 <= i <= n,
            n == boxes@.len(),
            bs == boxes@.map_values(|b: CtfBox| b@),
            forall|k: int| 0 <= k < i ==> box_wf(#[trigger] bs[k]),
        decreases n - i,
    {
        if !check_box_wf(&boxes[i]) {
            proof {
                assert(!box_wf(bs[i as int]));
                assert(!boxes_wf(bs));
            }
            return false;
        }
        i = i + 1;
    }
    let mut i: usize = 0;
    while i < n
        invariant
            0 <= i <= n,
            n == boxes@.len(),
            bs == boxes@.map_values(|b: CtfBox| b@),
            forall|k: int| 0 <= k < bs.len() ==> box_wf(#[trigger] bs[k]),
            forall|a: int, b: int| 0 <= a < b < bs.len() && a < i ==> bs[a].id != bs[b].id,
        decreases n - i,
    {
        let mut j: usize = i + 1;
        while j < n
            invariant
                0 <= i < j <= n,
                n == boxes@.len(),
                bs == boxes@.map_values(|b: CtfBox| b@),
                forall|b: int| i < b < j ==> bs[i as int].id != bs[b].id,
            decreases n - j,
        {
            if boxes[i].id == boxes[j].id {
                proof {
                    assert(bs[i as int].id == bs[j as int].id);
                    assert(!boxes_wf(bs));
                }
                return false;
            }
            j = j + 1;
        }
        i = i + 1;
    }
    true
}

/// Decode a stored document. Decoding inverts encoding both ways: the
/// encoding of any well-formed collection decodes to exactly that
/// collection, and whatever decodes is well-formed and re-encodes to the
/// very document text; anything else is a corrupt store.
pub fn decode_boxes(s: &str) -> (r: Result<Vec<CtfBox>, StoreError>)
    ensures
        (match r {
            Ok(v) => boxes_wf(v@.map_values(|b: CtfBox| b@)) && s@ == encode_spec(
                v@.map_values(|b: CtfBox| b@),
            ),
            Err(_) => true,
        }),
        forall|c: Seq<BoxV>|
            boxes_wf(c) && s@ == #[trigger] encode_spec(c) ==> (match r {
                Ok(v) => v@.map_values(|b: CtfBox| b@) == c,
                Err(_) => false,
            }),
{
    let slen = s.unicode_len();
    let r1 = parse_u64(s, 0, slen);
    let ok1: bool;
    let count: u64;
    let p1: usize;
    match r1 {
        Some(v) => {
            ok1 = true;
            count = v.0;
            p1 = v.1;
        },
        None => {
            ok1 = false;
            count = 0;
            p1 = 0;
        },
    }
    let r2 = if ok1 {
        parse_boxes_list(s, p1, slen, count)
    } else {
        None
    };
    let ok2: bool;
    let out: Vec<CtfBox>;
    let p2: usize;
    match r2 {
        Some(v) => {
            ok2 = true;
            out = v.0;
            p2 = v.1;
        },
        None => {
            ok2 = false;
            out = Vec::new();
            p2 = p1;
        },
    }
    let complete = ok2 && p2 == slen;
    let sane = complete && check_boxes_wf(&out);
    proof {
        if sane {
            let ov = out@.map_values(|b: CtfBox| b@);
            lemma_subrange_concat(s@, 0, p1 as int, slen as int);
            assert(s@.subrange(0, slen as int) =~= s@);
            assert(ov.len() == count as nat);
            assert(s@ == encode_spec(ov)) by {
                assert(encode_spec(ov) == enc_u64(ov.len()) + enc_boxes(ov));
            }
        }
    }
    proof {
        assert forall|c: Seq<BoxV>| boxes_wf(c) && s@ == #[trigger] encode_spec(c) implies sane
            && out@.map_values(|b: CtfBox| b@) == c by {
            let tail0 = s@.subrange(0, slen as int);
            assert(tail0 =~= s@);
            lemma_enc_boxes_len(c);
            assert(s@.len() == enc_u64(c.len()).len() + enc_boxes(c).len());
            assert(c.len() <= slen);
            let n: u64 = c.len() as u64;
            assert(tail0 == enc_u64(n as nat) + enc_boxes(c)) by {
                assert(enc_u64(c.len()) + enc_boxes(c) =~= s@);
            }
            assert(r1 == Some((n, (0 + dec_digits(n as nat).len() + 1) as usize)));
            assert(enc_u64(n as nat).len() == dec_digits(n as nat).len() + 1);
            assert(ok1 && count == n && p1 == enc_u64(n as nat).len());
            lemma_tail_split(s@, 0, slen as int, enc_u64(n as nat), enc_boxes(c));
            assert(s@.subrange(p1 as int, slen as int) == enc_boxes(c) + Seq::<char>::empty())
                by {
                assert(enc_boxes(c) + Seq::<char>::empty() =~= enc_boxes(c));
            }
            assert(ok2 && out@.map_values(|b: CtfBox| b@) == c && p2 == p1 + enc_boxes(c).len());
            assert(p2 == slen);
        }
    }
    if sane {
        Ok(out)
    } else {
        Err(StoreError::CorruptStore)
    }
}


fn push_u64(out: &mut String, n: u64)
    ensures
        final(out)@ == old(out)@ + enc_u64(n as nat),
{
    proof {
        reveal_strlit(";");
    }
    let d = crate::num::fmt_u64(n);
    out.append(d.as_str());
    out.append(";");
    proof {
        assert(";"@ =~= seq![';']);
        assert(out@ =~= old(out)@ + enc_u64(n as nat));
    }
}

fn push_str_enc(out: &mut String, t: &String)
    ensures
        final(out)@ == old(out)@ + enc_str(t@),
{
    push_u64(out, t.as_str().unicode_len() as u64);
    out.append(t.as_str());
    proof {
        assert(out@ =~= old(out)@ + enc_str(t@));
    }
}

fn push_opt_str(out: &mut String, o: &Option<String>)
    ensures
        final(out)@ == old(out)@ + enc_opt_str(
            match *o {
                Some(ref t) => Some(t@),
                None => None,
            },
        ),
{
    match o {
        None => {
            proof {
                reveal_strlit("N");
            }
            out.append("N");
            proof {
                assert("N"@ =~= seq!['N']);
                assert(out@ =~= old(out)@ + seq!['N']);
            }
        },
        Some(t) => {
            proof {
                reveal_strlit("V");
            }
            out.append("V");
            push_str_enc(out, t);
            proof {
                assert("V"@ =~= seq!['V']);
                assert(out@ =~= old(out)@ + (seq!['V'] + enc_str(t@)));
            }
        },
    }
}

fn push_result(out: &mut String, x: &ActionResult)
    ensures
        final(out)@ == old(out)@ + enc_result(*x),
{
    proof {
        reveal_strlit("S");
        reveal_strlit("F");
        reveal_strlit("U");
    }
    match x {
        ActionResult::Success => out.append("S"),
        ActionResult::Fail => out.append("F"),
        ActionResult::Unknown => out.append("U"),
    }
    proof {
        assert(out@ =~= old(out)@ + enc_result(*x));
    }
}

fn push_cat(out: &mut String, c: &NoteCategory)
    ensures
        final(out)@ == old(out)@ + enc_cat(*c),
{
    let d: u64 = match c {
        NoteCategory::Recon => 0,
        NoteCategory::Foothold => 1,
        NoteCategory::Privesc => 2,
        NoteCategory::Web => 3,
        NoteCategory::Pwn => 4,
        NoteCategory::Crypto => 5,
        NoteCategory::Reversing => 6,
        NoteCategory::Stego => 7,
        NoteCategory::Misc => 8,
    };
    out.append(crate::num::digit_str(d));
    proof {
        assert(out@ =~= old(out)@ + enc_cat(*c));
    }
}

fn push_action(out: &mut String, a: &Action)
    requires
        crate::model::action_wf(a@),
    ensures
        final(out)@ == old(out)@ + enc_action(a@),
{
    let ghost base = out@;
    push_u64(out, a.timestamp as u64);
    proof {
        assert((a.timestamp as u64) as nat == a@.timestamp as nat);
    }
    push_str_enc(out, &a.command);
    proof {
        assert(out@ =~= base + (enc_u64(a@.timestamp as nat) + enc_str(a@.command)));
    }
    push_result(out, &a.result);
    proof {
        assert(out@ =~= base + (enc_u64(a@.timestamp as nat) + enc_str(a@.command) + enc_result(
            a@.result,
        )));
    }
    push_opt_str(out, &a.note);
    proof {
        assert(out@ =~= base + (enc_u64(a@.timestamp as nat) + enc_str(a@.command) + enc_result(
            a@.result,
        ) + enc_opt_str(a@.note)));
    }
    push_opt_str(out, &a.output);
    proof {
        assert(out@ =~= base + enc_action(a@));
    }
}

fn push_note(out: &mut String, n: &Note)
    requires
        crate::model::note_wf(n@),
    ensures
        final(out)@ == old(out)@ + enc_note(n@),
{
    let ghost base = out@;
    push_cat(out, &n.category);
    push_str_enc(out, &n.content);
    proof {
        assert(out@ =~= base + (enc_cat(n@.category) + enc_str(n@.content)));
    }
    push_u64(out, n.created_date as u64);
    proof {
        assert((n.created_date as u64) as nat == n@.created_date as nat);
        assert(out@ =~= base + enc_note(n@));
    }
}

fn push_env(out: &mut String, e: &EnvVar)
    ensures
        final(out)@ == old(out)@ + enc_env(e@),
{
    let ghost base = out@;
    push_str_enc(out, &e.key);
    push_str_enc(out, &e.value);
    proof {
        assert(out@ =~= base + enc_env(e@));
    }
}

fn push_tags_enc(out: &mut String, items: &Vec<String>)
    ensures
        final(out)@ == old(out)@ + enc_ctags(items@.map_values(|x: String| x@)),
{
    let ghost iv = items@.map_values(|x: String| x@);
    let ghost base = out@;
    push_u64(out, items.len() as u64);
    proof {
        assert((items.len() as u64) as nat == iv.len());
    }
    let mut i: usize = 0;
    proof {
        assert(iv.subrange(0, 0) =~= Seq::<Seq<char>>::empty());
        assert(out@ =~= base + enc_u64(iv.len()) + enc_tags(iv.subrange(0, 0)));
    }
    while i < items.len()
        invariant
            0 <= i <= items@.len(),
            iv == items@.map_values(|x: String| x@),
            out@ == base + enc_u64(iv.len()) + enc_tags(iv.subrange(0, i as int)),
        decreases items@.len() - i,
    {
        push_str_enc(out, &items[i]);
        proof {
            let pre = iv.subrange(0, i + 1);
            assert(pre.drop_last() =~= iv.subrange(0, i as int));
            assert(pre.last() == iv[i as int]);
            assert(out@ =~= base + enc_u64(iv.len()) + enc_tags(pre));
        }
        i = i + 1;
    }
    proof {
        assert(iv.subrange(0, iv.len() as int) =~= iv);
        assert(out@ =~= base + enc_ctags(iv));
    }
}

fn push_actions_enc(out: &mut String, items: &Vec<Action>)
    requires
        forall|k: int| 0 <= k < items@.len() ==> crate::model::action_wf(#[trigger] items@[k]@),
    ensures
        final(out)@ == old(out)@ + enc_cacts(items@.map_values(|x: Action| x@)),
{
    let ghost iv = items@.map_values(|x: Action| x@);
    let ghost base = out@;
    push_u64(out, items.len() as u64);
    proof {
        assert((items.len() as u64) as nat == iv.len());
    }
    let mut i: usize = 0;
    proof {
        assert(iv.subrange(0, 0) =~= Seq::<ActionV>::empty());
        assert(out@ =~= base + enc_u64(iv.len()) + enc_actions(iv.subrange(0, 0)));
    }
    while i < items.len()
        invariant
            0 <= i <= items@.len(),
            iv == items@.map_values(|x: Action| x@),
            forall|k: int| 0 <= k < items@.len() ==> crate::model::action_wf(#[trigger] items@[k]@),
            out@ == base + enc_u64(iv.len()) + enc_actions(iv.subrange(0, i as int)),
        decreases items@.len() - i,
    {
        proof {
            assert(crate::model::action_wf(items@[i as int]@));
        }
        push_action(out, &items[i]);
        proof {
            let pre = iv.subrange(0, i + 1);
            assert(pre.drop_last() =~= iv.subrange(0, i as int));
            assert(pre.last() == iv[i as int]);
            assert(out@ =~= base + enc_u64(iv.len()) + enc_actions(pre));
        }
        i = i + 1;
    }
    proof {
        assert(iv.subrange(0, iv.len() as int) =~= iv);
        assert(out@ =~= base + enc_cacts(iv));
    }
}

fn push_notes_enc(out: &mut String, items: &Vec<Note>)
    requires
        forall|k: int| 0 <= k < items@.len() ==> crate::model::note_wf(#[trigger] items@[k]@),
    ensures
        final(out)@ == old(out)@ + enc_cnotes(items@.map_values(|x: Note| x@)),
{
    let ghost iv = items@.map_values(|x: Note| x@);
    let ghost base = out@;
    push_u64(out, items.len() as u64);
    proof {
        assert((items.len() as u64) as nat == iv.len());
    }
    let mut i: usize = 0;
    proof {
        assert(iv.subrange(0, 0) =~= Seq::<NoteV>::empty());
        assert(out@ =~= base + enc_u64(iv.len()) + enc_notes(iv.subrange(0, 0)));
    }
    while i < items.len()
        invariant
            0 <= i <= items@.len(),
            iv == items@.map_values(|x: Note| x@),
            forall|k: int| 0 <= k < items@.len() ==> crate::model::note_wf(#[trigger] items@[k]@),
            out@ == base + enc_u64(iv.len()) + enc_notes(iv.subrange(0, i as int)),
        decreases items@.len() - i,
    {
        proof {
            assert(crate::model::note_wf(items@[i as int]@));
        }
        push_note(out, &items[i]);
        proof {
            let pre = iv.subrange(0, i + 1);
            assert(pre.drop_last() =~= iv.subrange(0, i as int));
            assert(pre.last() == iv[i as int]);
            assert(out@ =~= base + enc_u64(iv.len()) + enc_notes(pre));
        }
        i = i + 1;
    }
    proof {
        assert(iv.subrange(0, iv.len() as int) =~= iv);
        assert(out@ =~= base + enc_cnotes(iv));
    }
}

fn push_envs_enc(out: &mut String, items: &Vec<EnvVar>)
    ensures
        final(out)@ == old(out)@ + enc_cenvs(items@.map_values(|x: EnvVar| x@)),
{
    let ghost iv = items@.map_values(|x: EnvVar| x@);
    let ghost base = out@;
    push_u64(out, items.len() as u64);
    proof {
        assert((items.len() as u64) as nat == iv.len());
    }
    let mut i: usize = 0;
    proof {
        assert(iv.subrange(0, 0) =~= Seq::<EnvVarV>::empty());
        assert(out@ =~= base + enc_u64(iv.len()) + enc_envs(iv.subrange(0, 0)));
    }
    while i < items.len()
        invariant
            0 <= i <= items@.len(),
            iv == items@.map_values(|x: EnvVar| x@),
            out@ == base + enc_u64(iv.len()) + enc_envs(iv.subrange(0, i as int)),
        decreases items@.len() - i,
    {
        push_env(out, &items[i]);
        proof {
            let pre = iv.subrange(0, i + 1);
            assert(pre.drop_last() =~= iv.subrange(0, i as int));
            assert(pre.last() == iv[i as int]);
            assert(out@ =~= base + enc_u64(iv.len()) + enc_envs(pre));
        }
        i = i + 1;
    }
    proof {
        assert(iv.subrange(0, iv.len() as int) =~= iv);
        assert(out@ =~= base + enc_cenvs(iv));
    }
}

fn push_ip(out: &mut String, ip: &IpAddress)
    ensures
        final(out)@ == old(out)@ + enc_ip(ip@),
{
    let ghost base = out@;
    match ip {
        IpAddress::V4(q) => {
            proof {
                reveal_strlit("4");
            }
            out.append("4");
            push_u64(out, q.a as u64);
            push_u64(out, q.b as u64);
            proof {
                assert("4"@ =~= seq!['4']);
                assert(out@ =~= base + (seq!['4'] + (enc_u64(q.a as nat) + enc_u64(q.b as nat))));
            }
            push_u64(out, q.c as u64);
            proof {
                assert(out@ =~= base + (seq!['4'] + (enc_u64(q.a as nat) + (enc_u64(q.b as nat)
                    + enc_u64(q.c as nat)))));
            }
            push_u64(out, q.d as u64);
            proof {
                assert(out@ =~= base + enc_ip(ip@));
            }
        },
        IpAddress::V6(t) => {
            proof {
                reveal_strlit("6");
            }
            out.append("6");
            push_str_enc(out, t);
            proof {
                assert("6"@ =~= seq!['6']);
                assert(out@ =~= base + enc_ip(ip@));
            }
        },
    }
}

#[verifier::spinoff_prover]
#[verifier::rlimit(100)]
fn push_box(out: &mut String, bx: &CtfBox)
    requires
        box_wf(bx@),
    ensures
        final(out)@ == old(out)@ + enc_box(bx@),
{
    let ghost base = out@;
    let ghost b = bx@;
    push_u64(out, bx.id as u64);
    proof {
        assert((bx.id as u64) as nat == b.id as nat);
        assert((bx.created_date as u64) as nat == b.created_date as nat);
        assert((bx.updated_date as u64) as nat == b.updated_date as nat);
        assert(out@ =~= base + (enc_u64(b.id as nat)));
    }
    push_u64(out, bx.created_date as u64);
    proof {
        assert(out@ =~= base + (enc_u64(b.id as nat) + enc_u64(b.created_date as nat)));
    }
    push_u64(out, bx.updated_date as u64);
    proof {
        assert(out@ =~= base + (enc_u64(b.id as nat) + enc_u64(b.created_date as nat) + enc_u64(b.updated_date as nat)));
    }
    push_str_enc(out, &bx.title);
    proof {
        assert(out@ =~= base + (enc_u64(b.id as nat) + enc_u64(b.created_date as nat) + enc_u64(b.updated_date as nat) + enc_str(b.title)));
    }
    push_str_enc(out, &bx.platform);
    proof {
        assert(out@ =~= base + (enc_u64(b.id as nat) + enc_u64(b.created_date as nat) + enc_u64(b.updated_date as nat) + enc_str(b.title) + enc_str(b.platform)));
    }
    push_ip(out, &bx.ip_address);
    proof {
        assert(out@ =~= base + (enc_u64(b.id as nat) + enc_u64(b.created_date as nat) + enc_u64(b.updated_date as nat) + enc_str(b.title) + enc_str(b.platform) + enc_ip(b.ip_address)));
    }
    push_tags_enc(out, &bx.tags);
    proof {
        assert(out@ =~= base + (enc_u64(b.id as nat) + enc_u64(b.created_date as nat) + enc_u64(b.updated_date as nat) + enc_str(b.title) + enc_str(b.platform) + enc_ip(b.ip_address) + enc_ctags(b.tags)));
    }
    proof {
        assert forall|k: int| 0 <= k < bx.actions@.len() implies crate::model::action_wf(
            #[trigger] bx.actions@[k]@,
        ) by {
            assert(b.actions[k] == bx.actions@[k]@);
        }
    }
    push_actions_enc(out, &bx.actions);
    proof {
        assert(out@ =~= base + (enc_u64(b.id as nat) + enc_u64(b.created_date as nat) + enc_u64(b.updated_date as nat) + enc_str(b.title) + enc_str(b.platform) + enc_ip(b.ip_address) + enc_ctags(b.tags) + enc_cacts(b.actions)));
    }
    proof {
        assert forall|k: int| 0 <= k < bx.notes@.len() implies crate::model::note_wf(
            #[trigger] bx.notes@[k]@,
        ) by {
            assert(b.notes[k] == bx.notes@[k]@);
        }
    }
    push_notes_enc(out, &bx.notes);
    proof {
        assert(out@ =~= base + (enc_u64(b.id as nat) + enc_u64(b.created_date as nat) + enc_u64(b.updated_date as nat) + enc_str(b.title) + enc_str(b.platform) + enc_ip(b.ip_address) + enc_ctags(b.tags) + enc_cacts(b.actions) + enc_cnotes(b.notes)));
    }
    if bx.env_vars.len() > 0 {
        proof {
            reveal_strlit("E");
        }
        out.append("E");
        push_envs_enc(out, &bx.env_vars);
        proof {
            assert("E"@ =~= seq!['E']);
            assert(b.env_vars.len() > 0);
            assert(enc_envs_opt(b.env_vars) == seq!['E'] + enc_cenvs(b.env_vars));
            assert(out@ =~= base + (enc_u64(b.id as nat) + enc_u64(b.created_date as nat) + enc_u64(b.updated_date as nat) + enc_str(b.title) + enc_str(b.platform) + enc_ip(b.ip_address) + enc_ctags(b.tags) + enc_cacts(b.actions) + enc_cnotes(b.notes) + enc_envs_opt(b.env_vars)));
        }
    } else {
        proof {
            assert(b.env_vars.len() == 0);
            assert(enc_envs_opt(b.env_vars) == Seq::<char>::empty());
            assert(out@ =~= base + (enc_u64(b.id as nat) + enc_u64(b.created_date as nat) + enc_u64(b.updated_date as nat) + enc_str(b.title) + enc_str(b.platform) + enc_ip(b.ip_address) + enc_ctags(b.tags) + enc_cacts(b.actions) + enc_cnotes(b.notes) + enc_envs_opt(b.env_vars)));
        }
    }
    proof {
        assert(out@ == base + enc_box(b));
    }
}

/// Encode a well-formed collection as the persisted document text.
pub fn encode_boxes(boxes: &Vec<CtfBox>) -> (r: String)
    requires
        boxes_wf(boxes@.map_values(|b: CtfBox| b@)),
    ensures
        r@ == encode_spec(boxes@.map_values(|b: CtfBox| b@)),
{
    let ghost bs = boxes@.map_values(|b: CtfBox| b@);
    let mut out = String::new();
    push_u64(&mut out, boxes.len() as u64);
    proof {
        assert((boxes.len() as u64) as nat == bs.len());
    }
    let mut i: usize = 0;
    proof {
        assert(bs.subrange(0, 0) =~= Seq::<BoxV>::empty());
        assert(out@ =~= enc_u64(bs.len()) + enc_boxes(bs.subrange(0, 0)));
    }
    while i < boxes.len()
        invariant
            0 <= i <= boxes@.len(),
            bs == boxes@.map_values(|b: CtfBox| b@),
            forall|k: int| 0 <= k < bs.len() ==> box_wf(#[trigger] bs[k]),
            out@ == enc_u64(bs.len()) + enc_boxes(bs.subrange(0, i as int)),
        decreases boxes@.len() - i,
    {
        proof {
            assert(box_wf(bs[i as int]));
        }
        push_box(&mut out, &boxes[i]);
        proof {
            let pre = bs.subrange(0, i + 1);
            assert(pre.drop_last() =~= bs.subrange(0, i as int));
            assert(pre.last() == bs[i as int]);
            assert(out@ =~= enc_u64(bs.len()) + enc_boxes(pre));
        }
        i = i + 1;
    }
    proof {
        assert(bs.subrange(0, bs.len() as int) =~= bs);
    }
    out
}

} // verus!
