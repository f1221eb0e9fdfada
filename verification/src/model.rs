//! The entity model: boxes, recorded actions, categorized notes and
//! per-box environment variables, with their mathematical views and the
//! well-formedness conditions the rest of the library maintains.

use crate::ip::{ip_wf, IpAddress, IpAddressV};
use crate::text::trim_spec;
use crate::ts_in_range;
use vstd::prelude::*;

verus! {

/// Outcome recorded for an executed command.
#[derive(PartialEq, Eq, Structural, Clone, Copy, Debug)]
pub enum ActionResult {
    Success,
    Fail,
    Unknown,
}

/// The fixed, closed set of note categories.
#[derive(PartialEq, Eq, Structural, Clone, Copy, Debug)]
pub enum NoteCategory {
    Privesc,
    Web,
    Recon,
    Foothold,
    Misc,
    Crypto,
    Pwn,
    Stego,
    Reversing,
}

/// A command executed against a box, with its optional captured output.
pub struct Action {
    pub timestamp: i64,
    pub command: String,
    pub result: ActionResult,
    pub note: Option<String>,
    pub output: Option<String>,
}

pub ghost struct ActionV {
    pub timestamp: i64,
    pub command: Seq<char>,
    pub result: ActionResult,
    pub note: Option<Seq<char>>,
    pub output: Option<Seq<char>>,
}

impl View for Action {
    type V = ActionV;

    open spec fn view(&self) -> ActionV {
        ActionV {
            timestamp: self.timestamp,
            command: self.command@,
            result: self.result,
            note: match self.note {
                Some(s) => Some(s@),
                None => None,
            },
            output: match self.output {
                Some(s) => Some(s@),
                None => None,
            },
        }
    }
}

/// A categorized free-text observation.
pub struct Note {
    pub category: NoteCategory,
    pub content: String,
    pub created_date: i64,
}

pub ghost struct NoteV {
    pub category: NoteCategory,
    pub content: Seq<char>,
    pub created_date: i64,
}

impl View for Note {
    type V = NoteV;

    open spec fn view(&self) -> NoteV {
        NoteV { category: self.category, content: self.content@, created_date: self.created_date }
    }
}

/// One environment-variable entry; entries are kept in insertion order so
/// that cursor movement over them is deterministic.
pub struct EnvVar {
    pub key: String,
    pub value: String,
}

pub ghost struct EnvVarV {
    pub key: Seq<char>,
    pub value: Seq<char>,
}

impl View for EnvVar {
    type V = EnvVarV;

    open spec fn view(&self) -> EnvVarV {
        EnvVarV { key: self.key@, value: self.value@ }
    }
}

/// A tracked challenge target.
pub struct CtfBox {
    pub id: i32,
    pub title: String,
    pub platform: String,
    pub ip_address: IpAddress,
    pub tags: Vec<String>,
    pub created_date: i64,
    pub updated_date: i64,
    pub actions: Vec<Action>,
    pub notes: Vec<Note>,
    pub env_vars: Vec<EnvVar>,
}

pub ghost struct BoxV {
    pub id: i32,
    pub title: Seq<char>,
    pub platform: Seq<char>,
    pub ip_address: IpAddressV,
    pub tags: Seq<Seq<char>>,
    pub created_date: i64,
    pub updated_date: i64,
    pub actions: Seq<ActionV>,
    pub notes: Seq<NoteV>,
    pub env_vars: Seq<EnvVarV>,
}

impl View for CtfBox {
    type V = BoxV;

    open spec fn view(&self) -> BoxV {
        BoxV {
            id: self.id,
            title: self.title@,
            platform: self.platform@,
            ip_address: self.ip_address@,
            tags: self.tags@.map_values(|t: String| t@),
            created_date: self.created_date,
            updated_date: self.updated_date,
            actions: self.actions@.map_values(|a: Action| a@),
            notes: self.notes@.map_values(|n: Note| n@),
            env_vars: self.env_vars@.map_values(|e: EnvVar| e@),
        }
    }
}

pub open spec fn action_wf(a: ActionV) -> bool {
    ts_in_range(a.timestamp)
}

pub open spec fn note_wf(n: NoteV) -> bool {
    &&& ts_in_range(n.created_date)
    &&& trim_spec(n.content) == n.content
    &&& n.content.len() > 0
}

/// A tag as stored: trimmed and non-empty.
pub open spec fn tag_wf(t: Seq<char>) -> bool {
    trim_spec(t) == t && t.len() > 0
}

/// Environment entries carry pairwise distinct keys.
pub open spec fn env_wf(e: Seq<EnvVarV>) -> bool {
    forall|i: int, j: int| 0 <= i < j < e.len() ==> e[i].key != e[j].key
}

pub open spec fn box_wf(b: BoxV) -> bool {
    &&& b.id >= 1
    &&& ts_in_range(b.created_date)
    &&& ts_in_range(b.updated_date)
    &&& ip_wf(b.ip_address)
    &&& forall|i: int| 0 <= i < b.actions.len() ==> action_wf(#[trigger] b.actions[i])
    &&& forall|i: int| 0 <= i < b.notes.len() ==> note_wf(#[trigger] b.notes[i])
    &&& forall|i: int| 0 <= i < b.tags.len() ==> tag_wf(#[trigger] b.tags[i])
    &&& env_wf(b.env_vars)
}

/// The collection as a whole: every box well-formed, ids distinct.
pub open spec fn boxes_wf(bs: Seq<BoxV>) -> bool {
    &&& forall|i: int| 0 <= i < bs.len() ==> box_wf(#[trigger] bs[i])
    &&& forall|i: int, j: int| 0 <= i < j < bs.len() ==> bs[i].id != bs[j].id
}

/// Is `key` bound among the entries?
pub open spec fn env_has(e: Seq<EnvVarV>, key: Seq<char>) -> bool {
    exists|i: int| 0 <= i < e.len() && (#[trigger] e[i]).key == key
}

/// The position of `key` among the entries (unique under `env_wf`).
pub open spec fn env_index(e: Seq<EnvVarV>, key: Seq<char>) -> int {
    choose|i: int| 0 <= i < e.len() && (#[trigger] e[i]).key == key
}

/// Insert or overwrite a binding, keeping the position of an existing key.
pub open spec fn env_upsert(e: Seq<EnvVarV>, key: Seq<char>, value: Seq<char>) -> Seq<EnvVarV> {
    if env_has(e, key) {
        e.update(env_index(e, key), EnvVarV { key, value })
    } else {
        e.push(EnvVarV { key, value })
    }
}

/// Upserting a binding keeps the keys pairwise distinct.
pub proof fn lemma_env_upsert_wf(e: Seq<EnvVarV>, key: Seq<char>, value: Seq<char>)
    requires
        env_wf(e),
    ensures
        env_wf(env_upsert(e, key, value)),
{
    if env_has(e, key) {
        let i = env_index(e, key);
        let post = e.update(i, EnvVarV { key, value });
        assert(0 <= i < e.len() && e[i].key == key);
        assert forall|a: int, b: int| 0 <= a < b < post.len() implies post[a].key
            != post[b].key by {
            assert(e[a].key != e[b].key);
            if a == i {
                assert(post[a].key == e[i].key);
            }
            if b == i {
                assert(post[b].key == e[i].key);
            }
        }
    } else {
        let post = e.push(EnvVarV { key, value });
        assert forall|a: int, b: int| 0 <= a < b < post.len() implies post[a].key
            != post[b].key by {
            if b == e.len() {
                assert(post[a] == e[a]);
                assert(!(0 <= a < e.len() && e[a].key == key));
            } else {
                assert(e[a].key != e[b].key);
            }
        }
    }
}

/// The value bound to `key`, if any.
pub open spec fn env_lookup(e: Seq<EnvVarV>, key: Seq<char>) -> Option<Seq<char>> {
    if env_has(e, key) {
        Some(e[env_index(e, key)].value)
    } else {
        None
    }
}

impl CtfBox {
    /// The value bound to an environment key, if any.
    pub fn env_value(&self, key: &String) -> (r: Option<&String>)
        requires
            env_wf(self@.env_vars),
        ensures
            (match r {
                Some(v) => env_lookup(self@.env_vars, key@) == Some(v@),
                None => env_lookup(self@.env_vars, key@) is None,
            }),
    {
        let ghost ev = self@.env_vars;
        let mut i: usize = 0;
        while i < self.env_vars.len()
            invariant
                0 <= i <= self.env_vars@.len(),
                ev == self@.env_vars,
                env_wf(ev),
                forall|k: int| 0 <= k < i ==> (#[trigger] ev[k]).key != key@,
            decreases self.env_vars@.len() - i,
        {
            if self.env_vars[i].key.eq(key) {
                proof {
                    assert(ev[i as int].key == key@);
                    assert(env_has(ev, key@));
                    let w = env_index(ev, key@);
                    assert(0 <= w < ev.len() && ev[w].key == key@);
                    if w != i as int {
                        if w < i as int {
                            assert(ev[w].key != ev[i as int].key);
                        } else {
                            assert(ev[i as int].key != ev[w].key);
                        }
                    }
                }
                return Some(&self.env_vars[i].value);
            }
            i = i + 1;
        }
        proof {
            assert forall|k: int| 0 <= k < ev.len() implies (#[trigger] ev[k]).key != key@ by {}
        }
        None
    }
}

/// The fixed presentation order of the note categories.
pub open spec fn category_order() -> Seq<NoteCategory> {
    seq![
        NoteCategory::Recon,
        NoteCategory::Foothold,
        NoteCategory::Privesc,
        NoteCategory::Web,
        NoteCategory::Pwn,
        NoteCategory::Crypto,
        NoteCategory::Reversing,
        NoteCategory::Stego,
        NoteCategory::Misc,
    ]
}

pub open spec fn category_name_spec(cat: NoteCategory) -> Seq<char> {
    match cat {
        NoteCategory::Recon => "Recon"@,
        NoteCategory::Foothold => "Foothold"@,
        NoteCategory::Privesc => "Privesc"@,
        NoteCategory::Web => "Web"@,
        NoteCategory::Pwn => "Pwn"@,
        NoteCategory::Crypto => "Crypto"@,
        NoteCategory::Reversing => "Reversing"@,
        NoteCategory::Stego => "Stego"@,
        NoteCategory::Misc => "Misc"@,
    }
}

/// The display name of a category.
pub fn category_name(cat: &NoteCategory) -> (r: &'static str)
    ensures
        r@ == category_name_spec(*cat),
{
    match cat {
        NoteCategory::Recon => "Recon",
        NoteCategory::Foothold => "Foothold",
        NoteCategory::Privesc => "Privesc",
        NoteCategory::Web => "Web",
        NoteCategory::Pwn => "Pwn",
        NoteCategory::Crypto => "Crypto",
        NoteCategory::Reversing => "Reversing",
        NoteCategory::Stego => "Stego",
        NoteCategory::Misc => "Misc",
    }
}

pub open spec fn category_icon_spec(cat: NoteCategory) -> Seq<char> {
    match cat {
        NoteCategory::Web => "🌐"@,
        NoteCategory::Pwn => "💥"@,
        NoteCategory::Crypto => "🔐"@,
        NoteCategory::Reversing => "🔄"@,
        NoteCategory::Stego => "🖼️"@,
        NoteCategory::Recon => "🔍"@,
        NoteCategory::Foothold => "🚪"@,
        NoteCategory::Privesc => "⬆️"@,
        NoteCategory::Misc => "📝"@,
    }
}

/// The icon shown beside a category in note lists.
pub fn category_icon(cat: &NoteCategory) -> (r: &'static str)
    ensures
        r@ == category_icon_spec(*cat),
{
    match cat {
        NoteCategory::Web => "🌐",
        NoteCategory::Pwn => "💥",
        NoteCategory::Crypto => "🔐",
        NoteCategory::Reversing => "🔄",
        NoteCategory::Stego => "🖼️",
        NoteCategory::Recon => "🔍",
        NoteCategory::Foothold => "🚪",
        NoteCategory::Privesc => "⬆️",
        NoteCategory::Misc => "📝",
    }
}

} // verus!
