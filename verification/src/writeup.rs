//! Write-up generation: a pure function from a box to its markdown
//! document. Actions are routed into phases by keyword, first match wins;
//! a section appears in the table of contents and the body only when it
//! has a note or an action, and the Flags section is always present.

use crate::ext::{date_label, format_date};
use crate::ip::{format_ip, ip_text};
use crate::model::{
    box_wf, category_name, category_name_spec, Action, ActionResult, ActionV, BoxV, CtfBox, Note,
    NoteCategory, NoteV,
};
use crate::num::{dec_digits, fmt_u64};
use crate::text::{contains_str, contains_sub, first_token, first_token_spec};
use vstd::prelude::*;
use vstd::string::StrSliceExecFns;
use vstd::string::StringExecFns;

verus! {

/// The four keyword-routed phases of a write-up.
#[derive(PartialEq, Eq, Structural, Clone, Copy, Debug)]
pub enum Phase {
    Recon,
    Enumeration,
    Exploitation,
    Privesc,
}

pub open spec fn recon_keys() -> Seq<Seq<char>> {
    seq!["nmap"@, "ping"@, "whois"@]
}

pub open spec fn enum_keys() -> Seq<Seq<char>> {
    seq!["gobuster"@, "ffuf"@, "nikto"@, "dirb"@, "enum4linux"@, "smbclient"@]
}

pub open spec fn exploit_keys() -> Seq<Seq<char>> {
    seq!["exploit"@, "msfconsole"@, "searchsploit"@, "sqlmap"@, "hydra"@, "nc "@, "reverse"@]
}

pub open spec fn privesc_keys() -> Seq<Seq<char>> {
    seq!["sudo"@, "linpeas"@, "linenum"@, "SUID"@, "getcap"@, "find / "@]
}

pub open spec fn matches_any(cmd: Seq<char>, keys: Seq<Seq<char>>) -> bool {
    exists|i: int| 0 <= i < keys.len() && contains_sub(cmd, #[trigger] keys[i])
}

/// The phase a command is routed to, first match wins in the fixed
/// section order; `None` when no keyword set matches.
pub open spec fn section_of(cmd: Seq<char>) -> Option<Phase> {
    if matches_any(cmd, recon_keys()) {
        Some(Phase::Recon)
    } else if matches_any(cmd, enum_keys()) {
        Some(Phase::Enumeration)
    } else if matches_any(cmd, exploit_keys()) {
        Some(Phase::Exploitation)
    } else if matches_any(cmd, privesc_keys()) {
        Some(Phase::Privesc)
    } else {
        None
    }
}

fn is_recon_cmd(cmd: &str) -> (r: bool)
    ensures
        r == matches_any(cmd@, recon_keys()),
{
    let r = contains_str(cmd, "nmap") || contains_str(cmd, "ping") || contains_str(cmd, "whois");
    proof {
        let keys = recon_keys();
        if r {
            assert(contains_sub(cmd@, keys[0]) || contains_sub(cmd@, keys[1]) || contains_sub(
                cmd@,
                keys[2],
            ));
        } else {
            assert forall|i: int| 0 <= i < keys.len() implies !contains_sub(
                cmd@,
                #[trigger] keys[i],
            ) by {
                assert(keys[0] == "nmap"@ && keys[1] == "ping"@ && keys[2] == "whois"@);
            }
        }
    }
    r
}

fn is_enum_cmd(cmd: &str) -> (r: bool)
    ensures
        r == matches_any(cmd@, enum_keys()),
{
    let r = contains_str(cmd, "gobuster") || contains_str(cmd, "ffuf") || contains_str(
        cmd,
        "nikto",
    ) || contains_str(cmd, "dirb") || contains_str(cmd, "enum4linux") || contains_str(
        cmd,
        "smbclient",
    );
    proof {
        let keys = enum_keys();
        if !r {
            assert forall|i: int| 0 <= i < keys.len() implies !contains_sub(
                cmd@,
                #[trigger] keys[i],
            ) by {
                assert(keys[0] == "gobuster"@ && keys[1] == "ffuf"@ && keys[2] == "nikto"@
                    && keys[3] == "dirb"@ && keys[4] == "enum4linux"@ && keys[5] == "smbclient"@);
            }
        } else {
            assert(contains_sub(cmd@, keys[0]) || contains_sub(cmd@, keys[1]) || contains_sub(
                cmd@,
                keys[2],
            ) || contains_sub(cmd@, keys[3]) || contains_sub(cmd@, keys[4]) || contains_sub(
                cmd@,
                keys[5],
            ));
        }
    }
    r
}

fn is_exploit_cmd(cmd: &str) -> (r: bool)
    ensures
        r == matches_any(cmd@, exploit_keys()),
{
    let r = contains_str(cmd, "exploit") || contains_str(cmd, "msfconsole") || contains_str(
        cmd,
        "searchsploit",
    ) || contains_str(cmd, "sqlmap") || contains_str(cmd, "hydra") || contains_str(cmd, "nc ")
        || contains_str(cmd, "reverse");
    proof {
        let keys = exploit_keys();
        if !r {
            assert forall|i: int| 0 <= i < keys.len() implies !contains_sub(
                cmd@,
                #[trigger] keys[i],
            ) by {
                assert(keys[0] == "exploit"@ && keys[1] == "msfconsole"@ && keys[2]
                    == "searchsploit"@ && keys[3] == "sqlmap"@ && keys[4] == "hydra"@ && keys[5]
                    == "nc "@ && keys[6] == "reverse"@);
            }
        } else {
            assert(contains_sub(cmd@, keys[0]) || contains_sub(cmd@, keys[1]) || contains_sub(
                cmd@,
                keys[2],
            ) || contains_sub(cmd@, keys[3]) || contains_sub(cmd@, keys[4]) || contains_sub(
                cmd@,
                keys[5],
            ) || contains_sub(cmd@, keys[6]));
        }
    }
    r
}

fn is_privesc_cmd(cmd: &str) -> (r: bool)
    ensures
        r == matches_any(cmd@, privesc_keys()),
{
    let r = contains_str(cmd, "sudo") || contains_str(cmd, "linpeas") || contains_str(
        cmd,
        "linenum",
    ) || contains_str(cmd, "SUID") || contains_str(cmd, "getcap") || contains_str(cmd, "find / ");
    proof {
        let keys = privesc_keys();
        if !r {
            assert forall|i: int| 0 <= i < keys.len() implies !contains_sub(
                cmd@,
                #[trigger] keys[i],
            ) by {
                assert(keys[0] == "sudo"@ && keys[1] == "linpeas"@ && keys[2] == "linenum"@
                    && keys[3] == "SUID"@ && keys[4] == "getcap"@ && keys[5] == "find / "@);
            }
        } else {
            assert(contains_sub(cmd@, keys[0]) || contains_sub(cmd@, keys[1]) || contains_sub(
                cmd@,
                keys[2],
            ) || contains_sub(cmd@, keys[3]) || contains_sub(cmd@, keys[4]) || contains_sub(
                cmd@,
                keys[5],
            ));
        }
    }
    r
}

/// Route a command to its phase, first match wins.
pub fn command_section(cmd: &str) -> (r: Option<Phase>)
    ensures
        r == section_of(cmd@),
{
    if is_recon_cmd(cmd) {
        Some(Phase::Recon)
    } else if is_enum_cmd(cmd) {
        Some(Phase::Enumeration)
    } else if is_exploit_cmd(cmd) {
        Some(Phase::Exploitation)
    } else if is_privesc_cmd(cmd) {
        Some(Phase::Privesc)
    } else {
        None
    }
}

/// The note category whose notes open a phase section.
pub open spec fn cat_of_phase(p: Phase) -> NoteCategory {
    match p {
        Phase::Recon => NoteCategory::Recon,
        Phase::Enumeration => NoteCategory::Web,
        Phase::Exploitation => NoteCategory::Foothold,
        Phase::Privesc => NoteCategory::Privesc,
    }
}

/// The character limit applied to captured output in a phase section.
pub open spec fn limit_of_phase(p: Phase) -> int {
    match p {
        Phase::Recon => 3000,
        Phase::Enumeration => 3000,
        Phase::Exploitation => 2000,
        Phase::Privesc => 2000,
    }
}

pub open spec fn phase_title(p: Phase) -> Seq<char> {
    match p {
        Phase::Recon => "Reconnaissance"@,
        Phase::Enumeration => "Enumeration"@,
        Phase::Exploitation => "Exploitation"@,
        Phase::Privesc => "Privilege Escalation"@,
    }
}

pub open spec fn phase_anchor(p: Phase) -> Seq<char> {
    match p {
        Phase::Recon => "reconnaissance"@,
        Phase::Enumeration => "enumeration"@,
        Phase::Exploitation => "exploitation"@,
        Phase::Privesc => "privilege-escalation"@,
    }
}

/// Captured output truncated to a section's character limit, with a
/// marker appended when it was cut.
pub open spec fn truncate_out(s: Seq<char>, limit: int) -> Seq<char> {
    if s.len() > limit {
        s.subrange(0, limit) + "...\n[Output truncated]"@
    } else {
        s
    }
}

/// Text with a final newline guaranteed.
pub open spec fn with_nl(s: Seq<char>) -> Seq<char> {
    if s.len() > 0 && s.last() == '\n' {
        s
    } else {
        s + "\n"@
    }
}

/// The heading token of an action: the first word of its command, or a
/// fixed fallback for a blank command.
pub open spec fn heading_token(cmd: Seq<char>) -> Seq<char> {
    if first_token_spec(cmd).len() > 0 {
        first_token_spec(cmd)
    } else {
        "Command"@
    }
}

/// One action rendered inside a phase section: heading, fenced command
/// with truncated output, and the note as a blockquote when present.
pub open spec fn action_block(a: ActionV, limit: int) -> Seq<char> {
    "### "@ + heading_token(a.command) + "\n\n```bash\n$ "@ + a.command + "\n"@ + (match a.output {
        Some(o) => with_nl(truncate_out(o, limit)),
        None => Seq::<char>::empty(),
    }) + "```\n\n"@ + (match a.note {
        Some(n) => "> **Note:** "@ + n + "\n\n"@,
        None => Seq::<char>::empty(),
    })
}

/// The bullet list of a section's notes, in stored order.
pub open spec fn notes_bullets(notes: Seq<NoteV>, cat: NoteCategory) -> Seq<char>
    decreases notes.len(),
{
    if notes.len() == 0 {
        Seq::empty()
    } else {
        notes_bullets(notes.drop_last(), cat) + (if notes.last().category == cat {
            "- "@ + notes.last().content + "\n"@
        } else {
            Seq::<char>::empty()
        })
    }
}

pub open spec fn has_note_of(notes: Seq<NoteV>, cat: NoteCategory) -> bool {
    exists|i: int| 0 <= i < notes.len() && (#[trigger] notes[i]).category == cat
}

/// A section's notes block: the bullets and a blank line, or nothing.
pub open spec fn section_notes(notes: Seq<NoteV>, cat: NoteCategory) -> Seq<char> {
    if has_note_of(notes, cat) {
        notes_bullets(notes, cat) + "\n"@
    } else {
        Seq::empty()
    }
}

/// The action blocks of a phase, in stored order.
pub open spec fn section_actions(actions: Seq<ActionV>, p: Phase) -> Seq<char>
    decreases actions.len(),
{
    if actions.len() == 0 {
        Seq::empty()
    } else {
        section_actions(actions.drop_last(), p) + (if section_of(actions.last().command) == Some(
            p,
        ) {
            action_block(actions.last(), limit_of_phase(p))
        } else {
            Seq::<char>::empty()
        })
    }
}

pub open spec fn has_action_of(actions: Seq<ActionV>, p: Phase) -> bool {
    exists|i: int| 0 <= i < actions.len() && section_of((#[trigger] actions[i]).command) == Some(p)
}

/// Is a phase section non-empty, so that it appears at all?
pub open spec fn phase_nonempty(b: BoxV, p: Phase) -> bool {
    has_note_of(b.notes, cat_of_phase(p)) || has_action_of(b.actions, p)
}

/// A phase section: heading, notes, actions — or nothing when empty.
pub open spec fn phase_section(b: BoxV, p: Phase) -> Seq<char> {
    if phase_nonempty(b, p) {
        "## "@ + phase_title(p) + "\n\n"@ + section_notes(b.notes, cat_of_phase(p))
            + section_actions(b.actions, p)
    } else {
        Seq::empty()
    }
}

/// Does a note belong to the catch-all Additional Notes section?
pub open spec fn is_additional(cat: NoteCategory) -> bool {
    cat != NoteCategory::Recon && cat != NoteCategory::Foothold && cat != NoteCategory::Privesc
        && cat != NoteCategory::Web
}

pub open spec fn additional_bullets(notes: Seq<NoteV>) -> Seq<char>
    decreases notes.len(),
{
    if notes.len() == 0 {
        Seq::empty()
    } else {
        additional_bullets(notes.drop_last()) + (if is_additional(notes.last().category) {
            "- **"@ + category_name_spec(notes.last().category) + ":** "@ + notes.last().content
                + "\n"@
        } else {
            Seq::<char>::empty()
        })
    }
}

pub open spec fn has_additional(notes: Seq<NoteV>) -> bool {
    exists|i: int| 0 <= i < notes.len() && is_additional((#[trigger] notes[i]).category)
}

pub open spec fn additional_section(b: BoxV) -> Seq<char> {
    if has_additional(b.notes) {
        "---\n\n## Additional Notes\n\n"@ + additional_bullets(b.notes)
    } else {
        Seq::empty()
    }
}

/// Does an action fall into the Command Log: no keyword matched, and it
/// has captured output?
pub open spec fn is_log_action(a: ActionV) -> bool {
    section_of(a.command) is None && a.output is Some
}

pub open spec fn result_glyph(r: ActionResult) -> Seq<char> {
    match r {
        ActionResult::Success => "✓"@,
        ActionResult::Fail => "✗"@,
        ActionResult::Unknown => "?"@,
    }
}

pub open spec fn log_block(a: ActionV) -> Seq<char> {
    "### "@ + result_glyph(a.result) + " `"@ + a.command + "`\n\n```\n"@ + (match a.output {
        Some(o) => with_nl(truncate_out(o, 1500)),
        None => Seq::<char>::empty(),
    }) + "```\n\n"@
}

pub open spec fn log_blocks(actions: Seq<ActionV>) -> Seq<char>
    decreases actions.len(),
{
    if actions.len() == 0 {
        Seq::empty()
    } else {
        log_blocks(actions.drop_last()) + (if is_log_action(actions.last()) {
            log_block(actions.last())
        } else {
            Seq::<char>::empty()
        })
    }
}

pub open spec fn has_log_action(actions: Seq<ActionV>) -> bool {
    exists|i: int| 0 <= i < actions.len() && is_log_action(#[trigger] actions[i])
}

pub open spec fn log_section(b: BoxV) -> Seq<char> {
    if has_log_action(b.actions) {
        "\n---\n\n## Command Log\n\n"@ + log_blocks(b.actions)
    } else {
        Seq::empty()
    }
}

/// What of the comma-joined tag list is still to come after `i` tags.
pub open spec fn tags_rest(tags: Seq<Seq<char>>, i: int) -> Seq<char>
    decreases tags.len() - i,
{
    if i >= tags.len() {
        Seq::empty()
    } else {
        ", "@ + tags[i] + tags_rest(tags, i + 1)
    }
}

/// The comma-joined tag list of the header.
pub open spec fn tags_joined(tags: Seq<Seq<char>>) -> Seq<char> {
    if tags.len() == 0 {
        Seq::empty()
    } else {
        tags[0] + tags_rest(tags, 1)
    }
}

pub open spec fn header_text(b: BoxV) -> Seq<char> {
    "# "@ + b.title + " - Write-up\n\n**Platform:** "@ + b.platform + "  \n**IP:** "@ + ip_text(
        b.ip_address,
    ) + "  \n**Tags:** "@ + tags_joined(b.tags) + "  \n**Date:** "@ + date_label(b.created_date)
        + "  \n\n---\n\n"@
}

pub open spec fn toc_entry(n: int, name: Seq<char>, anchor: Seq<char>) -> Seq<char> {
    dec_digits(n as nat) + ". ["@ + name + "](#"@ + anchor + ")\n"@
}

/// The table of contents: the included sections in their fixed order,
/// numbered consecutively. Flags is always included; every other entry
/// appears exactly when its section is non-empty.
pub open spec fn toc_text(b: BoxV) -> Seq<char> {
    let f1: int = if phase_nonempty(b, Phase::Recon) {
        1
    } else {
        0
    };
    let f2: int = if phase_nonempty(b, Phase::Enumeration) {
        1
    } else {
        0
    };
    let f3: int = if phase_nonempty(b, Phase::Exploitation) {
        1
    } else {
        0
    };
    let f4: int = if phase_nonempty(b, Phase::Privesc) {
        1
    } else {
        0
    };
    let f5: int = if has_additional(b.notes) {
        1
    } else {
        0
    };
    "## Table of Contents\n\n"@ + (if f1 == 1 {
        toc_entry(1, phase_title(Phase::Recon), phase_anchor(Phase::Recon))
    } else {
        Seq::<char>::empty()
    }) + (if f2 == 1 {
        toc_entry(f1 + 1, phase_title(Phase::Enumeration), phase_anchor(Phase::Enumeration))
    } else {
        Seq::<char>::empty()
    }) + (if f3 == 1 {
        toc_entry(
            f1 + f2 + 1,
            phase_title(Phase::Exploitation),
            phase_anchor(Phase::Exploitation),
        )
    } else {
        Seq::<char>::empty()
    }) + (if f4 == 1 {
        toc_entry(f1 + f2 + f3 + 1, phase_title(Phase::Privesc), phase_anchor(Phase::Privesc))
    } else {
        Seq::<char>::empty()
    }) + toc_entry(f1 + f2 + f3 + f4 + 1, "Flags"@, "flags"@) + (if f5 == 1 {
        toc_entry(f1 + f2 + f3 + f4 + 2, "Additional Notes"@, "additional-notes"@)
    } else {
        Seq::<char>::empty()
    }) + (if has_log_action(b.actions) {
        toc_entry(f1 + f2 + f3 + f4 + f5 + 2, "Command Log"@, "command-log"@)
    } else {
        Seq::<char>::empty()
    }) + "\n---\n\n"@
}

pub open spec fn flags_section() -> Seq<char> {
    "## Flags\n\n### User Flag\n\n```\n[USER FLAG HERE]\n```\n\n### Root Flag\n\n```\n[ROOT FLAG HERE]\n```\n\n"@
}

pub open spec fn footer_text() -> Seq<char> {
    "\n---\n\n*Generated by CTF Brain*\n"@
}

/// The whole document.
pub open spec fn writeup_spec(b: BoxV) -> Seq<char> {
    header_text(b) + toc_text(b) + phase_section(b, Phase::Recon) + phase_section(
        b,
        Phase::Enumeration,
    ) + phase_section(b, Phase::Exploitation) + phase_section(b, Phase::Privesc)
        + flags_section() + additional_section(b) + log_section(b) + footer_text()
}


fn render_output(o: &String, limit: usize) -> (r: String)
    ensures
        r@ == with_nl(truncate_out(o@, limit as int)),
{
    let n = o.as_str().unicode_len();
    let mut t: String;
    if n > limit {
        t = String::from_str(o.as_str().substring_char(0, limit));
        t.append("...\n[Output truncated]");
    } else {
        t = o.clone();
    }
    let m = t.as_str().unicode_len();
    if m > 0 && t.as_str().get_char(m - 1) == '\n' {
        t
    } else {
        t.append("\n");
        t
    }
}

fn render_action_block(a: &Action, limit: usize) -> (r: String)
    ensures
        r@ == action_block(a@, limit as int),
{
    let mut out = String::from_str("### ");
    let tok = first_token(a.command.as_str());
    if tok.as_str().unicode_len() > 0 {
        out.append(tok.as_str());
    } else {
        out.append("Command");
    }
    out.append("\n\n```bash\n$ ");
    out.append(a.command.as_str());
    out.append("\n");
    match &a.output {
        Some(o) => {
            let t = render_output(o, limit);
            out.append(t.as_str());
        },
        None => {},
    }
    out.append("```\n\n");
    match &a.note {
        Some(n) => {
            out.append("> **Note:** ");
            out.append(n.as_str());
            out.append("\n\n");
        },
        None => {},
    }
    proof {
        assert(out@ =~= action_block(a@, limit as int));
    }
    out
}

fn phase_cat(p: Phase) -> (r: NoteCategory)
    ensures
        r == cat_of_phase(p),
{
    match p {
        Phase::Recon => NoteCategory::Recon,
        Phase::Enumeration => NoteCategory::Web,
        Phase::Exploitation => NoteCategory::Foothold,
        Phase::Privesc => NoteCategory::Privesc,
    }
}

fn phase_title_str(p: Phase) -> (r: &'static str)
    ensures
        r@ == phase_title(p),
{
    match p {
        Phase::Recon => "Reconnaissance",
        Phase::Enumeration => "Enumeration",
        Phase::Exploitation => "Exploitation",
        Phase::Privesc => "Privilege Escalation",
    }
}

fn render_section_notes(notes: &Vec<Note>, cat: NoteCategory) -> (r: (String, bool))
    ensures
        r.0@ == section_notes(notes@.map_values(|n: Note| n@), cat),
        r.1 == has_note_of(notes@.map_values(|n: Note| n@), cat),
{
    let ghost nv = notes@.map_values(|n: Note| n@);
    let mut bullets = String::new();
    let mut any = false;
    let mut i: usize = 0;
    proof {
        assert(nv.subrange(0, 0) =~= Seq::<NoteV>::empty());
    }
    while i < notes.len()
        invariant
            0 <= i <= notes@.len(),
            nv == notes@.map_values(|n: Note| n@),
            bullets@ == notes_bullets(nv.subrange(0, i as int), cat),
            any == has_note_of(nv.subrange(0, i as int), cat),
        decreases notes@.len() - i,
    {
        let ghost pre = nv.subrange(0, i + 1);
        proof {
            assert(pre.drop_last() =~= nv.subrange(0, i as int));
            assert(pre.last() == nv[i as int]);
        }
        if notes[i].category == cat {
            bullets.append("- ");
            bullets.append(notes[i].content.as_str());
            bullets.append("\n");
            any = true;
            proof {
                assert(pre[i as int].category == cat);
                assert(has_note_of(pre, cat));
            }
        } else {
            proof {
                if has_note_of(pre, cat) {
                    let w = choose|k: int|
                        0 <= k < pre.len() && (#[trigger] pre[k]).category == cat;
                    if w < i {
                        assert(nv.subrange(0, i as int)[w] == pre[w]);
                        assert(has_note_of(nv.subrange(0, i as int), cat));
                    }
                }
                if has_note_of(nv.subrange(0, i as int), cat) {
                    let w = choose|k: int|
                        0 <= k < i && (#[trigger] nv.subrange(0, i as int)[k]).category == cat;
                    assert(pre[w] == nv.subrange(0, i as int)[w]);
                    assert(has_note_of(pre, cat));
                }
            }
        }
        i = i + 1;
    }
    proof {
        assert(nv.subrange(0, nv.len() as int) =~= nv);
    }
    if any {
        bullets.append("\n");
        (bullets, true)
    } else {
        (String::new(), false)
    }
}

fn render_section_actions(actions: &Vec<Action>, p: Phase, limit: usize) -> (r: (String, bool))
    requires
        limit as int == limit_of_phase(p),
    ensures
        r.0@ == section_actions(actions@.map_values(|a: Action| a@), p),
        r.1 == has_action_of(actions@.map_values(|a: Action| a@), p),
{
    let ghost av = actions@.map_values(|a: Action| a@);
    let mut out = String::new();
    let mut any = false;
    let mut i: usize = 0;
    proof {
        assert(av.subrange(0, 0) =~= Seq::<ActionV>::empty());
    }
    while i < actions.len()
        invariant
            0 <= i <= actions@.len(),
            av == actions@.map_values(|a: Action| a@),
            limit as int == limit_of_phase(p),
            out@ == section_actions(av.subrange(0, i as int), p),
            any == has_action_of(av.subrange(0, i as int), p),
        decreases actions@.len() - i,
    {
        let ghost pre = av.subrange(0, i + 1);
        proof {
            assert(pre.drop_last() =~= av.subrange(0, i as int));
            assert(pre.last() == av[i as int]);
        }
        let in_phase = match command_section(actions[i].command.as_str()) {
            Some(q) => q == p,
            None => false,
        };
        if in_phase {
            let blk = render_action_block(&actions[i], limit);
            out.append(blk.as_str());
            any = true;
            proof {
                assert(section_of(pre[i as int].command) == Some(p));
                assert(has_action_of(pre, p));
            }
        } else {
            proof {
                if has_action_of(pre, p) {
                    let w = choose|k: int|
                        0 <= k < pre.len() && section_of((#[trigger] pre[k]).command) == Some(p);
                    if w < i {
                        assert(av.subrange(0, i as int)[w] == pre[w]);
                        assert(has_action_of(av.subrange(0, i as int), p));
                    }
                }
                if has_action_of(av.subrange(0, i as int), p) {
                    let w = choose|k: int|
                        0 <= k < i && section_of(
                            (#[trigger] av.subrange(0, i as int)[k]).command,
                        ) == Some(p);
                    assert(pre[w] == av.subrange(0, i as int)[w]);
                    assert(has_action_of(pre, p));
                }
            }
        }
        i = i + 1;
    }
    proof {
        assert(av.subrange(0, av.len() as int) =~= av);
    }
    (out, any)
}

fn render_phase_section(bx: &CtfBox, p: Phase, limit: usize) -> (r: (String, bool))
    requires
        limit as int == limit_of_phase(p),
    ensures
        r.0@ == phase_section(bx@, p),
        r.1 == phase_nonempty(bx@, p),
{
    let cat = phase_cat(p);
    let (nstr, has_n) = render_section_notes(&bx.notes, cat);
    let (astr, has_a) = render_section_actions(&bx.actions, p, limit);
    if has_n || has_a {
        let mut out = String::from_str("## ");
        out.append(phase_title_str(p));
        out.append("\n\n");
        out.append(nstr.as_str());
        out.append(astr.as_str());
        proof {
            assert(out@ =~= phase_section(bx@, p));
        }
        (out, true)
    } else {
        (String::new(), false)
    }
}

fn is_additional_cat(cat: &NoteCategory) -> (r: bool)
    ensures
        r == is_additional(*cat),
{
    match cat {
        NoteCategory::Recon => false,
        NoteCategory::Foothold => false,
        NoteCategory::Privesc => false,
        NoteCategory::Web => false,
        _ => true,
    }
}

fn render_additional(notes: &Vec<Note>) -> (r: (String, bool))
    ensures
        r.0@ == (if r.1 {
            additional_bullets(notes@.map_values(|n: Note| n@))
        } else {
            Seq::<char>::empty()
        }),
        r.1 == has_additional(notes@.map_values(|n: Note| n@)),
{
    let ghost nv = notes@.map_values(|n: Note| n@);
    let mut bullets = String::new();
    let mut any = false;
    let mut i: usize = 0;
    proof {
        assert(nv.subrange(0, 0) =~= Seq::<NoteV>::empty());
    }
    while i < notes.len()
        invariant
            0 <= i <= notes@.len(),
            nv == notes@.map_values(|n: Note| n@),
            bullets@ == additional_bullets(nv.subrange(0, i as int)),
            any == has_additional(nv.subrange(0, i as int)),
        decreases notes@.len() - i,
    {
        let ghost pre = nv.subrange(0, i + 1);
        proof {
            assert(pre.drop_last() =~= nv.subrange(0, i as int));
            assert(pre.last() == nv[i as int]);
        }
        if is_additional_cat(&notes[i].category) {
            bullets.append("- **");
            bullets.append(category_name(&notes[i].category));
            bullets.append(":** ");
            bullets.append(notes[i].content.as_str());
            bullets.append("\n");
            any = true;
            proof {
                assert(is_additional(pre[i as int].category));
                assert(has_additional(pre));
            }
        } else {
            proof {
                if has_additional(pre) {
                    let w = choose|k: int|
                        0 <= k < pre.len() && is_additional((#[trigger] pre[k]).category);
                    if w < i {
                        assert(nv.subrange(0, i as int)[w] == pre[w]);
                        assert(has_additional(nv.subrange(0, i as int)));
                    }
                }
                if has_additional(nv.subrange(0, i as int)) {
                    let w = choose|k: int|
                        0 <= k < i && is_additional(
                            (#[trigger] nv.subrange(0, i as int)[k]).category,
                        );
                    assert(pre[w] == nv.subrange(0, i as int)[w]);
                    assert(has_additional(pre));
                }
            }
        }
        i = i + 1;
    }
    proof {
        assert(nv.subrange(0, nv.len() as int) =~= nv);
    }
    if any {
        (bullets, true)
    } else {
        (String::new(), false)
    }
}

fn result_glyph_str(r: &ActionResult) -> (g: &'static str)
    ensures
        g@ == result_glyph(*r),
{
    match r {
        ActionResult::Success => "✓",
        ActionResult::Fail => "✗",
        ActionResult::Unknown => "?",
    }
}

fn render_log(actions: &Vec<Action>) -> (r: (String, bool))
    ensures
        r.0@ == (if r.1 {
            log_blocks(actions@.map_values(|a: Action| a@))
        } else {
            Seq::<char>::empty()
        }),
        r.1 == has_log_action(actions@.map_values(|a: Action| a@)),
{
    let ghost av = actions@.map_values(|a: Action| a@);
    let mut out = String::new();
    let mut any = false;
    let mut i: usize = 0;
    proof {
        assert(av.subrange(0, 0) =~= Seq::<ActionV>::empty());
    }
    while i < actions.len()
        invariant
            0 <= i <= actions@.len(),
            av == actions@.map_values(|a: Action| a@),
            out@ == log_blocks(av.subrange(0, i as int)),
            any == has_log_action(av.subrange(0, i as int)),
        decreases actions@.len() - i,
    {
        let ghost pre = av.subrange(0, i + 1);
        proof {
            assert(pre.drop_last() =~= av.subrange(0, i as int));
            assert(pre.last() == av[i as int]);
        }
        let uncategorized = match command_section(actions[i].command.as_str()) {
            Some(_) => false,
            None => true,
        };
        if uncategorized && actions[i].output.is_some() {
            out.append("### ");
            out.append(result_glyph_str(&actions[i].result));
            out.append(" `");
            out.append(actions[i].command.as_str());
            out.append("`\n\n```\n");
            match &actions[i].output {
                Some(o) => {
                    let t = render_output(o, 1500);
                    out.append(t.as_str());
                },
                None => {},
            }
            out.append("```\n\n");
            any = true;
            proof {
                assert(is_log_action(pre[i as int]));
                assert(has_log_action(pre));
                assert(out@ =~= log_blocks(pre));
            }
        } else {
            proof {
                assert(!is_log_action(pre[i as int]));
                if has_log_action(pre) {
                    let w = choose|k: int|
                        0 <= k < pre.len() && is_log_action(#[trigger] pre[k]);
                    if w < i {
                        assert(av.subrange(0, i as int)[w] == pre[w]);
                        assert(has_log_action(av.subrange(0, i as int)));
                    }
                }
                if has_log_action(av.subrange(0, i as int)) {
                    let w = choose|k: int|
                        0 <= k < i && is_log_action(#[trigger] av.subrange(0, i as int)[k]);
                    assert(pre[w] == av.subrange(0, i as int)[w]);
                    assert(has_log_action(pre));
                }
            }
        }
        i = i + 1;
    }
    proof {
        assert(av.subrange(0, av.len() as int) =~= av);
    }
    if any {
        (out, true)
    } else {
        (String::new(), false)
    }
}

fn join_tags(tags: &Vec<String>) -> (r: String)
    ensures
        r@ == tags_joined(Seq::new(tags@.len(), |i: int| tags@[i]@)),
{
    let ghost tv = Seq::new(tags@.len(), |i: int| tags@[i]@);
    if tags.len() == 0 {
        return String::new();
    }
    let mut out: String = tags[0].clone();
    let mut i: usize = 1;
    while i < tags.len()
        invariant
            1 <= i <= tags@.len(),
            tv == Seq::new(tags@.len(), |k: int| tags@[k]@),
            out@ + tags_rest(tv, i as int) == tags_joined(tv),
        decreases tags@.len() - i,
    {
        out.append(", ");
        out.append(tags[i].as_str());
        proof {
            assert(tags_rest(tv, i as int) == ", "@ + tv[i as int] + tags_rest(tv, i + 1));
            assert(tv[i as int] == tags@[i as int]@);
            assert((out@ + tags_rest(tv, i + 1)) =~= tags_joined(tv));
        }
        i = i + 1;
    }
    proof {
        assert(tags_rest(tv, i as int) =~= Seq::<char>::empty());
        assert(out@ =~= tags_joined(tv));
    }
    out
}

fn toc_entry_str(n: u64, name: &str, anchor: &str) -> (r: String)
    ensures
        r@ == toc_entry(n as int, name@, anchor@),
{
    let mut out = fmt_u64(n);
    out.append(". [");
    out.append(name);
    out.append("](#");
    out.append(anchor);
    out.append(")\n");
    proof {
        assert(out@ =~= toc_entry(n as int, name@, anchor@));
    }
    out
}

/// Generate the write-up document of a box.
#[verifier::spinoff_prover]
#[verifier::rlimit(50)]
pub fn generate_writeup(ctf_box: &CtfBox) -> (r: String)
    requires
        box_wf(ctf_box@),
    ensures
        r@ == writeup_spec(ctf_box@),
{
    let ghost b = ctf_box@;
    // Header
    let mut out = String::from_str("# ");
    out.append(ctf_box.title.as_str());
    out.append(" - Write-up\n\n**Platform:** ");
    out.append(ctf_box.platform.as_str());
    out.append("  \n**IP:** ");
    let ipt = format_ip(&ctf_box.ip_address);
    out.append(ipt.as_str());
    out.append("  \n**Tags:** ");
    let tgs = join_tags(&ctf_box.tags);
    out.append(tgs.as_str());
    out.append("  \n**Date:** ");
    let date = format_date(ctf_box.created_date);
    out.append(date.as_str());
    out.append("  \n\n---\n\n");
    proof {
        assert(Seq::new(ctf_box.tags@.len(), |i: int| ctf_box.tags@[i]@) =~= b.tags);
        assert(out@ == header_text(b));
    }
    // Body sections, rendered before the table of contents so that their
    // presence flags drive its entries and numbering.
    let (recon, has1) = render_phase_section(ctf_box, Phase::Recon, 3000);
    let (enumeration, has2) = render_phase_section(ctf_box, Phase::Enumeration, 3000);
    let (exploitation, has3) = render_phase_section(ctf_box, Phase::Exploitation, 2000);
    let (privesc, has4) = render_phase_section(ctf_box, Phase::Privesc, 2000);
    let (additional, has5) = render_additional(&ctf_box.notes);
    let (log, has6) = render_log(&ctf_box.actions);
    let ghost g1: int = if phase_nonempty(b, Phase::Recon) { 1 } else { 0 };
    let ghost g2: int = if phase_nonempty(b, Phase::Enumeration) { 1 } else { 0 };
    let ghost g3: int = if phase_nonempty(b, Phase::Exploitation) { 1 } else { 0 };
    let ghost g4: int = if phase_nonempty(b, Phase::Privesc) { 1 } else { 0 };
    let ghost g5: int = if has_additional(b.notes) { 1 } else { 0 };
    // Table of contents
    let mut n: u64 = 1;
    let e1: String = if has1 {
        toc_entry_str(1, "Reconnaissance", "reconnaissance")
    } else {
        String::new()
    };
    if has1 {
        n = n + 1;
    }
    proof {
        assert(n as int == g1 + 1);
    }
    let e2: String = if has2 {
        toc_entry_str(n, "Enumeration", "enumeration")
    } else {
        String::new()
    };
    if has2 {
        n = n + 1;
    }
    proof {
        assert(n as int == g1 + g2 + 1);
    }
    let e3: String = if has3 {
        toc_entry_str(n, "Exploitation", "exploitation")
    } else {
        String::new()
    };
    if has3 {
        n = n + 1;
    }
    proof {
        assert(n as int == g1 + g2 + g3 + 1);
    }
    let e4: String = if has4 {
        toc_entry_str(n, "Privilege Escalation", "privilege-escalation")
    } else {
        String::new()
    };
    if has4 {
        n = n + 1;
    }
    proof {
        assert(n as int == g1 + g2 + g3 + g4 + 1);
    }
    let e5: String = toc_entry_str(n, "Flags", "flags");
    n = n + 1;
    let e6: String = if has5 {
        toc_entry_str(n, "Additional Notes", "additional-notes")
    } else {
        String::new()
    };
    if has5 {
        n = n + 1;
    }
    proof {
        assert(n as int == g1 + g2 + g3 + g4 + g5 + 2);
    }
    let e7: String = if has6 {
        toc_entry_str(n, "Command Log", "command-log")
    } else {
        String::new()
    };
    let mut toc = String::from_str("## Table of Contents\n\n");
    toc.append(e1.as_str());
    toc.append(e2.as_str());
    toc.append(e3.as_str());
    toc.append(e4.as_str());
    toc.append(e5.as_str());
    toc.append(e6.as_str());
    toc.append(e7.as_str());
    toc.append("\n---\n\n");
    proof {
        assert(toc@ == toc_text(b));
    }
    // Tail sections
    let mut addl: String = String::new();
    if has5 {
        addl = String::from_str("---\n\n## Additional Notes\n\n");
        addl.append(additional.as_str());
    }
    proof {
        assert(addl@ == additional_section(b));
    }
    let mut logsec: String = String::new();
    if has6 {
        logsec = String::from_str("\n---\n\n## Command Log\n\n");
        logsec.append(log.as_str());
    }
    proof {
        assert(logsec@ == log_section(b));
    }
    out.append(toc.as_str());
    out.append(recon.as_str());
    out.append(enumeration.as_str());
    out.append(exploitation.as_str());
    out.append(privesc.as_str());
    out.append(
        "## Flags\n\n### User Flag\n\n```\n[USER FLAG HERE]\n```\n\n### Root Flag\n\n```\n[ROOT FLAG HERE]\n```\n\n",
    );
    out.append(addl.as_str());
    out.append(logsec.as_str());
    out.append("\n---\n\n*Generated by CTF Brain*\n");
    proof {
        assert(out@ == writeup_spec(b));
    }
    out
}


/// A phase with neither a note nor an action contributes nothing to the
/// document: its body section is the empty text, and by the definition
/// of `toc_text` its table-of-contents entry is the empty piece as well.
/// The Flags section, in contrast, stands in every generated document:
/// its body is always present and so is its table-of-contents entry.
#[verifier::spinoff_prover]
#[verifier::rlimit(100)]
pub proof fn lemma_writeup_section_presence(b: BoxV, p: Phase)
    ensures
        !phase_nonempty(b, p) ==> phase_section(b, p) == Seq::<char>::empty(),
        contains_sub(writeup_spec(b), flags_section()),
        (exists|n: int| contains_sub(toc_text(b), #[trigger] toc_entry(n, "Flags"@, "flags"@))),
{
    let pre = header_text(b) + toc_text(b) + phase_section(b, Phase::Recon) + phase_section(
        b,
        Phase::Enumeration,
    ) + phase_section(b, Phase::Exploitation) + phase_section(b, Phase::Privesc);
    let w = writeup_spec(b);
    let f = flags_section();
    assert(w.subrange(pre.len() as int, pre.len() as int + f.len() as int) =~= f);
    assert(contains_sub(w, f));
    let f1: int = if phase_nonempty(b, Phase::Recon) {
        1
    } else {
        0
    };
    let f2: int = if phase_nonempty(b, Phase::Enumeration) {
        1
    } else {
        0
    };
    let f3: int = if phase_nonempty(b, Phase::Exploitation) {
        1
    } else {
        0
    };
    let f4: int = if phase_nonempty(b, Phase::Privesc) {
        1
    } else {
        0
    };
    let n = f1 + f2 + f3 + f4 + 1;
    let entry = toc_entry(n, "Flags"@, "flags"@);
    let tpre = "## Table of Contents\n\n"@ + (if f1 == 1 {
        toc_entry(1, phase_title(Phase::Recon), phase_anchor(Phase::Recon))
    } else {
        Seq::<char>::empty()
    }) + (if f2 == 1 {
        toc_entry(f1 + 1, phase_title(Phase::Enumeration), phase_anchor(Phase::Enumeration))
    } else {
        Seq::<char>::empty()
    }) + (if f3 == 1 {
        toc_entry(
            f1 + f2 + 1,
            phase_title(Phase::Exploitation),
            phase_anchor(Phase::Exploitation),
        )
    } else {
        Seq::<char>::empty()
    }) + (if f4 == 1 {
        toc_entry(f1 + f2 + f3 + 1, phase_title(Phase::Privesc), phase_anchor(Phase::Privesc))
    } else {
        Seq::<char>::empty()
    });
    assert(toc_text(b).subrange(tpre.len() as int, tpre.len() as int + entry.len() as int)
        =~= entry);
    assert(contains_sub(toc_text(b), entry));
}

} // verus!
