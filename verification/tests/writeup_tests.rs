use ctf_brain::ip::{IpAddress, IpAddrV4};
use ctf_brain::model::{Action, ActionResult, CtfBox, Note, NoteCategory};
use ctf_brain::writeup::generate_writeup;

fn base_box() -> CtfBox {
    CtfBox {
        id: 1,
        title: String::from("Lame"),
        platform: String::from("HTB"),
        ip_address: IpAddress::V4(IpAddrV4 { a: 10, b: 10, c: 10, d: 3 }),
        tags: vec![String::from("easy"), String::from("linux")],
        created_date: 0,
        updated_date: 0,
        actions: Vec::new(),
        notes: Vec::new(),
        env_vars: Vec::new(),
    }
}

fn action(cmd: &str, output: Option<&str>) -> Action {
    Action {
        timestamp: 0,
        command: String::from(cmd),
        result: ActionResult::Success,
        note: None,
        output: output.map(String::from),
    }
}

#[test]
fn recon_note_and_nmap_action_render_in_reconnaissance() {
    let mut b = base_box();
    b.notes.push(Note {
        category: NoteCategory::Recon,
        content: String::from("ports 21, 22, 445 open"),
        created_date: 0,
    });
    b.actions.push(action("nmap -sV 10.10.10.3", Some("PORT STATE")));
    let doc = generate_writeup(&b);
    assert!(doc.contains("[Reconnaissance](#reconnaissance)"));
    assert!(doc.contains("## Reconnaissance"));
    assert!(doc.contains("- ports 21, 22, 445 open"));
    assert!(doc.contains("$ nmap -sV 10.10.10.3"));
    assert!(!doc.contains("## Enumeration"));
    assert!(!doc.contains("[Enumeration](#enumeration)"));
}

#[test]
fn empty_sections_are_omitted_and_flags_always_present() {
    let b = base_box();
    let doc = generate_writeup(&b);
    assert!(doc.contains("## Flags"));
    assert!(doc.contains("[Flags](#flags)"));
    assert!(doc.contains("[USER FLAG HERE]"));
    assert!(!doc.contains("## Reconnaissance"));
    assert!(!doc.contains("## Enumeration"));
    assert!(!doc.contains("## Exploitation"));
    assert!(!doc.contains("## Privilege Escalation"));
    assert!(!doc.contains("## Additional Notes"));
    assert!(!doc.contains("## Command Log"));
    // with nothing else present the Flags entry is the first and only one
    assert!(doc.contains("1. [Flags](#flags)"));
}

#[test]
fn header_carries_box_facts() {
    let b = base_box();
    let doc = generate_writeup(&b);
    assert!(doc.starts_with("# Lame - Write-up\n"));
    assert!(doc.contains("**Platform:** HTB"));
    assert!(doc.contains("**IP:** 10.10.10.3"));
    assert!(doc.contains("**Tags:** easy, linux"));
    assert!(doc.contains("**Date:** 1970-01-01"));
}

#[test]
fn toc_numbers_follow_included_sections() {
    let mut b = base_box();
    b.actions.push(action("gobuster dir -u http://x", None));
    b.actions.push(action("sudo -l", None));
    let doc = generate_writeup(&b);
    assert!(doc.contains("1. [Enumeration](#enumeration)"));
    assert!(doc.contains("2. [Privilege Escalation](#privilege-escalation)"));
    assert!(doc.contains("3. [Flags](#flags)"));
    assert!(!doc.contains("[Reconnaissance](#reconnaissance)"));
}

#[test]
fn first_match_wins_for_classification() {
    let mut b = base_box();
    b.actions.push(action("sudo nmap -sS 10.0.0.1", None));
    let doc = generate_writeup(&b);
    assert!(doc.contains("## Reconnaissance"));
    assert!(!doc.contains("## Privilege Escalation"));
}

#[test]
fn action_headings_use_first_token() {
    let mut b = base_box();
    b.actions.push(action("  nmap -sV target", None));
    let doc = generate_writeup(&b);
    assert!(doc.contains("### nmap"));
}

#[test]
fn action_note_renders_as_blockquote() {
    let mut b = base_box();
    b.actions.push(Action {
        timestamp: 0,
        command: String::from("nmap target"),
        result: ActionResult::Success,
        note: Some(String::from("three ports open")),
        output: None,
    });
    let doc = generate_writeup(&b);
    assert!(doc.contains("> **Note:** three ports open"));
}

#[test]
fn uncategorized_action_with_output_goes_to_command_log() {
    let mut b = base_box();
    b.actions.push(Action {
        timestamp: 0,
        command: String::from("cat /etc/passwd"),
        result: ActionResult::Fail,
        note: None,
        output: Some(String::from("root:x:0:0")),
    });
    b.actions.push(action("echo no output so not logged", None));
    let doc = generate_writeup(&b);
    assert!(doc.contains("## Command Log"));
    assert!(doc.contains("### ✗ `cat /etc/passwd`"));
    assert!(!doc.contains("echo no output"));
}

#[test]
fn additional_notes_aggregate_other_categories() {
    let mut b = base_box();
    b.notes.push(Note {
        category: NoteCategory::Crypto,
        content: String::from("weak cipher"),
        created_date: 0,
    });
    b.notes.push(Note {
        category: NoteCategory::Web,
        content: String::from("dir listing"),
        created_date: 0,
    });
    let doc = generate_writeup(&b);
    assert!(doc.contains("## Additional Notes"));
    assert!(doc.contains("- **Crypto:** weak cipher"));
    // the Web note belongs to Enumeration, not Additional Notes
    assert!(doc.contains("## Enumeration"));
    assert!(doc.contains("- dir listing"));
    assert!(!doc.contains("- **Web:**"));
}

#[test]
fn long_output_is_truncated_with_marker() {
    let mut b = base_box();
    let long = "x".repeat(2500);
    b.actions.push(Action {
        timestamp: 0,
        command: String::from("sudo ./linpeas.sh"),
        result: ActionResult::Unknown,
        note: None,
        output: Some(long.clone()),
    });
    let doc = generate_writeup(&b);
    assert!(doc.contains("[Output truncated]"));
    assert!(!doc.contains(&long));
    let mut b2 = base_box();
    b2.actions.push(Action {
        timestamp: 0,
        command: String::from("nmap target"),
        result: ActionResult::Unknown,
        note: None,
        output: Some(long.clone()),
    });
    let doc2 = generate_writeup(&b2);
    // the reconnaissance limit is 3000 characters, so nothing is cut there
    assert!(doc2.contains(&long));
    assert!(!doc2.contains("[Output truncated]"));
}

#[test]
fn document_ends_with_generator_footer() {
    let doc = generate_writeup(&base_box());
    assert!(doc.ends_with("*Generated by CTF Brain*\n"));
}

#[test]
fn header_shows_ipv6_literal_verbatim() {
    let mut b = base_box();
    b.ip_address = IpAddress::V6(String::from("fe80::1"));
    let doc = generate_writeup(&b);
    assert!(doc.contains("**IP:** fe80::1"));
}
