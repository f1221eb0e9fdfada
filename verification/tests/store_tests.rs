use ctf_brain::ip::{check_ipv6, format_ip, format_ipv4, parse_ip, parse_ip_any, IpAddress, IpAddrV4};
use ctf_brain::model::{Action, ActionResult, CtfBox, EnvVar, Note, NoteCategory};
use ctf_brain::num::{fmt_i64, fmt_u64};
use ctf_brain::store::{check_boxes_wf, decode_boxes, encode_boxes, StoreError};

fn rich_box() -> CtfBox {
    CtfBox {
        id: 1,
        title: String::from("Lame"),
        platform: String::from("HTB"),
        ip_address: IpAddress::V4(IpAddrV4 { a: 10, b: 10, c: 10, d: 3 }),
        tags: vec![String::from("easy"), String::from("linux")],
        created_date: 1_700_000_000_000,
        updated_date: 1_700_000_001_000,
        actions: vec![
            Action {
                timestamp: 1_700_000_000_500,
                command: String::from("nmap -sV 10.10.10.3"),
                result: ActionResult::Success,
                note: Some(String::from("Found open ports; 21, 22, 445")),
                output: Some(String::from("PORT  STATE\n21/tcp open\n")),
            },
            Action {
                timestamp: 1_700_000_000_600,
                command: String::from("id"),
                result: ActionResult::Unknown,
                note: None,
                output: None,
            },
        ],
        notes: vec![Note {
            category: NoteCategory::Recon,
            content: String::from("smb looks old"),
            created_date: 1_700_000_000_700,
        }],
        env_vars: vec![EnvVar { key: String::from("TARGET"), value: String::from("10.10.10.3") }],
    }
}

fn plain_box(id: i32, title: &str) -> CtfBox {
    CtfBox {
        id,
        title: String::from(title),
        platform: String::from("THM"),
        ip_address: IpAddress::V4(IpAddrV4 { a: 192, b: 168, c: 0, d: 1 }),
        tags: Vec::new(),
        created_date: 0,
        updated_date: 0,
        actions: Vec::new(),
        notes: Vec::new(),
        env_vars: Vec::new(),
    }
}

fn assert_boxes_equal(a: &CtfBox, b: &CtfBox) {
    assert_eq!(a.id, b.id);
    assert_eq!(a.title, b.title);
    assert_eq!(a.platform, b.platform);
    assert_eq!(format_ip(&a.ip_address), format_ip(&b.ip_address));
    assert_eq!(a.tags, b.tags);
    assert_eq!(a.created_date, b.created_date);
    assert_eq!(a.updated_date, b.updated_date);
    assert_eq!(a.actions.len(), b.actions.len());
    for (x, y) in a.actions.iter().zip(b.actions.iter()) {
        assert_eq!(x.timestamp, y.timestamp);
        assert_eq!(x.command, y.command);
        assert_eq!(x.result, y.result);
        assert_eq!(x.note, y.note);
        assert_eq!(x.output, y.output);
    }
    assert_eq!(a.notes.len(), b.notes.len());
    for (x, y) in a.notes.iter().zip(b.notes.iter()) {
        assert_eq!(x.category, y.category);
        assert_eq!(x.content, y.content);
        assert_eq!(x.created_date, y.created_date);
    }
    assert_eq!(a.env_vars.len(), b.env_vars.len());
    for (x, y) in a.env_vars.iter().zip(b.env_vars.iter()) {
        assert_eq!(x.key, y.key);
        assert_eq!(x.value, y.value);
    }
}

#[test]
fn round_trip_preserves_the_collection() {
    let boxes = vec![rich_box(), plain_box(2, "Empty one")];
    assert!(check_boxes_wf(&boxes));
    let doc = encode_boxes(&boxes);
    let loaded = decode_boxes(doc.as_str()).expect("encoded document must load");
    assert_eq!(loaded.len(), boxes.len());
    for (a, b) in boxes.iter().zip(loaded.iter()) {
        assert_boxes_equal(a, b);
    }
}

#[test]
fn round_trip_of_empty_collection() {
    let boxes: Vec<CtfBox> = Vec::new();
    let doc = encode_boxes(&boxes);
    assert_eq!(doc, "0;");
    let loaded = decode_boxes(doc.as_str()).expect("empty document must load");
    assert_eq!(loaded.len(), 0);
}

#[test]
fn garbage_is_a_corrupt_store() {
    assert!(matches!(decode_boxes("definitely not a document"), Err(StoreError::CorruptStore)));
    assert!(matches!(decode_boxes(""), Err(StoreError::CorruptStore)));
    // trailing garbage after a valid document is refused too
    let boxes = vec![plain_box(3, "x")];
    let mut doc = encode_boxes(&boxes);
    doc.push_str("zzz");
    assert!(matches!(decode_boxes(doc.as_str()), Err(StoreError::CorruptStore)));
}

#[test]
fn duplicate_ids_are_a_corrupt_store() {
    let boxes = vec![plain_box(3, "x"), plain_box(3, "y")];
    assert!(!check_boxes_wf(&boxes));
    let mut fake = String::from("2;");
    let one = encode_boxes(&vec![plain_box(3, "x")]);
    let two = encode_boxes(&vec![plain_box(3, "y")]);
    fake.push_str(&one[2..]);
    fake.push_str(&two[2..]);
    assert!(matches!(decode_boxes(fake.as_str()), Err(StoreError::CorruptStore)));
}

#[test]
fn decimal_rendering() {
    assert_eq!(fmt_u64(0), "0");
    assert_eq!(fmt_u64(1234), "1234");
    assert_eq!(fmt_u64(u64::MAX), "18446744073709551615");
    assert_eq!(fmt_i64(-5), "-5");
    assert_eq!(fmt_i64(42), "42");
}

#[test]
fn ip_parsing_accepts_only_dotted_quads() {
    assert_eq!(parse_ip("10.10.10.3"), Some(IpAddrV4 { a: 10, b: 10, c: 10, d: 3 }));
    assert_eq!(parse_ip("0.0.0.0"), Some(IpAddrV4 { a: 0, b: 0, c: 0, d: 0 }));
    assert_eq!(parse_ip("255.255.255.255"), Some(IpAddrV4 { a: 255, b: 255, c: 255, d: 255 }));
    assert_eq!(parse_ip("999.1.1.1"), None);
    assert_eq!(parse_ip("1.2.3"), None);
    assert_eq!(parse_ip("1.2.3.4.5"), None);
    assert_eq!(parse_ip("01.2.3.4"), None);
    assert_eq!(parse_ip("a.b.c.d"), None);
    assert_eq!(parse_ip(""), None);
}

#[test]
fn ip_formats_canonically() {
    let ip = IpAddrV4 { a: 10, b: 0, c: 254, d: 3 };
    assert_eq!(format_ipv4(&ip), "10.0.254.3");
    assert_eq!(parse_ip(&format_ipv4(&ip)), Some(ip));
}

#[test]
fn ipv6_literals_are_recognized() {
    for good in [
        "::",
        "::1",
        "1::",
        "fe80::1",
        "2001:db8::8a2e:370:7334",
        "0:1:2:3:4:5:6:7",
        "ABCD:ef01:0:0:0:0:0:1",
        "::ffff:192.168.0.1",
        "1:2:3:4:5:6:1.2.3.4",
        "1::2:3:4:5:6:7",
    ] {
        assert!(check_ipv6(good), "{} should be a valid IPv6 literal", good);
    }
    for bad in [
        "",
        ":",
        ":::",
        "1::2::3",
        "12345::",
        "g::1",
        ":1:2:3:4:5:6:7",
        "1:2:3:4:5:6:7:",
        "1:2:3:4:5:6:7",
        "1:2:3:4:5:6:7:8:9",
        "1::2:3:4:5:6:7:8",
        "1.2.3.4",
        "1:2:3:4:5:1.2.3.4:7",
        "0:0:0:0:0:0:0:1.2.3.4",
    ] {
        assert!(!check_ipv6(bad), "{} should not be a valid IPv6 literal", bad);
    }
}

#[test]
fn parse_ip_any_covers_both_families() {
    assert!(matches!(parse_ip_any("10.0.0.1"), Some(IpAddress::V4(_))));
    match parse_ip_any("fe80::1") {
        Some(IpAddress::V6(t)) => assert_eq!(t, "fe80::1"),
        _ => panic!("expected a V6 address"),
    }
    assert!(parse_ip_any("999.1.1.1").is_none());
    assert!(parse_ip_any("not an address").is_none());
}

#[test]
fn round_trip_with_ipv6_address() {
    let mut b = plain_box(9, "SixBox");
    b.ip_address = IpAddress::V6(String::from("2001:db8::1"));
    let boxes = vec![b];
    assert!(check_boxes_wf(&boxes));
    let doc = encode_boxes(&boxes);
    let loaded = decode_boxes(doc.as_str()).expect("v6 document must load");
    match &loaded[0].ip_address {
        IpAddress::V6(t) => assert_eq!(t, "2001:db8::1"),
        IpAddress::V4(_) => panic!("expected a V6 address"),
    }
}

#[test]
fn round_trip_with_unicode_and_extreme_values() {
    let mut b = rich_box();
    b.id = i32::MAX;
    b.created_date = 253402300799999;
    b.updated_date = 0;
    b.title = String::from("Zeichenkette with émojis 🧠 and ; separators ; 42;");
    b.actions[0].output = Some(String::from("línea uno\nline two; 7;7;\n\ttabbed ✓"));
    b.notes[0].content = String::from("ключ = значение");
    let boxes = vec![b];
    assert!(check_boxes_wf(&boxes));
    let doc = encode_boxes(&boxes);
    let loaded = decode_boxes(doc.as_str()).expect("unicode document must load");
    assert_boxes_equal(&boxes[0], &loaded[0]);
}

#[test]
fn out_of_range_values_are_a_corrupt_store() {
    // an id of zero never comes from the encoder and is refused
    let doc = "1;0;0;0;1;x1;y0.0.0.0;0;0;0;0;";
    assert!(matches!(decode_boxes(doc), Err(StoreError::CorruptStore)));
}
