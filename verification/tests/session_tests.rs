use ctf_brain::ip::{IpAddress, IpAddrV4};
use ctf_brain::model::{ActionResult, CtfBox, NoteCategory};
use ctf_brain::session::{App, AppView, StatusKind};

fn sample_box(id: i32, title: &str) -> CtfBox {
    CtfBox {
        id,
        title: String::from(title),
        platform: String::from("HTB"),
        ip_address: IpAddress::V4(IpAddrV4 { a: 10, b: 10, c: 10, d: 3 }),
        tags: vec![String::from("easy")],
        created_date: 1_700_000_000_000,
        updated_date: 1_700_000_000_000,
        actions: Vec::new(),
        notes: Vec::new(),
        env_vars: Vec::new(),
    }
}

fn three_box_app() -> App {
    App::new(vec![sample_box(1, "Alpha"), sample_box(2, "Beta"), sample_box(3, "Gamma")])
}

#[test]
fn new_app_selects_first_box() {
    let app = three_box_app();
    assert_eq!(app.selected_box, Some(0));
    assert!(matches!(app.view, AppView::List));
    let empty = App::new(Vec::new());
    assert_eq!(empty.selected_box, None);
}

#[test]
fn next_n_times_returns_to_start() {
    let mut app = three_box_app();
    app.selected_box = Some(1);
    for _ in 0..3 {
        app.next();
    }
    assert_eq!(app.selected_box, Some(1));
    for _ in 0..3 {
        app.previous();
    }
    assert_eq!(app.selected_box, Some(1));
}

#[test]
fn next_and_previous_wrap_circularly() {
    let mut app = three_box_app();
    assert_eq!(app.selected_box, Some(0));
    app.previous();
    assert_eq!(app.selected_box, Some(2));
    app.next();
    assert_eq!(app.selected_box, Some(0));
    app.next();
    assert_eq!(app.selected_box, Some(1));
}

#[test]
fn navigation_is_a_noop_on_empty_collection() {
    let mut app = App::new(Vec::new());
    app.next();
    assert_eq!(app.selected_box, None);
    app.previous();
    assert_eq!(app.selected_box, None);
}

#[test]
fn submit_add_box_assigns_increasing_ids() {
    let mut app = App::new(Vec::new());
    let mut form = app.start_add_box();
    form.title = String::from("First");
    form.ip = String::from("10.0.0.1");
    assert!(app.submit_add_box(&form).is_ok());
    form.title = String::from("Second");
    assert!(app.submit_add_box(&form).is_ok());
    assert_eq!(app.boxes[0].id, 1);
    assert_eq!(app.boxes[1].id, 2);
    assert_eq!(app.selected_box, Some(0));
}

#[test]
fn submit_add_box_rejects_bad_ip() {
    let mut app = three_box_app();
    let mut form = app.start_add_box();
    form.title = String::from("Bad");
    form.ip = String::from("999.1.1.1");
    let r = app.submit_add_box(&form);
    assert_eq!(r, Err(String::from("Invalid IP address")));
    assert_eq!(app.boxes.len(), 3);
}

#[test]
fn submit_add_box_rejects_empty_title() {
    let mut app = App::new(Vec::new());
    let mut form = app.start_add_box();
    form.title = String::from("   ");
    form.ip = String::from("10.0.0.1");
    let r = app.submit_add_box(&form);
    assert_eq!(r, Err(String::from("Title cannot be empty")));
    assert_eq!(app.boxes.len(), 0);
}

#[test]
fn submit_add_box_trims_title_and_parses_tags() {
    let mut app = App::new(Vec::new());
    let mut form = app.start_add_box();
    form.title = String::from("  Lame  ");
    form.ip = String::from("10.10.10.3");
    form.tags = String::from(" web , linux ,, ");
    assert!(app.submit_add_box(&form).is_ok());
    assert_eq!(app.boxes[0].title, "Lame");
    assert_eq!(app.boxes[0].tags, vec![String::from("web"), String::from("linux")]);
}

#[test]
fn form_field_cursor_cycles() {
    let mut app = App::new(Vec::new());
    let mut form = app.start_add_box();
    assert_eq!(form.current_field, 0);
    for _ in 0..4 {
        app.next_field(&mut form);
    }
    assert_eq!(form.current_field, 0);
    app.previous_field(&mut form);
    assert_eq!(form.current_field, 3);
}

#[test]
fn delete_selected_box_moves_selection_to_first() {
    let mut app = three_box_app();
    app.next();
    app.next();
    assert_eq!(app.selected_box, Some(2));
    app.start_delete_box();
    assert!(matches!(app.view, AppView::DeleteBox(3)));
    app.confirm_delete_box(3);
    assert_eq!(app.boxes.len(), 2);
    assert_eq!(app.selected_box, Some(0));
    assert!(matches!(app.view, AppView::List));
}

#[test]
fn delete_other_box_keeps_same_box_selected() {
    let mut app = three_box_app();
    app.next();
    assert_eq!(app.selected_box, Some(1));
    app.confirm_delete_box(1);
    assert_eq!(app.boxes.len(), 2);
    assert_eq!(app.selected_box, Some(0));
    assert_eq!(app.boxes[app.selected_box.unwrap()].id, 2);
}

#[test]
fn delete_last_box_empties_selection() {
    let mut app = App::new(vec![sample_box(7, "Solo")]);
    app.confirm_delete_box(7);
    assert_eq!(app.boxes.len(), 0);
    assert_eq!(app.selected_box, None);
}

#[test]
fn deleting_max_id_lets_the_next_add_reuse_it() {
    // The ids assigned while earlier boxes survive are strictly increasing;
    // removing the box with the largest id gives that id back to the next add.
    let mut app = App::new(Vec::new());
    let mut form = app.start_add_box();
    form.title = String::from("A");
    form.ip = String::from("10.0.0.1");
    assert!(app.submit_add_box(&form).is_ok());
    form.title = String::from("B");
    assert!(app.submit_add_box(&form).is_ok());
    app.confirm_delete_box(2);
    form.title = String::from("C");
    assert!(app.submit_add_box(&form).is_ok());
    assert_eq!(app.boxes[1].id, 2);
}

#[test]
fn add_env_var_rejects_key_with_space() {
    let mut app = three_box_app();
    let r = app.add_env_var(1, String::from("my key"), String::from("x"));
    assert_eq!(r, Err(String::from("Key must be alphanumeric with underscores only")));
}

#[test]
fn add_env_var_upper_cases_and_keeps_empty_value() {
    let mut app = three_box_app();
    assert!(app.add_env_var(1, String::from("API_KEY"), String::new()).is_ok());
    assert!(app.add_env_var(1, String::from("target_ip"), String::from("10.0.0.5")).is_ok());
    let b = app.box_by_id(1).unwrap();
    assert_eq!(b.env_vars[0].key, "API_KEY");
    assert_eq!(b.env_vars[0].value, "");
    assert_eq!(b.env_vars[1].key, "TARGET_IP");
    assert_eq!(b.env_vars[1].value, "10.0.0.5");
}

#[test]
fn add_env_var_overwrites_existing_key_in_place() {
    let mut app = three_box_app();
    assert!(app.add_env_var(1, String::from("A"), String::from("1")).is_ok());
    assert!(app.add_env_var(1, String::from("B"), String::from("2")).is_ok());
    assert!(app.add_env_var(1, String::from("a"), String::from("3")).is_ok());
    let b = app.box_by_id(1).unwrap();
    assert_eq!(b.env_vars.len(), 2);
    assert_eq!(b.env_vars[0].key, "A");
    assert_eq!(b.env_vars[0].value, "3");
}

#[test]
fn add_env_var_rejects_empty_key_and_missing_box() {
    let mut app = three_box_app();
    assert_eq!(
        app.add_env_var(1, String::from("  "), String::from("x")),
        Err(String::from("Key cannot be empty"))
    );
    assert_eq!(
        app.add_env_var(99, String::from("KEY"), String::from("x")),
        Err(String::from("Box not found"))
    );
}

#[test]
fn delete_selected_env_var_reclamps_cursor() {
    let mut app = three_box_app();
    for (k, v) in [("A", "1"), ("B", "2"), ("C", "3")] {
        assert!(app.add_env_var(1, String::from(k), String::from(v)).is_ok());
    }
    app.selected_env_var = Some(2);
    assert!(app.delete_selected_env_var(1).is_ok());
    assert_eq!(app.selected_env_var, Some(1));
    assert!(app.delete_selected_env_var(1).is_ok());
    assert_eq!(app.selected_env_var, Some(0));
    assert!(app.delete_selected_env_var(1).is_ok());
    assert_eq!(app.selected_env_var, None);
    assert_eq!(
        app.delete_selected_env_var(1),
        Err(String::from("No variable selected"))
    );
}

#[test]
fn env_var_cursor_cycles_over_entries() {
    let mut app = three_box_app();
    for (k, v) in [("A", "1"), ("B", "2")] {
        assert!(app.add_env_var(1, String::from(k), String::from(v)).is_ok());
    }
    app.next_env_var(1);
    assert_eq!(app.selected_env_var, Some(0));
    app.next_env_var(1);
    assert_eq!(app.selected_env_var, Some(1));
    app.next_env_var(1);
    assert_eq!(app.selected_env_var, Some(0));
    app.previous_env_var(1);
    assert_eq!(app.selected_env_var, Some(1));
}

#[test]
fn add_note_validates_and_stores_trimmed_content() {
    let mut app = three_box_app();
    assert_eq!(
        app.add_note(1, 0, String::from("   ")),
        Err(String::from("Content cannot be empty"))
    );
    assert_eq!(
        app.add_note(1, 9, String::from("x")),
        Err(String::from("Invalid category"))
    );
    assert_eq!(
        app.add_note(99, 0, String::from("x")),
        Err(String::from("Box not found"))
    );
    assert!(app.add_note(1, 0, String::from("  open ports  ")).is_ok());
    let b = app.box_by_id(1).unwrap();
    assert_eq!(b.notes[0].content, "open ports");
    assert!(matches!(b.notes[0].category, NoteCategory::Recon));
}

#[test]
fn delete_selected_note_reclamps_cursor() {
    let mut app = three_box_app();
    for c in ["one", "two"] {
        assert!(app.add_note(1, 8, String::from(c)).is_ok());
    }
    app.selected_note = Some(1);
    assert!(app.delete_selected_note(1).is_ok());
    assert_eq!(app.selected_note, Some(0));
    assert!(app.delete_selected_note(1).is_ok());
    assert_eq!(app.selected_note, None);
}

#[test]
fn note_categories_come_in_fixed_order() {
    let cats = App::note_categories();
    assert_eq!(cats.len(), 9);
    assert!(matches!(cats[0], NoteCategory::Recon));
    assert!(matches!(cats[1], NoteCategory::Foothold));
    assert!(matches!(cats[8], NoteCategory::Misc));
}

#[test]
fn category_names_and_icons() {
    assert_eq!(ctf_brain::model::category_name(&NoteCategory::Privesc), "Privesc");
    assert_eq!(ctf_brain::model::category_name(&NoteCategory::Reversing), "Reversing");
    assert_eq!(ctf_brain::model::category_icon(&NoteCategory::Misc), "📝");
}

#[test]
fn select_current_opens_details_of_selected_box() {
    let mut app = three_box_app();
    app.next();
    app.select_current();
    assert!(matches!(app.view, AppView::Details(2)));
    app.go_back();
    assert!(matches!(app.view, AppView::List));
}

#[test]
fn status_message_expires_after_four_seconds() {
    let mut app = App::new(Vec::new());
    app.set_status_at(String::from("saved"), StatusKind::Success, 1000);
    app.tick_status_at(4999);
    assert!(app.status_message.is_some());
    app.tick_status_at(5000);
    assert!(app.status_message.is_none());
}

#[test]
fn start_writeup_export_seeds_slug_path() {
    let mut app = App::new(vec![sample_box(5, "My Great Box")]);
    app.start_writeup_export(5);
    assert!(matches!(app.view, AppView::WriteupExport(5)));
    assert_eq!(app.writeup_path, "my-great-box-writeup.md");
}

#[test]
fn import_shell_logs_merges_and_dedups() {
    let mut app = three_box_app();
    let log = "{\"time\":\"2024-01-02T03:04:05Z\",\"box_id\":1,\"cmd\":\"nmap -sV 10.10.10.3\",\"result\":\"success\",\"output\":\"open\"}\n{\"time\":\"2024-01-02T03:04:06Z\",\"box_id\":1,\"cmd\":\"id\",\"auto\":true}\nnot json at all\n\n{\"time\":\"2024-01-02T03:04:07Z\",\"box_id\":1,\"cmd\":\"whoami\",\"result\":\"fail\",\"output\":\"root\",\"auto\":true}\n";
    let n = app.import_shell_logs(1, log);
    assert_eq!(n, 2);
    let b = app.box_by_id(1).unwrap();
    assert_eq!(b.actions.len(), 2);
    assert_eq!(b.actions[0].command, "nmap -sV 10.10.10.3");
    assert_eq!(b.actions[0].timestamp, 1704164645000);
    assert!(matches!(b.actions[0].result, ActionResult::Success));
    assert_eq!(b.actions[0].output.as_deref(), Some("open"));
    assert!(matches!(b.actions[1].result, ActionResult::Fail));
    // importing the same log again adds nothing
    let n2 = app.import_shell_logs(1, log);
    assert_eq!(n2, 0);
    let b = app.box_by_id(1).unwrap();
    assert_eq!(b.actions.len(), 2);
    assert_eq!(b.actions[0].command, "nmap -sV 10.10.10.3");
}

#[test]
fn import_sorts_actions_by_timestamp() {
    let mut app = three_box_app();
    let log = "{\"time\":\"2024-01-02T03:04:07Z\",\"box_id\":1,\"cmd\":\"later\"}\n{\"time\":\"2024-01-02T03:04:05Z\",\"box_id\":1,\"cmd\":\"earlier\"}\n";
    let n = app.import_shell_logs(1, log);
    assert_eq!(n, 2);
    let b = app.box_by_id(1).unwrap();
    assert_eq!(b.actions[0].command, "earlier");
    assert_eq!(b.actions[1].command, "later");
}

#[test]
fn import_for_missing_box_changes_nothing() {
    let mut app = three_box_app();
    let n = app.import_shell_logs(42, "{\"time\":\"x\",\"box_id\":42,\"cmd\":\"ls\"}\n");
    assert_eq!(n, 0);
    assert_eq!(app.boxes.len(), 3);
    for b in &app.boxes {
        assert_eq!(b.actions.len(), 0);
    }
}

#[test]
fn convert_record_falls_back_to_now_on_bad_time() {
    let mut app = three_box_app();
    let log = "{\"time\":\"not a moment\",\"box_id\":1,\"cmd\":\"ls\"}\n";
    let n = app.import_shell_logs_at(1, log, 1234567);
    assert_eq!(n, 1);
    let b = app.box_by_id(1).unwrap();
    assert_eq!(b.actions[0].timestamp, 1234567);
    assert!(matches!(b.actions[0].result, ActionResult::Unknown));
}

#[test]
fn quit_sets_flag() {
    let mut app = App::new(Vec::new());
    assert!(!app.should_quit);
    app.quit();
    assert!(app.should_quit);
}

#[test]
fn edit_views_require_existing_box() {
    let mut app = three_box_app();
    assert!(app.start_edit_env_vars(99).is_none());
    assert!(matches!(app.view, AppView::List));
    let form = app.start_edit_env_vars(2).unwrap();
    assert_eq!(form.key, "");
    assert!(matches!(app.view, AppView::EditEnvVars(2)));
    app.start_edit_notes(2);
    assert!(matches!(app.view, AppView::EditNotes(2)));
    assert_eq!(app.selected_note, None);
}

#[test]
fn delete_env_var_by_key() {
    let mut app = three_box_app();
    assert!(app.add_env_var(1, String::from("A"), String::from("1")).is_ok());
    assert_eq!(app.delete_env_var(1, "B"), Err(String::from("Variable not found")));
    assert!(app.delete_env_var(1, "A").is_ok());
    assert_eq!(app.box_by_id(1).unwrap().env_vars.len(), 0);
}

#[test]
fn env_value_looks_up_by_exact_key() {
    let mut app = three_box_app();
    assert!(app.add_env_var(1, String::from("API_KEY"), String::new()).is_ok());
    let b = app.box_by_id(1).unwrap();
    assert_eq!(b.env_value(&String::from("API_KEY")), Some(&String::new()));
    assert_eq!(b.env_value(&String::from("api_key")), None);
}

#[test]
fn submit_add_box_accepts_ipv6_literal() {
    let mut app = App::new(Vec::new());
    let mut form = app.start_add_box();
    form.title = String::from("Six");
    form.ip = String::from("2001:db8::8a2e:370:7334");
    assert!(app.submit_add_box(&form).is_ok());
    match &app.boxes[0].ip_address {
        IpAddress::V6(t) => assert_eq!(t, "2001:db8::8a2e:370:7334"),
        IpAddress::V4(_) => panic!("expected a V6 address"),
    }
}
