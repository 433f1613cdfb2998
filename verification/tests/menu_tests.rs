use nexec_lgc::config::{Config, Entry, Keybinds};
use nexec_lgc::keyboard::KeyEvent;
use nexec_lgc::menu::{Menu, MenuAction, MenuResult, RunState, Wait};

fn entry(name: &str, efi: &str, counter: Option<u32>) -> Entry {
    Entry {
        name: name.to_string(),
        title: name.to_uppercase(),
        efi_path: efi.to_string(),
        options: None,
        initrd: Vec::new(),
        boot_counter: counter,
        source_path: None,
    }
}

fn config(entries: Vec<Entry>, default: Option<&str>, order: Option<Vec<&str>>, timeout: u64) -> Config {
    Config {
        default: default.map(|s| s.to_string()),
        timeout,
        no_scan: false,
        order: order.map(|v| v.into_iter().map(|s| s.to_string()).collect()),
        entries,
        keybinds: Keybinds::default(),
    }
}

fn names(m: &Menu) -> Vec<String> {
    m.entries.iter().map(|e| e.name.clone()).collect()
}

#[test]
fn detected_first_then_configured() {
    let cfg = config(vec![entry("arch", "/vmlinuz", None)], None, None, 5);
    let m = Menu::new(&cfg, vec![entry("windows", "\\bootmgr", None)]);
    assert_eq!(names(&m), vec!["windows", "arch"]);
    assert_eq!(m.selected, 0);
    assert_eq!(m.timeout, 5);
}

#[test]
fn configured_entry_with_detected_path_is_dropped() {
    let cfg = config(vec![entry("win2", "\\bootmgr", None)], None, None, 5);
    let m = Menu::new(&cfg, vec![entry("windows", "\\bootmgr", None)]);
    assert_eq!(names(&m), vec!["windows"]);
}

#[test]
fn exhausted_entries_are_hidden() {
    let cfg = config(
        vec![entry("arch", "/vmlinuz", Some(0)), entry("alt", "/vmlinuz-lts", Some(2))],
        None,
        None,
        5,
    );
    let m = Menu::new(&cfg, Vec::new());
    assert_eq!(names(&m), vec!["alt"]);
}

#[test]
fn order_puts_named_entries_first() {
    let cfg = config(
        vec![entry("a", "/a", None), entry("b", "/b", None), entry("c", "/c", None)],
        Some("c"),
        Some(vec!["c", "missing", "a"]),
        5,
    );
    let m = Menu::new(&cfg, Vec::new());
    assert_eq!(names(&m), vec!["c", "a", "b"]);
    assert_eq!(m.selected, 0);
}

#[test]
fn default_is_selected() {
    let cfg = config(vec![entry("a", "/a", None), entry("b", "/b", None)], Some("b"), None, 5);
    let m = Menu::new(&cfg, Vec::new());
    assert_eq!(m.selected, 1);
    let cfg = config(vec![entry("a", "/a", None)], Some("nope"), None, 5);
    assert_eq!(Menu::new(&cfg, Vec::new()).selected, 0);
}

fn menu3() -> Menu {
    let cfg = config(
        vec![entry("a", "/a", None), entry("b", "/b", None), entry("c", "/c", None)],
        None,
        None,
        3,
    );
    Menu::new(&cfg, Vec::new())
}

#[test]
fn arrows_home_end_move_within_bounds() {
    let mut m = menu3();
    assert!(matches!(m.handle_event(KeyEvent::Up).action, MenuAction::Stay));
    assert_eq!(m.selected, 0);
    m.handle_event(KeyEvent::Down);
    assert_eq!(m.selected, 1);
    m.handle_event(KeyEvent::End);
    assert_eq!(m.selected, 2);
    m.handle_event(KeyEvent::Down);
    assert_eq!(m.selected, 2);
    m.handle_event(KeyEvent::Up);
    assert_eq!(m.selected, 1);
    m.handle_event(KeyEvent::Home);
    assert_eq!(m.selected, 0);
}

#[test]
fn enter_boots_selected() {
    let mut m = menu3();
    m.handle_event(KeyEvent::Down);
    match m.handle_event(KeyEvent::Enter).action {
        MenuAction::Finish(MenuResult::Boot(e)) => assert_eq!(e.name, "b"),
        _ => panic!("expected a boot"),
    }
}

#[test]
fn keybinds_choose_actions_case_insensitively() {
    let mut m = menu3();
    assert!(matches!(m.handle_event(KeyEvent::Char('M')).action, MenuAction::Finish(MenuResult::Manual)));
    assert!(matches!(m.handle_event(KeyEvent::Char('b')).action, MenuAction::Finish(MenuResult::RestoreBackup)));
    assert!(matches!(m.handle_event(KeyEvent::Char('s')).action, MenuAction::Finish(MenuResult::Shutdown)));
    assert!(matches!(m.handle_event(KeyEvent::Char('r')).action, MenuAction::Reboot));
    let out = m.handle_event(KeyEvent::Char('f'));
    assert!(out.firmware_notice);
    assert!(matches!(out.action, MenuAction::Stay));
    assert!(matches!(m.handle_event(KeyEvent::Escape).action, MenuAction::Stay));
}

#[test]
fn digit_boots_that_entry() {
    let mut m = menu3();
    match m.handle_event(KeyEvent::Char('3')).action {
        MenuAction::Finish(MenuResult::Boot(e)) => assert_eq!(e.name, "c"),
        _ => panic!("expected a boot"),
    }
    assert_eq!(m.selected, 2);
    assert!(matches!(m.handle_event(KeyEvent::Char('9')).action, MenuAction::Stay));
    assert!(matches!(m.handle_event(KeyEvent::Char('0')).action, MenuAction::Stay));
}

#[test]
fn countdown_boots_selected_when_it_runs_out() {
    let mut m = menu3();
    let mut st = m.start();
    assert_eq!(st, RunState { remaining: 30, dirty: true });
    assert_eq!(m.next_wait(&mut st), Wait::Poll { redraw: true });
    for _ in 0..29 {
        let out = m.run(&mut st, None);
        assert!(matches!(out.action, MenuAction::Stay));
    }
    assert_eq!(st.remaining, 1);
    match m.run(&mut st, None).action {
        MenuAction::Finish(MenuResult::Boot(e)) => assert_eq!(e.name, "a"),
        _ => panic!("expected the countdown to boot"),
    }
}

#[test]
fn key_stops_countdown() {
    let mut m = menu3();
    let mut st = m.start();
    m.next_wait(&mut st);
    let out = m.run(&mut st, Some(KeyEvent::Down));
    assert!(matches!(out.action, MenuAction::Stay));
    assert_eq!(st.remaining, 0);
    assert_eq!(m.next_wait(&mut st), Wait::Block { redraw: true });
    assert!(matches!(m.run(&mut st, None).action, MenuAction::Stay));
}

#[test]
fn zero_timeout_waits_for_a_key() {
    let cfg = config(vec![entry("a", "/a", None)], None, None, 0);
    let m = Menu::new(&cfg, Vec::new());
    let mut st = m.start();
    assert_eq!(st.remaining, 0);
    assert_eq!(m.next_wait(&mut st), Wait::Block { redraw: true });
}

#[test]
fn empty_menu_shows_no_entries() {
    let cfg = config(Vec::new(), None, None, 5);
    let m = Menu::new(&cfg, Vec::new());
    let mut st = m.start();
    assert_eq!(m.next_wait(&mut st), Wait::NoEntries);
}

#[test]
fn manual_key_works_without_entries() {
    let cfg = Config::parse(b"timeout = 3\n").unwrap();
    let mut m = Menu::new(&cfg, Vec::new());
    let mut st = m.start();
    assert_eq!(m.next_wait(&mut st), Wait::NoEntries);
    let out = m.run(&mut st, Some(KeyEvent::Char('x')));
    assert!(matches!(out.action, MenuAction::Stay));
    let out = m.run(&mut st, Some(KeyEvent::Enter));
    assert!(matches!(out.action, MenuAction::Stay));
    let out = m.run(&mut st, Some(KeyEvent::Char('M')));
    assert!(matches!(out.action, MenuAction::Finish(MenuResult::Manual)));
}
