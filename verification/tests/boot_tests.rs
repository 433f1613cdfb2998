use nexec_lgc::boot::{
    backup_dirs, backup_path, boot_counter_rename, conf_file_name, conf_files, entry_file_path,
    entry_name, entry_raw_name, load_config, normalize_path, parse_counter,
};
use nexec_lgc::config::Entry;

fn chars(s: &str) -> Vec<char> {
    s.chars().collect()
}

fn text(cs: &[char]) -> String {
    cs.iter().collect()
}

#[test]
fn counter_from_raw_names() {
    assert_eq!(parse_counter(&chars("arch+3")), Some(3));
    assert_eq!(parse_counter(&chars("arch+0")), Some(0));
    assert_eq!(parse_counter(&chars("arch")), None);
    assert_eq!(parse_counter(&chars("arch+")), None);
    assert_eq!(parse_counter(&chars("arch+x1")), None);
    assert_eq!(parse_counter(&chars("a+b+12")), Some(12));
    assert_eq!(parse_counter(&chars("arch+4294967296")), None);
}

#[test]
fn raw_and_entry_names() {
    assert_eq!(text(entry_raw_name(&chars("arch+3.conf"))), "arch+3");
    assert_eq!(text(entry_raw_name(&chars("WIN.CONF"))), "WIN");
    assert_eq!(text(entry_raw_name(&chars("x.conf.conf"))), "x");
    assert_eq!(text(entry_name(&chars("arch+3"))), "arch");
    assert_eq!(text(entry_name(&chars("arch"))), "arch");
}

fn files(list: &[(&str, &str)]) -> Vec<(String, Vec<u8>)> {
    list.iter().map(|(n, d)| (n.to_string(), d.as_bytes().to_vec())).collect()
}

#[test]
fn load_config_defaults_without_files() {
    let cfg = load_config(None, None);
    assert_eq!(cfg.timeout, 5);
    assert!(cfg.default.is_none());
    assert!(cfg.entries.is_empty());
    let cfg = load_config(Some(b"timeout = x"), None);
    assert_eq!(cfg.timeout, 5);
}

#[test]
fn load_config_merges_main_and_entry_files() {
    let main = b"default = arch\ntimeout = 2\n[arch]\nefi = /old\n[arch]\nefi = /dup\n[win]\nefi = /bootmgr\n";
    let fs = files(&[
        ("arch+2.conf", "title = Arch\nefi = /vmlinuz-linux\n"),
        ("broken.conf", "title = No path\n"),
        ("lts.conf", "efi = /vmlinuz-lts\n"),
    ]);
    let cfg = load_config(Some(main), Some(&fs));
    assert_eq!(cfg.default.as_deref(), Some("arch"));
    assert_eq!(cfg.timeout, 2);
    let names: Vec<&str> = cfg.entries.iter().map(|e| e.name.as_str()).collect();
    assert_eq!(names, vec!["win", "arch", "lts"]);
    let arch = &cfg.entries[1];
    assert_eq!(arch.efi_path, "/vmlinuz-linux");
    assert_eq!(arch.boot_counter, Some(2));
    assert_eq!(arch.source_path.as_deref(), Some("\\EFI\\nexec\\entries\\arch+2.conf"));
    assert_eq!(cfg.entries[2].boot_counter, None);
}

fn counted(source: &str, counter: u32) -> Entry {
    Entry {
        name: "arch".to_string(),
        title: "Arch".to_string(),
        efi_path: "/vmlinuz".to_string(),
        options: None,
        initrd: Vec::new(),
        boot_counter: Some(counter),
        source_path: Some(source.to_string()),
    }
}

#[test]
fn boot_counter_rename_counts_down() {
    let r = boot_counter_rename(&counted("\\EFI\\nexec\\entries\\arch+3.conf", 3));
    assert_eq!(
        r,
        Some((
            "\\EFI\\nexec\\entries\\arch+3.conf".to_string(),
            "\\EFI\\nexec\\entries\\arch+2.conf".to_string()
        ))
    );
    let r = boot_counter_rename(&counted("\\EFI\\nexec\\entries\\arch+1.conf", 1));
    assert_eq!(r.unwrap().1, "\\EFI\\nexec\\entries\\arch.conf");
}

#[test]
fn boot_counter_rename_needs_counter_and_plus() {
    assert_eq!(boot_counter_rename(&counted("\\EFI\\nexec\\entries\\arch+0.conf", 0)), None);
    assert_eq!(boot_counter_rename(&counted("\\EFI\\nexec\\entries\\arch.conf", 2)), None);
    let mut e = counted("x", 2);
    e.source_path = None;
    assert_eq!(boot_counter_rename(&e), None);
}

#[test]
fn backup_copies_conf_files_only() {
    assert!(conf_file_name("a.conf"));
    assert!(conf_file_name("B.CONF"));
    assert!(!conf_file_name("a.txt"));
    let names: Vec<String> = ["a.conf", "notes.txt", "B.CONF"].iter().map(|s| s.to_string()).collect();
    assert_eq!(conf_files(&names), vec![0, 2]);
    assert_eq!(backup_path("a.conf"), "\\EFI\\nexec\\backup\\entries\\a.conf");
    assert_eq!(entry_file_path("a.conf"), "\\EFI\\nexec\\entries\\a.conf");
    assert_eq!(
        backup_dirs(),
        vec!["\\EFI\\nexec\\backup".to_string(), "\\EFI\\nexec\\backup\\entries".to_string()]
    );
}

#[test]
fn normalize_turns_slashes_into_backslashes() {
    assert_eq!(normalize_path("/EFI/Linux/arch.efi"), "\\EFI\\Linux\\arch.efi");
    assert_eq!(normalize_path("\\bootmgr"), "\\bootmgr");
    assert_eq!(normalize_path(""), "");
}

#[test]
fn configuration_paths() {
    assert_eq!(nexec_lgc::boot::main_config_path(), "\\EFI\\nexec\\nexec.conf");
    assert_eq!(nexec_lgc::boot::entries_dir_path(), "\\EFI\\nexec\\entries");
    assert_eq!(nexec_lgc::boot::backup_entries_dir_path(), "\\EFI\\nexec\\backup\\entries");
}

#[test]
fn only_conf_files_are_entries() {
    let fs = files(&[("NOTES.TXT", "efi = /x\n"), ("arch.conf", "efi = /vmlinuz\n")]);
    let cfg = load_config(None, Some(&fs));
    assert_eq!(cfg.entries.len(), 1);
    assert_eq!(cfg.entries[0].name, "arch");
}
