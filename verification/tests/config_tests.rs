use nexec_lgc::config::Config;

fn parse(s: &str) -> Result<Config, &'static str> {
    Config::parse(s.as_bytes())
}

#[test]
fn full_config() {
    let data = r#"
default = arch
timeout = 3
order = arch windows

[arch]
title = Arch Linux
efi = /vmlinuz-linux
options = root=UUID=123 rw quiet
initrd = /initramfs-linux.img

[windows]
title = Windows
efi = /EFI/Microsoft/Boot/bootmgfw.efi
"#;
    let cfg = parse(data).unwrap();
    assert_eq!(cfg.default.as_deref(), Some("arch"));
    assert_eq!(cfg.timeout, 3);
    assert!(!cfg.no_scan);
    assert_eq!(cfg.order.as_deref().unwrap(), &["arch", "windows"]);
    assert_eq!(cfg.entries.len(), 2);
}

#[test]
fn empty_config() {
    let cfg = parse("").unwrap();
    assert!(cfg.default.is_none());
    assert_eq!(cfg.timeout, 5);
    assert!(!cfg.no_scan);
    assert!(cfg.order.is_none());
    assert!(cfg.entries.is_empty());
}

#[test]
fn keybind_defaults() {
    let cfg = parse("").unwrap();
    assert_eq!(cfg.keybinds.manual, 'm');
    assert_eq!(cfg.keybinds.firmware, 'f');
    assert_eq!(cfg.keybinds.reboot, 'r');
    assert_eq!(cfg.keybinds.shutdown, 's');
    assert_eq!(cfg.keybinds.backup, 'b');
}

#[test]
fn keybind_custom() {
    let data = "key_manual = a\nkey_firmware = z\nkey_reboot = e\nkey_shutdown = r\nkey_backup = t\n";
    let cfg = parse(data).unwrap();
    assert_eq!(cfg.keybinds.manual, 'a');
    assert_eq!(cfg.keybinds.firmware, 'z');
    assert_eq!(cfg.keybinds.reboot, 'e');
    assert_eq!(cfg.keybinds.shutdown, 'r');
    assert_eq!(cfg.keybinds.backup, 't');
}

#[test]
fn parse_entry_file_minimal() {
    let data = "efi = /vmlinuz-linux";
    let e = Config::parse_entry_file("linux", data.as_bytes()).unwrap();
    assert_eq!(e.name, "linux");
    assert_eq!(e.efi_path, "/vmlinuz-linux");
}
