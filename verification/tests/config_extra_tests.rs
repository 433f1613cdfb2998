use nexec_lgc::config::Config;

#[test]
fn invalid_timeout_is_refused() {
    assert_eq!(Config::parse(b"timeout = soon\n").err(), Some("invalid timeout"));
}

#[test]
fn unclosed_section_is_refused() {
    assert_eq!(Config::parse(b"[arch\ntitle = Arch\n").err(), Some("unclosed section"));
}

#[test]
fn empty_section_name_is_refused() {
    assert_eq!(Config::parse(b"[  ]\n").err(), Some("empty section name"));
}

#[test]
fn config_not_utf8_is_refused() {
    assert_eq!(Config::parse(&[0xff, 0xfe]).err(), Some("config not valid UTF-8"));
}

#[test]
fn entry_file_without_efi_is_refused() {
    let r = Config::parse_entry_file("arch", b"title = Arch\n");
    assert_eq!(r.err(), Some("entry file has no efi = path"));
}

#[test]
fn entry_file_not_utf8_is_refused() {
    let r = Config::parse_entry_file("arch", &[0xc3]);
    assert_eq!(r.err(), Some("entry file not valid UTF-8"));
}

#[test]
fn entry_file_full() {
    let data = "# comment\ntitle = \"Arch Linux\"\nefi = /vmlinuz-linux\r\ninitrd = /amd-ucode.img\ninitrd = /initramfs-linux.img\noptions = root=UUID=1 rw\n";
    let e = Config::parse_entry_file("arch", data.as_bytes()).unwrap();
    assert_eq!(e.name, "arch");
    assert_eq!(e.title, "Arch Linux");
    assert_eq!(e.efi_path, "/vmlinuz-linux");
    assert_eq!(e.initrd, vec!["/amd-ucode.img".to_string(), "/initramfs-linux.img".to_string()]);
    assert_eq!(e.options.as_deref(), Some("root=UUID=1 rw"));
    assert_eq!(e.boot_counter, None);
}

#[test]
fn entry_file_empty_options_are_none() {
    let e = Config::parse_entry_file("x", b"efi = /a\noptions =\n").unwrap();
    assert_eq!(e.options, None);
}

#[test]
fn bls_entry_with_linux_key() {
    let data = "title Fedora\nlinux /vmlinuz-6.1\ninitrd /initramfs-6.1.img\noptions root=/dev/sda2 ro\n";
    let e = Config::parse_bls_entry("fedora-6.1", data.as_bytes()).unwrap();
    assert_eq!(e.name, "fedora-6.1");
    assert_eq!(e.title, "Fedora");
    assert_eq!(e.efi_path, "/vmlinuz-6.1");
    assert_eq!(e.initrd, vec!["/initramfs-6.1.img".to_string()]);
    assert_eq!(e.options.as_deref(), Some("root=/dev/sda2 ro"));
}

#[test]
fn bls_entry_without_path_is_refused() {
    let r = Config::parse_bls_entry("x", b"title Nothing\n");
    assert_eq!(r.err(), Some("BLS entry has no linux= or efi= path"));
}

#[test]
fn bls_entry_not_utf8_is_refused() {
    let r = Config::parse_bls_entry("x", &[0x80]);
    assert_eq!(r.err(), Some("BLS entry not valid UTF-8"));
}

#[test]
fn sections_and_globals() {
    let data = "no_scan = true\ntimeout = 0\n[win]\nefi = /bootmgr\n[arch]\nefi = /vmlinuz\n";
    let cfg = Config::parse(data.as_bytes()).unwrap();
    assert!(cfg.no_scan);
    assert_eq!(cfg.timeout, 0);
    assert_eq!(cfg.entries.len(), 2);
    assert_eq!(cfg.entries[0].name, "win");
    assert_eq!(cfg.entries[1].name, "arch");
    assert_eq!(cfg.entries[1].efi_path, "/vmlinuz");
}
