use nexec_lgc::boot::{entry_name, entry_raw_name, parse_counter};
use nexec_lgc::cli::{
    bios_source, build_linux_options_from, config_files_to_remove, current_os_from, entries_dir,
    entry_conf_path, entry_file_contents, entry_file_name, find_entry_file, generate_config_files,
    in_live_env, init_main_path_of, initrd_patterns_for, install_dir, installed_bios_path,
    is_conf_file, is_mounted, join_with_spaces, kernel_detected, line_value, linux_options,
    lines_of, mark_good_plan, mbr_backup_path, mbr_disk_path, mbr_save_args, mbr_write_args, mount_target, root_device_from, root_kernel_path,
    root_param, running_entry, set_default_content, sort_names, status, tries_file_name,
    tries_label_of, uki_detected, uses_running_cmdline, BiosSource, DetectedEntry, InstallArgs,
    MarkGood, Style,
};

fn strings(v: &[&str]) -> Vec<String> {
    v.iter().map(|s| s.to_string()).collect()
}

#[test]
fn options_from_running_cmdline() {
    assert_eq!(
        build_linux_options_from("BOOT_IMAGE=/vmlinuz root=UUID=1 initrd=/i.img quiet ro"),
        "BOOT_IMAGE=/vmlinuz root=UUID=1 ro rootwait rw panic=10"
    );
    assert_eq!(build_linux_options_from(""), "rootwait rw panic=10");
    assert_eq!(build_linux_options_from("root=/dev/sda1 rw rootwait panic=5"), "root=/dev/sda1 rw rootwait panic=5");
    assert_eq!(build_linux_options_from("archisobasedir=arch root=x"), "root=x rootwait rw panic=10");
}

#[test]
fn live_environment_detection() {
    assert!(in_live_env("initrd=x archisolabel=ARCH"));
    assert!(!in_live_env("root=/dev/sda1 quiet"));
    assert!(uses_running_cmdline("  root=/dev/sda1 rw\n"));
    assert!(!uses_running_cmdline("root=/dev/sda1 archisodevice=x"));
    assert!(!uses_running_cmdline("quiet"));
}

#[test]
fn options_fall_back_to_root_param() {
    assert_eq!(linux_options("root=/dev/sda2 quiet\n", None), "root=/dev/sda2 rootwait rw panic=10");
    assert_eq!(linux_options("quiet", Some("root=UUID=9")), "root=UUID=9 rootwait rw panic=10");
    assert_eq!(linux_options("quiet", None), "rootwait rw panic=10");
}

#[test]
fn root_parameter() {
    assert_eq!(root_param(Some("abcd-1234\n"), "/dev/sda2"), "root=UUID=abcd-1234");
    assert_eq!(root_param(Some("  \n"), "/dev/sda2"), "root=/dev/sda2");
    assert_eq!(root_param(None, "/dev/nvme0n1p2"), "root=/dev/nvme0n1p2");
    assert_eq!(mount_target(" 259:2\n"), Some("259:2".to_string()));
    assert_eq!(mount_target("\n"), None);
}

#[test]
fn root_device_from_mountinfo() {
    let info = "22 1 259:2 / / rw,relatime shared:1 - ext4 /dev/nvme0n1p2 rw\n\
                23 1 7:0 / /snap rw - squashfs /dev/loop0 ro\n";
    assert_eq!(root_device_from(info, "259:2"), Some("/dev/nvme0n1p2".to_string()));
    assert_eq!(root_device_from(info, "7:0"), None);
    assert_eq!(root_device_from(info, "8:1"), None);
}

#[test]
fn mounts_lookup() {
    let mounts = "/dev/sda1 /boot vfat rw 0 0\nproc /proc proc rw 0 0\n";
    assert!(is_mounted(mounts, "/boot"));
    assert!(!is_mounted(mounts, "/boot/efi"));
}

#[test]
fn paths_under_boot() {
    assert_eq!(entries_dir("/boot/"), "/boot/EFI/nexec/entries");
    assert_eq!(install_dir("/boot"), "/boot/EFI/nexec");
    assert_eq!(installed_bios_path("/boot//"), "/boot/EFI/nexec/nexec-lgc-bios");
    assert_eq!(entry_conf_path("/b/e", "arch"), "/b/e/arch.conf");
    assert_eq!(
        config_files_to_remove("/boot"),
        ("/boot/nexec.conf".to_string(), "/boot/EFI/nexec/nexec.conf".to_string())
    );
    assert_eq!(
        mbr_write_args("bios.bin", "/dev/sda"),
        strings(&["if=bios.bin", "of=/dev/sda", "bs=512", "count=1", "conv=notrunc"])
    );
}

#[test]
fn original_boot_sector_is_kept() {
    assert_eq!(mbr_backup_path("/boot/"), "/boot/EFI/nexec/mbr.bak");
    assert_eq!(mbr_disk_path("/boot"), "/boot/EFI/nexec/mbr.disk");
    assert_eq!(
        mbr_save_args("/dev/sda", "/boot/EFI/nexec/mbr.bak"),
        strings(&["if=/dev/sda", "of=/boot/EFI/nexec/mbr.bak", "bs=512", "count=1"])
    );
    assert_eq!(
        mbr_write_args("/boot/EFI/nexec/mbr.bak", "/dev/sda"),
        strings(&["if=/boot/EFI/nexec/mbr.bak", "of=/dev/sda", "bs=512", "count=1", "conv=notrunc"])
    );
}

#[test]
fn entry_file_names() {
    assert_eq!(entry_file_name("arch", Some(3)), "arch+3.conf");
    assert_eq!(entry_file_name("arch", None), "arch.conf");
    assert_eq!(tries_file_name("arch", 0), "arch.conf");
    assert_eq!(tries_file_name("arch", 5), "arch+5.conf");
    assert!(is_conf_file("x.conf"));
    assert!(!is_conf_file("x.CONF"));
}

#[test]
fn entry_contents() {
    let c = entry_file_contents("Arch", "/vmlinuz", &strings(&["/a.img", "/b.img"]), Some("rw"));
    assert_eq!(c, "title = Arch\nefi = /vmlinuz\ninitrd = /a.img\ninitrd = /b.img\noptions = rw\n");
    let c = entry_file_contents("W", "/bootmgr", &Vec::new(), None);
    assert_eq!(c, "title = W\nefi = /bootmgr\n");
}

#[test]
fn finding_entry_files() {
    let names = strings(&["archive.conf", "arch+2.conf", "arch.conf"]);
    assert_eq!(find_entry_file(&names, "arch"), Some(1));
    assert_eq!(find_entry_file(&names, "win"), None);
    assert_eq!(mark_good_plan(&names, "arch"), MarkGood::AlreadyGood);
    let names = strings(&["arch+2.conf", "x.conf", "arch+1.conf"]);
    assert_eq!(mark_good_plan(&names, "arch"), MarkGood::Rename(2));
    assert_eq!(mark_good_plan(&names, "x"), MarkGood::AlreadyGood);
    assert_eq!(mark_good_plan(&names, "y"), MarkGood::NotFound);
}

#[test]
fn listing_labels() {
    assert_eq!(tries_label_of("arch+3.conf"), " [3 tries]");
    assert_eq!(tries_label_of("arch.conf"), "");
    assert_eq!(tries_label_of("arch+x.conf"), "");
    let content = "title = Arch\r\nefi = /vmlinuz\n";
    assert_eq!(line_value(content, "title = "), Some("Arch".to_string()));
    assert_eq!(line_value(content, "efi = "), Some("/vmlinuz".to_string()));
    assert_eq!(line_value(content, "options = "), None);
}

#[test]
fn lines_like_str_lines() {
    let ls: Vec<String> = lines_of("a\r\nb\n\nc\r").iter().map(|l| l.iter().collect()).collect();
    assert_eq!(ls, strings(&["a", "b", "", "c\r"]));
    assert!(lines_of("").is_empty());
    assert_eq!(lines_of("x\n").len(), 1);
}

#[test]
fn set_default_rewrites_or_appends() {
    let (c, found) = set_default_content("timeout = 5\n  default = old\ndefault = other\n", "arch");
    assert!(found);
    assert_eq!(c, "timeout = 5\ndefault = arch\ndefault = other");
    let (c, found) = set_default_content("timeout = 5\n", "arch");
    assert!(!found);
    assert_eq!(c, "timeout = 5\n\ndefault = arch");
    let (c, found) = set_default_content("defaults\n", "w");
    assert!(!found);
    assert_eq!(c, "defaults\n\ndefault = w");
}

fn detected(name: &str, path: &str, options: Option<&str>) -> DetectedEntry {
    DetectedEntry {
        name: name.to_string(),
        title: name.to_uppercase(),
        efi_path: path.to_string(),
        options: options.map(|s| s.to_string()),
        initrd: Vec::new(),
    }
}

#[test]
fn generated_config_keeps_each_path_once() {
    let ds = vec![
        detected("windows", "/bootmgr", None),
        detected("arch", "/vmlinuz-linux", Some("rw")),
        detected("linux", "/vmlinuz-linux", Some("rw")),
    ];
    let (main, files) = generate_config_files(&ds);
    assert_eq!(
        main,
        "# nexec-lgc main configuration\n# Boot entries are in /EFI/nexec/entries/*.conf\nno_scan = true\ntimeout = 5\norder = windows arch\n# Keybinds (change these for non-QWERTY layouts)\nkey_manual = m\nkey_firmware = f\nkey_reboot = r\nkey_shutdown = s\nkey_backup = b\n"
    );
    assert_eq!(files.len(), 2);
    assert_eq!(files[0], ("windows".to_string(), "title = WINDOWS\nefi = /bootmgr\n".to_string()));
    assert_eq!(files[1].1, "title = ARCH\nefi = /vmlinuz-linux\noptions = rw\n");
}

#[test]
fn generated_config_without_entries_has_no_order() {
    let (main, files) = generate_config_files(&Vec::new());
    assert!(!main.contains("order"));
    assert!(files.is_empty());
}

#[test]
fn detected_ukis_and_kernels() {
    let w = nexec_lgc::cli::windows_detected();
    assert_eq!((w.name.as_str(), w.title.as_str(), w.efi_path.as_str()), ("windows", "Windows", "/bootmgr"));
    assert!(w.options.is_none() && w.initrd.is_empty());
    let d = uki_detected("Arch-Linux.efi").unwrap();
    assert_eq!(d.name, "arch-linux");
    assert_eq!(d.title, "Arch Linux");
    assert_eq!(d.efi_path, "/EFI/Linux/Arch-Linux.efi");
    assert!(uki_detected("x.img").is_none());
    let k = kernel_detected("vmlinuz-6.1-ARCH", "rw").unwrap();
    assert_eq!(k.name, "linux-6.1-arch");
    assert_eq!(k.title, "Linux 6.1-ARCH");
    assert_eq!(k.efi_path, "/vmlinuz-6.1-ARCH");
    assert_eq!(k.options.as_deref(), Some("rw"));
    let k = kernel_detected("vmlinuz.efi", "").unwrap();
    assert_eq!(k.name, "linux");
    assert!(kernel_detected("initrd.img", "").is_none());
    assert_eq!(root_kernel_path(&strings(&["a", "vmlinuz-2", "vmlinuz"])), Some("/vmlinuz-2".to_string()));
    assert_eq!(root_kernel_path(&strings(&["a"])), None);
}

#[test]
fn names_are_sorted() {
    let v = strings(&["vmlinuz-b", "vmlinuz", "vmlinuz-a", "vmlinuz-B"]);
    assert_eq!(sort_names(&v), strings(&["vmlinuz", "vmlinuz-B", "vmlinuz-a", "vmlinuz-b"]));
}

#[test]
fn os_release_identity() {
    let c = "NAME=\"Arch Linux\"\nPRETTY_NAME=\"Arch Linux\"\nID=Arch\nVERSION_ID=1\n";
    assert_eq!(current_os_from(c), ("arch".to_string(), "Arch Linux".to_string()));
    assert_eq!(current_os_from(""), ("linux".to_string(), "Linux".to_string()));
}

#[test]
fn running_system_entry() {
    let e = running_entry("arch", "Arch", Some("/vmlinuz-linux"), Some("/initramfs-linux.img"), Some("/vmlinuz"), "rw").unwrap();
    assert_eq!(e.efi_path, "/vmlinuz-linux");
    assert_eq!(e.initrd, strings(&["/initramfs-linux.img"]));
    assert_eq!(e.options.as_deref(), Some("rw"));
    let e = running_entry("arch", "Arch", None, Some("/x"), Some("/vmlinuz"), "rw").unwrap();
    assert_eq!(e.efi_path, "/vmlinuz");
    assert!(e.initrd.is_empty());
    assert!(running_entry("arch", "Arch", None, None, None, "rw").is_none());
    assert!(running_entry("arch", "Arch", Some(""), None, Some("/v"), "rw").is_none());
}

#[test]
fn initrd_patterns() {
    assert_eq!(initrd_patterns_for("vmlinuz-linux"), strings(&["/boot/initramfs-linux.img", "/boot/initrd.img-linux"]));
    assert_eq!(initrd_patterns_for("vmlinuz"), strings(&["/boot/initramfs-linux.img", "/boot/initrd.img", "/boot/initramfs.img"]));
}

#[test]
fn install_choices() {
    let args = |bios: Option<&str>, no_build: bool| InstallArgs {
        boot_path: None,
        disk: None,
        bios_path: bios.map(|s| s.to_string()),
        no_build,
        no_config: false,
    };
    assert_eq!(bios_source(&args(Some("/b"), true)), BiosSource::Given("/b".to_string()));
    assert_eq!(bios_source(&args(None, true)), BiosSource::Missing);
    assert_eq!(bios_source(&args(None, false)), BiosSource::Locate);
    assert_eq!(init_main_path_of("./nexec.conf", false), "./nexec.conf");
    assert_eq!(init_main_path_of("./out/", false), "./out/nexec.conf");
    assert_eq!(init_main_path_of("./out", true), "./out/nexec.conf");
    assert_eq!(init_main_path_of("./out", false), "./out/nexec.conf");
    assert_eq!(init_main_path_of("", false), "nexec.conf");
}

#[test]
fn status_report_lines() {
    let r = status(Some("/boot"), true);
    assert_eq!(r.len(), 3);
    assert_eq!(r[0], (Style::BoldCyan, "nexec-lgc status".to_string()));
    assert_eq!(r[2], (Style::Green, "  Installed: yes (/boot/EFI/nexec/nexec-lgc-bios)".to_string()));
    let r = status(Some("/boot"), false);
    assert_eq!(r[3], (Style::Dim, "  Boot partition detected at: /boot".to_string()));
    let r = status(None, false);
    assert_eq!(r[2], (Style::Yellow, "  Boot partition: not detected".to_string()));
    assert_eq!(join_with_spaces(&strings(&["a", "b"])), "a b");
}

#[test]
fn written_entry_reads_back() {
    let c = entry_file_contents(
        "Arch Linux",
        "/vmlinuz-linux",
        &strings(&["/intel-ucode.img", "/initramfs-linux.img"]),
        Some("root=UUID=1 rw quiet"),
    );
    let e = nexec_lgc::config::Config::parse_entry_file("arch", c.as_bytes()).unwrap();
    assert_eq!(e.name, "arch");
    assert_eq!(e.title, "Arch Linux");
    assert_eq!(e.efi_path, "/vmlinuz-linux");
    assert_eq!(e.initrd, strings(&["/intel-ucode.img", "/initramfs-linux.img"]));
    assert_eq!(e.options.as_deref(), Some("root=UUID=1 rw quiet"));
    assert!(e.boot_counter.is_none());
    let c = entry_file_contents("", "/bootmgr", &Vec::new(), None);
    let e = nexec_lgc::config::Config::parse_entry_file("w", c.as_bytes()).unwrap();
    assert_eq!(e.title, "");
    assert_eq!(e.efi_path, "/bootmgr");
    assert!(e.initrd.is_empty());
    assert!(e.options.is_none());
}

#[test]
fn written_tries_read_back() {
    let f: Vec<char> = entry_file_name("arch", Some(3)).chars().collect();
    let raw = entry_raw_name(&f);
    assert_eq!(parse_counter(raw), Some(3));
    assert_eq!(entry_name(raw).iter().collect::<String>(), "arch");
    let f: Vec<char> = nexec_lgc::cli::tries_file_name("arch", 0).chars().collect();
    let raw = entry_raw_name(&f);
    assert_eq!(parse_counter(raw), None);
    assert_eq!(entry_name(raw).iter().collect::<String>(), "arch");
}

#[test]
fn generated_main_config_reads_back() {
    let ds = vec![
        detected("windows", "/bootmgr", None),
        detected("linux-6.1", "/vmlinuz-6.1", Some("rw")),
    ];
    let (main, _) = generate_config_files(&ds);
    let cfg = nexec_lgc::config::Config::parse(main.as_bytes()).unwrap();
    assert!(cfg.no_scan);
    assert_eq!(cfg.timeout, 5);
    assert!(cfg.default.is_none());
    assert_eq!(cfg.order, Some(strings(&["windows", "linux-6.1"])));
    assert!(cfg.entries.is_empty());
    assert_eq!(cfg.keybinds, nexec_lgc::config::Keybinds::default());
    let (main, _) = generate_config_files(&Vec::new());
    let cfg = nexec_lgc::config::Config::parse(main.as_bytes()).unwrap();
    assert!(cfg.no_scan);
    assert!(cfg.order.is_none());
}

#[test]
fn added_entry_loads_in_bootloader() {
    let file = entry_file_name("arch", Some(2));
    let contents = entry_file_contents("Arch", "/vmlinuz-linux", &strings(&["/initramfs-linux.img"]), Some("rw"));
    let fs = vec![(file.clone(), contents.into_bytes())];
    let cfg = nexec_lgc::boot::load_config(None, Some(&fs));
    assert_eq!(cfg.entries.len(), 1);
    let e = &cfg.entries[0];
    assert_eq!(e.name, "arch");
    assert_eq!(e.title, "Arch");
    assert_eq!(e.efi_path, "/vmlinuz-linux");
    assert_eq!(e.initrd, strings(&["/initramfs-linux.img"]));
    assert_eq!(e.options.as_deref(), Some("rw"));
    assert_eq!(e.boot_counter, Some(2));
    assert_eq!(e.source_path.as_deref(), Some("\\EFI\\nexec\\entries\\arch+2.conf"));
}

#[test]
fn detected_entries_from_lowered_names() {
    let d = nexec_lgc::cli::uki_detected_lowered("Arch-Linux.efi", "arch-linux.efi").unwrap();
    assert_eq!(d.name, "arch-linux");
    assert_eq!(d.title, "Arch Linux");
    assert!(nexec_lgc::cli::uki_detected_lowered("x.img", "x.img").is_none());
    let d = nexec_lgc::cli::kernel_detected_lowered("vmlinuz-6.1-ARCH", "6.1-arch", "rw").unwrap();
    assert_eq!(d.name, "linux-6.1-arch");
    assert_eq!(d.title, "Linux 6.1-ARCH");
    assert_eq!(d.efi_path, "/vmlinuz-6.1-ARCH");
    assert_eq!(d.options.as_deref(), Some("rw"));
    let d = nexec_lgc::cli::kernel_detected_lowered("vmlinuz", "", "").unwrap();
    assert_eq!(d.name, "linux");
    assert!(nexec_lgc::cli::kernel_detected_lowered("bzImage", "", "").is_none());
}

#[test]
fn os_release_fields_and_identity() {
    let (id, name) = nexec_lgc::cli::os_release_fields("NAME=\"Arch Linux\"\nID=Arch\nID=\"ARCH\"\n");
    assert_eq!(id.as_deref(), Some("ARCH"));
    assert_eq!(name.as_deref(), Some("Arch Linux"));
    assert_eq!(
        nexec_lgc::cli::os_identity_of(Some("arch".to_string()), None),
        ("arch".to_string(), "Linux".to_string())
    );
    assert_eq!(nexec_lgc::cli::os_identity_of(None, None), ("linux".to_string(), "Linux".to_string()));
    assert_eq!(current_os_from("ID=ARCH\n"), ("arch".to_string(), "Linux".to_string()));
}

#[test]
fn options_built_twice_are_unchanged() {
    assert_eq!(build_linux_options_from("root=/dev/sda2 quiet initrd=\\x.img"), "root=/dev/sda2 rootwait rw panic=10");
    for s in [
        "",
        "root=/dev/sda2 quiet initrd=\\x.img",
        "BOOT_IMAGE=/vmlinuz root=UUID=1 ro quiet splash panic=5 archisobasedir=arch rw",
        "  quiet   quiet rootwait ",
    ] {
        let once = build_linux_options_from(s);
        assert_eq!(build_linux_options_from(&once), once);
    }
}
