use std::collections::HashMap;

use nexec_lgc::config::Entry;
use nexec_lgc::detect::{
    initrd_candidates_for, kernel_entry, kernel_version_of, remove_all_of, scan_all_files,
    scan_partition, uki_entries_of, uki_entry, windows_entry, FsRequest, ScanStage, WalkStage,
};

fn run_scan(files: &[&str], dirs: &HashMap<&str, Vec<&str>>) -> Vec<Entry> {
    let mut scan = scan_partition();
    loop {
        match scan.request() {
            FsRequest::ReadFile(p) => scan.feed_file(files.contains(&p.as_str())),
            FsRequest::ReadDir(p) => {
                let listing = dirs.get(p.as_str()).map(|v| v.iter().map(|s| s.to_string()).collect());
                scan.feed_dir(listing)
            }
            FsRequest::Done => break,
        }
    }
    assert_eq!(scan.stage(), ScanStage::Finished);
    scan.result()
}

#[test]
fn windows_entry_fields() {
    let w = windows_entry();
    assert_eq!(w.name, "windows");
    assert_eq!(w.title, "Windows");
    assert_eq!(w.efi_path, "\\bootmgr");
}

#[test]
fn uki_names_and_titles() {
    let e = uki_entry("arch-linux-lts.efi").unwrap();
    assert_eq!(e.name, "arch-linux-lts");
    assert_eq!(e.title, "Arch Linux Lts");
    assert_eq!(e.efi_path, "\\EFI\\Linux\\arch-linux-lts.efi");
    let e = uki_entry("Fedora.EFI").unwrap();
    assert_eq!(e.name, "fedora");
    assert_eq!(e.title, "Fedora");
    assert!(uki_entry("readme.txt").is_none());
    let names: Vec<String> = ["a.efi", "b.txt", "c.EFI"].iter().map(|s| s.to_string()).collect();
    let es = uki_entries_of(&names);
    assert_eq!(es.len(), 2);
    assert_eq!(es[1].efi_path, "\\EFI\\Linux\\c.EFI");
}

#[test]
fn remove_all_takes_out_every_occurrence() {
    let s: Vec<char> = "a.efi.efib".chars().collect();
    let p: Vec<char> = ".efi".chars().collect();
    assert_eq!(remove_all_of(&s, &p), "ab");
}

#[test]
fn kernel_versions() {
    assert_eq!(kernel_version_of("vmlinuz"), Some(String::new()));
    assert_eq!(kernel_version_of("vmlinuz-6.1-LTS"), Some("6.1-LTS".to_string()));
    assert_eq!(kernel_version_of("vmlinuz.old"), None);
    assert_eq!(kernel_version_of("initrd.img"), None);
}

#[test]
fn initrd_candidates_in_order() {
    assert_eq!(
        initrd_candidates_for(""),
        vec!["\\initramfs-linux.img", "\\initrd.img", "\\initramfs.img"]
    );
    assert_eq!(
        initrd_candidates_for("6.1"),
        vec!["\\initramfs-6.1.img", "\\initrd.img-6.1", "\\initramfs-6.1-generic.img"]
    );
}

#[test]
fn kernel_entry_fields() {
    let e = kernel_entry("vmlinuz-6.1-LTS", "6.1-LTS", vec!["\\initrd.img-6.1-LTS".to_string()]);
    assert_eq!(e.name, "linux-6.1-lts");
    assert_eq!(e.title, "Linux 6.1-LTS");
    assert_eq!(e.efi_path, "\\vmlinuz-6.1-LTS");
    assert_eq!(e.initrd, vec!["\\initrd.img-6.1-LTS".to_string()]);
    let e = kernel_entry("vmlinuz", "", Vec::new());
    assert_eq!(e.name, "linux");
    assert_eq!(e.title, "Linux");
}

#[test]
fn scan_finds_windows_ukis_and_kernels() {
    let mut dirs = HashMap::new();
    dirs.insert("\\EFI\\Linux", vec!["arch.efi", "notes.txt"]);
    dirs.insert("\\", vec!["bootmgr", "vmlinuz-6.1", "initrd.img-6.1", "vmlinuz", "initrd.img"]);
    let files = ["\\bootmgr", "\\initrd.img-6.1", "\\initrd.img"];
    let es = run_scan(&files, &dirs);
    let names: Vec<&str> = es.iter().map(|e| e.name.as_str()).collect();
    assert_eq!(names, vec!["windows", "arch", "linux-6.1", "linux"]);
    assert_eq!(es[2].initrd, vec!["\\initrd.img-6.1".to_string()]);
    assert_eq!(es[3].initrd, vec!["\\initrd.img".to_string()]);
}

#[test]
fn scan_of_empty_partition_finds_nothing() {
    let dirs = HashMap::new();
    let es = run_scan(&[], &dirs);
    assert!(es.is_empty());
}

#[test]
fn kernel_without_initramfs() {
    let mut dirs = HashMap::new();
    dirs.insert("\\", vec!["vmlinuz-5"]);
    let es = run_scan(&[], &dirs);
    assert_eq!(es.len(), 1);
    assert!(es[0].initrd.is_empty());
}

fn run_walk(dirs: &HashMap<&str, Vec<(&str, bool)>>) -> Vec<Entry> {
    let mut walk = scan_all_files();
    loop {
        match walk.request() {
            FsRequest::ReadDir(p) => {
                let listing = dirs
                    .get(p.as_str())
                    .map(|v| v.iter().map(|(n, e)| (n.to_string(), *e)).collect());
                walk.feed(listing)
            }
            FsRequest::ReadFile(_) => panic!("the walk only lists directories"),
            FsRequest::Done => break,
        }
    }
    assert_eq!(walk.stage(), WalkStage::Finished);
    walk.result()
}

#[test]
fn walk_finds_efi_files_below_directories() {
    let mut dirs = HashMap::new();
    dirs.insert("\\", vec![("BOOT.EFI", false), ("EFI", true), ("notes.txt", false)]);
    dirs.insert("\\\\EFI", vec![("shell.efi", false)]);
    let es = run_walk(&dirs);
    let paths: Vec<&str> = es.iter().map(|e| e.efi_path.as_str()).collect();
    assert_eq!(paths, vec!["\\\\BOOT.EFI", "\\\\EFI\\shell.efi"]);
    assert_eq!(es[0].name, "BOOT");
    assert_eq!(es[1].title, "shell");
}

#[test]
fn walk_of_unreadable_root_finds_nothing() {
    let dirs = HashMap::new();
    assert!(run_walk(&dirs).is_empty());
}

#[test]
fn entries_from_lowered_names() {
    let e = nexec_lgc::detect::uki_entry_lowered("Arch-Linux.efi", "arch-linux.efi").unwrap();
    assert_eq!(e.name, "arch-linux");
    assert_eq!(e.title, "Arch Linux");
    assert_eq!(e.efi_path, "\\EFI\\Linux\\Arch-Linux.efi");
    let e = nexec_lgc::detect::kernel_entry_lowered("vmlinuz-6.1-ARCH", "6.1-ARCH", "6.1-arch", Vec::new());
    assert_eq!(e.name, "linux-6.1-arch");
    assert_eq!(e.title, "Linux 6.1-ARCH");
    assert_eq!(e.efi_path, "\\vmlinuz-6.1-ARCH");
    assert_eq!(nexec_lgc::detect::capitalized_with("arch", "A"), "Arch");
    assert_eq!(nexec_lgc::detect::capitalized_with("", "X"), "");
}

#[test]
fn kernel_names_in_upper_case() {
    assert_eq!(kernel_version_of("VMLINUZ").as_deref(), Some(""));
    assert_eq!(kernel_version_of("VMLINUZ-6.1").as_deref(), Some("6.1"));
    assert_eq!(kernel_version_of("vmLinuz-lts").as_deref(), Some("lts"));
    assert_eq!(kernel_version_of("VMLINUX"), None);
}
