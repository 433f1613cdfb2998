use nexec_lgc::config::Entry;
use nexec_lgc::kernel::{boot_plan, build_cmdline, cmdline_buffer_of, kernel_setup_size, setup_field_writes, SetupField};

fn entry(options: Option<&str>, initrd: &[&str]) -> Entry {
    Entry {
        name: "arch".to_string(),
        title: "Arch".to_string(),
        efi_path: "/vmlinuz".to_string(),
        options: options.map(|s| s.to_string()),
        initrd: initrd.iter().map(|s| s.to_string()).collect(),
        boot_counter: None,
        source_path: None,
    }
}

#[test]
fn cmdline_appends_initrds() {
    assert_eq!(build_cmdline(&entry(Some("root=/dev/sda2 rw"), &["/a.img", "/b.img"])), "root=/dev/sda2 rw initrd=/a.img initrd=/b.img");
    assert_eq!(build_cmdline(&entry(None, &["/a.img"])), "initrd=/a.img");
    assert_eq!(build_cmdline(&entry(None, &[])), "");
    assert_eq!(build_cmdline(&entry(Some("quiet"), &[])), "quiet");
}

#[test]
fn short_images_are_not_booted() {
    let data = vec![0u8; 4095];
    assert_eq!(kernel_setup_size(&data), None);
    assert!(boot_plan(&entry(None, &[]), &data, 0).is_none());
}

#[test]
fn setup_size_from_header() {
    let mut data = vec![0u8; 8192];
    assert_eq!(kernel_setup_size(&data), Some(5 * 512));
    data[0x1F1] = 7;
    assert_eq!(kernel_setup_size(&data), Some(8 * 512));
}

#[test]
fn cmdline_buffer_is_cut_and_terminated() {
    let b = cmdline_buffer_of(&entry(Some("ro"), &[]));
    assert_eq!(b, b"ro\0".to_vec());
    let long = "x".repeat(3000);
    let b = cmdline_buffer_of(&entry(Some(&long), &[]));
    assert_eq!(b.len(), 2048);
    assert_eq!(b[2047], 0);
}

#[test]
fn plan_writes_header_fields() {
    let mut data = vec![0u8; 8192];
    data[0x1F1] = 1;
    let p = boot_plan(&entry(Some("rw"), &["/i"]), &data, 0).unwrap();
    assert_eq!(p.setup_len, 1024);
    assert_eq!(p.cmdline, b"rw initrd=/i\0".to_vec());
    assert_eq!(p.fields, setup_field_writes(12));
    assert_eq!(p.fields[6], SetupField { offset: 0x23C, width: 4, value: 12 });
    assert_eq!(p.fields[0], SetupField { offset: 0x1FA, width: 2, value: 0xFFFF });
}

#[test]
fn plan_hands_over_the_initramfs() {
    let mut data = vec![0u8; 8192];
    data[0x206] = 0x0C;
    data[0x207] = 0x02;
    data[0x22C..0x230].copy_from_slice(&0x7FFF_FFFFu32.to_le_bytes());
    let p = boot_plan(&entry(None, &["/i"]), &data, 5000).unwrap();
    assert_eq!(p.initrd_addr, 0x400_0000);
    assert_eq!(p.fields.len(), 9);
    assert_eq!(p.fields[7], SetupField { offset: 0x218, width: 4, value: 0x400_0000 });
    assert_eq!(p.fields[8], SetupField { offset: 0x21C, width: 4, value: 5000 });
    data[0x22C..0x230].copy_from_slice(&0x0400_0FFFu32.to_le_bytes());
    assert!(boot_plan(&entry(None, &["/i"]), &data, 5000).is_none());
    assert!(boot_plan(&entry(None, &["/i"]), &data, 4096).is_some());
}
