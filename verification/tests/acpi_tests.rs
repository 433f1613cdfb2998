use nexec_lgc::acpi::{
    fadt_info, find_rsdp, is_fadt, needs_acpi_enable, power_off_writes, rsdt_address, sleep_type_s5,
    table_addresses, table_length,
};

#[test]
fn root_pointer_is_found_by_signature_and_checksum() {
    let mut area = vec![0u8; 64];
    area[16..24].copy_from_slice(b"RSD PTR ");
    area[32..40].copy_from_slice(b"RSD PTR ");
    area[48..52].copy_from_slice(&0x7FE0000u32.to_le_bytes());
    let sum: u32 = area[32..52].iter().map(|b| *b as u32).sum();
    area[40] = ((256 - sum % 256) % 256) as u8;
    // The first signature fails its checksum.
    let first_sum: u32 = area[16..36].iter().map(|b| *b as u32).sum();
    assert_ne!(first_sum % 256, 0);
    assert_eq!(find_rsdp(&area), Some(32));
    assert_eq!(rsdt_address(&area[32..52]), 0x7FE0000);
    assert_eq!(find_rsdp(&[0u8; 40]), None);
}

#[test]
fn tables_and_sleep_type() {
    let mut rsdt = vec![0u8; 44];
    rsdt[0..4].copy_from_slice(b"RSDT");
    rsdt[4..8].copy_from_slice(&44u32.to_le_bytes());
    rsdt[36..40].copy_from_slice(&0x1000u32.to_le_bytes());
    rsdt[40..44].copy_from_slice(&0x2000u32.to_le_bytes());
    assert_eq!(table_length(&rsdt), 44);
    assert_eq!(table_addresses(&rsdt), vec![0x1000, 0x2000]);
    let mut fadt = vec![0u8; 116];
    fadt[0..4].copy_from_slice(b"FACP");
    fadt[40..44].copy_from_slice(&0x3000u32.to_le_bytes());
    fadt[48..52].copy_from_slice(&0xB2u32.to_le_bytes());
    fadt[52] = 0xF1;
    fadt[64..68].copy_from_slice(&0x604u32.to_le_bytes());
    assert!(is_fadt(&fadt));
    assert!(!is_fadt(b"APIC"));
    let info = fadt_info(&fadt);
    assert_eq!((info.dsdt, info.smi_cmd, info.acpi_enable, info.pm1a_cnt, info.pm1b_cnt), (0x3000, 0xB2, 0xF1, 0x604, 0));
    let dsdt = [0u8, 0x08, b'_', b'S', b'5', b'_', 0x12, 0x06, 0x04, 0x0A, 0x05, 0x0A, 0x05, 0x00];
    assert_eq!(sleep_type_s5(&dsdt), Some(5));
    let dsdt = [0x08, b'_', b'S', b'5', b'_', 0x12, 0x06, 0x04, 0x00, 0x00];
    assert_eq!(sleep_type_s5(&dsdt), Some(0));
    assert_eq!(sleep_type_s5(b"nothing here"), None);
    assert_eq!(power_off_writes(&info, 5), vec![(0x604, 0x3400)]);
    assert!(needs_acpi_enable(0, &info));
    assert!(!needs_acpi_enable(1, &info));
}
