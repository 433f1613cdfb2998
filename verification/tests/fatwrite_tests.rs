use nexec_lgc::fat::read_directory_entries;
use nexec_lgc::fatwrite::{
    chain_clusters, create_entry, delete_entry, find_free_clusters, free_chain, grow_chain, link_clusters,
    new_directory_cluster, new_entry_records, FatError,
};

fn fat_with(entries: &[(u32, u32)], clusters: usize) -> Vec<u8> {
    let mut fat = vec![0u8; clusters * 4];
    fat[0..4].copy_from_slice(&0x0FFFFFF8u32.to_le_bytes());
    fat[4..8].copy_from_slice(&0xFFFFFFFFu32.to_le_bytes());
    for &(c, v) in entries {
        fat[(c * 4) as usize..(c * 4 + 4) as usize].copy_from_slice(&v.to_le_bytes());
    }
    fat
}

fn entry(fat: &[u8], c: u32) -> u32 {
    let i = (c * 4) as usize;
    u32::from_le_bytes([fat[i], fat[i + 1], fat[i + 2], fat[i + 3]])
}

#[test]
fn free_clusters_are_found_in_order() {
    let fat = fat_with(&[(2, 0x0FFFFFFF), (4, 5), (5, 0x0FFFFFFF)], 8);
    assert_eq!(find_free_clusters(&fat, 2), Some(vec![3, 6]));
    assert_eq!(find_free_clusters(&fat, 3), Some(vec![3, 6, 7]));
    assert_eq!(find_free_clusters(&fat, 4), None);
    assert_eq!(find_free_clusters(&fat, 0), Some(vec![]));
}

#[test]
fn clusters_are_linked_and_followed() {
    let mut fat = fat_with(&[(2, 0x0FFFFFFF)], 8);
    link_clusters(&mut fat, &vec![3, 6, 4]);
    assert_eq!(entry(&fat, 3), 6);
    assert_eq!(entry(&fat, 6), 4);
    assert_eq!(entry(&fat, 4), 0x0FFFFFFF);
    assert_eq!(chain_clusters(&fat, 3), vec![3, 6, 4]);
    assert_eq!(chain_clusters(&fat, 2), vec![2]);
}

#[test]
fn chains_are_freed() {
    let mut fat = fat_with(&[(2, 0x0FFFFFFF), (4, 5), (5, 0x0FFFFFFF)], 8);
    assert_eq!(free_chain(&mut fat, 4), vec![4, 5]);
    assert_eq!(entry(&fat, 4), 0);
    assert_eq!(entry(&fat, 5), 0);
    assert_eq!(entry(&fat, 2), 0x0FFFFFFF);
}

#[test]
fn new_file_records_read_back() {
    let mut fat = fat_with(&[(2, 0x0FFFFFFF)], 16);
    let mut dir = vec![0u8; 512];
    assert_eq!(create_entry(&mut fat, &mut dir, "arch.conf", 0x20, 1000, 2), Ok(vec![3, 4]));
    assert_eq!(dir[0], 0x41);
    assert_eq!(dir[11], 0x0F);
    assert_eq!(&dir[32..43], b"ARCH~1  CON");
    assert_eq!(dir[43], 0x20);
    let es = read_directory_entries(&dir);
    assert_eq!(es.len(), 1);
    assert_eq!(es[0].name, "arch.conf");
    assert_eq!(es[0].attributes, 0x20);
    assert_eq!(es[0].cluster, 3);
    assert_eq!(es[0].size, 1000);
    assert_eq!(chain_clusters(&fat, 3), vec![3, 4]);
}

#[test]
fn long_records_hold_the_name_and_checksum() {
    let name: Vec<char> = "a-rather-long-entry-name.conf".chars().collect();
    let recs = new_entry_records(&name, b"A-RATH~1CON", 0x20, 9, 42);
    assert_eq!(recs.len(), 32 * 4);
    assert_eq!(recs[0], 0x43);
    assert_eq!(recs[32], 0x02);
    assert_eq!(recs[64], 0x01);
    assert_eq!(recs[13], recs[45]);
    let es = read_directory_entries(&recs);
    assert_eq!(es.len(), 1);
    assert_eq!(es[0].name, "a-rather-long-entry-name.conf");
    assert_eq!(es[0].cluster, 9);
    assert_eq!(es[0].size, 42);
}

#[test]
fn second_alias_gets_the_next_tail() {
    let mut fat = fat_with(&[(2, 0x0FFFFFFF)], 16);
    let mut dir = vec![0u8; 512];
    assert!(create_entry(&mut fat, &mut dir, "arch.conf", 0x20, 0, 0).is_ok());
    assert_eq!(create_entry(&mut fat, &mut dir, "arch.config", 0x20, 0, 0), Ok(vec![]));
    assert_eq!(&dir[96..107], b"ARCH~2  CON");
    let es = read_directory_entries(&dir);
    assert_eq!(es.len(), 2);
    assert_eq!(es[1].name, "arch.config");
    assert_eq!(es[1].cluster, 0);
}

#[test]
fn existing_names_are_refused() {
    let mut fat = fat_with(&[(2, 0x0FFFFFFF)], 16);
    let mut dir = vec![0u8; 512];
    assert!(create_entry(&mut fat, &mut dir, "arch.conf", 0x20, 10, 1).is_ok());
    let (f, d) = (fat.clone(), dir.clone());
    assert_eq!(create_entry(&mut fat, &mut dir, "ARCH.CONF", 0x20, 10, 1), Err(FatError::Exists));
    assert_eq!((fat, dir), (f, d));
}

#[test]
fn bad_names_are_refused() {
    let mut fat = fat_with(&[(2, 0x0FFFFFFF)], 16);
    let mut dir = vec![0u8; 512];
    assert_eq!(create_entry(&mut fat, &mut dir, "", 0x20, 0, 0), Err(FatError::BadName));
    assert_eq!(create_entry(&mut fat, &mut dir, "a:b", 0x20, 0, 0), Err(FatError::BadName));
    assert_eq!(create_entry(&mut fat, &mut dir, "a\\b", 0x20, 0, 0), Err(FatError::BadName));
    assert!(dir.iter().all(|&b| b == 0));
}

#[test]
fn full_directory_must_grow() {
    let mut fat = fat_with(&[(2, 0x0FFFFFFF)], 16);
    let mut dir = vec![0u8; 32];
    assert_eq!(create_entry(&mut fat, &mut dir, "arch.conf", 0x20, 0, 0), Err(FatError::DirFull));
    assert_eq!(grow_chain(&mut fat, &vec![2]), Some(3));
    assert_eq!(chain_clusters(&fat, 2), vec![2, 3]);
    dir.resize(64, 0);
    assert_eq!(create_entry(&mut fat, &mut dir, "arch.conf", 0x20, 0, 0), Ok(vec![]));
    assert_eq!(grow_chain(&mut fat, &vec![]), None);
}

#[test]
fn no_space_without_free_clusters() {
    let mut fat = fat_with(&[(2, 0x0FFFFFFF), (3, 0x0FFFFFFF)], 4);
    let mut dir = vec![0u8; 512];
    assert_eq!(create_entry(&mut fat, &mut dir, "x.conf", 0x20, 1, 1), Err(FatError::NoSpace));
    assert_eq!(grow_chain(&mut fat, &vec![2]), None);
}

#[test]
fn deleted_files_disappear() {
    let mut fat = fat_with(&[(2, 0x0FFFFFFF)], 16);
    let mut dir = vec![0u8; 512];
    assert!(create_entry(&mut fat, &mut dir, "arch.conf", 0x20, 600, 2).is_ok());
    assert!(create_entry(&mut fat, &mut dir, "sub", 0x10, 0, 1).is_ok());
    assert_eq!(delete_entry(&mut fat, &mut dir, "Arch.Conf"), Ok(()));
    assert_eq!(dir[0], 0xE5);
    assert_eq!(dir[32], 0xE5);
    assert_eq!(entry(&fat, 3), 0);
    assert_eq!(entry(&fat, 4), 0);
    let es = read_directory_entries(&dir);
    assert_eq!(es.len(), 1);
    assert_eq!(es[0].name, "sub");
    assert_eq!(delete_entry(&mut fat, &mut dir, "arch.conf"), Err(FatError::NotFound));
    assert_eq!(delete_entry(&mut fat, &mut dir, "sub"), Err(FatError::NotFound));
}

#[test]
fn new_directory_has_dot_entries() {
    let d = new_directory_cluster(7, 0, 512);
    assert_eq!(d.len(), 512);
    assert_eq!(&d[0..11], b".          ");
    assert_eq!(d[11], 0x10);
    assert_eq!(d[26], 7);
    assert_eq!(&d[32..43], b"..         ");
    assert_eq!(d[58], 0);
    assert!(d[64..].iter().all(|&b| b == 0));
}
