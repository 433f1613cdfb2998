use std::collections::HashMap;

use nexec_lgc::chain::{ChainRead, SectorRequest};
use nexec_lgc::disk::{
    bytes_to_sector_words, read_le_u16, read_le_u32, sector_words_to_bytes, write_sector_count,
    AtaAction, AtaEvent, AtaTransfer, Disk, Partition,
};
use nexec_lgc::fat::{chain_ends, parse_short_name, read_directory_entries, Fat32};
use nexec_lgc::fatwrite::{chain_clusters, FatError};
use nexec_lgc::lookup::ChainRequest;
use nexec_lgc::ports::{PortU16, PortU8};

fn mbr(parts: &[(u8, u32, u32)]) -> Vec<u8> {
    let mut m = vec![0u8; 512];
    for (i, (t, start, count)) in parts.iter().enumerate() {
        let off = 446 + 16 * i;
        m[off + 4] = *t;
        m[off + 8..off + 12].copy_from_slice(&start.to_le_bytes());
        m[off + 12..off + 16].copy_from_slice(&count.to_le_bytes());
    }
    m[510] = 0x55;
    m[511] = 0xAA;
    m
}

#[test]
fn fat32_partition_is_preferred() {
    let m = mbr(&[(0x07, 100, 50), (0x0C, 2048, 1000)]);
    assert_eq!(
        Disk::find_boot_partition(&m),
        Some(Partition { start_lba: 2048, sector_count: 1000, partition_type: 0x0C })
    );
}

#[test]
fn active_fat32_partition_is_preferred() {
    let mut m = mbr(&[(0x0C, 2048, 1000), (0x0B, 8192, 1000)]);
    m[446 + 16] = 0x80;
    assert_eq!(
        Disk::find_boot_partition(&m),
        Some(Partition { start_lba: 8192, sector_count: 1000, partition_type: 0x0B })
    );
}

#[test]
fn any_usable_partition_otherwise() {
    let m = mbr(&[(0x0B, 0, 10), (0x83, 63, 500)]);
    assert_eq!(
        Disk::find_boot_partition(&m),
        Some(Partition { start_lba: 63, sector_count: 500, partition_type: 0x83 })
    );
    assert_eq!(Disk::find_boot_partition(&mbr(&[])), None);
}

#[test]
fn ata_registers_and_status() {
    let d = Disk::open().unwrap();
    assert_eq!(d.data_port().port(), 0x1F0);
    assert_eq!(d.command_port().port(), 0x1F7);
    let w = d.lba28_setup(0x0A123456, 2, 0x20);
    let ports: Vec<u16> = w.iter().map(|(p, _)| *p).collect();
    let values: Vec<u8> = w.iter().map(|(_, v)| *v).collect();
    assert_eq!(ports, vec![0x1F6, 0x1F2, 0x1F3, 0x1F4, 0x1F5, 0x1F7]);
    assert_eq!(values, vec![0xEA, 2, 0x56, 0x34, 0x12, 0x20]);
    assert!(Disk::is_busy(0x80));
    assert!(!Disk::is_busy(0x58));
    assert_eq!(Disk::data_request(0x08), Some(true));
    assert_eq!(Disk::data_request(0x01), Some(false));
    assert_eq!(Disk::data_request(0x40), None);
    assert_eq!(PortU8::new(0x60).port(), 0x60);
    assert_eq!(PortU16::new(0x1F0).port(), 0x1F0);
}

#[test]
fn sector_words_and_bytes() {
    assert_eq!(sector_words_to_bytes(&[0x3412, 0x00FF]), vec![0x12, 0x34, 0xFF, 0x00]);
    let w = bytes_to_sector_words(&[1, 2, 3]);
    assert_eq!(w.len(), 256);
    assert_eq!(w[0], 0x0201);
    assert_eq!(w[1], 0x0003);
    assert_eq!(w[2], 0);
    assert_eq!(write_sector_count(0), 0);
    assert_eq!(write_sector_count(513), 2);
    assert_eq!(read_le_u32(&[1, 2, 3, 4], 0), 0x04030201);
    assert_eq!(read_le_u16(&[1, 2, 3, 4], 2), 0x0403);
}

#[test]
fn written_words_read_back_as_the_data() {
    let data: Vec<u8> = (0..600u32).map(|i| (i * 7 % 256) as u8).collect();
    let back = sector_words_to_bytes(&bytes_to_sector_words(&data));
    assert_eq!(back.len(), 1024);
    assert_eq!(&back[..600], &data[..]);
    assert!(back[600..].iter().all(|&b| b == 0));
}

#[test]
fn short_names() {
    assert_eq!(parse_short_name(b"BOOTMGR    "), "BOOTMGR");
    assert_eq!(parse_short_name(b"SHELL   EFI"), "SHELL.EFI");
    assert_eq!(parse_short_name(b"A       B  "), "A.B");
}

fn dir_record(name: &[u8; 11], attr: u8, cluster: u32, size: u32) -> Vec<u8> {
    let mut r = vec![0u8; 32];
    r[0..11].copy_from_slice(name);
    r[11] = attr;
    r[20..22].copy_from_slice(&((cluster >> 16) as u16).to_le_bytes());
    r[26..28].copy_from_slice(&((cluster & 0xFFFF) as u16).to_le_bytes());
    r[28..32].copy_from_slice(&size.to_le_bytes());
    r
}

fn lfn_record(seq: u8, chars: &str, checksum: u8) -> Vec<u8> {
    let mut r = vec![0u8; 32];
    r[0] = seq;
    r[11] = 0x0F;
    r[13] = checksum;
    let mut units: Vec<u16> = chars.encode_utf16().collect();
    if units.len() < 13 {
        units.push(0);
    }
    units.resize(13, 0xFFFF);
    let offs = [1, 3, 5, 7, 9, 14, 16, 18, 20, 22, 24, 28, 30];
    for (k, u) in units.iter().enumerate() {
        r[offs[k]..offs[k] + 2].copy_from_slice(&u.to_le_bytes());
    }
    r
}

#[test]
fn long_names_are_put_together() {
    let mut data = Vec::new();
    data.extend(lfn_record(0x42, "nux-lts.conf", 0));
    data.extend(lfn_record(0x01, "arch-linux-li", 0));
    data.extend(dir_record(b"ARCH-L~1CON", 0x20, 7, 10));
    data.extend(lfn_record(0x41, "arch.conf", 0));
    data.extend(dir_record(b"ARCH~1  CON", 0x20, 8, 11));
    data.extend(dir_record(b"PLAIN   TXT", 0x20, 9, 12));
    let es = read_directory_entries(&data);
    let names: Vec<&str> = es.iter().map(|e| e.name.as_str()).collect();
    assert_eq!(names, vec!["arch-linux-linux-lts.conf", "arch.conf", "PLAIN.TXT"]);
    assert_eq!(es[1].cluster, 8);
}

#[test]
fn directory_records() {
    let mut data = Vec::new();
    data.extend(dir_record(b"VOLUME     ", 0x08, 0, 0));
    data.extend(dir_record(b"LONGNAME   ", 0x0F, 0, 0));
    let mut deleted = dir_record(b"GONE       ", 0x20, 9, 1);
    deleted[0] = 0xE5;
    data.extend(deleted);
    data.extend(dir_record(b"KERNEL     ", 0x20, 0x12345, 77));
    data.extend(vec![0u8; 32]);
    data.extend(dir_record(b"AFTER      ", 0x20, 3, 1));
    let es = read_directory_entries(&data);
    assert_eq!(es.len(), 1);
    assert_eq!(es[0].name, "KERNEL");
    assert_eq!(es[0].cluster, 0x12345);
    assert_eq!(es[0].size, 77);
}

/// A small FAT32 volume: one sector per cluster, FATs at 2080, data at 2096.
struct Image {
    sectors: HashMap<u32, Vec<u8>>,
}

impl Image {
    fn new() -> Image {
        let mut sectors = HashMap::new();
        let mut boot = vec![0u8; 512];
        boot[11..13].copy_from_slice(&512u16.to_le_bytes());
        boot[13] = 1;
        boot[14..16].copy_from_slice(&32u16.to_le_bytes());
        boot[16] = 2;
        boot[36..40].copy_from_slice(&8u32.to_le_bytes());
        boot[44..48].copy_from_slice(&2u32.to_le_bytes());
        sectors.insert(2048, boot);
        let mut fat = vec![0u8; 512];
        for (c, next) in [(2u32, 0x0FFFFFFFu32), (3, 0x0FFFFFFF), (4, 0x0FFFFFFF), (5, 6), (6, 0x0FFFFFF8), (8, 0x0FFFFFFF)] {
            fat[(c * 4) as usize..(c * 4 + 4) as usize].copy_from_slice(&next.to_le_bytes());
        }
        sectors.insert(2080, fat);
        let mut root = Vec::new();
        root.extend(dir_record(b"BOOTMGR    ", 0x20, 3, 5));
        root.extend(dir_record(b"EFI        ", 0x10, 4, 0));
        root.extend(dir_record(b"BIG     TXT", 0x20, 5, 600));
        root.resize(512, 0);
        sectors.insert(2096, root);
        let mut hello = b"hello".to_vec();
        hello.resize(512, 0);
        sectors.insert(2097, hello);
        let mut efi = Vec::new();
        efi.extend(dir_record(b"SHELL   EFI", 0x20, 8, 3));
        efi.resize(512, 0);
        sectors.insert(2098, efi);
        sectors.insert(2099, vec![b'a'; 512]);
        sectors.insert(2100, vec![b'b'; 512]);
        sectors.insert(2102, vec![b's'; 512]);
        Image { sectors }
    }

    fn read(&self, lba: u32, count: u8) -> Vec<u8> {
        let mut out = Vec::new();
        for i in 0..count as u32 {
            out.extend(self.sectors.get(&(lba + i)).cloned().unwrap_or_else(|| vec![0u8; 512]));
        }
        out
    }

    fn fs(&self) -> Fat32 {
        Fat32::new(Partition { start_lba: 2048, sector_count: 4096, partition_type: 0x0C }, &self.read(2048, 1)).unwrap()
    }

    fn chain(&self, fs: &Fat32, first: u32) -> Option<Vec<u8>> {
        let mut ch = ChainRead::new(fs, first);
        loop {
            match ch.request() {
                SectorRequest::Read { lba, count } => ch.feed(Some(self.read(lba, count))),
                SectorRequest::Done => break,
            }
        }
        ch.result()
    }

    fn file(&self, path: &str) -> Option<Vec<u8>> {
        let fs = self.fs();
        let mut l = fs.read_file(path);
        loop {
            match l.request() {
                ChainRequest::Chain(c) => {
                    let data = self.chain(&fs, c);
                    l.feed(data)
                }
                ChainRequest::Done => break,
            }
        }
        l.result()
    }

    fn dir(&self, path: &str) -> Option<Vec<(String, Vec<u8>)>> {
        let fs = self.fs();
        let mut l = fs.read_dir(path);
        loop {
            match l.request() {
                ChainRequest::Chain(c) => {
                    let data = self.chain(&fs, c);
                    l.feed(data)
                }
                ChainRequest::Done => break,
            }
        }
        l.result()
    }
}

#[test]
fn boot_sector_layout() {
    let img = Image::new();
    let fs = img.fs();
    assert_eq!(fs.root_cluster(), 2);
    assert_eq!(fs.sectors_per_cluster(), 1);
    assert_eq!(fs.fat_start_lba(), Some(2080));
    assert_eq!(fs.cluster_to_lba(2), Some(2096));
    assert_eq!(fs.cluster_to_lba(5), Some(2099));
    assert_eq!(fs.fat_entry_location(5), Some((2080, 20)));
    let mut bad = img.read(2048, 1);
    bad[11] = 0;
    bad[12] = 4;
    assert!(Fat32::new(Partition { start_lba: 2048, sector_count: 1, partition_type: 0x0C }, &bad).is_none());
}

#[test]
fn chains_are_followed() {
    let img = Image::new();
    let fs = img.fs();
    let data = img.chain(&fs, 5).unwrap();
    assert_eq!(data.len(), 1024);
    assert_eq!(data[0], b'a');
    assert_eq!(data[600], b'b');
    assert_eq!(img.chain(&fs, 0), Some(Vec::new()));
    assert!(chain_ends(0x0FFFFFF8));
    assert!(!chain_ends(5));
}

#[test]
fn files_are_found_by_path_ignoring_case() {
    let img = Image::new();
    let data = img.file("\\bootmgr").unwrap();
    assert_eq!(data, b"hello".to_vec());
    assert_eq!(img.file("/efi/shell.efi").unwrap()[0], b's');
    assert!(img.file("\\EFI").is_none());
    assert!(img.file("\\missing").is_none());
    assert!(img.file("\\").is_none());
}

#[test]
fn directories_list_their_files() {
    let img = Image::new();
    let root = img.dir("\\").unwrap();
    let names: Vec<&str> = root.iter().map(|(n, _)| n.as_str()).collect();
    assert_eq!(names, vec!["BOOTMGR", "EFI", "BIG.TXT"]);
    assert_eq!(root[2].1.len(), 600);
    assert_eq!(root[1].1.len(), 512);
    let efi = img.dir("\\EFI").unwrap();
    assert_eq!(efi.len(), 1);
    assert_eq!(efi[0].0, "SHELL.EFI");
    assert!(img.dir("\\nope").is_none());
}

#[test]
fn files_are_written_into_a_directory() {
    let img = Image::new();
    let fs = img.fs();
    let mut fat = img.read(2080, 8);
    let mut dir = img.read(2096, 1);
    assert_eq!(fs.write_file(&mut fat, &mut dir, "bootmgr", 1000), Ok(vec![3, 7]));
    let es = read_directory_entries(&dir);
    let names: Vec<&str> = es.iter().map(|e| e.name.as_str()).collect();
    assert_eq!(names, vec!["EFI", "BIG.TXT", "bootmgr"]);
    assert_eq!((es[2].cluster, es[2].size, es[2].attributes), (3, 1000, 0x20));
    assert_eq!(chain_clusters(&fat, 3), vec![3, 7]);
    assert_eq!(fs.write_file(&mut fat, &mut dir, "new.conf", 0), Ok(vec![]));
    assert_eq!(read_directory_entries(&dir).len(), 4);
}

#[test]
fn written_file_reads_back() {
    let mut img = Image::new();
    let fs = img.fs();
    let mut fat = img.read(2080, 8);
    let mut dir = img.read(2096, 1);
    let data: Vec<u8> = (0..700u32).map(|i| (i % 251) as u8).collect();
    let cs = fs.write_file(&mut fat, &mut dir, "arch.conf", data.len() as u32).unwrap();
    assert_eq!(cs, vec![7, 9]);
    for (k, c) in cs.iter().enumerate() {
        let mut chunk = data[k * 512..std::cmp::min((k + 1) * 512, data.len())].to_vec();
        chunk.resize(512, 0);
        img.sectors.insert(2096 + c - 2, chunk);
    }
    for s in 0..8u32 {
        img.sectors.insert(2080 + s, fat[(s * 512) as usize..(s * 512 + 512) as usize].to_vec());
    }
    img.sectors.insert(2096, dir);
    assert_eq!(img.file("\\arch.conf"), Some(data.clone()));
    assert_eq!(img.file("\\ARCH.CONF"), Some(data));
    let names: Vec<String> = img.dir("\\").unwrap().into_iter().map(|(n, _)| n).collect();
    assert!(names.contains(&"arch.conf".to_string()));
    assert_eq!(img.file("\\bootmgr"), Some(b"hello".to_vec()));
}

#[test]
fn files_and_directories_are_made_and_deleted() {
    let img = Image::new();
    let fs = img.fs();
    let mut fat = img.read(2080, 8);
    let mut dir = img.read(2096, 1);
    assert_eq!(fs.delete_file(&mut fat, &mut dir, "big.txt"), Ok(()));
    assert_eq!(chain_clusters(&fat, 5), vec![5]);
    assert_eq!(fs.delete_file(&mut fat, &mut dir, "big.txt"), Err(FatError::NotFound));
    assert_eq!(fs.delete_file(&mut fat, &mut dir, "EFI"), Err(FatError::NotFound));
    assert_eq!(fs.create_dir(&mut fat, &mut dir, "backup"), Ok(vec![5]));
    assert_eq!(fs.create_dir(&mut fat, &mut dir, "BACKUP"), Err(FatError::Exists));
    let es = read_directory_entries(&dir);
    let b = es.iter().find(|e| e.name == "backup").unwrap();
    assert_eq!((b.cluster, b.attributes), (5, 0x10));
}

fn run(mut t: AtaTransfer, statuses: &[u8], words: &[u16]) -> (AtaTransfer, Vec<AtaAction>) {
    let mut log = Vec::new();
    let mut st = statuses.iter();
    let mut ws = words.iter();
    loop {
        let a = t.request();
        log.push(a);
        match a {
            AtaAction::ReadStatus(_) => t.feed(AtaEvent::Status(*st.next().unwrap())),
            AtaAction::WriteByte(_, _) | AtaAction::WriteWord(_, _) => t.feed(AtaEvent::Written),
            AtaAction::ReadWord(_) => t.feed(AtaEvent::Word(*ws.next().unwrap())),
            AtaAction::Finished => return (t, log),
        }
    }
}

#[test]
fn read_transfer() {
    let d = Disk::open().unwrap();
    let words: Vec<u16> = (0..256u16).map(|i| i * 257).collect();
    let (t, log) = run(d.read_sectors(5, 1), &[0x80, 0x80, 0x50, 0x00, 0x58], &words);
    assert!(t.finished() && t.succeeded());
    let data = t.read_data().unwrap();
    assert_eq!(data.len(), 512);
    assert_eq!(&data[..4], &[0, 0, 1, 1]);
    assert_eq!(log[0], AtaAction::ReadStatus(0x1F7));
    assert_eq!(log[3], AtaAction::WriteByte(0x1F6, 0xE0));
    assert_eq!(log[4], AtaAction::WriteByte(0x1F2, 1));
    assert_eq!(log[5], AtaAction::WriteByte(0x1F3, 5));
    assert_eq!(log[8], AtaAction::WriteByte(0x1F7, 0x20));
    assert_eq!(log[11], AtaAction::ReadWord(0x1F0));
    assert_eq!(log.len(), 3 + 6 + 2 + 256 + 1);
}

#[test]
fn read_transfer_error() {
    let d = Disk::open().unwrap();
    let (t, _) = run(d.read_sectors(5, 1), &[0x00, 0x41], &[]);
    assert!(t.finished());
    assert!(!t.succeeded());
    assert!(t.read_data().is_none());
}

#[test]
fn write_transfer() {
    let d = Disk::open().unwrap();
    let data: Vec<u8> = (0..600u32).map(|i| (i % 251) as u8).collect();
    let t = d.write_sectors(9, &data);
    let statuses = [0x00, 0x08, 0x00, 0x08, 0x80, 0x00];
    let (t, log) = run(t, &statuses, &[]);
    assert!(t.succeeded());
    assert!(t.read_data().is_none());
    assert_eq!(log[2], AtaAction::WriteByte(0x1F2, 2));
    assert_eq!(log[6], AtaAction::WriteByte(0x1F7, 0x30));
    assert_eq!(log[8], AtaAction::WriteWord(0x1F0, 0x0100));
    let words: Vec<u16> = log.iter().filter_map(|a| match a {
        AtaAction::WriteWord(_, w) => Some(*w),
        _ => None,
    }).collect();
    assert_eq!(words, bytes_to_sector_words(&data));
    let n = log.len();
    assert_eq!(log[n - 4], AtaAction::WriteByte(0x1F7, 0xE7));
    assert_eq!(log[n - 1], AtaAction::Finished);
}

#[test]
fn written_sectors_read_back_through_transfers() {
    let d = Disk::open().unwrap();
    let data: Vec<u8> = (0..700u32).map(|i| (i * 13 % 256) as u8).collect();
    let mut drive: Vec<u16> = vec![0xAAAA; 256 * 20];
    let mut t = d.write_sectors(9, &data);
    let mut pos = 9 * 256;
    loop {
        match t.request() {
            AtaAction::ReadStatus(_) => t.feed(AtaEvent::Status(0x58)),
            AtaAction::WriteByte(_, _) => t.feed(AtaEvent::Written),
            AtaAction::WriteWord(_, w) => {
                drive[pos] = w;
                pos += 1;
                t.feed(AtaEvent::Written)
            }
            AtaAction::ReadWord(_) => panic!("a write reads no words"),
            AtaAction::Finished => break,
        }
    }
    assert!(t.succeeded());
    assert_eq!(pos, 11 * 256);
    let mut r = d.read_sectors(9, 2);
    let mut pos = 9 * 256;
    loop {
        match r.request() {
            AtaAction::ReadStatus(_) => r.feed(AtaEvent::Status(0x58)),
            AtaAction::WriteByte(_, _) => r.feed(AtaEvent::Written),
            AtaAction::ReadWord(_) => {
                r.feed(AtaEvent::Word(drive[pos]));
                pos += 1;
            }
            AtaAction::WriteWord(_, _) => panic!("a read writes no words"),
            AtaAction::Finished => break,
        }
    }
    let back = r.read_data().unwrap();
    assert_eq!(back.len(), 1024);
    assert_eq!(&back[..700], &data[..]);
    assert!(back[700..].iter().all(|&b| b == 0));
}
