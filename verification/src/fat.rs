//! FAT32: the boot sector's layout, cluster arithmetic, directory
//! records with their 8.3 and long names, paths, and the lookups that read files and
//! directories. Sectors are read outside this library; the lookups are
//! driven step by step (see `ChainRead`, `FileLookup` and `DirListing`).
use vstd::prelude::*;
use crate::disk::{Partition, le_u16, le_u32, read_le_u16, read_le_u32};
use crate::text::{spec_eq_ignore_ascii_case, eq_ignore_ascii_case};

verus! {

/// The layout of a FAT32 file system, from its boot sector.
pub struct Fat32 {
    partition_start: u32,
    bytes_per_sector: u16,
    sectors_per_cluster: u8,
    reserved_sectors: u16,
    fat_count: u8,
    sectors_per_fat: u32,
    root_cluster: u32,
}

/// What a `Fat32` holds.
#[verifier::ext_equal]
pub struct Fat32Layout {
    pub partition_start: u32,
    pub bytes_per_sector: u16,
    pub sectors_per_cluster: u8,
    pub reserved_sectors: u16,
    pub fat_count: u8,
    pub sectors_per_fat: u32,
    pub root_cluster: u32,
}

impl View for Fat32 {
    type V = Fat32Layout;

    closed spec fn view(&self) -> Fat32Layout {
        Fat32Layout {
            partition_start: self.partition_start,
            bytes_per_sector: self.bytes_per_sector,
            sectors_per_cluster: self.sectors_per_cluster,
            reserved_sectors: self.reserved_sectors,
            fat_count: self.fat_count,
            sectors_per_fat: self.sectors_per_fat,
            root_cluster: self.root_cluster,
        }
    }
}

/// The fields of the boot sector (BPB) of a partition starting at `start`.
pub open spec fn boot_sector_layout(start: u32, b: Seq<u8>) -> Fat32Layout {
    Fat32Layout {
        partition_start: start,
        bytes_per_sector: le_u16(b, 11),
        sectors_per_cluster: b[13],
        reserved_sectors: le_u16(b, 14),
        fat_count: b[16],
        sectors_per_fat: le_u32(b, 36),
        root_cluster: le_u32(b, 44),
    }
}

/// The first sector of the first FAT.
pub open spec fn fat_start(l: Fat32Layout) -> int {
    l.partition_start + l.reserved_sectors
}

/// The first sector of cluster 2.
pub open spec fn data_start(l: Fat32Layout) -> int {
    fat_start(l) + l.fat_count * l.sectors_per_fat
}

/// The first sector of cluster `c`.
pub open spec fn cluster_lba(l: Fat32Layout, c: u32) -> int {
    data_start(l) + (c - 2) * l.sectors_per_cluster
}

/// The FAT sector that holds the entry of cluster `c`.
pub open spec fn fat_sector_lba(l: Fat32Layout, c: u32) -> int {
    fat_start(l) + (c * 4) / 512
}

/// The byte offset of the entry of cluster `c` in its FAT sector.
pub open spec fn fat_entry_offset(c: u32) -> int {
    (c * 4) % 512
}

/// A FAT entry: the low 28 bits of the little-endian word.
pub open spec fn fat_value(sector: Seq<u8>, off: int) -> u32 {
    (le_u32(sector, off) % 0x10000000) as u32
}

/// No cluster follows: a free or reserved number, or an end-of-chain mark.
pub open spec fn is_chain_end(c: u32) -> bool {
    c < 2 || c >= 0x0FFFFFF8
}

/// The number of cluster numbers that can appear inside a chain (2 to
/// 0x0FFFFFF7); a longer chain must pass some cluster twice and never ends.
pub open spec fn max_chain_len() -> nat {
    0x0FFFFFF6
}

impl Fat32 {
    /// Reads the layout from the boot sector of `partition`; `None` unless
    /// sectors are 512 bytes.
    pub fn new(partition: Partition, boot_data: &[u8]) -> (r: Option<Self>)
        requires
            boot_data@.len() >= 48,
        ensures
            match r {
                Some(fs) => fs@ == boot_sector_layout(partition.start_lba, boot_data@)
                    && fs@.bytes_per_sector == 512,
                None => le_u16(boot_data@, 11) != 512,
            },
    {
        let bytes_per_sector = read_le_u16(boot_data, 11);
        let sectors_per_cluster = boot_data[13];
        let reserved_sectors = read_le_u16(boot_data, 14);
        let fat_count = boot_data[16];
        let sectors_per_fat = read_le_u32(boot_data, 36);
        let root_cluster = read_le_u32(boot_data, 44);
        if bytes_per_sector != 512 {
            return None;
        }
        Some(
            Fat32 {
                partition_start: partition.start_lba,
                bytes_per_sector,
                sectors_per_cluster,
                reserved_sectors,
                fat_count,
                sectors_per_fat,
                root_cluster,
            },
        )
    }

    /// The cluster of the root directory.
    pub fn root_cluster(&self) -> (r: u32)
        ensures
            r == self@.root_cluster,
    {
        self.root_cluster
    }

    /// The sectors in a cluster.
    pub fn sectors_per_cluster(&self) -> (r: u8)
        ensures
            r == self@.sectors_per_cluster,
    {
        self.sectors_per_cluster
    }

    /// The sectors of one FAT.
    pub fn sectors_per_fat(&self) -> (r: u32)
        ensures
            r == self@.sectors_per_fat,
    {
        self.sectors_per_fat
    }

    /// The number of FAT copies.
    pub fn fat_count(&self) -> (r: u8)
        ensures
            r == self@.fat_count,
    {
        self.fat_count
    }

    /// A copy of the layout.
    pub fn copy(&self) -> (r: Fat32)
        ensures
            r@ == self@,
    {
        Fat32 { ..*self }
    }

    /// The first sector of the first FAT, if it has a 32-bit address.
    pub fn fat_start_lba(&self) -> (r: Option<u32>)
        ensures
            match r {
                Some(x) => x == fat_start(self@),
                None => fat_start(self@) > u32::MAX,
            },
    {
        let x: u64 = self.partition_start as u64 + self.reserved_sectors as u64;
        if x <= 0xFFFF_FFFF {
            Some(x as u32)
        } else {
            None
        }
    }

    /// The first sector of cluster `c` (at least 2), if it has a 32-bit address.
    pub fn cluster_to_lba(&self, cluster: u32) -> (r: Option<u32>)
        requires
            cluster >= 2,
        ensures
            match r {
                Some(x) => x == cluster_lba(self@, cluster),
                None => cluster_lba(self@, cluster) > u32::MAX,
            },
    {
        let fat_count = self.fat_count as u64;
        let spf = self.sectors_per_fat as u64;
        let spc = self.sectors_per_cluster as u64;
        let c = (cluster - 2) as u64;
        assert(fat_count * spf <= 0xFF * 0xFFFF_FFFFu64) by (nonlinear_arith)
            requires
                fat_count <= 0xFF,
                spf <= 0xFFFF_FFFF,
        ;
        assert(c * spc <= 0xFFFF_FFFFu64 * 0xFF) by (nonlinear_arith)
            requires
                c <= 0xFFFF_FFFF,
                spc <= 0xFF,
        ;
        let x: u64 = self.partition_start as u64 + self.reserved_sectors as u64 + fat_count * spf
            + c * spc;
        if x <= 0xFFFF_FFFF {
            Some(x as u32)
        } else {
            None
        }
    }

    /// The FAT sector and byte offset of the entry of `cluster`, if the
    /// sector has a 32-bit address.
    pub fn fat_entry_location(&self, cluster: u32) -> (r: Option<(u32, usize)>)
        requires
            cluster < 0x40000000,
        ensures
            match r {
                Some((lba, off)) => lba == fat_sector_lba(self@, cluster) && off
                    == fat_entry_offset(cluster) && off + 4 <= 512,
                None => fat_sector_lba(self@, cluster) > u32::MAX,
            },
    {
        let fat_offset: u32 = cluster * 4;
        let sector: u64 = (fat_offset / 512) as u64;
        let off: usize = (fat_offset % 512) as usize;
        let x: u64 = self.partition_start as u64 + self.reserved_sectors as u64 + sector;
        if x <= 0xFFFF_FFFF {
            Some((x as u32, off))
        } else {
            None
        }
    }
}

/// Reads the FAT entry at `off` of a FAT sector.
pub fn read_fat_value(sector: &[u8], off: usize) -> (r: u32)
    requires
        off + 4 <= sector@.len(),
    ensures
        r == fat_value(sector@, off as int),
{
    read_le_u32(sector, off) % 0x10000000
}

/// Whether no cluster follows `c`.
pub fn chain_ends(c: u32) -> (r: bool)
    ensures
        r == is_chain_end(c),
{
    c < 2 || c >= 0x0FFFFFF8
}

// ---------------------------------------------------------------------------
// Directory records
// ---------------------------------------------------------------------------

/// A directory entry, with the positions of its records: its 8.3 record
/// and the first of its records (its first long-name record, if any).
pub struct FatDirEntry {
    pub name: String,
    pub attributes: u8,
    pub cluster: u32,
    pub size: u32,
    pub first_record: usize,
    pub record: usize,
}

/// What a `FatDirEntry` holds.
#[verifier::ext_equal]
pub struct DirEntryView {
    pub name: Seq<char>,
    pub attributes: u8,
    pub cluster: u32,
    pub size: u32,
    pub first_record: int,
    pub record: int,
}

impl View for FatDirEntry {
    type V = DirEntryView;

    open spec fn view(&self) -> DirEntryView {
        DirEntryView {
            name: self.name@,
            attributes: self.attributes,
            cluster: self.cluster,
            size: self.size,
            first_record: self.first_record as int,
            record: self.record as int,
        }
    }
}

pub open spec fn dir_entries_view(v: Seq<FatDirEntry>) -> Seq<DirEntryView> {
    v.map_values(|e: FatDirEntry| e@)
}

/// The attribute bit of a subdirectory.
pub open spec fn is_directory(attributes: u8) -> bool {
    attributes & 0x10 != 0
}

/// The number of bytes before the first space (or all of them).
pub open spec fn space_index(s: Seq<u8>) -> int
    decreases s.len(),
{
    if s.len() == 0 || s[0] == 0x20 {
        0
    } else {
        1 + space_index(s.drop_first())
    }
}

proof fn lemma_space_index(s: Seq<u8>)
    ensures
        0 <= space_index(s) <= s.len(),
        space_index(s) < s.len() ==> s[space_index(s)] == 0x20,
        forall|j: int| 0 <= j < space_index(s) ==> s[j] != 0x20,
    decreases s.len(),
{
    if s.len() > 0 && s[0] != 0x20 {
        lemma_space_index(s.drop_first());
        assert forall|j: int| 0 < j < space_index(s) implies s[j] != 0x20 by {
            assert(s[j] == s.drop_first()[j - 1]);
        }
    }
}

/// Bytes as the characters with the same code points.
pub open spec fn latin1(b: Seq<u8>) -> Seq<char> {
    b.map_values(|x: u8| x as char)
}

/// The name of an 8.3 record: the base up to the first space, then, if the
/// extension does not start with a space, a dot and the extension up to its
/// first space.
pub open spec fn short_name(raw: Seq<u8>) -> Seq<char> {
    let base = raw.take(8);
    let ext = raw.subrange(8, 11);
    let b = latin1(base.take(space_index(base)));
    let e = latin1(ext.take(space_index(ext)));
    if e.len() > 0 {
        b + seq!['.'] + e
    } else {
        b
    }
}

/// Appends `raw[from..]` up to its first space (and at most to `to`) to `name`.
fn push_until_space(name: &mut String, raw: &[u8], from: usize, to: usize) -> (n: usize)
    requires
        from <= to <= raw@.len(),
    ensures
        n == space_index(raw@.subrange(from as int, to as int)),
        final(name)@ == old(name)@ + latin1(raw@.subrange(from as int, to as int).take(n as int)),
{
    let ghost part = raw@.subrange(from as int, to as int);
    proof {
        lemma_space_index(part);
    }
    let mut i: usize = from;
    while i < to && raw[i] != 0x20
        invariant
            from <= i <= to <= raw@.len(),
            part == raw@.subrange(from as int, to as int),
            0 <= space_index(part) <= part.len(),
            space_index(part) < part.len() ==> part[space_index(part)] == 0x20,
            forall|j: int| 0 <= j < space_index(part) ==> part[j] != 0x20,
            forall|j: int| 0 <= j < i - from ==> part[j] != 0x20,
            name@ == old(name)@ + latin1(part.take(i - from)),
        decreases to - i,
    {
        let c = raw[i] as char;
        crate::text::push_chars(name, &[c]);
        assert(latin1(part.take(i - from + 1)) =~= latin1(part.take(i - from)).push(c));
        i = i + 1;
    }
    if i < to {
        assert(part[i - from] == raw@[i as int]);
    }
    assert(i - from == space_index(part));
    i - from
}

/// The name of an 8.3 record (its first 11 bytes).
pub fn parse_short_name(raw: &[u8]) -> (r: String)
    requires
        raw@.len() >= 11,
    ensures
        r@ == short_name(raw@),
{
    let mut name = String::new();
    push_until_space(&mut name, raw, 0, 8);
    let ghost base = name@;
    if raw[8] != 0x20 {
        crate::text::push_chars(&mut name, &['.']);
        let ghost dotted = name@;
        push_until_space(&mut name, raw, 8, 11);
        proof {
            let ext = raw@.subrange(8, 11);
            lemma_space_index(ext);
            assert(raw@.take(8) =~= raw@.subrange(0, 8));
            assert(space_index(ext) > 0);
        }
    } else {
        proof {
            let ext = raw@.subrange(8, 11);
            assert(ext[0] == 0x20);
            assert(raw@.take(8) =~= raw@.subrange(0, 8));
        }
    }
    name
}

/// The entry that a 32-byte record describes, the record at position `k`.
pub open spec fn record_entry(rec: Seq<u8>, k: int) -> DirEntryView {
    DirEntryView {
        first_record: k,
        record: k,
        name: short_name(rec),
        attributes: rec[11],
        cluster: (le_u16(rec, 20) as int * 0x10000 + le_u16(rec, 26) as int) as u32,
        size: le_u32(rec, 28),
    }
}

/// A record that is listed: not deleted (0xE5), not a long-name record
/// (attributes 0x0F), not a volume label (attribute bit 3).
pub open spec fn is_listed(rec: Seq<u8>) -> bool {
    rec[0] != 0xE5 && rec[11] != 0x0F && rec[11] & 0x08 == 0
}

/// A VFAT long-name record: attributes 0x0F, not deleted.
pub open spec fn is_long_name(rec: Seq<u8>) -> bool {
    rec[0] != 0xE5 && rec[11] == 0x0F
}

/// The byte offsets of the 13 UCS-2 characters of a long-name record.
pub open spec fn lfn_offsets() -> Seq<int> {
    seq![1, 3, 5, 7, 9, 14, 16, 18, 20, 22, 24, 28, 30]
}

/// The characters of a long-name record, up to its first 0x0000: each
/// UCS-2 unit as the character with that code point, a surrogate unit as
/// U+FFFD.
pub open spec fn lfn_units_from(rec: Seq<u8>, k: int) -> Seq<char>
    decreases 13 - k,
{
    if k < 0 || k >= 13 {
        Seq::empty()
    } else {
        let u = le_u16(rec, lfn_offsets()[k]);
        if u == 0 {
            Seq::empty()
        } else {
            seq![ucs2_char(u)] + lfn_units_from(rec, k + 1)
        }
    }
}

/// The character of a UCS-2 unit; U+FFFD for a surrogate.
pub open spec fn ucs2_char(u: u16) -> char {
    if 0xD800 <= u <= 0xDFFF {
        '\u{FFFD}'
    } else {
        u as char
    }
}

/// The part of a long name that a record holds.
pub open spec fn lfn_piece(rec: Seq<u8>) -> Seq<char> {
    lfn_units_from(rec, 0)
}

/// The long name gathered so far after a long-name record: the records come
/// last part first, the first of them marked by bit 6 of its first byte.
pub open spec fn lfn_gather(pending: Seq<char>, rec: Seq<u8>) -> Seq<char> {
    if rec[0] & 0x40 != 0 {
        lfn_piece(rec)
    } else {
        lfn_piece(rec) + pending
    }
}

/// The entries of the first `n` records, whether the end-of-directory mark
/// (a first byte of 0) was met among them, the long name gathered for the
/// next entry, and where its records began. An entry takes the long name
/// gathered before it, if any, else its 8.3 name.
pub open spec fn dir_scan(data: Seq<u8>, n: nat) -> (Seq<DirEntryView>, bool, Seq<char>, int)
    decreases n,
{
    if n == 0 {
        (Seq::empty(), false, Seq::empty(), 0)
    } else {
        let (es, ended, pending, start) = dir_scan(data, (n - 1) as nat);
        let k = n - 1;
        let rec = data.subrange(32 * k, 32 * n as int);
        if ended || rec[0] == 0 {
            (es, true, pending, start)
        } else if is_long_name(rec) {
            let start2 = if rec[0] & 0x40 != 0 || pending.len() == 0 {
                k
            } else {
                start
            };
            (es, false, lfn_gather(pending, rec), start2)
        } else if is_listed(rec) {
            let e = record_entry(rec, k);
            let named = if pending.len() > 0 {
                DirEntryView { name: pending, first_record: start, ..e }
            } else {
                e
            };
            (es.push(named), false, Seq::empty(), 0)
        } else {
            (es, false, Seq::empty(), 0)
        }
    }
}

/// The entries of directory data: whole 32-byte records up to the end mark.
pub open spec fn directory_entries(data: Seq<u8>) -> Seq<DirEntryView> {
    dir_scan(data, (data.len() / 32) as nat).0
}

/// Calls `char::from_u32`, which the standard library documents as giving
/// the `char` with that code point, and `None` exactly for a value that is
/// no Unicode scalar value (a surrogate, or above 0x10FFFF).
#[verifier::external_body]
fn char_from_u32(u: u32) -> (r: Option<char>)
    ensures
        r is Some <==> (u <= 0x10FFFF && !(0xD800 <= u <= 0xDFFF)),
        r matches Some(c) ==> c == u as char,
{
    char::from_u32(u)
}

fn lfn_char(u: u16) -> (r: char)
    ensures
        r == ucs2_char(u),
{
    match char_from_u32(u as u32) {
        Some(c) => c,
        None => '\u{FFFD}',
    }
}

/// The part of a long name that a record holds.
fn lfn_piece_of(rec: &[u8]) -> (r: Vec<char>)
    requires
        rec@.len() == 32,
    ensures
        r@ == lfn_piece(rec@),
{
    let offs: [usize; 13] = [1, 3, 5, 7, 9, 14, 16, 18, 20, 22, 24, 28, 30];
    assert(offs@.map_values(|x: usize| x as int) =~= lfn_offsets());
    let mut r: Vec<char> = Vec::new();
    let mut k: usize = 0;
    while k < 13
        invariant
            0 <= k <= 13,
            rec@.len() == 32,
            offs@.map_values(|x: usize| x as int) == lfn_offsets(),
            forall|j: int| 0 <= j < 13 ==> #[trigger] offs@[j] <= 30,
            r@ + lfn_units_from(rec@, k as int) == lfn_piece(rec@),
        decreases 13 - k,
    {
        assert(offs@[k as int] as int == lfn_offsets()[k as int]);
        let u = read_le_u16(rec, offs[k]);
        if u == 0 {
            assert(r@ + Seq::<char>::empty() =~= r@);
            return r;
        }
        let c = lfn_char(u);
        let ghost before = r@;
        r.push(c);
        assert(before + lfn_units_from(rec@, k as int) =~= r@ + lfn_units_from(rec@, k + 1));
        k = k + 1;
    }
    assert(r@ + Seq::<char>::empty() =~= r@);
    r
}

/// The entries of directory data.
pub fn read_directory_entries(data: &[u8]) -> (r: Vec<FatDirEntry>)
    ensures
        dir_entries_view(r@) == directory_entries(data@),
{
    let records = data.len() / 32;
    assert(data@.len() <= usize::MAX);
    let mut entries: Vec<FatDirEntry> = Vec::new();
    let mut pending: Vec<char> = Vec::new();
    let mut start: usize = 0;
    let mut k: usize = 0;
    assert(dir_entries_view(entries@) =~= Seq::<DirEntryView>::empty());
    assert(pending@ =~= Seq::<char>::empty());
    while k < records
        invariant
            records == data@.len() / 32,
            data@.len() <= usize::MAX,
            0 <= k <= records,
            start <= k,
            dir_scan(data@, k as nat) == (dir_entries_view(entries@), false, pending@, start as int),
        decreases records - k,
    {
        assert(32 * k + 32 <= data@.len()) by (nonlinear_arith)
            requires
                k < records,
                records == data@.len() / 32,
        ;
        let begin = 32 * k;
        let rec = &data[begin..begin + 32];
        assert(rec@ == data@.subrange(32 * k, 32 * (k + 1)));
        if rec[0] == 0 {
            proof {
                lemma_dir_scan_ended(data@, (k + 1) as nat, records as nat);
            }
            return entries;
        }
        if rec[0] != 0xE5 && rec[11] == 0x0F {
            let piece = lfn_piece_of(rec);
            if rec[0] & 0x40 != 0 || pending.len() == 0 {
                start = k;
            }
            if rec[0] & 0x40 != 0 {
                pending = piece;
            } else {
                let mut joined = piece;
                let mut rest = pending;
                joined.append(&mut rest);
                pending = joined;
            }
        } else if rec[0] != 0xE5 && rec[11] & 0x08 == 0 {
            let named = pending.len() > 0;
            let name = if named {
                crate::text::string_from(pending.as_slice())
            } else {
                parse_short_name(rec)
            };
            let hi = read_le_u16(rec, 20);
            let lo = read_le_u16(rec, 26);
            let cluster: u32 = hi as u32 * 0x10000 + lo as u32;
            let size = read_le_u32(rec, 28);
            let first = if named {
                start
            } else {
                k
            };
            let e = FatDirEntry { name, attributes: rec[11], cluster, size, first_record: first, record: k };
            let ghost prev = dir_entries_view(entries@);
            entries.push(e);
            pending = Vec::new();
            start = 0;
            assert(pending@ =~= Seq::<char>::empty());
            assert(dir_entries_view(entries@) =~= prev.push(dir_scan(data@, (k + 1) as nat).0.last()));
        } else {
            pending = Vec::new();
            start = 0;
            assert(pending@ =~= Seq::<char>::empty());
        }
        k = k + 1;
    }
    entries
}

/// Once the end mark is met, later records change nothing.
proof fn lemma_dir_scan_ended(data: Seq<u8>, k: nat, n: nat)
    requires
        k <= n,
        dir_scan(data, k).1,
    ensures
        dir_scan(data, n) == dir_scan(data, k),
    decreases n - k,
{
    if k < n {
        lemma_dir_scan_ended(data, k, (n - 1) as nat);
    }
}


// ---------------------------------------------------------------------------
// Paths
// ---------------------------------------------------------------------------

/// A path separator: `/` or `\`.
pub open spec fn is_path_separator(c: char) -> bool {
    c == '/' || c == '\\'
}

/// Scan state of `path_parts`: the components finished so far and the current one.
pub open spec fn path_scan(p: Seq<char>) -> (Seq<Seq<char>>, Seq<char>)
    decreases p.len(),
{
    if p.len() == 0 {
        (Seq::empty(), Seq::empty())
    } else {
        let (parts, cur) = path_scan(p.drop_last());
        let c = p.last();
        if is_path_separator(c) {
            if cur.len() > 0 {
                (parts.push(cur), Seq::empty())
            } else {
                (parts, cur)
            }
        } else {
            (parts, cur.push(c))
        }
    }
}

/// The non-empty components of a path, split at `/` and `\`.
pub open spec fn path_parts(p: Seq<char>) -> Seq<Seq<char>> {
    let (parts, cur) = path_scan(p);
    if cur.len() > 0 {
        parts.push(cur)
    } else {
        parts
    }
}

pub open spec fn char_vecs_view(v: Seq<Vec<char>>) -> Seq<Seq<char>> {
    v.map_values(|x: Vec<char>| x@)
}

/// The components of a path.
pub fn path_components(p: &[char]) -> (r: Vec<Vec<char>>)
    ensures
        char_vecs_view(r@) == path_parts(p@),
{
    let n = p.len();
    let mut parts: Vec<Vec<char>> = Vec::new();
    let mut start: usize = 0;
    let mut i: usize = 0;
    assert(p@.take(0) =~= Seq::<char>::empty());
    assert(char_vecs_view(parts@) =~= Seq::<Seq<char>>::empty());
    while i < n
        invariant
            n == p@.len(),
            0 <= start <= i <= n,
            path_scan(p@.take(i as int)) == (char_vecs_view(parts@), p@.subrange(
                start as int,
                i as int,
            )),
        decreases n - i,
    {
        let ghost prev = char_vecs_view(parts@);
        assert(p@.take(i + 1).drop_last() =~= p@.take(i as int));
        assert(p@.subrange(start as int, i as int).push(p@[i as int]) =~= p@.subrange(
            start as int,
            i + 1,
        ));
        if p[i] == '/' || p[i] == '\\' {
            if start < i {
                let part = crate::text::chars_vec(&p[start..i]);
                parts.push(part);
                assert(char_vecs_view(parts@) =~= prev.push(p@.subrange(start as int, i as int)));
            }
            start = i + 1;
            assert(p@.subrange(start as int, i + 1) =~= Seq::<char>::empty());
        }
        i = i + 1;
    }
    assert(p@.take(n as int) =~= p@);
    if start < n {
        let ghost prev = char_vecs_view(parts@);
        let part = crate::text::chars_vec(&p[start..n]);
        parts.push(part);
        assert(char_vecs_view(parts@) =~= prev.push(p@.subrange(start as int, n as int)));
    }
    parts
}

/// The first entry whose name equals `part` up to ASCII case.
pub open spec fn find_entry(es: Seq<DirEntryView>, part: Seq<char>) -> Option<int>
    decreases es.len(),
{
    if es.len() == 0 {
        None
    } else if spec_eq_ignore_ascii_case(es[0].name, part) {
        Some(0)
    } else {
        match find_entry(es.drop_first(), part) {
            Some(i) => Some(i + 1),
            None => None,
        }
    }
}

pub(crate) proof fn lemma_find_entry(es: Seq<DirEntryView>, part: Seq<char>)
    ensures
        match find_entry(es, part) {
            Some(i) => 0 <= i < es.len() && spec_eq_ignore_ascii_case(es[i].name, part) && forall|
                j: int,
            | 0 <= j < i ==> !spec_eq_ignore_ascii_case(es[j].name, part),
            None => forall|j: int| 0 <= j < es.len() ==> !spec_eq_ignore_ascii_case(es[j].name, part),
        },
    decreases es.len(),
{
    if es.len() > 0 && !spec_eq_ignore_ascii_case(es[0].name, part) {
        lemma_find_entry(es.drop_first(), part);
        assert forall|j: int| 0 < j < es.len() implies es[j] == es.drop_first()[j - 1] by {}
    }
}

/// The first entry named `part`, ignoring ASCII case.
pub fn lookup_entry(entries: &Vec<FatDirEntry>, part: &[char]) -> (r: Option<usize>)
    ensures
        match r {
            Some(i) => i < entries@.len() && find_entry(dir_entries_view(entries@), part@) == Some(
                i as int,
            ),
            None => find_entry(dir_entries_view(entries@), part@) is None,
        },
{
    let ghost es = dir_entries_view(entries@);
    proof {
        lemma_find_entry(es, part@);
    }
    let mut j: usize = 0;
    while j < entries.len()
        invariant
            0 <= j <= entries@.len(),
            es == dir_entries_view(entries@),
            forall|k: int| 0 <= k < j ==> !spec_eq_ignore_ascii_case(es[k].name, part@),
            match find_entry(es, part@) {
                Some(i) => 0 <= i < es.len() && spec_eq_ignore_ascii_case(es[i].name, part@)
                    && forall|k: int| 0 <= k < i ==> !spec_eq_ignore_ascii_case(es[k].name, part@),
                None => forall|k: int| 0 <= k < es.len() ==> !spec_eq_ignore_ascii_case(es[k].name, part@),
            },
        decreases entries@.len() - j,
    {
        assert(es[j as int] == entries@[j as int]@);
        let name = crate::text::chars_of(entries[j].name.as_str());
        if eq_ignore_ascii_case(name.as_slice(), part) {
            return Some(j);
        }
        j = j + 1;
    }
    None
}

} // verus!
