//! The ATA disk on the primary channel and its MBR partition table: the
//! register values that start a transfer, how status bytes are read, how
//! sector data is packed into 16-bit words, and which partition holds the
//! boot files. The port accesses themselves happen outside this library.
use vstd::prelude::*;
use crate::ports::{PortU8, PortU16};

verus! {

/// The ATA command that reads sectors (28-bit LBA).
pub const ATA_READ_SECTORS: u8 = 0x20;

/// The ATA command that writes sectors (28-bit LBA).
pub const ATA_WRITE_SECTORS: u8 = 0x30;

/// The ATA command that flushes the write cache.
pub const ATA_CACHE_FLUSH: u8 = 0xE7;

/// The primary ATA channel's registers.
pub struct Disk {
    data_port: PortU16,
    error_port: PortU8,
    sector_count_port: PortU8,
    lba_lo_port: PortU8,
    lba_mid_port: PortU8,
    lba_hi_port: PortU8,
    drive_port: PortU8,
    command_port: PortU8,
    control_port: PortU8,
}

/// A primary partition of the MBR.
#[derive(Debug, Clone, Copy, PartialEq, Eq)]
pub struct Partition {
    pub start_lba: u32,
    pub sector_count: u32,
    pub partition_type: u8,
}

/// The register writes that start a 28-bit LBA transfer, as (register
/// address, byte) pairs, given the addresses in the order of `registers`.
pub open spec fn lba28_writes(regs: Seq<u16>, lba: u32, count: u8, command: u8) -> Seq<(u16, u8)> {
    seq![
        (regs[6], (0xE0 + (lba / 0x1000000) % 16) as u8),
        (regs[2], count),
        (regs[3], (lba % 0x100) as u8),
        (regs[4], ((lba / 0x100) % 0x100) as u8),
        (regs[5], ((lba / 0x10000) % 0x100) as u8),
        (regs[7], command),
    ]
}

impl Disk {
    /// The address of each register, in the order data, error, sector
    /// count, LBA low, LBA mid, LBA high, drive, command, control.
    pub closed spec fn registers(&self) -> Seq<u16> {
        seq![
            self.data_port@,
            self.error_port@,
            self.sector_count_port@,
            self.lba_lo_port@,
            self.lba_mid_port@,
            self.lba_hi_port@,
            self.drive_port@,
            self.command_port@,
            self.control_port@,
        ]
    }

    /// The primary channel: 0x1F0 to 0x1F7, and 0x3F6.
    pub fn open() -> (r: Option<Self>)
        ensures
            r matches Some(d) && d.registers() == seq![
                0x1F0u16,
                0x1F1u16,
                0x1F2u16,
                0x1F3u16,
                0x1F4u16,
                0x1F5u16,
                0x1F6u16,
                0x1F7u16,
                0x3F6u16,
            ],
    {
        Some(
            Disk {
                data_port: PortU16::new(0x1F0),
                error_port: PortU8::new(0x1F1),
                sector_count_port: PortU8::new(0x1F2),
                lba_lo_port: PortU8::new(0x1F3),
                lba_mid_port: PortU8::new(0x1F4),
                lba_hi_port: PortU8::new(0x1F5),
                drive_port: PortU8::new(0x1F6),
                command_port: PortU8::new(0x1F7),
                control_port: PortU8::new(0x3F6),
            },
        )
    }

    /// The data register, read and written a word at a time.
    pub fn data_port(&self) -> (r: PortU16)
        ensures
            r@ == self.registers()[0],
    {
        self.data_port
    }

    /// The status (read) and command (write) register.
    pub fn command_port(&self) -> (r: PortU8)
        ensures
            r@ == self.registers()[7],
    {
        self.command_port
    }

    /// The register writes, in order, that start a transfer of `count`
    /// sectors at `lba` with `command`: drive and LBA bits 24 to 27, sector
    /// count, LBA bits 0 to 7, 8 to 15, 16 to 23, command.
    pub fn lba28_setup(&self, lba: u32, count: u8, command: u8) -> (r: Vec<(u16, u8)>)
        ensures
            r@ == lba28_writes(self.registers(), lba, count, command),
    {
        let mut r: Vec<(u16, u8)> = Vec::new();
        r.push((self.drive_port.port(), (0xE0 + (lba / 0x1000000) % 16) as u8));
        r.push((self.sector_count_port.port(), count));
        r.push((self.lba_lo_port.port(), (lba % 0x100) as u8));
        r.push((self.lba_mid_port.port(), ((lba / 0x100) % 0x100) as u8));
        r.push((self.lba_hi_port.port(), ((lba / 0x10000) % 0x100) as u8));
        r.push((self.command_port.port(), command));
        assert(r@ =~= lba28_writes(self.registers(), lba, count, command));
        r
    }

    /// The drive is busy while status bit 7 is set.
    pub fn is_busy(status: u8) -> (r: bool)
        ensures
            r == (status & 0x80 != 0),
    {
        status & 0x80 != 0
    }

    /// `Some(true)` once the drive requests data (status bit 3), `Some(false)`
    /// when it reports an error (bit 0), `None` while neither is set.
    pub fn data_request(status: u8) -> (r: Option<bool>)
        ensures
            status & 0x08 != 0 ==> r == Some(true),
            status & 0x08 == 0 && status & 0x01 != 0 ==> r == Some(false),
            status & 0x08 == 0 && status & 0x01 == 0 ==> r is None,
    {
        if status & 0x08 != 0 {
            Some(true)
        } else if status & 0x01 != 0 {
            Some(false)
        } else {
            None
        }
    }
}

/// The bytes of data words as the disk sends them: low byte first.
pub open spec fn words_as_bytes(words: Seq<u16>) -> Seq<u8> {
    Seq::new(
        words.len() * 2,
        |i: int|
            if i % 2 == 0 {
                (words[i / 2] % 256) as u8
            } else {
                (words[i / 2] / 256) as u8
            },
    )
}

/// Data words read from the disk, as bytes.
pub fn sector_words_to_bytes(words: &[u16]) -> (r: Vec<u8>)
    requires
        words@.len() * 2 <= usize::MAX,
    ensures
        r@ == words_as_bytes(words@),
{
    let mut r: Vec<u8> = Vec::new();
    let mut i: usize = 0;
    while i < words.len()
        invariant
            0 <= i <= words@.len(),
            words@.len() * 2 <= usize::MAX,
            r@.len() == 2 * i,
            forall|k: int| 0 <= k < 2 * i ==> r@[k] == words_as_bytes(words@)[k],
        decreases words@.len() - i,
    {
        let w = words[i];
        r.push((w % 256) as u8);
        r.push((w / 256) as u8);
        i = i + 1;
    }
    assert(r@ =~= words_as_bytes(words@));
    r
}

/// The number of whole sectors that `len` bytes occupy.
pub open spec fn sectors_for(len: int) -> int {
    (len + 511) / 512
}

/// The data words that write `data` to whole sectors, low byte first,
/// padded with zero bytes.
pub open spec fn bytes_as_words(data: Seq<u8>) -> Seq<u16> {
    Seq::new(
        (sectors_for(data.len() as int) * 256) as nat,
        |k: int|
            {
                let lo: int = if 2 * k < data.len() {
                    data[2 * k] as int
                } else {
                    0
                };
                let hi: int = if 2 * k + 1 < data.len() {
                    data[2 * k + 1] as int
                } else {
                    0
                };
                (lo + 256 * hi) as u16
            },
    )
}

/// What a write sends, read back: the data words that write `data`, taken
/// as the bytes a read gives, are `data` followed by zeros up to the end of
/// its last sector.
pub proof fn law_sector_words_round_trip(data: Seq<u8>)
    ensures
        words_as_bytes(bytes_as_words(data)).len() == 512 * sectors_for(data.len() as int),
        forall|i: int| 0 <= i < data.len() ==> #[trigger] words_as_bytes(bytes_as_words(data))[i] == data[i],
        forall|i: int|
            data.len() <= i < 512 * sectors_for(data.len() as int) ==> #[trigger] words_as_bytes(
                bytes_as_words(data),
            )[i] == 0,
{
    let w = bytes_as_words(data);
    let b = words_as_bytes(w);
    let n = sectors_for(data.len() as int);
    assert(n >= 0);
    assert forall|i: int| 0 <= i < 512 * n implies #[trigger] b[i] == if i < data.len() {
        data[i]
    } else {
        0u8
    } by {
        let k = i / 2;
        assert(0 <= k < 256 * n);
        let lo: int = if 2 * k < data.len() {
            data[2 * k] as int
        } else {
            0
        };
        let hi: int = if 2 * k + 1 < data.len() {
            data[2 * k + 1] as int
        } else {
            0
        };
        assert(w[k] as int == lo + 256 * hi);
        assert((lo + 256 * hi) % 256 == lo && (lo + 256 * hi) / 256 == hi) by (nonlinear_arith)
            requires
                0 <= lo < 256,
                0 <= hi < 256,
        ;
        if i % 2 == 0 {
            assert(i == 2 * k);
        } else {
            assert(i == 2 * k + 1);
        }
    }
}

/// Packs bytes to be written into data words.
pub fn bytes_to_sector_words(data: &[u8]) -> (r: Vec<u16>)
    requires
        data@.len() + 511 <= usize::MAX,
    ensures
        r@ == bytes_as_words(data@),
{
    let n = data.len();
    let count = (n + 511) / 512;
    let total = count * 256;
    assert(total <= n + 511);
    let mut r: Vec<u16> = Vec::new();
    let mut k: usize = 0;
    while k < total
        invariant
            n == data@.len(),
            total == sectors_for(n as int) * 256,
            total <= n + 511,
            n + 511 <= usize::MAX,
            0 <= k <= total,
            r@.len() == k,
            forall|j: int| 0 <= j < k ==> r@[j] == bytes_as_words(data@)[j],
        decreases total - k,
    {
        let lo: u16 = if 2 * k < n {
            data[2 * k] as u16
        } else {
            0
        };
        let hi: u16 = if 2 * k + 1 < n {
            data[2 * k + 1] as u16
        } else {
            0
        };
        r.push(lo + 256 * hi);
        k = k + 1;
    }
    assert(r@ =~= bytes_as_words(data@));
    r
}

/// The sector count register value for writing `len` bytes: the number of
/// sectors, truncated to 8 bits as the register holds it.
pub fn write_sector_count(len: usize) -> (r: u8)
    requires
        len + 511 <= usize::MAX,
    ensures
        r == sectors_for(len as int) % 256,
{
    (((len + 511) / 512) % 256) as u8
}

// ---------------------------------------------------------------------------
// MBR
// ---------------------------------------------------------------------------

/// A little-endian `u32` at `off`.
pub open spec fn le_u32(b: Seq<u8>, off: int) -> u32 {
    (b[off] as int + b[off + 1] as int * 0x100 + b[off + 2] as int * 0x10000 + b[off + 3] as int
        * 0x1000000) as u32
}

/// A little-endian `u16` at `off`.
pub open spec fn le_u16(b: Seq<u8>, off: int) -> u16 {
    (b[off] as int + b[off + 1] as int * 0x100) as u16
}

pub fn read_le_u32(b: &[u8], off: usize) -> (r: u32)
    requires
        off + 4 <= b@.len(),
    ensures
        r == le_u32(b@, off as int),
{
    b[off] as u32 + b[off + 1] as u32 * 0x100 + b[off + 2] as u32 * 0x10000 + b[off + 3] as u32
        * 0x1000000
}

pub fn read_le_u16(b: &[u8], off: usize) -> (r: u16)
    requires
        off + 2 <= b@.len(),
    ensures
        r == le_u16(b@, off as int),
{
    b[off] as u16 + b[off + 1] as u16 * 0x100
}

/// Primary partition `i` (0 to 3) of the table at byte 446.
pub open spec fn mbr_partition(mbr: Seq<u8>, i: int) -> Partition {
    let off = 446 + 16 * i;
    Partition {
        start_lba: le_u32(mbr, off + 8),
        sector_count: le_u32(mbr, off + 12),
        partition_type: mbr[off + 4],
    }
}

/// A FAT32 partition type: 0x0B (CHS) or 0x0C (LBA).
pub open spec fn is_fat32_type(t: u8) -> bool {
    t == 0x0B || t == 0x0C
}

/// The partition has a start and a size.
pub open spec fn is_usable(p: Partition) -> bool {
    p.start_lba > 0 && p.sector_count > 0
}

/// The partition entry `i` is marked active (boot flag 0x80).
pub open spec fn is_active(mbr: Seq<u8>, i: int) -> bool {
    mbr[446 + i * 16] == 0x80
}

/// Whether entry `i` is wanted in a search of this kind: 0 for an active
/// FAT32 partition, 1 for any FAT32 partition, 2 for a partition of any
/// type but 0; always a usable one.
pub open spec fn wanted_partition(mbr: Seq<u8>, i: int, kind: u8) -> bool {
    let p = mbr_partition(mbr, i);
    &&& is_usable(p)
    &&& if kind == 0 {
        is_fat32_type(p.partition_type) && is_active(mbr, i)
    } else if kind == 1 {
        is_fat32_type(p.partition_type)
    } else {
        p.partition_type != 0
    }
}

/// The first wanted partition from `i` on.
pub open spec fn first_partition_from(mbr: Seq<u8>, i: int, kind: u8) -> Option<Partition>
    decreases 4 - i,
{
    if i >= 4 {
        None
    } else if wanted_partition(mbr, i, kind) {
        Some(mbr_partition(mbr, i))
    } else {
        first_partition_from(mbr, i + 1, kind)
    }
}

/// The boot partition: the active FAT32 partition, else the first usable
/// FAT32 partition, else the first usable partition of any type.
pub open spec fn boot_partition(mbr: Seq<u8>) -> Option<Partition> {
    match first_partition_from(mbr, 0, 0) {
        Some(p) => Some(p),
        None => match first_partition_from(mbr, 0, 1) {
            Some(p) => Some(p),
            None => first_partition_from(mbr, 0, 2),
        },
    }
}

/// The first wanted partition of this kind.
fn first_partition(mbr: &[u8], kind: u8) -> (r: Option<Partition>)
    requires
        mbr@.len() >= 510,
    ensures
        r == first_partition_from(mbr@, 0, kind),
{
    let mut i: usize = 0;
    while i < 4
        invariant
            mbr@.len() >= 510,
            0 <= i <= 4,
            first_partition_from(mbr@, 0, kind) == first_partition_from(mbr@, i as int, kind),
        decreases 4 - i,
    {
        let off = 446 + i * 16;
        let p = Partition {
            start_lba: read_le_u32(mbr, off + 8),
            sector_count: read_le_u32(mbr, off + 12),
            partition_type: mbr[off + 4],
        };
        assert(p == mbr_partition(mbr@, i as int));
        let fat = p.partition_type == 0x0B || p.partition_type == 0x0C;
        let wanted = if kind == 0 {
            fat && mbr[off] == 0x80
        } else if kind == 1 {
            fat
        } else {
            p.partition_type != 0
        };
        if wanted && p.start_lba > 0 && p.sector_count > 0 {
            return Some(p);
        }
        i = i + 1;
    }
    None
}

impl Disk {
    /// Finds the boot partition in the MBR (sector 0) that was read.
    pub fn find_boot_partition(mbr: &[u8]) -> (r: Option<Partition>)
        requires
            mbr@.len() >= 510,
        ensures
            r == boot_partition(mbr@),
    {
        match first_partition(mbr, 0) {
            Some(p) => Some(p),
            None => match first_partition(mbr, 1) {
                Some(p) => Some(p),
                None => first_partition(mbr, 2),
            },
        }
    }
}

// ---------------------------------------------------------------------------
// Sector transfers
// ---------------------------------------------------------------------------

/// What a transfer asks of the port I/O next.
#[derive(Debug, Clone, Copy, PartialEq, Eq, Structural)]
pub enum AtaAction {
    /// Read the status register at this address and hand the byte back.
    ReadStatus(u16),
    /// Write this byte to the register at this address.
    WriteByte(u16, u8),
    /// Read a data word from this address and hand it back.
    ReadWord(u16),
    /// Write this data word to this address.
    WriteWord(u16, u16),
    /// The transfer is over.
    Finished,
}

/// What the port I/O hands back to a transfer.
#[derive(Debug, Clone, Copy, PartialEq, Eq, Structural)]
pub enum AtaEvent {
    /// The status byte that was read.
    Status(u8),
    /// The data word that was read.
    Word(u16),
    /// The write that was asked for was done.
    Written,
}

/// Where a transfer stands.
#[derive(Debug, Clone, Copy, PartialEq, Eq, Structural)]
pub enum AtaPhase {
    /// Waiting for the drive to clear its busy bit.
    WaitIdle,
    /// Writing the registers that start the transfer.
    Setup,
    /// Waiting for the drive to ask for data or to report an error.
    WaitData,
    /// Moving data words.
    Words,
    /// Between two written sectors: waiting for the drive again.
    WaitNext,
    /// Asking the drive to flush its write cache.
    Flush,
    /// Waiting for the flush to end.
    WaitFlushed,
    /// Over, with or without success.
    Done,
}

/// A transfer as the contracts see it.
pub struct AtaView {
    pub write: bool,
    pub phase: AtaPhase,
    /// The status (and command) register.
    pub status_port: u16,
    pub data_port: u16,
    /// The register writes that start the transfer.
    pub setup: Seq<(u16, u8)>,
    /// How many of them were made.
    pub step: nat,
    /// A read: the words received so far. A write: the words to send.
    pub words: Seq<u16>,
    /// How many words the transfer moves.
    pub total: nat,
    /// A write: how many words were sent.
    pub sent: nat,
    /// Set when the transfer ends with success.
    pub ok: bool,
}

pub open spec fn status_busy(s: u8) -> bool {
    s & 0x80 != 0
}

pub open spec fn status_drq(s: u8) -> bool {
    s & 0x08 != 0
}

pub open spec fn status_err(s: u8) -> bool {
    s & 0x01 != 0
}

/// The invariant of a transfer.
pub open spec fn ata_wf(v: AtaView) -> bool {
    &&& v.setup.len() == 6
    &&& v.step <= 6
    &&& v.phase == AtaPhase::Setup ==> v.step < 6
    &&& v.total <= 0xFF00
    &&& v.sent <= v.total
    &&& v.write ==> v.total <= v.words.len()
    &&& v.write && (v.phase == AtaPhase::Words || v.phase == AtaPhase::WaitNext) ==> v.sent < v.total
    &&& (v.phase == AtaPhase::WaitIdle || v.phase == AtaPhase::Setup || v.phase
        == AtaPhase::WaitData) ==> v.sent == 0 && (!v.write ==> v.words.len() == 0)
    &&& !v.write ==> v.words.len() <= v.total
    &&& !v.write ==> v.phase != AtaPhase::WaitNext && v.phase != AtaPhase::Flush && v.phase
        != AtaPhase::WaitFlushed
    &&& !v.write && v.phase == AtaPhase::Words ==> v.words.len() < v.total
    &&& !v.write && v.phase == AtaPhase::Done && v.ok ==> v.words.len() == v.total
    &&& v.write && (v.phase == AtaPhase::Flush || v.phase == AtaPhase::WaitFlushed || (v.phase
        == AtaPhase::Done && v.ok)) ==> v.sent == v.total
}

/// The action that a transfer asks for in its state.
pub open spec fn ata_request(v: AtaView) -> AtaAction {
    match v.phase {
        AtaPhase::Setup => AtaAction::WriteByte(v.setup[v.step as int].0, v.setup[v.step as int].1),
        AtaPhase::Words => if v.write {
            AtaAction::WriteWord(v.data_port, v.words[v.sent as int])
        } else {
            AtaAction::ReadWord(v.data_port)
        },
        AtaPhase::Flush => AtaAction::WriteByte(v.status_port, ATA_CACHE_FLUSH),
        AtaPhase::Done => AtaAction::Finished,
        _ => AtaAction::ReadStatus(v.status_port),
    }
}

/// The state after the drive asked for data (or a read or write of no
/// words): the words, or for a write of none the flush, or for a read of
/// none the end.
pub open spec fn ata_data_ready(v: AtaView) -> AtaView {
    if v.total > 0 {
        AtaView { phase: AtaPhase::Words, ..v }
    } else if v.write {
        AtaView { phase: AtaPhase::Flush, ..v }
    } else {
        AtaView { phase: AtaPhase::Done, ok: true, ..v }
    }
}

/// The state of a transfer after an event. An event that does not answer
/// the action asked for changes nothing.
pub open spec fn ata_step(v: AtaView, e: AtaEvent) -> AtaView {
    match v.phase {
        AtaPhase::WaitIdle => match e {
            AtaEvent::Status(s) => if status_busy(s) {
                v
            } else {
                AtaView { phase: AtaPhase::Setup, step: 0, ..v }
            },
            _ => v,
        },
        AtaPhase::Setup => match e {
            AtaEvent::Written => if v.step + 1 == 6 {
                AtaView { phase: AtaPhase::WaitData, step: 6, ..v }
            } else {
                AtaView { step: v.step + 1, ..v }
            },
            _ => v,
        },
        AtaPhase::WaitData => match e {
            AtaEvent::Status(s) => if status_drq(s) {
                ata_data_ready(v)
            } else if status_err(s) {
                AtaView { phase: AtaPhase::Done, ok: false, ..v }
            } else {
                v
            },
            _ => v,
        },
        AtaPhase::Words => if v.write {
            match e {
                AtaEvent::Written => if v.sent + 1 == v.total {
                    AtaView { phase: AtaPhase::Flush, sent: v.sent + 1, ..v }
                } else if (v.sent + 1) % 256 == 0 {
                    AtaView { phase: AtaPhase::WaitNext, sent: v.sent + 1, ..v }
                } else {
                    AtaView { sent: v.sent + 1, ..v }
                },
                _ => v,
            }
        } else {
            match e {
                AtaEvent::Word(w) => if v.words.len() + 1 == v.total {
                    AtaView { phase: AtaPhase::Done, ok: true, words: v.words.push(w), ..v }
                } else {
                    AtaView { words: v.words.push(w), ..v }
                },
                _ => v,
            }
        },
        AtaPhase::WaitNext => match e {
            AtaEvent::Status(s) => if status_drq(s) || status_err(s) {
                AtaView { phase: AtaPhase::Words, ..v }
            } else {
                v
            },
            _ => v,
        },
        AtaPhase::Flush => match e {
            AtaEvent::Written => AtaView { phase: AtaPhase::WaitFlushed, ..v },
            _ => v,
        },
        AtaPhase::WaitFlushed => match e {
            AtaEvent::Status(s) => if status_busy(s) {
                v
            } else {
                AtaView { phase: AtaPhase::Done, ok: true, ..v }
            },
            _ => v,
        },
        AtaPhase::Done => v,
    }
}

/// Each step of a transfer keeps its invariant.
pub proof fn law_step_keeps_wf(v: AtaView, e: AtaEvent)
    requires
        ata_wf(v),
    ensures
        ata_wf(ata_step(v, e)),
{
}

/// The transfers after the events `es`, fed in order.
pub open spec fn ata_run(v: AtaView, es: Seq<AtaEvent>) -> AtaView
    decreases es.len(),
{
    if es.len() == 0 {
        v
    } else {
        ata_step(ata_run(v, es.drop_last()), es.last())
    }
}

/// A read of `count` sectors at `lba`, before its first step.
pub open spec fn ata_read_start(regs: Seq<u16>, lba: u32, count: u8) -> AtaView {
    AtaView {
        write: false,
        phase: AtaPhase::WaitIdle,
        status_port: regs[7],
        data_port: regs[0],
        setup: lba28_writes(regs, lba, count, ATA_READ_SECTORS),
        step: 0,
        words: Seq::empty(),
        total: count as nat * 256,
        sent: 0,
        ok: false,
    }
}

/// A write of `data` at `lba`, before its first step.
pub open spec fn ata_write_start(regs: Seq<u16>, lba: u32, data: Seq<u8>) -> AtaView {
    AtaView {
        write: true,
        phase: AtaPhase::WaitIdle,
        status_port: regs[7],
        data_port: regs[0],
        setup: lba28_writes(regs, lba, (sectors_for(data.len() as int) % 256) as u8, ATA_WRITE_SECTORS),
        step: 0,
        words: bytes_as_words(data),
        total: ((sectors_for(data.len() as int) % 256) * 256) as nat,
        sent: 0,
        ok: false,
    }
}

/// A drive's words (256 to a sector) after `ws` were written from sector
/// `lba` on.
pub open spec fn sectors_written(img: Seq<u16>, lba: int, ws: Seq<u16>) -> Seq<u16> {
    Seq::new(
        img.len(),
        |i: int|
            if 256 * lba <= i < 256 * lba + ws.len() {
                ws[i - 256 * lba]
            } else {
                img[i]
            },
    )
}

/// Running a transfer keeps its invariant and what it was started with.
pub proof fn law_run_keeps_transfer(v: AtaView, es: Seq<AtaEvent>)
    requires
        ata_wf(v),
    ensures
        ata_wf(ata_run(v, es)),
        ata_run(v, es).write == v.write,
        ata_run(v, es).total == v.total,
        ata_run(v, es).setup == v.setup,
        v.write ==> ata_run(v, es).words == v.words,
    decreases es.len(),
{
    if es.len() > 0 {
        law_run_keeps_transfer(v, es.drop_last());
        law_step_keeps_wf(ata_run(v, es.drop_last()), es.last());
    }
}

/// What a write leaves, a later read of the same sectors gives back: after
/// a write of `data` (at most 255 sectors) at `lba` ends with success, the
/// drive holds the words it sent, and a read of as many sectors at `lba`
/// that ends with success, answered from what the drive holds, gives
/// `data` followed by zeros to the end of its last sector.
pub proof fn law_written_sectors_read_back(
    regs: Seq<u16>,
    lba: u32,
    data: Seq<u8>,
    img: Seq<u16>,
    write_events: Seq<AtaEvent>,
    read_events: Seq<AtaEvent>,
)
    requires
        1 <= data.len() <= 255 * 512,
        256 * lba + 256 * sectors_for(data.len() as int) <= img.len(),
        ({
            let w = ata_run(ata_write_start(regs, lba, data), write_events);
            let r = ata_run(ata_read_start(regs, lba, sectors_for(data.len() as int) as u8), read_events);
            &&& w.phase == AtaPhase::Done && w.ok
            &&& r.phase == AtaPhase::Done && r.ok
            &&& r.words == sectors_written(img, lba as int, w.words.take(w.sent as int)).subrange(
                256 * lba,
                256 * lba + r.words.len(),
            )
        }),
    ensures
        ({
            let r = ata_run(ata_read_start(regs, lba, sectors_for(data.len() as int) as u8), read_events);
            let d = words_as_bytes(r.words);
            &&& d.len() == 512 * sectors_for(data.len() as int)
            &&& d.take(data.len() as int) == data
            &&& forall|i: int| data.len() <= i < d.len() ==> d[i] == 0
        }),
{
    let n = sectors_for(data.len() as int);
    assert(1 <= n <= 255);
    let w0 = ata_write_start(regs, lba, data);
    let r0 = ata_read_start(regs, lba, n as u8);
    assert(n % 256 == n);
    assert(w0.total == 256 * n);
    assert(ata_wf(w0));
    assert(ata_wf(r0));
    law_run_keeps_transfer(w0, write_events);
    law_run_keeps_transfer(r0, read_events);
    let w = ata_run(w0, write_events);
    let r = ata_run(r0, read_events);
    assert(w.sent == w.total);
    let ws = w.words.take(w.sent as int);
    assert(ws =~= bytes_as_words(data));
    assert(r.words =~= bytes_as_words(data));
    law_sector_words_round_trip(data);
    let d = words_as_bytes(r.words);
    assert(d.take(data.len() as int) =~= data);
}

/// A sector read or write on the drive, driven one port access at a time:
/// `request` says what to do, `feed` takes what came of it.
pub struct AtaTransfer {
    write: bool,
    phase: AtaPhase,
    status_port: u16,
    data_port: u16,
    setup: Vec<(u16, u8)>,
    step: usize,
    words: Vec<u16>,
    total: usize,
    sent: usize,
    ok: bool,
}

impl View for AtaTransfer {
    type V = AtaView;

    closed spec fn view(&self) -> AtaView {
        AtaView {
            write: self.write,
            phase: self.phase,
            status_port: self.status_port,
            data_port: self.data_port,
            setup: self.setup@,
            step: self.step as nat,
            words: self.words@,
            total: self.total as nat,
            sent: self.sent as nat,
            ok: self.ok,
        }
    }
}

impl Disk {
    /// Starts reading `count` sectors at `lba`: the drive is asked for them
    /// once it is idle, and all `count * 256` words are read once it asks
    /// for data; an error status ends the read without data.
    pub fn read_sectors(&self, lba: u32, count: u8) -> (r: AtaTransfer)
        ensures
            ata_wf(r@),
            r@ == ata_read_start(self.registers(), lba, count),
    {
        AtaTransfer {
            write: false,
            phase: AtaPhase::WaitIdle,
            status_port: self.command_port.port(),
            data_port: self.data_port.port(),
            setup: self.lba28_setup(lba, count, ATA_READ_SECTORS),
            step: 0,
            words: Vec::new(),
            total: count as usize * 256,
            sent: 0,
            ok: false,
        }
    }

    /// Starts writing `data` at `lba`, padded with zeros to whole sectors.
    /// The sector count register holds the number of sectors truncated to 8
    /// bits, and that many sectors are written; the drive is waited for
    /// between sectors, and its write cache is flushed at the end. An error
    /// status before the first word ends the write without success.
    pub fn write_sectors(&self, lba: u32, data: &[u8]) -> (r: AtaTransfer)
        requires
            data@.len() + 511 <= usize::MAX,
        ensures
            ata_wf(r@),
            r@ == ata_write_start(self.registers(), lba, data@),
    {
        let count = write_sector_count(data.len());
        let words = bytes_to_sector_words(data);
        proof {
            assert(data@.len() <= usize::MAX);
            assert(words@.len() == sectors_for(data@.len() as int) * 256);
            let c = sectors_for(data@.len() as int);
            assert(c >= 0);
            assert((c % 256) * 256 <= c * 256) by (nonlinear_arith)
                requires
                    c >= 0,
            ;
        }
        AtaTransfer {
            write: true,
            phase: AtaPhase::WaitIdle,
            status_port: self.command_port.port(),
            data_port: self.data_port.port(),
            setup: self.lba28_setup(lba, count, ATA_WRITE_SECTORS),
            step: 0,
            words,
            total: count as usize * 256,
            sent: 0,
            ok: false,
        }
    }
}

impl AtaTransfer {
    /// What the transfer asks for next.
    pub fn request(&self) -> (r: AtaAction)
        requires
            ata_wf(self@),
        ensures
            r == ata_request(self@),
    {
        match self.phase {
            AtaPhase::Setup => {
                let (port, value) = self.setup[self.step];
                AtaAction::WriteByte(port, value)
            },
            AtaPhase::Words => if self.write {
                AtaAction::WriteWord(self.data_port, self.words[self.sent])
            } else {
                AtaAction::ReadWord(self.data_port)
            },
            AtaPhase::Flush => AtaAction::WriteByte(self.status_port, ATA_CACHE_FLUSH),
            AtaPhase::Done => AtaAction::Finished,
            _ => AtaAction::ReadStatus(self.status_port),
        }
    }

    /// Takes what came of the action asked for.
    pub fn feed(&mut self, e: AtaEvent)
        requires
            ata_wf(old(self)@),
        ensures
            ata_wf(final(self)@),
            final(self)@ == ata_step(old(self)@, e),
    {
        match self.phase {
            AtaPhase::WaitIdle => {
                if let AtaEvent::Status(s) = e {
                    if !Disk::is_busy(s) {
                        self.phase = AtaPhase::Setup;
                        self.step = 0;
                    }
                }
            },
            AtaPhase::Setup => {
                if let AtaEvent::Written = e {
                    self.step = self.step + 1;
                    if self.step == 6 {
                        self.phase = AtaPhase::WaitData;
                    }
                }
            },
            AtaPhase::WaitData => {
                if let AtaEvent::Status(s) = e {
                    match Disk::data_request(s) {
                        Some(true) => {
                            if self.total > 0 {
                                self.phase = AtaPhase::Words;
                            } else if self.write {
                                self.phase = AtaPhase::Flush;
                            } else {
                                self.phase = AtaPhase::Done;
                                self.ok = true;
                            }
                        },
                        Some(false) => {
                            self.phase = AtaPhase::Done;
                            self.ok = false;
                        },
                        None => {},
                    }
                }
            },
            AtaPhase::Words => {
                if self.write {
                    if let AtaEvent::Written = e {
                        self.sent = self.sent + 1;
                        if self.sent == self.total {
                            self.phase = AtaPhase::Flush;
                        } else if self.sent % 256 == 0 {
                            self.phase = AtaPhase::WaitNext;
                        }
                    }
                } else {
                    if let AtaEvent::Word(w) = e {
                        self.words.push(w);
                        if self.words.len() == self.total {
                            self.phase = AtaPhase::Done;
                            self.ok = true;
                        }
                    }
                }
            },
            AtaPhase::WaitNext => {
                if let AtaEvent::Status(s) = e {
                    if Disk::data_request(s).is_some() {
                        self.phase = AtaPhase::Words;
                    }
                }
            },
            AtaPhase::Flush => {
                if let AtaEvent::Written = e {
                    self.phase = AtaPhase::WaitFlushed;
                }
            },
            AtaPhase::WaitFlushed => {
                if let AtaEvent::Status(s) = e {
                    if !Disk::is_busy(s) {
                        self.phase = AtaPhase::Done;
                        self.ok = true;
                    }
                }
            },
            AtaPhase::Done => {},
        }
        proof {
            assert(final(self)@ =~= ata_step(old(self)@, e));
            law_step_keeps_wf(old(self)@, e);
        }
    }

    /// Whether the transfer is over.
    pub fn finished(&self) -> (r: bool)
        ensures
            r == (self@.phase == AtaPhase::Done),
    {
        match self.phase {
            AtaPhase::Done => true,
            _ => false,
        }
    }

    /// Whether the transfer ended with success.
    pub fn succeeded(&self) -> (r: bool)
        ensures
            r == (self@.phase == AtaPhase::Done && self@.ok),
    {
        self.finished() && self.ok
    }

    /// What a read that ended with success gave: all its words as bytes,
    /// low byte first, two for each word the transfer was to move. `None`
    /// for a write and for a read that is not over or ended with an error.
    pub fn read_data(&self) -> (r: Option<Vec<u8>>)
        requires
            ata_wf(self@),
        ensures
            r is Some <==> !self@.write && self@.phase == AtaPhase::Done && self@.ok,
            r matches Some(b) ==> b@ == words_as_bytes(self@.words) && b@.len() == 2 * self@.total,
    {
        if !self.write && self.succeeded() {
            Some(sector_words_to_bytes(self.words.as_slice()))
        } else {
            None
        }
    }
}

} // verus!
