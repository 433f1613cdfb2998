//! Starting a Linux kernel by the x86 boot protocol: the kernel command line,
//! where the setup code ends in the image, and the setup header fields that
//! the boot manager fills in before it jumps to the setup code.
use vstd::prelude::*;
use vstd::utf8::*;
use crate::config::{Entry, EntryView};
use crate::text::push_str;

verus! {

/// `initrd=`.
pub open spec fn initrd_key() -> Seq<char> {
    seq!['i', 'n', 'i', 't', 'r', 'd', '=']
}

/// The command line after the first `k` initrd paths have been appended to
/// `base`, each as `initrd=PATH`, separated by single spaces.
pub open spec fn cmdline_upto(base: Seq<char>, initrd: Seq<Seq<char>>, k: int) -> Seq<char>
    decreases k,
{
    if k <= 0 {
        base
    } else {
        let prev = cmdline_upto(base, initrd, k - 1);
        let sep = if prev.len() == 0 {
            prev
        } else {
            prev.push(' ')
        };
        sep + initrd_key() + initrd[k - 1]
    }
}

/// The kernel command line of an entry: its options (or nothing), then one
/// `initrd=PATH` per initrd.
pub open spec fn kernel_cmdline(e: EntryView) -> Seq<char> {
    let base = match e.options {
        Some(o) => o,
        None => Seq::empty(),
    };
    cmdline_upto(base, e.initrd, e.initrd.len() as int)
}

/// The kernel command line of `entry`.
pub fn build_cmdline(entry: &Entry) -> (r: String)
    ensures
        r@ == kernel_cmdline(entry@),
{
    let mut cmdline = match &entry.options {
        Some(o) => o.clone(),
        None => String::new(),
    };
    let key = "initrd=";
    proof {
        reveal_strlit("initrd=");
        reveal_strlit(" ");
    }
    let ghost base = cmdline@;
    let mut i: usize = 0;
    while i < entry.initrd.len()
        invariant
            0 <= i <= entry.initrd@.len(),
            key@ == initrd_key(),
            " "@ == seq![' '],
            base == match entry@.options {
                Some(o) => o,
                None => Seq::<char>::empty(),
            },
            cmdline@ == cmdline_upto(base, entry@.initrd, i as int),
        decreases entry.initrd@.len() - i,
    {
        let ghost prev = cmdline@;
        if !cmdline.as_str().is_empty() {
            push_str(&mut cmdline, " ");
            assert(cmdline@ =~= prev.push(' '));
        }
        let ghost sep = cmdline@;
        push_str(&mut cmdline, key);
        push_str(&mut cmdline, entry.initrd[i].as_str());
        assert(entry@.initrd[i as int] == entry.initrd@[i as int]@);
        assert(cmdline@ =~= sep + initrd_key() + entry@.initrd[i as int]);
        i = i + 1;
    }
    cmdline
}

/// The number of 512-byte setup sectors that the image's header gives (byte
/// 0x1F1), 4 where it gives 0.
pub open spec fn setup_sects(data: Seq<u8>) -> int {
    if data[0x1F1] == 0 {
        4
    } else {
        data[0x1F1] as int
    }
}

/// The length of the real-mode part of the image: the boot sector and the
/// setup sectors. The protected-mode kernel starts there.
pub open spec fn setup_size(data: Seq<u8>) -> int {
    (setup_sects(data) + 1) * 512
}

/// The smallest image that is taken for a kernel.
pub const MIN_KERNEL_LEN: usize = 4096;

/// Where the protected-mode kernel starts in `data`, or `None` for an image
/// shorter than 4096 bytes, which is not booted. An image whose setup code
/// would reach past its end is not accepted.
pub fn kernel_setup_size(data: &[u8]) -> (r: Option<usize>)
    requires
        data@.len() >= MIN_KERNEL_LEN ==> setup_size(data@) <= data@.len(),
    ensures
        r is None <==> data@.len() < MIN_KERNEL_LEN,
        r matches Some(n) ==> n == setup_size(data@) && n <= data@.len(),
{
    if data.len() < MIN_KERNEL_LEN {
        return None;
    }
    let b = data[0x1F1];
    let sects: usize = if b == 0 {
        4
    } else {
        b as usize
    };
    Some((sects + 1) * 512)
}

/// The longest command line that is handed to the kernel, in bytes.
pub const MAX_CMDLINE: usize = 2047;

/// The bytes copied to the command line buffer: the UTF-8 encoding of the
/// command line, cut at 2047 bytes, and a terminating zero.
pub open spec fn cmdline_buffer(cmdline: Seq<char>) -> Seq<u8> {
    let b = encode_utf8(cmdline);
    let n = if b.len() < MAX_CMDLINE {
        b.len() as int
    } else {
        MAX_CMDLINE as int
    };
    b.take(n).push(0u8)
}

/// The command line buffer for `entry`.
pub fn cmdline_buffer_of(entry: &Entry) -> (r: Vec<u8>)
    ensures
        r@ == cmdline_buffer(kernel_cmdline(entry@)),
{
    let cmdline = build_cmdline(entry);
    let bytes = cmdline.as_str().as_bytes();
    let n = if bytes.len() < MAX_CMDLINE {
        bytes.len()
    } else {
        MAX_CMDLINE
    };
    let mut r: Vec<u8> = Vec::new();
    let mut i: usize = 0;
    while i < n
        invariant
            0 <= i <= n <= bytes@.len(),
            r@ == bytes@.take(i as int),
        decreases n - i,
    {
        r.push(bytes[i]);
        assert(bytes@.take(i as int).push(bytes@[i as int]) =~= bytes@.take(i + 1));
        i = i + 1;
    }
    r.push(0u8);
    r
}

/// One field of the setup header that the boot manager writes: `width`
/// bytes (1, 2 or 4) at `offset` from the start of the image, little endian.
#[derive(Debug, Clone, Copy, PartialEq, Eq)]
pub struct SetupField {
    pub offset: usize,
    pub width: u8,
    pub value: u32,
}

/// The header fields, in the order they are written: the video mode (0xFFFF,
/// "normal"), the loader type (0x01), the root flags (0x8000), the 32-bit
/// code address (0x100000), the heap end (0xE000), the command line address
/// (0x10000) and the command line length.
pub open spec fn setup_fields(cmdline_len: u32) -> Seq<SetupField> {
    seq![
        SetupField { offset: 0x1FA, width: 2, value: 0xFFFF },
        SetupField { offset: 0x211, width: 1, value: 0x01 },
        SetupField { offset: 0x1F4, width: 2, value: 0x8000 },
        SetupField { offset: 0x214, width: 4, value: 0x100000 },
        SetupField { offset: 0x224, width: 2, value: 0xE000 },
        SetupField { offset: 0x228, width: 4, value: 0x10000 },
        SetupField { offset: 0x23C, width: 4, value: cmdline_len },
    ]
}

/// The header fields for a command line of `cmdline_len` bytes.
pub fn setup_field_writes(cmdline_len: u32) -> (r: Vec<SetupField>)
    ensures
        r@ == setup_fields(cmdline_len),
{
    let r = vec![
        SetupField { offset: 0x1FA, width: 2, value: 0xFFFF },
        SetupField { offset: 0x211, width: 1, value: 0x01 },
        SetupField { offset: 0x1F4, width: 2, value: 0x8000 },
        SetupField { offset: 0x214, width: 4, value: 0x100000 },
        SetupField { offset: 0x224, width: 2, value: 0xE000 },
        SetupField { offset: 0x228, width: 4, value: 0x10000 },
        SetupField { offset: 0x23C, width: 4, value: cmdline_len },
    ];
    assert(r@ =~= setup_fields(cmdline_len));
    r
}

/// Where the command line buffer is copied: 64 KiB.
pub const CMDLINE_ADDR: u32 = 0x10000;

/// Where the protected-mode kernel is copied: 1 MiB.
pub const KERNEL_ADDR: u32 = 0x100000;

/// Where the initramfs images are loaded, one after the other: 64 MiB.
pub const INITRD_ADDR: u32 = 0x400_0000;

/// The highest address the kernel accepts for the initramfs: the header's
/// `initrd_addr_max` (0x22C) from boot protocol 2.03 (0x206) on, 0x37FFFFFF
/// before.
pub open spec fn initrd_addr_max(data: Seq<u8>) -> u32 {
    if data[0x206] as int + 256 * data[0x207] as int >= 0x203 {
        crate::disk::le_u32(data, 0x22C)
    } else {
        0x37FF_FFFF
    }
}

/// An initramfs of `len` bytes fits at `INITRD_ADDR` below the limit.
pub open spec fn initrd_fits(data: Seq<u8>, len: u32) -> bool {
    INITRD_ADDR as int + len as int - 1 <= initrd_addr_max(data) as int
}

/// The header fields that hand the initramfs to the kernel: its address
/// (`ramdisk_image`, 0x218) and size (`ramdisk_size`, 0x21C); none without
/// one.
pub open spec fn initrd_fields(len: u32) -> Seq<SetupField> {
    if len > 0 {
        seq![
            SetupField { offset: 0x218, width: 4, value: INITRD_ADDR },
            SetupField { offset: 0x21C, width: 4, value: len },
        ]
    } else {
        Seq::empty()
    }
}

fn initrd_field_writes(len: u32) -> (r: Vec<SetupField>)
    ensures
        r@ == initrd_fields(len),
{
    if len > 0 {
        let r = vec![
            SetupField { offset: 0x218, width: 4, value: INITRD_ADDR },
            SetupField { offset: 0x21C, width: 4, value: len },
        ];
        assert(r@ =~= initrd_fields(len));
        r
    } else {
        let r: Vec<SetupField> = Vec::new();
        assert(r@ =~= initrd_fields(len));
        r
    }
}

/// What booting an entry copies and writes: the real-mode part of the image
/// (`setup_len` bytes), the protected-mode kernel after it, the command line
/// buffer, the initramfs images at `initrd_addr`, and the header fields.
pub struct BootPlan {
    pub setup_len: usize,
    pub cmdline: Vec<u8>,
    pub cmdline_addr: u32,
    pub initrd_addr: u32,
    pub fields: Vec<SetupField>,
}

/// The plan for booting `entry` from the kernel image `data` with
/// initramfs images of `initrd_len` bytes in all: `None` for an image
/// shorter than 4096 bytes, or when the initramfs does not fit below the
/// kernel's limit. The command line length in the header counts the bytes
/// before the terminating zero; the initramfs address and size follow the
/// other fields.
pub fn boot_plan(entry: &Entry, data: &[u8], initrd_len: u32) -> (r: Option<BootPlan>)
    requires
        data@.len() >= MIN_KERNEL_LEN ==> setup_size(data@) <= data@.len(),
    ensures
        r is None <==> data@.len() < MIN_KERNEL_LEN || (initrd_len > 0 && !initrd_fits(
            data@,
            initrd_len,
        )),
        r matches Some(p) ==> {
            &&& p.setup_len == setup_size(data@)
            &&& p.cmdline@ == cmdline_buffer(kernel_cmdline(entry@))
            &&& p.cmdline_addr == CMDLINE_ADDR
            &&& p.initrd_addr == INITRD_ADDR
            &&& p.fields@ == setup_fields((p.cmdline@.len() - 1) as u32) + initrd_fields(initrd_len)
        },
{
    match kernel_setup_size(data) {
        None => None,
        Some(setup_len) => {
            if initrd_len > 0 {
                let version = data[0x206] as u32 + 256 * data[0x207] as u32;
                let max = if version >= 0x203 {
                    crate::disk::read_le_u32(data, 0x22C)
                } else {
                    0x37FF_FFFF
                };
                if INITRD_ADDR as u64 + initrd_len as u64 - 1 > max as u64 {
                    return None;
                }
            }
            let cmdline = cmdline_buffer_of(entry);
            let len = (cmdline.len() - 1) as u32;
            let mut fields = setup_field_writes(len);
            let mut extra = initrd_field_writes(initrd_len);
            fields.append(&mut extra);
            Some(BootPlan { setup_len, cmdline, cmdline_addr: CMDLINE_ADDR, initrd_addr: INITRD_ADDR, fields })
        },
    }
}

/// The fields of a plan that sit at `offset`.
pub open spec fn fields_at(fields: Seq<SetupField>, offset: usize) -> Seq<SetupField> {
    fields.filter(|f: SetupField| f.offset == offset)
}

/// A plan hands the kernel what it places: the header's command line
/// pointer (0x228) is the one field at that offset and holds the address
/// the command line buffer is copied to, 0x10000, and its length field
/// (0x23C) the bytes before the buffer's terminating zero; the buffer lies
/// below the kernel at 1 MiB. With an initramfs, its address field (0x218)
/// is where the images are loaded and its size field (0x21C) their length;
/// without one, neither field is written.
pub proof fn law_plan_points_at_what_it_places(entry: EntryView, data: Seq<u8>, initrd_len: u32, p: BootPlan)
    requires
        p.cmdline@ == cmdline_buffer(kernel_cmdline(entry)),
        p.cmdline_addr == CMDLINE_ADDR,
        p.initrd_addr == INITRD_ADDR,
        p.fields@ == setup_fields((p.cmdline@.len() - 1) as u32) + initrd_fields(initrd_len),
    ensures
        p.cmdline_addr == 0x10000,
        fields_at(p.fields@, 0x228) == seq![SetupField { offset: 0x228, width: 4, value: p.cmdline_addr }],
        fields_at(p.fields@, 0x23C) == seq![
            SetupField { offset: 0x23C, width: 4, value: (p.cmdline@.len() - 1) as u32 },
        ],
        p.cmdline@.len() >= 1,
        p.cmdline@.last() == 0,
        p.cmdline_addr + p.cmdline@.len() <= KERNEL_ADDR,
        initrd_len > 0 ==> fields_at(p.fields@, 0x218) == seq![
            SetupField { offset: 0x218, width: 4, value: p.initrd_addr },
        ] && fields_at(p.fields@, 0x21C) == seq![SetupField { offset: 0x21C, width: 4, value: initrd_len }],
        initrd_len == 0 ==> fields_at(p.fields@, 0x218).len() == 0 && fields_at(p.fields@, 0x21C).len() == 0,
{
    let f = p.fields@;
    let a = setup_fields((p.cmdline@.len() - 1) as u32);
    let b = initrd_fields(initrd_len);
    let buf = p.cmdline@;
    assert(buf.len() <= MAX_CMDLINE + 1);
    reveal_with_fuel(Seq::filter, 10);
    assert(f.filter(|x: SetupField| x.offset == 0x228usize) =~= seq![
        SetupField { offset: 0x228, width: 4, value: 0x10000 },
    ]);
    assert(f.filter(|x: SetupField| x.offset == 0x23Cusize) =~= seq![
        SetupField { offset: 0x23C, width: 4, value: (buf.len() - 1) as u32 },
    ]);
    assert(f.filter(|x: SetupField| x.offset == 0x218usize) =~= b.filter(|x: SetupField| x.offset == 0x218usize));
    assert(f.filter(|x: SetupField| x.offset == 0x21Cusize) =~= b.filter(|x: SetupField| x.offset == 0x21Cusize));
}

} // verus!
