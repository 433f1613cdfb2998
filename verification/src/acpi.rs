//! Powering off through ACPI: finding the root pointer in the BIOS area, the
//! fixed description table's PM1 control ports, and the sleep type of the
//! `\_S5` (soft-off) state in the DSDT. The memory reads and port writes
//! happen outside this library.
use vstd::prelude::*;
use crate::disk::{le_u32, read_le_u32};

verus! {

/// `RSD PTR `, the signature of the root system description pointer.
pub open spec fn rsdp_signature() -> Seq<u8> {
    seq![0x52u8, 0x53, 0x44, 0x20, 0x50, 0x54, 0x52, 0x20]
}

/// The sum of the bytes `from..to`, modulo 256.
pub open spec fn byte_sum(b: Seq<u8>, from: int, to: int) -> int
    decreases to - from,
{
    if to <= from {
        0
    } else {
        (byte_sum(b, from, to - 1) + b[to - 1]) % 256
    }
}

/// A root pointer starts at `i`: its signature, and its first 20 bytes
/// sum to 0 modulo 256.
pub open spec fn rsdp_at(area: Seq<u8>, i: int) -> bool {
    &&& 0 <= i
    &&& i + 20 <= area.len()
    &&& area.subrange(i, i + 8) == rsdp_signature()
    &&& byte_sum(area, i, i + 20) == 0
}

/// The first root pointer on a 16-byte boundary at or after `i`.
pub open spec fn first_rsdp(area: Seq<u8>, i: int) -> Option<int>
    decreases area.len() - i,
{
    if i < 0 || i + 20 > area.len() {
        None
    } else if rsdp_at(area, i) {
        Some(i)
    } else {
        first_rsdp(area, i + 16)
    }
}

fn sum_bytes(b: &[u8], from: usize, to: usize) -> (r: u8)
    requires
        from <= to <= b@.len(),
    ensures
        r == byte_sum(b@, from as int, to as int),
{
    let mut s: u8 = 0;
    let mut k: usize = from;
    while k < to
        invariant
            from <= k <= to <= b@.len(),
            s == byte_sum(b@, from as int, k as int),
        decreases to - k,
    {
        s = ((s as u16 + b[k] as u16) % 256) as u8;
        k = k + 1;
    }
    s
}

/// The offset of the root pointer in the BIOS area that was read (the 16
/// byte boundaries are counted from the start of the area).
pub fn find_rsdp(area: &[u8]) -> (r: Option<usize>)
    ensures
        match r {
            Some(i) => first_rsdp(area@, 0) == Some(i as int),
            None => first_rsdp(area@, 0) is None,
        },
{
    let sig = [0x52u8, 0x53, 0x44, 0x20, 0x50, 0x54, 0x52, 0x20];
    assert(sig@ =~= rsdp_signature());
    let n = area.len();
    let mut i: usize = 0;
    while area.len() >= 20 && i <= area.len() - 20
        invariant
            n == area@.len(),
            sig@ == rsdp_signature(),
            first_rsdp(area@, 0) == first_rsdp(area@, i as int),
        decreases area@.len() - i,
    {
        let mut same = true;
        let mut k: usize = 0;
        while k < 8
            invariant
                0 <= k <= 8,
                n == area@.len(),
                i + 20 <= area@.len(),
                sig@ == rsdp_signature(),
                same == (forall|j: int| 0 <= j < k ==> area@[i + j] == sig@[j]),
            decreases 8 - k,
        {
            if area[i + k] != sig[k] {
                same = false;
            }
            k = k + 1;
        }
        if same {
            assert(area@.subrange(i as int, i + 8) =~= sig@);
        } else {
            assert(area@.subrange(i as int, i + 8) != sig@) by {
                let j = choose|j: int| 0 <= j < 8 && area@[i + j] != sig@[j];
                assert(area@.subrange(i as int, i + 8)[j] == area@[i + j]);
            }
        }
        if same && sum_bytes(area, i, i + 20) == 0 {
            return Some(i);
        }
        i = i + 16;
    }
    None
}

/// The physical address of the root table (RSDT) in a root pointer.
pub fn rsdt_address(rsdp: &[u8]) -> (r: u32)
    requires
        rsdp@.len() >= 20,
    ensures
        r == le_u32(rsdp@, 16),
{
    read_le_u32(rsdp, 16)
}

/// The length a table's header gives (bytes 4 to 7).
pub fn table_length(header: &[u8]) -> (r: u32)
    requires
        header@.len() >= 8,
    ensures
        r == le_u32(header@, 4),
{
    read_le_u32(header, 4)
}

/// The table addresses of a root table: 4-byte entries from byte 36 up to
/// its length (or the bytes read, if fewer).
pub open spec fn rsdt_entries(rsdt: Seq<u8>) -> Seq<u32> {
    let end = if le_u32(rsdt, 4) as int <= rsdt.len() {
        le_u32(rsdt, 4) as int
    } else {
        rsdt.len() as int
    };
    let n = if end > 36 {
        (end - 36) / 4
    } else {
        0
    };
    Seq::new(n as nat, |k: int| le_u32(rsdt, 36 + 4 * k))
}

/// The table addresses listed in a root table.
pub fn table_addresses(rsdt: &[u8]) -> (r: Vec<u32>)
    requires
        rsdt@.len() >= 36,
    ensures
        r@ == rsdt_entries(rsdt@),
{
    let len = read_le_u32(rsdt, 4) as usize;
    let end = if len <= rsdt.len() {
        len
    } else {
        rsdt.len()
    };
    let n = if end > 36 {
        (end - 36) / 4
    } else {
        0
    };
    let mut r: Vec<u32> = Vec::new();
    let mut k: usize = 0;
    while k < n
        invariant
            0 <= k <= n,
            36 + 4 * n <= rsdt@.len(),
            n == rsdt_entries(rsdt@).len(),
            r@ == rsdt_entries(rsdt@).take(k as int),
        decreases n - k,
    {
        r.push(read_le_u32(rsdt, 36 + 4 * k));
        assert(r@ =~= rsdt_entries(rsdt@).take(k + 1));
        k = k + 1;
    }
    assert(rsdt_entries(rsdt@).take(n as int) =~= rsdt_entries(rsdt@));
    r
}

/// `FACP`, the signature of the fixed description table.
pub open spec fn facp_signature() -> Seq<u8> {
    seq![0x46u8, 0x41, 0x43, 0x50]
}

/// Whether a table starts with the `FACP` signature.
pub fn is_fadt(header: &[u8]) -> (r: bool)
    requires
        header@.len() >= 4,
    ensures
        r == (header@.take(4) == facp_signature()),
{
    let r = header[0] == 0x46 && header[1] == 0x41 && header[2] == 0x43 && header[3] == 0x50;
    assert(r == (header@.take(4) =~= facp_signature()));
    r
}

/// What powering off needs from the fixed description table.
#[derive(Debug, Clone, Copy, PartialEq, Eq)]
pub struct FadtInfo {
    /// The DSDT's physical address (byte 40).
    pub dsdt: u32,
    /// The port that switches to ACPI mode (byte 48), 0 when there is none.
    pub smi_cmd: u32,
    /// The value that switches to ACPI mode (byte 52).
    pub acpi_enable: u8,
    /// The PM1a control port (byte 64).
    pub pm1a_cnt: u32,
    /// The PM1b control port (byte 68), 0 when there is none.
    pub pm1b_cnt: u32,
}

/// The fields of a fixed description table.
pub fn fadt_info(fadt: &[u8]) -> (r: FadtInfo)
    requires
        fadt@.len() >= 72,
    ensures
        r.dsdt == le_u32(fadt@, 40),
        r.smi_cmd == le_u32(fadt@, 48),
        r.acpi_enable == fadt@[52],
        r.pm1a_cnt == le_u32(fadt@, 64),
        r.pm1b_cnt == le_u32(fadt@, 68),
{
    FadtInfo {
        dsdt: read_le_u32(fadt, 40),
        smi_cmd: read_le_u32(fadt, 48),
        acpi_enable: fadt[52],
        pm1a_cnt: read_le_u32(fadt, 64),
        pm1b_cnt: read_le_u32(fadt, 68),
    }
}

/// `_S5_`, the name of the soft-off state's package in the DSDT.
pub open spec fn s5_name() -> Seq<u8> {
    seq![0x5Fu8, 0x53, 0x35, 0x5F]
}

/// The first position at or after `i` where `_S5_` stands.
pub open spec fn find_s5(dsdt: Seq<u8>, i: int) -> Option<int>
    decreases dsdt.len() - i,
{
    if i < 0 || i + 4 > dsdt.len() {
        None
    } else if dsdt.subrange(i, i + 4) == s5_name() {
        Some(i)
    } else {
        find_s5(dsdt, i + 1)
    }
}

/// The value of an AML integer at `p`: a byte prefixed by 0x0A, or the
/// constants Zero (0x00) and One (0x01).
pub open spec fn aml_small_int(dsdt: Seq<u8>, p: int) -> Option<u8> {
    if p < 0 || p >= dsdt.len() {
        None
    } else if dsdt[p] == 0x0A {
        if p + 1 < dsdt.len() {
            Some(dsdt[p + 1])
        } else {
            None
        }
    } else if dsdt[p] == 0x00 || dsdt[p] == 0x01 {
        Some(dsdt[p])
    } else {
        None
    }
}

/// The sleep type of `\_S5` for PM1a: the first element of the package that
/// follows the name (a package opcode 0x12, its length, whose first byte's
/// top two bits count the bytes that follow it, and its element count).
pub open spec fn s5_sleep_type(dsdt: Seq<u8>) -> Option<u8> {
    match find_s5(dsdt, 0) {
        None => None,
        Some(i) => {
            let p = i + 4;
            if p + 1 < dsdt.len() && dsdt[p] == 0x12 {
                let extra = (dsdt[p + 1] / 64) as int;
                aml_small_int(dsdt, p + 2 + extra + 1)
            } else {
                None
            }
        },
    }
}

/// The soft-off sleep type that the DSDT gives, if it can be read.
pub fn sleep_type_s5(dsdt: &[u8]) -> (r: Option<u8>)
    ensures
        r == s5_sleep_type(dsdt@),
{
    let name = [0x5Fu8, 0x53, 0x35, 0x5F];
    assert(name@ =~= s5_name());
    let mut i: usize = 0;
    while dsdt.len() >= 4 && i <= dsdt.len() - 4
        invariant
            name@ == s5_name(),
            find_s5(dsdt@, 0) == find_s5(dsdt@, i as int),
        decreases dsdt@.len() - i,
    {
        let same = dsdt[i] == name[0] && dsdt[i + 1] == name[1] && dsdt[i + 2] == name[2]
            && dsdt[i + 3] == name[3];
        assert(same == (dsdt@.subrange(i as int, i + 4) =~= s5_name()));
        if same {
            return s5_package_value(dsdt, i);
        }
        i = i + 1;
    }
    None
}

fn s5_package_value(dsdt: &[u8], i: usize) -> (r: Option<u8>)
    requires
        i + 4 <= dsdt@.len(),
        find_s5(dsdt@, 0) == Some(i as int),
    ensures
        r == s5_sleep_type(dsdt@),
{
    let n = dsdt.len();
    assert(n == dsdt@.len());
    let p = i + 4;
    if p < n && n - p > 1 && dsdt[p] == 0x12 {
        let extra = (dsdt[p + 1] / 64) as usize;
        if extra + 3 >= n - p {
            return None;
        }
        let q = p + 2 + extra + 1;
        if q >= dsdt.len() {
            None
        } else if dsdt[q] == 0x0A {
            if q + 1 < dsdt.len() {
                Some(dsdt[q + 1])
            } else {
                None
            }
        } else if dsdt[q] == 0x00 || dsdt[q] == 0x01 {
            Some(dsdt[q])
        } else {
            None
        }
    } else {
        None
    }
}

/// The value written to a PM1 control port to enter the sleep state of
/// type `slp_typ`: the type in bits 10 to 12 and SLP_EN (bit 13).
pub open spec fn sleep_command(slp_typ: u8) -> u16 {
    (((slp_typ % 8) as int) * 1024 + 0x2000) as u16
}

/// The port writes that power the machine off: the PM1a control port, and
/// the PM1b control port when there is one; ports above 0xFFFF are left
/// out.
pub open spec fn power_off_plan(info: FadtInfo, slp_typ: u8) -> Seq<(u16, u16)> {
    let a: Seq<(u16, u16)> = if 0 < info.pm1a_cnt <= 0xFFFF {
        seq![(info.pm1a_cnt as u16, sleep_command(slp_typ))]
    } else {
        Seq::empty()
    };
    let b: Seq<(u16, u16)> = if 0 < info.pm1b_cnt <= 0xFFFF {
        seq![(info.pm1b_cnt as u16, sleep_command(slp_typ))]
    } else {
        Seq::empty()
    };
    a + b
}

/// The port writes that power the machine off.
pub fn power_off_writes(info: &FadtInfo, slp_typ: u8) -> (r: Vec<(u16, u16)>)
    ensures
        r@ == power_off_plan(*info, slp_typ),
{
    let cmd: u16 = (slp_typ % 8) as u16 * 1024 + 0x2000;
    let mut r: Vec<(u16, u16)> = Vec::new();
    if 0 < info.pm1a_cnt && info.pm1a_cnt <= 0xFFFF {
        r.push((info.pm1a_cnt as u16, cmd));
    }
    if 0 < info.pm1b_cnt && info.pm1b_cnt <= 0xFFFF {
        r.push((info.pm1b_cnt as u16, cmd));
    }
    assert(r@ =~= power_off_plan(*info, slp_typ));
    r
}

/// Whether the chipset must first be switched to ACPI mode: SCI_EN (bit 0
/// of the PM1a control value read) is clear and there is a port to ask.
pub fn needs_acpi_enable(pm1a_value: u16, info: &FadtInfo) -> (r: bool)
    ensures
        r == (pm1a_value % 2 == 0 && info.smi_cmd != 0 && info.smi_cmd <= 0xFFFF),
{
    pm1a_value % 2 == 0 && info.smi_cmd != 0 && info.smi_cmd <= 0xFFFF
}

} // verus!
