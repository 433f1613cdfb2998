//! Writing to FAT32: what changes in the FAT and in a directory's records
//! when a file or a subdirectory is created or a file is deleted. The FAT
//! and the directory are held in memory as read from the partition (one
//! FAT copy; the directory's clusters one after the other); the sectors are
//! read and written back outside this library.
use vstd::prelude::*;
use crate::disk::{le_u32, read_le_u32};
use crate::fat::is_chain_end;
use crate::text::rindex_of;

verus! {

// ---------------------------------------------------------------------------
// FAT entries
// ---------------------------------------------------------------------------

/// The number of cluster entries a FAT of these bytes holds, at most the
/// clusters that FAT32 can number (below 0x0FFFFFF7).
pub open spec fn fat_len(fat: Seq<u8>) -> int {
    if fat.len() / 4 < 0x0FFF_FFF7 {
        (fat.len() / 4) as int
    } else {
        0x0FFF_FFF7
    }
}

/// The entry of cluster `c`: the low 28 bits of its word.
pub open spec fn fat_entry(fat: Seq<u8>, c: int) -> u32 {
    (le_u32(fat, 4 * c) % 0x1000_0000) as u32
}

/// The clusters from 2 up to `k` (not included) whose entry is 0 (free),
/// in order.
pub open spec fn free_upto(fat: Seq<u8>, k: int) -> Seq<u32>
    decreases k,
{
    if k <= 2 {
        Seq::empty()
    } else if fat_entry(fat, k - 1) == 0 {
        free_upto(fat, k - 1).push((k - 1) as u32)
    } else {
        free_upto(fat, k - 1)
    }
}

/// All free clusters of the FAT, in order.
pub open spec fn free_clusters(fat: Seq<u8>) -> Seq<u32> {
    free_upto(fat, fat_len(fat))
}

proof fn lemma_free_upto_prefix(fat: Seq<u8>, j: int, k: int)
    requires
        j <= k,
    ensures
        free_upto(fat, j).len() <= free_upto(fat, k).len(),
        free_upto(fat, k).take(free_upto(fat, j).len() as int) == free_upto(fat, j),
    decreases k - j,
{
    if j < k {
        lemma_free_upto_prefix(fat, j, k - 1);
        let a = free_upto(fat, j);
        let b = free_upto(fat, k - 1);
        if k > 2 && fat_entry(fat, k - 1) == 0 {
            assert(b.push((k - 1) as u32).take(a.len() as int) =~= b.take(a.len() as int));
        }
    } else {
        assert(free_upto(fat, k).take(free_upto(fat, k).len() as int) =~= free_upto(fat, k));
    }
}

proof fn lemma_free_upto_facts(fat: Seq<u8>, k: int)
    requires
        k <= 0x0FFF_FFF7,
    ensures
        forall|i: int|
            0 <= i < free_upto(fat, k).len() ==> 2 <= #[trigger] free_upto(fat, k)[i] < k
                && fat_entry(fat, free_upto(fat, k)[i] as int) == 0,
        forall|i: int, j: int|
            0 <= i < j < free_upto(fat, k).len() ==> #[trigger] free_upto(fat, k)[i]
                < #[trigger] free_upto(fat, k)[j],
    decreases k,
{
    if k > 2 {
        lemma_free_upto_facts(fat, k - 1);
        let p = free_upto(fat, k - 1);
        if fat_entry(fat, k - 1) == 0 {
            assert(((k - 1) as u32) as int == k - 1);
            assert forall|i: int| 0 <= i < p.len() + 1 implies #[trigger] p.push((k - 1) as u32)[i]
                < k by {
                if i < p.len() {
                    assert(p.push((k - 1) as u32)[i] == p[i]);
                }
            }
        }
    }
}

/// The first `n` free clusters, if there are so many.
pub fn find_free_clusters(fat: &[u8], n: usize) -> (r: Option<Vec<u32>>)
    ensures
        r is Some <==> free_clusters(fat@).len() >= n,
        r matches Some(v) ==> v@ == free_clusters(fat@).take(n as int),
{
    let end = if fat.len() / 4 < 0x0FFF_FFF7 {
        fat.len() / 4
    } else {
        0x0FFF_FFF7
    };
    let mut v: Vec<u32> = Vec::new();
    if n == 0 {
        assert(free_clusters(fat@).take(0) =~= v@);
        return Some(v);
    }
    let mut c: usize = 2;
    while c < end
        invariant
            end == fat_len(fat@),
            end <= fat@.len() / 4,
            end <= 0x0FFF_FFF7,
            2 <= c,
            c <= end || end < 2,
            v@ == free_upto(fat@, c as int),
            v@.len() < n,
        decreases end - c,
    {
        assert(4 * c + 4 <= fat@.len());
        if read_le_u32(fat, 4 * c) % 0x1000_0000 == 0 {
            v.push(c as u32);
            if v.len() == n {
                proof {
                    lemma_free_upto_prefix(fat@, c + 1, end as int);
                }
                return Some(v);
            }
        }
        c = c + 1;
    }
    proof {
        if end < 2 {
            assert(free_upto(fat@, end as int) =~= Seq::<u32>::empty());
        }
    }
    None
}

/// The FAT with the entry of cluster `c` set to `v`, the top four bits of
/// its word kept.
pub open spec fn set_entry(fat: Seq<u8>, c: int, v: u32) -> Seq<u8> {
    let w = (le_u32(fat, 4 * c) / 0x1000_0000) as int * 0x1000_0000 + v as int;
    fat.update(4 * c, (w % 256) as u8).update(4 * c + 1, ((w / 256) % 256) as u8).update(
        4 * c + 2,
        ((w / 0x1_0000) % 256) as u8,
    ).update(4 * c + 3, ((w / 0x100_0000) % 256) as u8)
}

/// Sets the entry of cluster `c` to `v`.
pub fn write_entry(fat: &mut Vec<u8>, c: u32, v: u32)
    requires
        4 * c + 4 <= old(fat)@.len(),
        v < 0x1000_0000,
    ensures
        final(fat)@ == set_entry(old(fat)@, c as int, v),
{
    let n = fat.len();
    assert(n == old(fat)@.len());
    let i = 4 * (c as usize);
    let old_word = read_le_u32(fat.as_slice(), i);
    let w: u32 = (old_word / 0x1000_0000) * 0x1000_0000 + v;
    fat.set(i, (w % 256) as u8);
    fat.set(i + 1, ((w / 256) % 256) as u8);
    fat.set(i + 2, ((w / 0x1_0000) % 256) as u8);
    fat.set(i + 3, ((w / 0x100_0000) % 256) as u8);
}

/// The clusters of the chain that starts at `c`, following the FAT for at
/// most `fuel` clusters; it ends at an end mark, at a free or reserved
/// number, or at a number beyond the FAT.
pub open spec fn chain_list(fat: Seq<u8>, c: u32, fuel: nat) -> Seq<u32>
    decreases fuel,
{
    if fuel == 0 || is_chain_end(c) || c as int >= fat_len(fat) {
        Seq::empty()
    } else {
        seq![c] + chain_list(fat, fat_entry(fat, c as int), (fuel - 1) as nat)
    }
}

/// The clusters of the chain that starts at `first`: as many as the FAT has
/// entries at most, so that a chain that loops ends.
pub open spec fn chain_of(fat: Seq<u8>, first: u32) -> Seq<u32> {
    chain_list(fat, first, fat_len(fat) as nat)
}

/// The clusters of the chain that starts at `first`.
pub fn chain_clusters(fat: &[u8], first: u32) -> (r: Vec<u32>)
    ensures
        r@ == chain_of(fat@, first),
{
    let end: u32 = if fat.len() / 4 < 0x0FFF_FFF7 {
        (fat.len() / 4) as u32
    } else {
        0x0FFF_FFF7
    };
    let mut v: Vec<u32> = Vec::new();
    let mut c = first;
    let mut fuel = end;
    assert(v@ + chain_list(fat@, c, fuel as nat) =~= chain_of(fat@, first));
    while fuel > 0 && !(c < 2 || c >= 0x0FFF_FFF8) && c < end
        invariant
            end as int == fat_len(fat@),
            end as int <= fat@.len() / 4,
            v@ + chain_list(fat@, c, fuel as nat) == chain_of(fat@, first),
        decreases fuel,
    {
        let next = read_le_u32(fat, 4 * c as usize) % 0x1000_0000;
        let ghost before = v@;
        v.push(c);
        assert(before + chain_list(fat@, c, fuel as nat) =~= v@ + chain_list(fat@, next, (fuel - 1) as nat));
        c = next;
        fuel = fuel - 1;
    }
    assert(v@ + Seq::<u32>::empty() =~= v@);
    v
}

/// The FAT after the entries of `cs[i..]` are each set to the next cluster
/// of `cs`, the last to the end mark 0x0FFFFFFF.
pub open spec fn link_from(fat: Seq<u8>, cs: Seq<u32>, i: int) -> Seq<u8>
    decreases cs.len() - i,
{
    if i < 0 || i >= cs.len() {
        fat
    } else {
        let next: u32 = if i + 1 < cs.len() {
            cs[i + 1]
        } else {
            0x0FFF_FFFF
        };
        link_from(set_entry(fat, cs[i] as int, next), cs, i + 1)
    }
}

/// Links the clusters `cs` into one chain, in order.
pub fn link_clusters(fat: &mut Vec<u8>, cs: &Vec<u32>)
    requires
        forall|i: int| 0 <= i < cs@.len() ==> 4 * (#[trigger] cs@[i]) + 4 <= old(fat)@.len() && cs@[i]
            < 0x1000_0000,
    ensures
        final(fat)@ == link_from(old(fat)@, cs@, 0),
{
    let mut i: usize = 0;
    while i < cs.len()
        invariant
            0 <= i <= cs@.len(),
            fat@.len() == old(fat)@.len(),
            forall|j: int| 0 <= j < cs@.len() ==> 4 * (#[trigger] cs@[j]) + 4 <= fat@.len() && cs@[j]
                < 0x1000_0000,
            link_from(fat@, cs@, i as int) == link_from(old(fat)@, cs@, 0),
        decreases cs@.len() - i,
    {
        let next: u32 = if i + 1 < cs.len() {
            cs[i + 1]
        } else {
            0x0FFF_FFFF
        };
        write_entry(fat, cs[i], next);
        i = i + 1;
    }
}

/// The FAT after the entries of `cs[i..]` are each set to 0 (free).
pub open spec fn free_from(fat: Seq<u8>, cs: Seq<u32>, i: int) -> Seq<u8>
    decreases cs.len() - i,
{
    if i < 0 || i >= cs.len() {
        fat
    } else {
        free_from(set_entry(fat, cs[i] as int, 0), cs, i + 1)
    }
}

/// Frees the clusters of the chain that starts at `first`; gives them.
pub fn free_chain(fat: &mut Vec<u8>, first: u32) -> (r: Vec<u32>)
    ensures
        r@ == chain_of(old(fat)@, first),
        final(fat)@ == free_from(old(fat)@, r@, 0),
{
    let cs = chain_clusters(fat.as_slice(), first);
    proof {
        lemma_chain_in_fat(old(fat)@, first, fat_len(old(fat)@) as nat);
    }
    let mut i: usize = 0;
    while i < cs.len()
        invariant
            0 <= i <= cs@.len(),
            fat@.len() == old(fat)@.len(),
            cs@ == chain_of(old(fat)@, first),
            forall|j: int| 0 <= j < cs@.len() ==> (#[trigger] cs@[j]) < fat_len(old(fat)@),
            fat_len(old(fat)@) <= old(fat)@.len() / 4,
            free_from(fat@, cs@, i as int) == free_from(old(fat)@, cs@, 0),
        decreases cs@.len() - i,
    {
        write_entry(fat, cs[i], 0);
        i = i + 1;
    }
    cs
}

proof fn lemma_chain_in_fat(fat: Seq<u8>, c: u32, fuel: nat)
    ensures
        forall|j: int|
            0 <= j < chain_list(fat, c, fuel).len() ==> (#[trigger] chain_list(fat, c, fuel)[j])
                < fat_len(fat),
        fat_len(fat) <= fat.len() / 4,
    decreases fuel,
{
    if !(fuel == 0 || is_chain_end(c) || c as int >= fat_len(fat)) {
        let rest = chain_list(fat, fat_entry(fat, c as int), (fuel - 1) as nat);
        lemma_chain_in_fat(fat, fat_entry(fat, c as int), (fuel - 1) as nat);
        assert forall|j: int| 0 <= j < rest.len() + 1 implies (#[trigger] (seq![c] + rest)[j]) < fat_len(fat) by {
            if j > 0 {
                assert((seq![c] + rest)[j] == rest[j - 1]);
            }
        }
    }
}

// ---------------------------------------------------------------------------
// Chains read back
// ---------------------------------------------------------------------------

proof fn lemma_word_bytes(w: u64)
    requires
        w < 0x1_0000_0000,
    ensures
        w % 256 + ((w / 256) % 256) * 256 + ((w / 0x1_0000) % 256) * 0x1_0000 + ((w / 0x100_0000)
            % 256) * 0x100_0000 == w,
{
    assert(w < 0x1_0000_0000 ==> w % 256 + ((w / 256) % 256) * 256 + ((w / 0x1_0000) % 256)
        * 0x1_0000 + ((w / 0x100_0000) % 256) * 0x100_0000 == w) by (bit_vector);
}

proof fn lemma_low_bits(hi: u64, v: u64)
    requires
        hi < 16,
        v < 0x1000_0000,
    ensures
        (hi * 0x1000_0000 + v) % 0x1000_0000 == v,
        hi * 0x1000_0000 + v < 0x1_0000_0000,
{
    assert(hi < 16 && v < 0x1000_0000 ==> (hi * 0x1000_0000 + v) % 0x1000_0000 == v && hi
        * 0x1000_0000 + v < 0x1_0000_0000) by (bit_vector);
}

/// Setting the entry of cluster `c` changes that entry to `v` and no other.
proof fn lemma_set_entry(fat: Seq<u8>, c: int, v: u32, d: int)
    requires
        0 <= c,
        4 * c + 4 <= fat.len(),
        0 <= d,
        4 * d + 4 <= fat.len(),
        v < 0x1000_0000,
    ensures
        set_entry(fat, c, v).len() == fat.len(),
        fat_entry(set_entry(fat, c, v), d) == if d == c {
            v
        } else {
            fat_entry(fat, d)
        },
{
    let g = set_entry(fat, c, v);
    let hi = le_u32(fat, 4 * c) / 0x1000_0000;
    assert(hi < 16);
    lemma_low_bits(hi as u64, v as u64);
    let w = hi as int * 0x1000_0000 + v as int;
    if d == c {
        lemma_word_bytes(w as u64);
        assert(le_u32(g, 4 * c) as int == w);
    } else {
        assert(g[4 * d] == fat[4 * d]);
        assert(g[4 * d + 1] == fat[4 * d + 1]);
        assert(g[4 * d + 2] == fat[4 * d + 2]);
        assert(g[4 * d + 3] == fat[4 * d + 3]);
    }
}

/// The entry that `link_from` gives cluster `cs[k]`.
pub open spec fn link_next(cs: Seq<u32>, k: int) -> u32 {
    if k + 1 < cs.len() {
        cs[k + 1]
    } else {
        0x0FFF_FFFF
    }
}

proof fn lemma_link_from(fat: Seq<u8>, cs: Seq<u32>, i: int)
    requires
        0 <= i <= cs.len(),
        forall|k: int| 0 <= k < cs.len() ==> 4 * (#[trigger] cs[k]) + 4 <= fat.len() && cs[k] < 0x1000_0000,
        forall|a: int, b: int| 0 <= a < b < cs.len() ==> #[trigger] cs[a] < #[trigger] cs[b],
    ensures
        link_from(fat, cs, i).len() == fat.len(),
        forall|k: int| i <= k < cs.len() ==> fat_entry(link_from(fat, cs, i), #[trigger] cs[k] as int) == link_next(cs, k),
    decreases cs.len() - i,
{
    if i < cs.len() {
        let g = set_entry(fat, cs[i] as int, link_next(cs, i));
        lemma_set_entry(fat, cs[i] as int, link_next(cs, i), cs[i] as int);
        lemma_link_from(g, cs, i + 1);
        let f = link_from(g, cs, i + 1);
        assert(link_from(fat, cs, i) == f);
        assert forall|k: int| i <= k < cs.len() implies fat_entry(f, #[trigger] cs[k] as int) == link_next(cs, k) by {
            if k == i {
                lemma_link_keeps(g, cs, i + 1, cs[i] as int);
            }
        }
    }
}

proof fn lemma_link_keeps(fat: Seq<u8>, cs: Seq<u32>, i: int, d: int)
    requires
        0 <= i <= cs.len(),
        forall|k: int| 0 <= k < cs.len() ==> 4 * (#[trigger] cs[k]) + 4 <= fat.len() && cs[k] < 0x1000_0000,
        0 <= d,
        4 * d + 4 <= fat.len(),
        forall|k: int| i <= k < cs.len() ==> #[trigger] cs[k] != d,
    ensures
        fat_entry(link_from(fat, cs, i), d) == fat_entry(fat, d),
    decreases cs.len() - i,
{
    if i < cs.len() {
        let g = set_entry(fat, cs[i] as int, link_next(cs, i));
        lemma_set_entry(fat, cs[i] as int, link_next(cs, i), d);
        lemma_link_keeps(g, cs, i + 1, d);
        assert(link_from(fat, cs, i) == link_from(g, cs, i + 1));
    }
}

proof fn lemma_linked_chain(f: Seq<u8>, cs: Seq<u32>, i: int, fuel: nat)
    requires
        0 <= i < cs.len(),
        fuel >= cs.len() - i,
        forall|k: int| 0 <= k < cs.len() ==> 2 <= #[trigger] cs[k] < fat_len(f),
        forall|k: int| 0 <= k < cs.len() ==> fat_entry(f, #[trigger] cs[k] as int) == link_next(cs, k),
        fat_len(f) <= 0x0FFF_FFF7,
    ensures
        chain_list(f, cs[i], fuel) == cs.skip(i),
    decreases cs.len() - i,
{
    assert(!is_chain_end(cs[i]));
    assert(fat_entry(f, cs[i] as int) == link_next(cs, i));
    assert(chain_list(f, cs[i], fuel) == seq![cs[i]] + chain_list(f, link_next(cs, i), (fuel - 1) as nat));
    if i + 1 < cs.len() {
        lemma_linked_chain(f, cs, i + 1, (fuel - 1) as nat);
        assert(seq![cs[i]] + cs.skip(i + 1) =~= cs.skip(i));
    } else {
        assert(is_chain_end(0x0FFF_FFFFu32));
        assert(chain_list(f, 0x0FFF_FFFFu32, (fuel - 1) as nat) == Seq::<u32>::empty());
        assert(seq![cs[i]] + Seq::<u32>::empty() =~= cs.skip(i));
    }
}

proof fn lemma_free_upto_len(fat: Seq<u8>, k: int)
    ensures
        free_upto(fat, k).len() <= if k < 2 {
            0
        } else {
            k - 2
        },
    decreases k,
{
    if k > 2 {
        lemma_free_upto_len(fat, k - 1);
    }
}

/// Linking the first `n` free clusters, as writing a file does, makes a
/// chain that, followed from its first cluster, gives back exactly those
/// clusters in order.
pub proof fn law_linked_clusters_read_back(fat: Seq<u8>, n: int)
    requires
        0 < n <= free_clusters(fat).len(),
    ensures
        chain_of(link_from(fat, free_clusters(fat).take(n), 0), free_clusters(fat)[0])
            == free_clusters(fat).take(n),
{
    let cs = free_clusters(fat).take(n);
    lemma_free_upto_facts(fat, fat_len(fat));
    lemma_free_upto_len(fat, fat_len(fat));
    assert(fat_len(fat) <= fat.len() / 4);
    assert forall|k: int| 0 <= k < cs.len() implies 4 * (#[trigger] cs[k]) + 4 <= fat.len() && cs[k]
        < 0x1000_0000 && 2 <= cs[k] < fat_len(fat) by {
        assert(cs[k] == free_clusters(fat)[k]);
    }
    assert forall|a: int, b: int| 0 <= a < b < cs.len() implies #[trigger] cs[a] < #[trigger] cs[b] by {
        assert(cs[a] == free_clusters(fat)[a]);
        assert(cs[b] == free_clusters(fat)[b]);
    }
    lemma_link_from(fat, cs, 0);
    let f = link_from(fat, cs, 0);
    assert(fat_len(f) == fat_len(fat));
    lemma_linked_chain(f, cs, 0, fat_len(f) as nat);
    assert(cs.skip(0) =~= cs);
    assert(cs[0] == free_clusters(fat)[0]);
}

/// A file or directory made by `create_entry` in `count` clusters, read back
/// through the new FAT from the first of them, has exactly the clusters
/// that were handed out for its contents, in order.
pub proof fn law_created_chain_reads_back(
    fat: Seq<u8>,
    dir: Seq<u8>,
    name: Seq<char>,
    attr: u8,
    len: u32,
    count: int,
)
    requires
        count > 0,
        create_outcome(fat, dir, name, attr, len, count) is Ok,
    ensures
        ({
            let (f, d, cs) = create_outcome(fat, dir, name, attr, len, count)->Ok_0;
            cs.len() == count && chain_of(f, cs[0]) == cs
        }),
{
    law_linked_clusters_read_back(fat, count);
}

proof fn lemma_free_keeps_zero(fat: Seq<u8>, cs: Seq<u32>, i: int, d: int)
    requires
        0 <= i <= cs.len(),
        forall|k: int| 0 <= k < cs.len() ==> 4 * (#[trigger] cs[k]) + 4 <= fat.len(),
        0 <= d,
        4 * d + 4 <= fat.len(),
        fat_entry(fat, d) == 0,
    ensures
        fat_entry(free_from(fat, cs, i), d) == 0,
    decreases cs.len() - i,
{
    if i < cs.len() {
        let g = set_entry(fat, cs[i] as int, 0);
        lemma_set_entry(fat, cs[i] as int, 0, d);
        lemma_free_keeps_zero(g, cs, i + 1, d);
    }
}

proof fn lemma_free_from(fat: Seq<u8>, cs: Seq<u32>, i: int)
    requires
        0 <= i <= cs.len(),
        forall|k: int| 0 <= k < cs.len() ==> 4 * (#[trigger] cs[k]) + 4 <= fat.len(),
    ensures
        forall|k: int| i <= k < cs.len() ==> fat_entry(free_from(fat, cs, i), #[trigger] cs[k] as int) == 0,
    decreases cs.len() - i,
{
    if i < cs.len() {
        let g = set_entry(fat, cs[i] as int, 0);
        lemma_set_entry(fat, cs[i] as int, 0, cs[i] as int);
        assert forall|k: int| 0 <= k < cs.len() implies 4 * (#[trigger] cs[k]) + 4 <= g.len() by {
            lemma_set_entry(fat, cs[i] as int, 0, cs[k] as int);
        }
        lemma_free_from(g, cs, i + 1);
        lemma_free_keeps_zero(g, cs, i + 1, cs[i] as int);
    }
}

/// Deleting a file frees every cluster of its chain.
pub proof fn law_deleted_chain_is_free(fat: Seq<u8>, dir: Seq<u8>, name: Seq<char>)
    requires
        delete_outcome(fat, dir, name) is Ok,
    ensures
        ({
            let es = crate::fat::directory_entries(dir);
            let cs = chain_of(fat, es[crate::fat::find_entry(es, name)->Some_0].cluster);
            forall|k: int| 0 <= k < cs.len() ==> fat_entry(delete_outcome(fat, dir, name)->Ok_0.0, #[trigger] cs[k] as int) == 0
        }),
{
    let es = crate::fat::directory_entries(dir);
    let first = es[crate::fat::find_entry(es, name)->Some_0].cluster;
    let cs = chain_of(fat, first);
    lemma_chain_in_fat(fat, first, fat_len(fat) as nat);
    assert forall|k: int| 0 <= k < cs.len() implies 4 * (#[trigger] cs[k]) + 4 <= fat.len() by {}
    lemma_free_from(fat, cs, 0);
}

// ---------------------------------------------------------------------------
// Directory records
// ---------------------------------------------------------------------------

/// A 16-bit value, little endian.
pub open spec fn le16(u: u16) -> Seq<u8> {
    seq![(u % 256) as u8, (u / 256) as u8]
}

/// A 32-bit value, little endian.
pub open spec fn le32(u: u32) -> Seq<u8> {
    seq![(u % 256) as u8, ((u / 256) % 256) as u8, ((u / 0x1_0000) % 256) as u8, (u / 0x100_0000) as u8]
}

/// The `i`-th UCS-2 unit of a long name: the character's code, then one
/// 0x0000, then 0xFFFF padding.
pub open spec fn name_unit(name: Seq<char>, i: int) -> u16 {
    if 0 <= i < name.len() {
        (name[i] as u32) as u16
    } else if i == name.len() {
        0
    } else {
        0xFFFF
    }
}

/// The units `base + from .. base + to` of a long name, as bytes.
pub open spec fn units_bytes(name: Seq<char>, base: int, from: int, to: int) -> Seq<u8>
    decreases to - from,
{
    if to <= from {
        Seq::empty()
    } else {
        units_bytes(name, base, from, to - 1) + le16(name_unit(name, base + to - 1))
    }
}

/// The number of long-name records a name takes: 13 characters each.
pub open spec fn lfn_count(name: Seq<char>) -> int {
    ((name.len() + 12) / 13) as int
}

/// The long-name record with ordinal `j` of `m` (the last one marked by bit
/// 6), for an alias whose checksum is `cks`.
pub open spec fn lfn_record(name: Seq<char>, cks: u8, j: int, m: int) -> Seq<u8> {
    let base = 13 * (j - 1);
    seq![(if j == m { j + 64 } else { j }) as u8] + units_bytes(name, base, 0, 5) + seq![0x0Fu8, 0, cks]
        + units_bytes(name, base, 5, 11) + seq![0u8, 0] + units_bytes(name, base, 11, 13)
}

/// The long-name records with ordinals `k` down to 1, as they are stored.
pub open spec fn lfn_block(name: Seq<char>, cks: u8, m: int, k: int) -> Seq<u8>
    decreases k,
{
    if k <= 0 {
        Seq::empty()
    } else {
        lfn_record(name, cks, k, m) + lfn_block(name, cks, m, k - 1)
    }
}

/// The 8.3 record: the alias, the attributes, the first cluster and the
/// size; times and dates left 0.
pub open spec fn short_record(alias: Seq<u8>, attr: u8, cluster: u32, size: u32) -> Seq<u8> {
    alias + seq![attr, 0, 0, 0, 0, 0, 0, 0, 0] + le16((cluster / 0x1_0000) as u16) + seq![0u8, 0, 0, 0]
        + le16((cluster % 0x1_0000) as u16) + le32(size)
}

/// The checksum of an alias that its long-name records carry: over its 11
/// bytes, rotate right by one bit and add.
pub open spec fn alias_checksum_upto(alias: Seq<u8>, i: int) -> u8
    decreases i,
{
    if i <= 0 {
        0
    } else {
        let s = alias_checksum_upto(alias, i - 1);
        (((s % 2) as int * 128 + (s / 2) as int + alias[i - 1] as int) % 256) as u8
    }
}

pub open spec fn alias_checksum(alias: Seq<u8>) -> u8 {
    alias_checksum_upto(alias, 11)
}

/// All the records of a new entry: its long-name records, then its 8.3
/// record.
pub open spec fn entry_records(name: Seq<char>, alias: Seq<u8>, attr: u8, cluster: u32, size: u32) -> Seq<u8> {
    lfn_block(name, alias_checksum(alias), lfn_count(name), lfn_count(name)) + short_record(
        alias,
        attr,
        cluster,
        size,
    )
}

fn push_u16(v: &mut Vec<u8>, u: u16)
    ensures
        final(v)@ == old(v)@ + le16(u),
{
    v.push((u % 256) as u8);
    v.push((u / 256) as u8);
    assert(final(v)@ =~= old(v)@ + le16(u));
}

fn push_units(v: &mut Vec<u8>, name: &[char], base: usize, from: usize, to: usize)
    requires
        from <= to,
        base + to <= 300,
        forall|i: int| 0 <= i < name@.len() ==> (#[trigger] name@[i] as u32) < 0x1_0000,
    ensures
        final(v)@ == old(v)@ + units_bytes(name@, base as int, from as int, to as int),
{
    let mut t = from;
    assert(old(v)@ + units_bytes(name@, base as int, from as int, from as int) =~= old(v)@);
    while t < to
        invariant
            from <= t <= to,
            base + to <= 300,
            forall|i: int| 0 <= i < name@.len() ==> (#[trigger] name@[i] as u32) < 0x1_0000,
            v@ == old(v)@ + units_bytes(name@, base as int, from as int, t as int),
        decreases to - t,
    {
        let k = base + t;
        let u: u16 = if k < name.len() {
            name[k] as u32 as u16
        } else if k == name.len() {
            0
        } else {
            0xFFFF
        };
        assert(u == name_unit(name@, base + t));
        push_u16(v, u);
        assert(old(v)@ + units_bytes(name@, base as int, from as int, t + 1) =~= old(v)@ + units_bytes(
            name@,
            base as int,
            from as int,
            t as int,
        ) + le16(u));
        t = t + 1;
    }
}

fn alias_checksum_of(alias: &[u8]) -> (r: u8)
    requires
        alias@.len() == 11,
    ensures
        r == alias_checksum(alias@),
{
    let mut s: u8 = 0;
    let mut i: usize = 0;
    while i < 11
        invariant
            0 <= i <= 11,
            alias@.len() == 11,
            s == alias_checksum_upto(alias@, i as int),
        decreases 11 - i,
    {
        s = (((s % 2) as u16 * 128 + (s / 2) as u16 + alias[i] as u16) % 256) as u8;
        i = i + 1;
    }
    s
}

/// The records of a new entry named `name` with this alias.
pub fn new_entry_records(name: &[char], alias: &[u8], attr: u8, cluster: u32, size: u32) -> (r: Vec<u8>)
    requires
        1 <= name@.len() <= 255,
        alias@.len() == 11,
        forall|i: int| 0 <= i < name@.len() ==> (#[trigger] name@[i] as u32) < 0x1_0000,
    ensures
        r@ == entry_records(name@, alias@, attr, cluster, size),
        r@.len() == 32 * (lfn_count(name@) + 1),
{
    let cks = alias_checksum_of(alias);
    let m = (name.len() + 12) / 13;
    let mut v: Vec<u8> = Vec::new();
    let mut k = m;
    assert(v@ + lfn_block(name@, cks, m as int, m as int) =~= lfn_block(name@, cks, m as int, m as int));
    while k > 0
        invariant
            0 <= k <= m,
            m == lfn_count(name@),
            m <= 20,
            forall|i: int| 0 <= i < name@.len() ==> (#[trigger] name@[i] as u32) < 0x1_0000,
            v@ + lfn_block(name@, cks, m as int, k as int) == lfn_block(name@, cks, m as int, m as int),
            v@.len() == 32 * (m - k),
        decreases k,
    {
        let base = 13 * (k - 1);
        let ghost before = v@;
        let ord: u8 = if k == m {
            (k + 64) as u8
        } else {
            k as u8
        };
        v.push(ord);
        push_units(&mut v, name, base, 0, 5);
        v.push(0x0F);
        v.push(0);
        v.push(cks);
        push_units(&mut v, name, base, 5, 11);
        v.push(0);
        v.push(0);
        push_units(&mut v, name, base, 11, 13);
        proof {
            lemma_units_len(name@, base as int, 0, 5);
            lemma_units_len(name@, base as int, 5, 11);
            lemma_units_len(name@, base as int, 11, 13);
            assert(v@ =~= before + lfn_record(name@, cks, k as int, m as int));
            assert(before + lfn_block(name@, cks, m as int, k as int) =~= v@ + lfn_block(
                name@,
                cks,
                m as int,
                k - 1,
            ));
        }
        k = k - 1;
    }
    assert(v@ + Seq::<u8>::empty() =~= v@);
    let ghost lfn = v@;
    let mut j: usize = 0;
    while j < 11
        invariant
            0 <= j <= 11,
            alias@.len() == 11,
            v@ == lfn + alias@.take(j as int),
        decreases 11 - j,
    {
        v.push(alias[j]);
        assert(alias@.take(j + 1) =~= alias@.take(j as int).push(alias@[j as int]));
        j = j + 1;
    }
    assert(alias@.take(11) =~= alias@);
    v.push(attr);
    let mut z: usize = 0;
    while z < 8
        invariant
            0 <= z <= 8,
            v@ == lfn + alias@ + seq![attr] + Seq::new(z as nat, |q: int| 0u8),
        decreases 8 - z,
    {
        v.push(0);
        assert(Seq::new((z + 1) as nat, |q: int| 0u8) =~= Seq::new(z as nat, |q: int| 0u8).push(0u8));
        z = z + 1;
    }
    push_u16(&mut v, (cluster / 0x1_0000) as u16);
    v.push(0);
    v.push(0);
    v.push(0);
    v.push(0);
    push_u16(&mut v, (cluster % 0x1_0000) as u16);
    v.push((size % 256) as u8);
    v.push(((size / 256) % 256) as u8);
    v.push(((size / 0x1_0000) % 256) as u8);
    v.push((size / 0x100_0000) as u8);
    assert(Seq::new(8nat, |q: int| 0u8) =~= seq![0u8, 0, 0, 0, 0, 0, 0, 0]);
    assert(v@ =~= entry_records(name@, alias@, attr, cluster, size));
    v
}

proof fn lemma_units_len(name: Seq<char>, base: int, from: int, to: int)
    requires
        from <= to,
    ensures
        units_bytes(name, base, from, to).len() == 2 * (to - from),
    decreases to - from,
{
    if from < to {
        lemma_units_len(name, base, from, to - 1);
    }
}

// ---------------------------------------------------------------------------
// Aliases
// ---------------------------------------------------------------------------

/// A character of an 8.3 alias: letters in upper case, digits and the
/// marks FAT allows kept, anything else `_`.
pub open spec fn alias_char(c: char) -> u8 {
    if 'a' <= c <= 'z' {
        ((c as u32) - 32) as u8
    } else if ('A' <= c <= 'Z') || ('0' <= c <= '9') || c == '!' || c == '#' || c == '$' || c == '%'
        || c == '&' || c == '\'' || c == '(' || c == ')' || c == '-' || c == '@' || c == '^' || c
        == '_' || c == '`' || c == '{' || c == '}' || c == '~' {
        (c as u32) as u8
    } else {
        0x5F
    }
}

fn alias_char_of(c: char) -> (r: u8)
    ensures
        r == alias_char(c),
{
    if 'a' <= c && c <= 'z' {
        ((c as u32) - 32) as u8
    } else if ('A' <= c && c <= 'Z') || ('0' <= c && c <= '9') || c == '!' || c == '#' || c == '$'
        || c == '%' || c == '&' || c == '\'' || c == '(' || c == ')' || c == '-' || c == '@' || c
        == '^' || c == '_' || c == '`' || c == '{' || c == '}' || c == '~' {
        (c as u32) as u8
    } else {
        0x5F
    }
}

/// The first `n` characters of `s` (or all), as alias characters, padded
/// with spaces to `n`.
pub open spec fn alias_part(s: Seq<char>, n: int) -> Seq<u8> {
    Seq::new(
        n as nat,
        |i: int|
            if i < s.len() {
                alias_char(s[i])
            } else {
                0x20u8
            },
    )
}

/// The name before its last dot (all of it without a dot) and after it.
pub open spec fn name_base(name: Seq<char>) -> Seq<char> {
    match rindex_of(name, '.') {
        Some(p) => name.take(p),
        None => name,
    }
}

pub open spec fn name_ext(name: Seq<char>) -> Seq<char> {
    match rindex_of(name, '.') {
        Some(p) => name.skip(p + 1),
        None => Seq::empty(),
    }
}

/// The alias with numeric tail `n` (1 to 9): up to six characters of the
/// base, `~n`, spaces to eight, then up to three characters of the
/// extension.
pub open spec fn alias_with(name: Seq<char>, n: u8) -> Seq<u8> {
    let b = name_base(name);
    let k = if b.len() < 6 {
        b.len() as int
    } else {
        6
    };
    alias_part(b, k) + seq![0x7Eu8, (0x30 + n) as u8] + alias_part(Seq::empty(), 6 - k)
        + alias_part(name_ext(name), 3)
}

fn alias_with_of(name: &[char], n: u8) -> (r: Vec<u8>)
    requires
        1 <= n <= 9,
    ensures
        r@ == alias_with(name@, n),
{
    proof {
        crate::text::lemma_rindex_of(name@, '.');
    }
    let len = name.len();
    let dot = crate::text::rfind_char(name, '.');
    let (base, ext): (&[char], &[char]) = match dot {
        Some(p) => (&name[0..p], &name[p + 1..len]),
        None => (name, &name[0..0]),
    };
    assert(base@ =~= name_base(name@));
    assert(ext@ =~= name_ext(name@));
    let k = if base.len() < 6 {
        base.len()
    } else {
        6
    };
    let mut v: Vec<u8> = Vec::new();
    let mut i: usize = 0;
    while i < k
        invariant
            0 <= i <= k <= 6,
            k <= base@.len(),
            v@ == alias_part(base@, k as int).take(i as int),
        decreases k - i,
    {
        v.push(alias_char_of(base[i]));
        assert(v@ =~= alias_part(base@, k as int).take(i + 1));
        i = i + 1;
    }
    assert(alias_part(base@, k as int).take(k as int) =~= alias_part(base@, k as int));
    v.push(0x7E);
    v.push(0x30 + n);
    let ghost head = v@;
    let mut j: usize = k;
    while j < 6
        invariant
            k <= j <= 6,
            v@ == head + alias_part(Seq::empty(), j - k),
        decreases 6 - j,
    {
        v.push(0x20);
        assert(alias_part(Seq::<char>::empty(), j + 1 - k) =~= alias_part(Seq::<char>::empty(), j - k).push(0x20u8));
        j = j + 1;
    }
    let ghost mid = v@;
    let mut e: usize = 0;
    while e < 3
        invariant
            0 <= e <= 3,
            v@ == mid + alias_part(ext@, 3).take(e as int),
        decreases 3 - e,
    {
        let b = if e < ext.len() {
            alias_char_of(ext[e])
        } else {
            0x20
        };
        v.push(b);
        assert(alias_part(ext@, 3).take(e + 1) =~= alias_part(ext@, 3).take(e as int).push(b));
        e = e + 1;
    }
    assert(alias_part(ext@, 3).take(3) =~= alias_part(ext@, 3));
    assert(v@ =~= alias_with(name@, n));
    v
}

// ---------------------------------------------------------------------------
// Slots in a directory
// ---------------------------------------------------------------------------

/// The number of records in directory data.
pub open spec fn record_count(dir: Seq<u8>) -> int {
    (dir.len() / 32) as int
}

/// The first byte of record `k`.
pub open spec fn record_head(dir: Seq<u8>, k: int) -> u8 {
    dir[32 * k]
}

/// The position of the end mark (the first record whose first byte is 0)
/// at or after `k`, or the number of records.
pub open spec fn end_from(dir: Seq<u8>, k: int) -> int
    decreases record_count(dir) - k,
{
    if k < 0 || k >= record_count(dir) {
        record_count(dir)
    } else if record_head(dir, k) == 0 {
        k
    } else {
        end_from(dir, k + 1)
    }
}

pub open spec fn end_mark(dir: Seq<u8>) -> int {
    end_from(dir, 0)
}

/// Record `k` can be written: a deleted record before the end mark, or any
/// record from the end mark on.
pub open spec fn slot_free(dir: Seq<u8>, k: int) -> bool {
    record_head(dir, k) == 0xE5 || k >= end_mark(dir)
}

/// Records `k..k+n` can all be written, and they start no later than the
/// end mark (so that they are not hidden behind it).
pub open spec fn run_free(dir: Seq<u8>, k: int, n: int) -> bool {
    &&& 0 <= k <= end_mark(dir)
    &&& k + n <= record_count(dir)
    &&& forall|i: int| k <= i < k + n ==> slot_free(dir, i)
}

/// The first position at or after `k` where `n` records can be written.
pub open spec fn first_run(dir: Seq<u8>, n: int, k: int) -> Option<int>
    decreases record_count(dir) + 1 - k,
{
    if k < 0 || k > end_mark(dir) || k + n > record_count(dir) {
        None
    } else if run_free(dir, k, n) {
        Some(k)
    } else {
        first_run(dir, n, k + 1)
    }
}

proof fn lemma_first_run(dir: Seq<u8>, n: int, k: int)
    ensures
        first_run(dir, n, k) matches Some(j) ==> run_free(dir, j, n) && k <= j,
    decreases record_count(dir) + 1 - k,
{
    if !(k < 0 || k > end_mark(dir) || k + n > record_count(dir)) && !run_free(dir, k, n) {
        lemma_first_run(dir, n, k + 1);
    }
}

proof fn lemma_end_from(dir: Seq<u8>, k: int)
    requires
        0 <= k <= record_count(dir),
    ensures
        k <= end_from(dir, k) <= record_count(dir),
        forall|i: int| k <= i < end_from(dir, k) ==> record_head(dir, i) != 0,
        end_from(dir, k) < record_count(dir) ==> record_head(dir, end_from(dir, k)) == 0,
    decreases record_count(dir) - k,
{
    if k < record_count(dir) && record_head(dir, k) != 0 {
        lemma_end_from(dir, k + 1);
    }
}

fn end_mark_of(dir: &[u8]) -> (r: usize)
    ensures
        r == end_mark(dir@),
{
    let len = dir.len();
    let n = len / 32;
    let mut k: usize = 0;
    while k < n
        invariant
            len == dir@.len(),
            n == record_count(dir@),
            n * 32 <= dir@.len(),
            0 <= k <= n,
            end_from(dir@, 0) == end_from(dir@, k as int),
        decreases n - k,
    {
        if dir[32 * k] == 0 {
            return k;
        }
        k = k + 1;
    }
    k
}

/// Where `n` records can be written in a directory, if anywhere.
pub fn find_slots(dir: &[u8], n: usize) -> (r: Option<usize>)
    ensures
        match r {
            Some(k) => first_run(dir@, n as int, 0) == Some(k as int),
            None => first_run(dir@, n as int, 0) is None,
        },
{
    let len = dir.len();
    let count = len / 32;
    let end = end_mark_of(dir);
    proof {
        lemma_end_from(dir@, 0);
    }
    let mut k: usize = 0;
    while k <= end && n <= count && k <= count - n
        invariant
            len == dir@.len(),
            count == record_count(dir@),
            count * 32 <= dir@.len(),
            end == end_mark(dir@),
            end <= count,
            first_run(dir@, n as int, 0) == first_run(dir@, n as int, k as int),
        decreases count + 1 - k,
    {
        let mut ok = true;
        let mut i: usize = k;
        while i < k + n
            invariant
                len == dir@.len(),
                k <= i <= k + n <= count,
                count * 32 <= dir@.len(),
                end == end_mark(dir@),
                ok == (forall|j: int| k <= j < i ==> slot_free(dir@, j)),
            decreases k + n - i,
        {
            assert(slot_free(dir@, i as int) == (dir@[32 * i] == 0xE5 || i >= end));
            if !(dir[32 * i] == 0xE5 || i >= end) {
                ok = false;
            }
            i = i + 1;
        }
        if ok {
            return Some(k);
        }
        k = k + 1;
    }
    None
}

/// The directory with `recs` written from record `k` on; when the records
/// reach to or past the end mark, the record after them (if any) becomes
/// the new end mark.
pub open spec fn placed(dir: Seq<u8>, k: int, recs: Seq<u8>) -> Seq<u8> {
    let n = recs.len() / 32;
    let written = dir.take(32 * k) + recs + dir.skip(32 * k + recs.len());
    if k + n > end_mark(dir) && k + n < record_count(dir) {
        written.update(32 * (k + n), 0u8)
    } else {
        written
    }
}

/// Writes `recs` from record `k` on, as `placed` says.
pub fn place_records(dir: &mut Vec<u8>, k: usize, recs: &[u8])
    requires
        recs@.len() % 32 == 0,
        32 * k + recs@.len() <= old(dir)@.len(),
    ensures
        final(dir)@ == placed(old(dir)@, k as int, recs@),
{
    let end = end_mark_of(dir.as_slice());
    let len = dir.len();
    let n = recs.len() / 32;
    let after = (32 * k + recs.len()) / 32;
    assert(after == k + n);
    let mut i: usize = 0;
    while i < recs.len()
        invariant
            len == old(dir)@.len(),
            0 <= i <= recs@.len(),
            32 * k + recs@.len() <= old(dir)@.len(),
            dir@.len() == old(dir)@.len(),
            dir@ == old(dir)@.take(32 * k) + recs@.take(i as int) + old(dir)@.skip(32 * k + i),
        decreases recs@.len() - i,
    {
        dir.set(32 * k + i, recs[i]);
        assert(dir@ =~= old(dir)@.take(32 * k) + recs@.take(i + 1) + old(dir)@.skip(32 * k + i + 1));
        i = i + 1;
    }
    assert(recs@.take(recs@.len() as int) =~= recs@);
    if after > end && after < len / 32 {
        dir.set(32 * after, 0);
    }
}

/// The directory with the first byte of records `from..=to` set to 0xE5
/// (deleted).
pub open spec fn marked_deleted(dir: Seq<u8>, from: int, to: int) -> Seq<u8> {
    Seq::new(
        dir.len(),
        |i: int|
            if 32 * from <= i <= 32 * to && i % 32 == 0 {
                0xE5u8
            } else {
                dir[i]
            },
    )
}

/// Marks the records of an entry deleted: from its first long-name record
/// to its 8.3 record.
pub fn mark_deleted(dir: &mut Vec<u8>, from: usize, to: usize)
    requires
        from <= to,
        32 * to + 32 <= old(dir)@.len(),
    ensures
        final(dir)@ == marked_deleted(old(dir)@, from as int, to as int),
{
    let len = dir.len();
    let mut k = from;
    while k <= to
        invariant
            len == old(dir)@.len(),
            from <= k <= to + 1,
            32 * to + 32 <= old(dir)@.len(),
            dir@.len() == old(dir)@.len(),
            dir@ == marked_deleted(old(dir)@, from as int, k - 1),
        decreases to + 1 - k,
    {
        dir.set(32 * k, 0xE5);
        assert(dir@ =~= marked_deleted(old(dir)@, from as int, k as int));
        k = k + 1;
    }
}

/// The alias is used by an 8.3 record before the end mark.
pub open spec fn alias_taken(dir: Seq<u8>, alias: Seq<u8>) -> bool {
    exists|k: int|
        0 <= k < end_mark(dir) && record_head(dir, k) != 0xE5 && dir[32 * k + 11] != 0x0F
            && #[trigger] dir.subrange(32 * k, 32 * k + 11) == alias
}

/// The first numeric tail from `n` to 9 whose alias is free.
pub open spec fn free_tail(dir: Seq<u8>, name: Seq<char>, n: int) -> Option<u8>
    decreases 10 - n,
{
    if n < 1 || n > 9 {
        None
    } else if !alias_taken(dir, alias_with(name, n as u8)) {
        Some(n as u8)
    } else {
        free_tail(dir, name, n + 1)
    }
}

fn alias_in_use(dir: &[u8], alias: &[u8]) -> (r: bool)
    requires
        alias@.len() == 11,
    ensures
        r == alias_taken(dir@, alias@),
{
    let end = end_mark_of(dir);
    proof {
        lemma_end_from(dir@, 0);
    }
    let len = dir.len();
    let mut k: usize = 0;
    while k < end
        invariant
            len == dir@.len(),
            end == end_mark(dir@),
            end <= record_count(dir@),
            alias@.len() == 11,
            forall|j: int|
                0 <= j < k ==> !(record_head(dir@, j) != 0xE5 && dir@[32 * j + 11] != 0x0F
                    && #[trigger] dir@.subrange(32 * j, 32 * j + 11) == alias@),
        decreases end - k,
    {
        let b = 32 * k;
        let mut same = dir[b] != 0xE5 && dir[b + 11] != 0x0F;
        let mut t: usize = 0;
        while t < 11
            invariant
                0 <= t <= 11,
                b == 32 * k,
                b + 32 <= dir@.len(),
                alias@.len() == 11,
                same == (dir@[b as int] != 0xE5 && dir@[b + 11] != 0x0F && forall|q: int|
                    0 <= q < t ==> dir@[b + q] == alias@[q]),
            decreases 11 - t,
        {
            if dir[b + t] != alias[t] {
                same = false;
            }
            t = t + 1;
        }
        if same {
            assert(dir@.subrange(b as int, b + 11) =~= alias@);
            return true;
        }
        assert(!(record_head(dir@, k as int) != 0xE5 && dir@[32 * k + 11] != 0x0F
            && dir@.subrange(32 * k, 32 * k + 11) == alias@)) by {
            if record_head(dir@, k as int) != 0xE5 && dir@[32 * k + 11] != 0x0F
                && dir@.subrange(32 * k, 32 * k + 11) == alias@ {
                assert forall|q: int| 0 <= q < 11 implies dir@[b + q] == alias@[q] by {
                    assert(dir@.subrange(32 * k, 32 * k + 11)[q] == dir@[b + q]);
                }
            }
        }
        k = k + 1;
    }
    false
}

/// An alias for `name` that no record of the directory uses.
fn pick_alias(dir: &[u8], name: &[char]) -> (r: Option<Vec<u8>>)
    ensures
        match r {
            Some(a) => free_tail(dir@, name@, 1) matches Some(n) && a@ == alias_with(name@, n),
            None => free_tail(dir@, name@, 1) is None,
        },
{
    let mut n: u8 = 1;
    while n <= 9
        invariant
            1 <= n <= 10,
            free_tail(dir@, name@, 1) == free_tail(dir@, name@, n as int),
        decreases 10 - n,
    {
        let a = alias_with_of(name, n);
        if !alias_in_use(dir, a.as_slice()) {
            return Some(a);
        }
        n = n + 1;
    }
    None
}

// ---------------------------------------------------------------------------
// Creating and deleting
// ---------------------------------------------------------------------------

/// Why a change to the file system cannot be made.
#[derive(Debug, Clone, Copy, PartialEq, Eq, Structural)]
pub enum FatError {
    /// The name is empty, longer than 255 characters, or holds a character
    /// that long names cannot hold.
    BadName,
    /// An entry of that name is already there.
    Exists,
    /// No entry of that name is there (or it is a subdirectory).
    NotFound,
    /// There are not enough free clusters.
    NoSpace,
    /// The directory has no room for the records; it must grow first.
    DirFull,
    /// All nine aliases for the name are taken.
    NoAlias,
}

/// A name a long-name entry can hold: 1 to 255 characters, each in the
/// basic plane, none of them a control character or one of `\ / : * ? " <
/// > |`.
pub open spec fn valid_long_name(name: Seq<char>) -> bool {
    &&& 1 <= name.len() <= 255
    &&& forall|i: int|
        0 <= i < name.len() ==> {
            let c = #[trigger] name[i];
            &&& (c as u32) < 0x1_0000
            &&& (c as u32) >= 0x20
            &&& c != '\\' && c != '/' && c != ':' && c != '*' && c != '?' && c != '"' && c != '<'
                && c != '>' && c != '|'
        }
}

fn long_name_ok(name: &[char]) -> (r: bool)
    ensures
        r == valid_long_name(name@),
{
    if name.len() == 0 || name.len() > 255 {
        return false;
    }
    let mut i: usize = 0;
    while i < name.len()
        invariant
            1 <= name@.len() <= 255,
            0 <= i <= name@.len(),
            forall|j: int|
                0 <= j < i ==> {
                    let c = #[trigger] name@[j];
                    &&& (c as u32) < 0x1_0000
                    &&& (c as u32) >= 0x20
                    &&& c != '\\' && c != '/' && c != ':' && c != '*' && c != '?' && c != '"' && c
                        != '<' && c != '>' && c != '|'
                },
        decreases name@.len() - i,
    {
        let c = name[i];
        let u = c as u32;
        if u >= 0x1_0000 || u < 0x20 || c == '\\' || c == '/' || c == ':' || c == '*' || c == '?'
            || c == '"' || c == '<' || c == '>' || c == '|' {
            return false;
        }
        i = i + 1;
    }
    true
}

/// The number of clusters that `len` bytes take, `cluster_bytes` each.
pub open spec fn clusters_for(len: int, cluster_bytes: int) -> int {
    (len + cluster_bytes - 1) / cluster_bytes
}

/// What creating an entry named `name` (attributes `attr`, `len` bytes, in
/// `count` clusters) does to the FAT and the directory, or why it cannot:
/// the name is checked, then that it is new, then that an alias and room
/// for the records are there, then that there are enough free clusters.
/// The clusters are the first free ones, linked into one chain; the entry
/// points at the first (0 when there is none).
pub open spec fn create_outcome(
    fat: Seq<u8>,
    dir: Seq<u8>,
    name: Seq<char>,
    attr: u8,
    len: u32,
    count: int,
) -> Result<(Seq<u8>, Seq<u8>, Seq<u32>), FatError> {
    if !valid_long_name(name) {
        Err(FatError::BadName)
    } else if crate::fat::find_entry(crate::fat::directory_entries(dir), name) is Some {
        Err(FatError::Exists)
    } else {
        match free_tail(dir, name, 1) {
            None => Err(FatError::NoAlias),
            Some(n) => match first_run(dir, lfn_count(name) + 1, 0) {
                None => Err(FatError::DirFull),
                Some(k) => if free_clusters(fat).len() < count {
                    Err(FatError::NoSpace)
                } else {
                    let cs = free_clusters(fat).take(count);
                    let first: u32 = if count > 0 {
                        cs[0]
                    } else {
                        0
                    };
                    Ok(
                        (
                            link_from(fat, cs, 0),
                            placed(dir, k, entry_records(name, alias_with(name, n), attr, first, len)),
                            cs,
                        ),
                    )
                },
            },
        }
    }
}

/// Creates an entry: `attr` 0x20 for a file of `len` bytes, 0x10 for a
/// subdirectory (one cluster, size 0). The FAT and the directory change as
/// `create_outcome` says, and stay as they were on an error; gives the
/// clusters where the contents go.
#[verifier::spinoff_prover]
#[verifier::rlimit(80)]
pub fn create_entry(
    fat: &mut Vec<u8>,
    dir: &mut Vec<u8>,
    name: &str,
    attr: u8,
    len: u32,
    count: usize,
) -> (r: Result<Vec<u32>, FatError>)
    ensures
        match create_outcome(old(fat)@, old(dir)@, name@, attr, len, count as int) {
            Ok((f, d, cs)) => r matches Ok(v) && v@ == cs && final(fat)@ == f && final(dir)@ == d,
            Err(e) => r == Err::<Vec<u32>, FatError>(e) && final(fat)@ == old(fat)@ && final(dir)@
                == old(dir)@,
        },
{
    let cs = crate::text::chars_of(name);
    if !long_name_ok(cs.as_slice()) {
        return Err(FatError::BadName);
    }
    let entries = crate::fat::read_directory_entries(dir.as_slice());
    if crate::fat::lookup_entry(&entries, cs.as_slice()).is_some() {
        return Err(FatError::Exists);
    }
    let alias = match pick_alias(dir.as_slice(), cs.as_slice()) {
        Some(a) => a,
        None => return Err(FatError::NoAlias),
    };
    let m = (cs.len() + 12) / 13;
    let slot = match find_slots(dir.as_slice(), m + 1) {
        Some(k) => k,
        None => return Err(FatError::DirFull),
    };
    let clusters = match find_free_clusters(fat.as_slice(), count) {
        Some(v) => v,
        None => return Err(FatError::NoSpace),
    };
    let first: u32 = if count > 0 {
        clusters[0]
    } else {
        0
    };
    let recs = new_entry_records(cs.as_slice(), alias.as_slice(), attr, first, len);
    proof {
        lemma_free_upto_facts(fat@, fat_len(fat@));
        assert(fat_len(fat@) <= fat@.len() / 4);
    }
    link_clusters(fat, &clusters);
    let dlen = dir.len();
    proof {
        lemma_end_from(old(dir)@, 0);
        lemma_first_run(old(dir)@, (m + 1) as int, 0);
        assert(32 * slot + recs@.len() <= dlen) by (nonlinear_arith)
            requires
                slot + m + 1 <= dlen / 32,
                recs@.len() == 32 * (m + 1),
        ;
        assert(recs@.len() % 32 == 0) by (nonlinear_arith)
            requires
                recs@.len() == 32 * (m + 1),
        ;
    }
    place_records(dir, slot, recs.as_slice());
    Ok(clusters)
}

/// What deleting the file `name` does: its records are marked deleted and
/// its clusters freed; a subdirectory or a missing name is `NotFound`.
pub open spec fn delete_outcome(fat: Seq<u8>, dir: Seq<u8>, name: Seq<char>) -> Result<(Seq<u8>, Seq<u8>), FatError> {
    let es = crate::fat::directory_entries(dir);
    match crate::fat::find_entry(es, name) {
        None => Err(FatError::NotFound),
        Some(i) => if crate::fat::is_directory(es[i].attributes) {
            Err(FatError::NotFound)
        } else {
            Ok(
                (
                    free_from(fat, chain_of(fat, es[i].cluster), 0),
                    marked_deleted(dir, es[i].first_record, es[i].record),
                ),
            )
        },
    }
}

/// Deletes the file `name` from the directory, as `delete_outcome` says;
/// nothing changes on an error.
pub fn delete_entry(fat: &mut Vec<u8>, dir: &mut Vec<u8>, name: &str) -> (r: Result<(), FatError>)
    ensures
        match delete_outcome(old(fat)@, old(dir)@, name@) {
            Ok((f, d)) => r is Ok && final(fat)@ == f && final(dir)@ == d,
            Err(e) => r == Err::<(), FatError>(e) && final(fat)@ == old(fat)@ && final(dir)@
                == old(dir)@,
        },
{
    let cs = crate::text::chars_of(name);
    let entries = crate::fat::read_directory_entries(dir.as_slice());
    let i = match crate::fat::lookup_entry(&entries, cs.as_slice()) {
        Some(i) => i,
        None => return Err(FatError::NotFound),
    };
    let ghost es = crate::fat::directory_entries(old(dir)@);
    assert(es[i as int] == entries@[i as int]@);
    if entries[i].attributes & 0x10 != 0 {
        return Err(FatError::NotFound);
    }
    let from = entries[i].first_record;
    let to = entries[i].record;
    proof {
        lemma_record_positions(old(dir)@, (old(dir)@.len() / 32) as nat);
    }
    free_chain(fat, entries[i].cluster);
    mark_deleted(dir, from, to);
    Ok(())
}

proof fn lemma_record_positions(data: Seq<u8>, n: nat)
    requires
        n <= data.len() / 32,
    ensures
        forall|j: int|
            0 <= j < crate::fat::dir_scan(data, n).0.len() ==> {
                let e = #[trigger] crate::fat::dir_scan(data, n).0[j];
                0 <= e.first_record <= e.record < n
            },
        0 <= crate::fat::dir_scan(data, n).3 <= n,
        crate::fat::dir_scan(data, n).2.len() > 0 ==> crate::fat::dir_scan(data, n).3 < n,
    decreases n,
{
    if n > 0 {
        lemma_record_positions(data, (n - 1) as nat);
    }
}

/// Grows a directory whose chain is `chain` by one free cluster, linked
/// after its last; gives the cluster, whose contents must be zeroed. `None`
/// when no cluster is free or the chain is empty.
pub fn grow_chain(fat: &mut Vec<u8>, chain: &Vec<u32>) -> (r: Option<u32>)
    ensures
        match r {
            Some(c) => chain@.len() > 0 && free_clusters(old(fat)@).len() > 0 && c
                == free_clusters(old(fat)@)[0] && final(fat)@ == set_entry(
                set_entry(old(fat)@, chain@.last() as int, c),
                c as int,
                0x0FFF_FFFF,
            ),
            None => (chain@.len() == 0 || free_clusters(old(fat)@).len() == 0 || !(4
                * chain@.last() + 4 <= old(fat)@.len() && chain@.last() < 0x1000_0000))
                && final(fat)@ == old(fat)@,
        },
{
    if chain.len() == 0 {
        return None;
    }
    let last = chain[chain.len() - 1];
    if !(last < 0x1000_0000 && 4 * (last as usize) + 4 <= fat.len()) {
        return None;
    }
    let free = match find_free_clusters(fat.as_slice(), 1) {
        Some(v) => v,
        None => return None,
    };
    let c = free[0];
    proof {
        lemma_free_upto_facts(fat@, fat_len(fat@));
        assert(free_clusters(old(fat)@).take(1)[0] == free_clusters(old(fat)@)[0]);
    }
    write_entry(fat, last, c);
    write_entry(fat, c, 0x0FFF_FFFF);
    Some(c)
}

/// The first records of a new subdirectory at cluster `c` in the directory
/// at `parent` (0 for the root): `.` and `..`.
pub open spec fn dot_records(c: u32, parent: u32) -> Seq<u8> {
    short_record(seq![0x2Eu8, 0x20, 0x20, 0x20, 0x20, 0x20, 0x20, 0x20, 0x20, 0x20, 0x20], 0x10, c, 0)
        + short_record(seq![0x2Eu8, 0x2E, 0x20, 0x20, 0x20, 0x20, 0x20, 0x20, 0x20, 0x20, 0x20], 0x10, parent, 0)
}

/// The contents of a new subdirectory's cluster: `.` and `..`, then zeros.
pub fn new_directory_cluster(c: u32, parent: u32, cluster_bytes: usize) -> (r: Vec<u8>)
    requires
        cluster_bytes >= 64,
    ensures
        r@ == dot_records(c, parent) + Seq::new((cluster_bytes - 64) as nat, |i: int| 0u8),
{
    let dot = ['.'];
    let dotdot = ['.', '.'];
    let a = [0x2Eu8, 0x20, 0x20, 0x20, 0x20, 0x20, 0x20, 0x20, 0x20, 0x20, 0x20];
    let b = [0x2Eu8, 0x2E, 0x20, 0x20, 0x20, 0x20, 0x20, 0x20, 0x20, 0x20, 0x20];
    let mut v = short_record_bytes(&a, 0x10, c, 0);
    let mut w = short_record_bytes(&b, 0x10, parent, 0);
    v.append(&mut w);
    let mut i: usize = 64;
    assert(a@ =~= seq![0x2Eu8, 0x20, 0x20, 0x20, 0x20, 0x20, 0x20, 0x20, 0x20, 0x20, 0x20]);
    assert(b@ =~= seq![0x2Eu8, 0x2E, 0x20, 0x20, 0x20, 0x20, 0x20, 0x20, 0x20, 0x20, 0x20]);
    let ghost head = v@;
    assert(head.len() == 64);
    while i < cluster_bytes
        invariant
            64 <= i <= cluster_bytes,
            v@ == head + Seq::new((i - 64) as nat, |q: int| 0u8),
        decreases cluster_bytes - i,
    {
        v.push(0);
        assert(Seq::new((i + 1 - 64) as nat, |q: int| 0u8) =~= Seq::new((i - 64) as nat, |q: int| 0u8).push(0u8));
        i = i + 1;
    }
    v
}

fn short_record_bytes(alias: &[u8; 11], attr: u8, cluster: u32, size: u32) -> (r: Vec<u8>)
    ensures
        r@ == short_record(alias@, attr, cluster, size),
        r@.len() == 32,
{
    let mut v: Vec<u8> = Vec::new();
    let mut j: usize = 0;
    while j < 11
        invariant
            0 <= j <= 11,
            v@ == alias@.take(j as int),
        decreases 11 - j,
    {
        v.push(alias[j]);
        assert(alias@.take(j + 1) =~= alias@.take(j as int).push(alias@[j as int]));
        j = j + 1;
    }
    assert(alias@.take(11) =~= alias@);
    v.push(attr);
    v.push(0);
    v.push(0);
    v.push(0);
    v.push(0);
    v.push(0);
    v.push(0);
    v.push(0);
    v.push(0);
    push_u16(&mut v, (cluster / 0x1_0000) as u16);
    v.push(0);
    v.push(0);
    v.push(0);
    v.push(0);
    push_u16(&mut v, (cluster % 0x1_0000) as u16);
    v.push((size % 256) as u8);
    v.push(((size / 256) % 256) as u8);
    v.push(((size / 0x1_0000) % 256) as u8);
    v.push((size / 0x100_0000) as u8);
    assert(v@ =~= short_record(alias@, attr, cluster, size));
    v
}

// ---------------------------------------------------------------------------
// Directories read back
// ---------------------------------------------------------------------------

proof fn lemma_scan_same(a: Seq<u8>, b: Seq<u8>, j: nat)
    requires
        32 * j <= a.len(),
        32 * j <= b.len(),
        forall|i: int| 0 <= i < 32 * j ==> a[i] == b[i],
    ensures
        crate::fat::dir_scan(a, j) == crate::fat::dir_scan(b, j),
    decreases j,
{
    if j > 0 {
        lemma_scan_same(a, b, (j - 1) as nat);
        assert(a.subrange(32 * (j - 1), 32 * j as int) =~= b.subrange(32 * (j - 1), 32 * j as int));
    }
}

proof fn lemma_scan_grows(data: Seq<u8>, j: nat, j2: nat)
    requires
        j <= j2,
    ensures
        crate::fat::dir_scan(data, j).0.len() <= crate::fat::dir_scan(data, j2).0.len(),
        crate::fat::dir_scan(data, j2).0.take(crate::fat::dir_scan(data, j).0.len() as int)
            == crate::fat::dir_scan(data, j).0,
    decreases j2 - j,
{
    if j < j2 {
        lemma_scan_grows(data, j, (j2 - 1) as nat);
        let a = crate::fat::dir_scan(data, j).0;
        let b = crate::fat::dir_scan(data, (j2 - 1) as nat).0;
        let c = crate::fat::dir_scan(data, j2).0;
        assert(c == b || (c.len() == b.len() + 1 && c.take(b.len() as int) =~= b));
        assert(c.take(a.len() as int) =~= b.take(a.len() as int));
    } else {
        let a = crate::fat::dir_scan(data, j).0;
        assert(a.take(a.len() as int) =~= a);
    }
}

proof fn lemma_not_ended(data: Seq<u8>, j: nat)
    requires
        32 * j <= data.len(),
        forall|i: int| 0 <= i < j ==> #[trigger] record_head(data, i) != 0,
    ensures
        !crate::fat::dir_scan(data, j).1,
    decreases j,
{
    if j > 0 {
        lemma_not_ended(data, (j - 1) as nat);
        assert(record_head(data, j - 1) != 0);
        assert(data.subrange(32 * (j - 1), 32 * j as int)[0] == data[32 * (j - 1)]);
    }
}

proof fn lemma_units_bytes(name: Seq<char>, base: int, from: int, to: int)
    requires
        from <= to,
    ensures
        units_bytes(name, base, from, to).len() == 2 * (to - from),
        forall|p: int|
            0 <= p < 2 * (to - from) ==> #[trigger] units_bytes(name, base, from, to)[p] == if p % 2 == 0 {
                (name_unit(name, base + from + p / 2) % 256) as u8
            } else {
                (name_unit(name, base + from + p / 2) / 256) as u8
            },
    decreases to - from,
{
    if from < to {
        lemma_units_bytes(name, base, from, to - 1);
        let a = units_bytes(name, base, from, to - 1);
        let b = le16(name_unit(name, base + to - 1));
        assert forall|p: int| 0 <= p < 2 * (to - from) implies #[trigger] (a + b)[p] == if p % 2 == 0 {
            (name_unit(name, base + from + p / 2) % 256) as u8
        } else {
            (name_unit(name, base + from + p / 2) / 256) as u8
        } by {
            if p >= 2 * (to - 1 - from) {
                assert(p / 2 == to - 1 - from);
            }
        }
    }
}

proof fn lemma_le16_back(b0: u8, b1: u8, u: u16)
    requires
        b0 == (u % 256) as u8,
        b1 == (u / 256) as u8,
    ensures
        (b0 as int + b1 as int * 0x100) as u16 == u,
{
}

/// What a long-name record holds: its length, ordinal byte, attribute byte
/// and the units of the name at the places a reader takes them from.
proof fn lemma_lfn_record(name: Seq<char>, cks: u8, j: int, m: int)
    requires
        1 <= j <= m <= 20,
    ensures
        lfn_record(name, cks, j, m).len() == 32,
        lfn_record(name, cks, j, m)[0] == (if j == m {
            j + 64
        } else {
            j
        }) as u8,
        lfn_record(name, cks, j, m)[11] == 0x0F,
        forall|i: int|
            0 <= i < 13 ==> crate::disk::le_u16(lfn_record(name, cks, j, m), #[trigger] crate::fat::lfn_offsets()[i])
                == name_unit(name, 13 * (j - 1) + i),
{
    let base = 13 * (j - 1);
    let rec = lfn_record(name, cks, j, m);
    let u0 = units_bytes(name, base, 0, 5);
    let u1 = units_bytes(name, base, 5, 11);
    let u2 = units_bytes(name, base, 11, 13);
    lemma_units_bytes(name, base, 0, 5);
    lemma_units_bytes(name, base, 5, 11);
    lemma_units_bytes(name, base, 11, 13);
    assert forall|i: int| 0 <= i < 13 implies crate::disk::le_u16(rec, #[trigger] crate::fat::lfn_offsets()[i])
        == name_unit(name, base + i) by {
        let off = crate::fat::lfn_offsets()[i];
        let u = name_unit(name, base + i);
        if i < 5 {
            let q = 2 * i;
            assert(off == 1 + q);
            assert(q / 2 == i && q % 2 == 0 && (q + 1) / 2 == i && (q + 1) % 2 == 1);
            assert(rec[off] == u0[q]);
            assert(rec[off + 1] == u0[q + 1]);
        } else if i < 11 {
            let q = 2 * (i - 5);
            assert(off == 14 + q);
            assert(q / 2 == i - 5 && q % 2 == 0 && (q + 1) / 2 == i - 5 && (q + 1) % 2 == 1);
            assert(rec[off] == u1[q]);
            assert(rec[off + 1] == u1[q + 1]);
        } else {
            let q = 2 * (i - 11);
            assert(off == 28 + q);
            assert(q / 2 == i - 11 && q % 2 == 0 && (q + 1) / 2 == i - 11 && (q + 1) % 2 == 1);
            assert(rec[off] == u2[q]);
            assert(rec[off + 1] == u2[q + 1]);
        }
        lemma_le16_back(rec[off], rec[off + 1], u);
    }
}

proof fn lemma_ucs2_back(c: char)
    requires
        (c as u32) < 0x1_0000,
    ensures
        crate::fat::ucs2_char((c as u32) as u16) == c,
{
}

proof fn lemma_units_from(rec: Seq<u8>, name: Seq<char>, base: int, i: int)
    requires
        0 <= i <= 13,
        0 <= base,
        base + i <= name.len(),
        valid_long_name(name),
        forall|t: int|
            0 <= t < 13 ==> crate::disk::le_u16(rec, #[trigger] crate::fat::lfn_offsets()[t]) == name_unit(name, base + t),
    ensures
        crate::fat::lfn_units_from(rec, i) == name.subrange(
            base + i,
            if base + 13 < name.len() {
                base + 13
            } else {
                name.len() as int
            },
        ),
    decreases 13 - i,
{
    let end = if base + 13 < name.len() {
        base + 13
    } else {
        name.len() as int
    };
    if i < 13 {
        assert(crate::disk::le_u16(rec, crate::fat::lfn_offsets()[i]) == name_unit(name, base + i));
        if base + i < name.len() {
            let c = name[base + i];
            assert((c as u32) >= 0x20 && (c as u32) < 0x1_0000);
            let u = crate::disk::le_u16(rec, crate::fat::lfn_offsets()[i]);
            assert(u == (c as u32) as u16);
            assert(u != 0);
            lemma_ucs2_back(c);
            assert(crate::fat::lfn_units_from(rec, i) == seq![c] + crate::fat::lfn_units_from(rec, i + 1));
            lemma_units_from(rec, name, base, i + 1);
            assert(seq![c] + name.subrange(base + i + 1, end) =~= name.subrange(base + i, end));
        } else {
            assert(name.subrange(base + i, end) =~= Seq::<char>::empty());
        }
    } else {
        assert(name.subrange(base + i, end) =~= Seq::<char>::empty());
    }
}

proof fn lemma_name_records(name: Seq<char>)
    requires
        valid_long_name(name),
    ensures
        1 <= lfn_count(name) <= 20,
        13 * (lfn_count(name) - 1) < name.len() <= 13 * lfn_count(name),
{
    let n = name.len() as int;
    assert(1 <= (n + 12) / 13 <= 20 && 13 * ((n + 12) / 13 - 1) < n <= 13 * ((n + 12) / 13)) by (nonlinear_arith)
        requires
            1 <= n <= 255,
    ;
}

/// The characters that record `j` of a name's long-name records gives back.
proof fn lemma_piece(name: Seq<char>, cks: u8, j: int)
    requires
        valid_long_name(name),
        1 <= j <= lfn_count(name),
    ensures
        crate::fat::lfn_piece(lfn_record(name, cks, j, lfn_count(name))) == name.subrange(
            13 * (j - 1),
            if 13 * j < name.len() {
                13 * j
            } else {
                name.len() as int
            },
        ),
{
    lemma_name_records(name);
    lemma_lfn_record(name, cks, j, lfn_count(name));
    lemma_units_from(lfn_record(name, cks, j, lfn_count(name)), name, 13 * (j - 1), 0);
}

proof fn lemma_block_record(name: Seq<char>, cks: u8, m: int, k: int, t: int)
    requires
        0 <= t < k <= m <= 20,
    ensures
        lfn_block(name, cks, m, k).len() == 32 * k,
        lfn_block(name, cks, m, k).subrange(32 * t, 32 * t + 32) == lfn_record(name, cks, k - t, m),
    decreases k,
{
    lemma_lfn_record(name, cks, k, m);
    let r = lfn_record(name, cks, k, m);
    if k == 1 {
        assert(lfn_block(name, cks, m, 0) =~= Seq::<u8>::empty());
        assert(lfn_block(name, cks, m, 1).subrange(0, 32) =~= r);
    } else {
        lemma_block_record(name, cks, m, k - 1, if t > 0 {
            t - 1
        } else {
            0
        });
        let rest = lfn_block(name, cks, m, k - 1);
        if t == 0 {
            assert((r + rest).subrange(0, 32) =~= r);
        } else {
            assert((r + rest).subrange(32 * t, 32 * t + 32) =~= rest.subrange(32 * (t - 1), 32 * (t - 1) + 32));
        }
    }
}

proof fn lemma_scan_lfn(p: Seq<u8>, k: int, name: Seq<char>, cks: u8, t: int)
    requires
        valid_long_name(name),
        0 <= k,
        1 <= t <= lfn_count(name),
        32 * (k + lfn_count(name)) <= p.len(),
        forall|s: int|
            0 <= s < lfn_count(name) ==> #[trigger] p.subrange(32 * (k + s), 32 * (k + s) + 32) == lfn_record(
                name,
                cks,
                lfn_count(name) - s,
                lfn_count(name),
            ),
        !crate::fat::dir_scan(p, k as nat).1,
    ensures
        crate::fat::dir_scan(p, (k + t) as nat) == (
            crate::fat::dir_scan(p, k as nat).0,
            false,
            name.subrange(13 * (lfn_count(name) - t), name.len() as int),
            k,
        ),
    decreases t,
{
    let m = lfn_count(name);
    lemma_name_records(name);
    let j = m - (t - 1);
    let s = t - 1;
    let rec = p.subrange(32 * (k + s), 32 * (k + s) + 32);
    assert(rec == lfn_record(name, cks, j, m));
    lemma_lfn_record(name, cks, j, m);
    lemma_piece(name, cks, j);
    assert(32 * (k + s) + 32 == 32 * (k + t));
    if t == 1 {
        let h: u8 = (m + 64) as u8;
        assert(rec[0] == h);
        assert(h & 0x40 != 0 && h != 0 && h != 0xE5) by (bit_vector)
            requires
                65 <= h <= 84,
        ;
        assert(13 * m >= name.len());
    } else {
        lemma_scan_lfn(p, k, name, cks, t - 1);
        let h: u8 = j as u8;
        assert(rec[0] == h);
        assert(h & 0x40 == 0 && h != 0 && h != 0xE5) by (bit_vector)
            requires
                1 <= h <= 19,
        ;
        assert(13 * (m - (t - 1)) < name.len());
        assert(name.subrange(13 * (j - 1), 13 * j) + name.subrange(13 * (m - (t - 1)), name.len() as int)
            =~= name.subrange(13 * (m - t), name.len() as int));
    }
}

proof fn lemma_alias_head(name: Seq<char>, n: u8)
    ensures
        alias_with(name, n).len() == 11,
        alias_with(name, n)[0] != 0,
        alias_with(name, n)[0] != 0xE5,
{
    let b = name_base(name);
    if b.len() > 0 {
        let c = b[0];
        assert(alias_with(name, n)[0] == alias_char(c));
    }
}

proof fn lemma_short_fields(alias: Seq<u8>, attr: u8, cluster: u32, size: u32)
    requires
        alias.len() == 11,
    ensures
        short_record(alias, attr, cluster, size).len() == 32,
        short_record(alias, attr, cluster, size)[0] == alias[0],
        short_record(alias, attr, cluster, size)[11] == attr,
        (crate::disk::le_u16(short_record(alias, attr, cluster, size), 20) as int * 0x10000
            + crate::disk::le_u16(short_record(alias, attr, cluster, size), 26) as int) == cluster,
        le_u32(short_record(alias, attr, cluster, size), 28) == size,
{
    let r = short_record(alias, attr, cluster, size);
    let hi = (cluster / 0x1_0000) as u16;
    let lo = (cluster % 0x1_0000) as u16;
    lemma_le16_back(r[20], r[21], hi);
    lemma_le16_back(r[26], r[27], lo);
    lemma_word_bytes(size as u64);
    assert(r[28] == (size % 256) as u8);
    assert(r[29] == ((size / 256) % 256) as u8);
    assert(r[30] == ((size / 0x1_0000) % 256) as u8);
    assert(r[31] == (size / 0x100_0000) as u8);
    assert((size / 0x100_0000) % 256 == size / 0x100_0000);
}

proof fn lemma_placed(dir: Seq<u8>, k: int, recs: Seq<u8>)
    requires
        0 <= k,
        recs.len() % 32 == 0,
        32 * k + recs.len() <= dir.len(),
    ensures
        placed(dir, k, recs).len() == dir.len(),
        forall|i: int| 0 <= i < 32 * k ==> placed(dir, k, recs)[i] == dir[i],
        forall|i: int| 32 * k <= i < 32 * k + recs.len() ==> placed(dir, k, recs)[i] == recs[i - 32 * k],
{
    let written = dir.take(32 * k) + recs + dir.skip(32 * k + recs.len());
    let n = recs.len() / 32;
    assert(32 * (k + n) == 32 * k + recs.len());
    assert forall|i: int| 0 <= i < 32 * k implies placed(dir, k, recs)[i] == dir[i] by {
        assert(written[i] == dir[i]);
    }
    assert forall|i: int| 32 * k <= i < 32 * k + recs.len() implies placed(dir, k, recs)[i] == recs[i - 32 * k] by {
        assert(written[i] == recs[i - 32 * k]);
    }
}

/// Scanning a directory in which the records of a new entry were placed at
/// `k`: up to the 8.3 record, the entries are those before `k` and then the
/// new one, under its long name.
#[verifier::spinoff_prover]
#[verifier::rlimit(60)]
proof fn lemma_scan_new_entry(
    dir: Seq<u8>,
    k: int,
    name: Seq<char>,
    alias: Seq<u8>,
    attr: u8,
    first: u32,
    len: u32,
)
    requires
        valid_long_name(name),
        alias.len() == 11,
        alias[0] != 0,
        alias[0] != 0xE5,
        attr & 0x08 == 0,
        run_free(dir, k, lfn_count(name) + 1),
    ensures
        ({
            let m = lfn_count(name);
            let d = placed(dir, k, entry_records(name, alias, attr, first, len));
            let e = crate::fat::record_entry(short_record(alias, attr, first, len), k + m);
            &&& d.len() == dir.len()
            &&& k + m + 1 <= d.len() / 32
            &&& crate::fat::dir_scan(d, (k + m + 1) as nat).0 == crate::fat::dir_scan(dir, k as nat).0.push(
                crate::fat::DirEntryView { name: name, first_record: k, ..e },
            )
        }),
{
    let m = lfn_count(name);
    let nr = m + 1;
    let cks = alias_checksum(alias);
    let recs = entry_records(name, alias, attr, first, len);
    let d = placed(dir, k, recs);
    lemma_name_records(name);
    lemma_end_from(dir, 0);
    lemma_short_fields(alias, attr, first, len);
    lemma_block_record(name, cks, m, m, 0);
    let block = lfn_block(name, cks, m, m);
    let short = short_record(alias, attr, first, len);
    assert(recs == block + short);
    assert(recs.len() == 32 * nr);
    let rc = record_count(dir);
    assert(32 * k + recs.len() <= dir.len()) by (nonlinear_arith)
        requires
            k + nr <= rc,
            rc == dir.len() / 32,
            recs.len() == 32 * nr,
    ;
    lemma_placed(dir, k, recs);
    lemma_scan_same(d, dir, k as nat);
    lemma_not_ended(dir, k as nat);
    assert forall|s: int| 0 <= s < m implies #[trigger] d.subrange(32 * (k + s), 32 * (k + s) + 32)
        == lfn_record(name, cks, m - s, m) by {
        lemma_block_record(name, cks, m, m, s);
        assert(d.subrange(32 * (k + s), 32 * (k + s) + 32) =~= block.subrange(32 * s, 32 * s + 32));
    }
    lemma_scan_lfn(d, k, name, cks, m);
    assert(name.subrange(0, name.len() as int) =~= name);
    let rec = d.subrange(32 * (k + m), 32 * (k + m) + 32);
    assert(rec =~= short);
    assert(attr != 0x0F) by (bit_vector)
        requires
            attr & 0x08 == 0,
    ;
    let e0 = crate::fat::dir_scan(dir, k as nat).0;
    assert(crate::fat::dir_scan(d, (k + m) as nat) == (e0, false, name, k));
    assert(32 * (k + m) + 32 == 32 * (k + m + 1));
    assert(rec[0] == alias[0]);
    assert(rec[11] == attr);
    assert(!crate::fat::is_long_name(rec));
    assert(crate::fat::is_listed(rec));
}

/// An entry made by `create_entry`, read back from the directory it was
/// made in, is found by its name, under that name, with the attributes,
/// first cluster and size it was made with.
pub proof fn law_created_entry_reads_back(
    fat: Seq<u8>,
    dir: Seq<u8>,
    name: Seq<char>,
    attr: u8,
    len: u32,
    count: int,
)
    requires
        attr & 0x08 == 0,
        create_outcome(fat, dir, name, attr, len, count) is Ok,
    ensures
        ({
            let (f, d, cs) = create_outcome(fat, dir, name, attr, len, count)->Ok_0;
            let es = crate::fat::directory_entries(d);
            &&& crate::fat::find_entry(es, name) matches Some(i)
            &&& es[i].name == name
            &&& es[i].attributes == attr
            &&& es[i].cluster == (if count > 0 {
                cs[0]
            } else {
                0
            })
            &&& es[i].size == len
        }),
{
    let m = lfn_count(name);
    let n = free_tail(dir, name, 1)->Some_0;
    let k = first_run(dir, m + 1, 0)->Some_0;
    let cs = free_clusters(fat).take(count);
    let first: u32 = if count > 0 {
        cs[0]
    } else {
        0
    };
    let alias = alias_with(name, n);
    let d = placed(dir, k, entry_records(name, alias, attr, first, len));
    assert(d == create_outcome(fat, dir, name, attr, len, count)->Ok_0.1);
    lemma_first_run(dir, m + 1, 0);
    lemma_alias_head(name, n);
    lemma_short_fields(alias, attr, first, len);
    lemma_scan_new_entry(dir, k, name, alias, attr, first, len);
    let e0 = crate::fat::dir_scan(dir, k as nat).0;
    let e = crate::fat::record_entry(short_record(alias, attr, first, len), k + m);
    let named = crate::fat::DirEntryView { name: name, first_record: k, ..e };
    lemma_scan_grows(d, (k + m + 1) as nat, (d.len() / 32) as nat);
    lemma_scan_grows(dir, k as nat, (dir.len() / 32) as nat);
    lemma_found_after(crate::fat::directory_entries(dir), crate::fat::directory_entries(d), e0, named);
}

proof fn lemma_found_after(
    old_es: Seq<crate::fat::DirEntryView>,
    es: Seq<crate::fat::DirEntryView>,
    e0: Seq<crate::fat::DirEntryView>,
    named: crate::fat::DirEntryView,
)
    requires
        e0.len() <= old_es.len(),
        old_es.take(e0.len() as int) == e0,
        e0.len() + 1 <= es.len(),
        es.take(e0.len() + 1int) == e0.push(named),
        crate::fat::find_entry(old_es, named.name) is None,
    ensures
        crate::fat::find_entry(es, named.name) == Some(e0.len() as int),
        es[e0.len() as int] == named,
{
    crate::fat::lemma_find_entry(old_es, named.name);
    crate::fat::lemma_find_entry(es, named.name);
    assert(es[e0.len() as int] == es.take(e0.len() + 1int)[e0.len() as int]);
    assert forall|j: int| 0 <= j < e0.len() implies es[j] == old_es[j] by {
        assert(es[j] == es.take(e0.len() + 1int)[j]);
        assert(es.take(e0.len() + 1int)[j] == e0[j]);
        assert(old_es.take(e0.len() as int)[j] == old_es[j]);
    }
}

/// What writing the file `name` of `len` bytes does, with clusters of
/// `cluster_bytes` bytes: a file of that name is deleted first, then the
/// new entry is made as `create_outcome` says, in as many clusters as the
/// bytes take.
pub open spec fn write_outcome(fat: Seq<u8>, dir: Seq<u8>, name: Seq<char>, len: u32, cluster_bytes: int) -> Result<
    (Seq<u8>, Seq<u8>, Seq<u32>),
    FatError,
> {
    let (f, d) = match delete_outcome(fat, dir, name) {
        Ok((f, d)) => (f, d),
        Err(_) => (fat, dir),
    };
    create_outcome(f, d, name, 0x20, len, clusters_for(len as int, cluster_bytes))
}

/// A file written as `write_outcome` says reads back: the new directory
/// lists it under its name as a file of `len` bytes, and its chain,
/// followed through the new FAT, is exactly the clusters its data was
/// given, as many as the bytes take (none and cluster 0 for an empty file).
pub proof fn law_write_lists_the_file(fat: Seq<u8>, dir: Seq<u8>, name: Seq<char>, len: u32, cluster_bytes: int)
    requires
        cluster_bytes > 0,
        write_outcome(fat, dir, name, len, cluster_bytes) is Ok,
    ensures
        ({
            let (f, d, cs) = write_outcome(fat, dir, name, len, cluster_bytes)->Ok_0;
            let es = crate::fat::directory_entries(d);
            &&& crate::fat::find_entry(es, name) matches Some(i)
            &&& es[i].name == name
            &&& es[i].attributes == 0x20
            &&& es[i].size == len
            &&& cs.len() == clusters_for(len as int, cluster_bytes)
            &&& (len > 0 ==> es[i].cluster == cs[0] && chain_of(f, cs[0]) == cs)
            &&& (len == 0 ==> cs.len() == 0 && es[i].cluster == 0)
        }),
{
    let (f0, d0) = match delete_outcome(fat, dir, name) {
        Ok((f, d)) => (f, d),
        Err(_) => (fat, dir),
    };
    let count = clusters_for(len as int, cluster_bytes);
    let l = len as int;
    assert((l > 0 ==> (l + cluster_bytes - 1) / cluster_bytes > 0) && (l == 0 ==> (l + cluster_bytes - 1)
        / cluster_bytes == 0)) by (nonlinear_arith)
        requires
            cluster_bytes > 0,
            l >= 0,
    ;
    assert(0x20u8 & 0x08 == 0) by (bit_vector);
    law_created_entry_reads_back(f0, d0, name, 0x20, len, count);
    if count > 0 {
        law_created_chain_reads_back(f0, d0, name, 0x20, len, count);
    } else {
        let cs = create_outcome(f0, d0, name, 0x20, len, count)->Ok_0.2;
        assert(cs.len() == 0);
    }
}

} // verus!
