//! Reading a FAT32 cluster chain, driven one sector request at a time: the
//! caller reads what `request` names, hands the bytes to `feed`, and repeats
//! until the request is `Done`.
use vstd::prelude::*;
use crate::fat::{
    Fat32, Fat32Layout, chain_ends, cluster_lba, fat_entry_offset, fat_sector_lba, fat_value,
    is_chain_end, max_chain_len, read_fat_value,
};

verus! {

/// A disk whose every sector holds 512 bytes; `img(n)` is sector `n`.
pub open spec fn image_wf(img: spec_fn(nat) -> Seq<u8>) -> bool {
    forall|x: nat| #[trigger] img(x).len() == 512
}

/// The bytes of `count` sectors from `lba` on.
pub open spec fn sectors(img: spec_fn(nat) -> Seq<u8>, lba: nat, count: nat) -> Seq<u8>
    decreases count,
{
    if count == 0 {
        Seq::empty()
    } else {
        sectors(img, lba, (count - 1) as nat) + img((lba + count - 1) as nat)
    }
}

pub proof fn lemma_sectors_len(img: spec_fn(nat) -> Seq<u8>, lba: nat, count: nat)
    requires
        image_wf(img),
    ensures
        sectors(img, lba, count).len() == count * 512,
    decreases count,
{
    if count > 0 {
        lemma_sectors_len(img, lba, (count - 1) as nat);
        assert(img((lba + count - 1) as nat).len() == 512);
    }
}

/// The contents of the chain starting at cluster `c`, reading at most
/// `fuel` clusters; `None` when the chain is longer or a sector has no
/// 32-bit address.
pub open spec fn chain_data(l: Fat32Layout, img: spec_fn(nat) -> Seq<u8>, c: u32, fuel: nat) -> Option<
    Seq<u8>,
>
    decreases fuel,
{
    if is_chain_end(c) {
        Some(Seq::empty())
    } else if fuel == 0 || cluster_lba(l, c) > u32::MAX || fat_sector_lba(l, c) > u32::MAX {
        None
    } else {
        let d = sectors(img, cluster_lba(l, c) as nat, l.sectors_per_cluster as nat);
        let next = fat_value(img(fat_sector_lba(l, c) as nat), fat_entry_offset(c));
        match chain_data(l, img, next, (fuel - 1) as nat) {
            Some(rest) => Some(d + rest),
            None => None,
        }
    }
}

/// The contents of the file or directory whose first cluster is `c`.
pub open spec fn cluster_chain(l: Fat32Layout, img: spec_fn(nat) -> Seq<u8>, c: u32) -> Option<
    Seq<u8>,
> {
    chain_data(l, img, c, max_chain_len())
}

/// What to read next.
#[derive(Debug, Clone, Copy, PartialEq, Eq)]
pub enum SectorRequest {
    Read { lba: u32, count: u8 },
    Done,
}

/// Where a chain read stands.
#[derive(Debug, Clone, Copy, PartialEq, Eq)]
pub enum ChainPhase {
    /// Waiting for the sectors of `cluster`, which start at `lba`.
    ReadCluster { cluster: u32, lba: u32 },
    /// Waiting for the FAT sector `lba` that holds the entry of `cluster`
    /// at byte `off`.
    ReadFat { cluster: u32, lba: u32, off: usize },
    Finished,
    Failed,
}

/// A cluster chain being read.
pub struct ChainRead {
    layout: Fat32,
    phase: ChainPhase,
    fuel: u32,
    data: Vec<u8>,
}

/// What a `ChainRead` holds: `fuel` counts the clusters that may still be
/// read, the current one included.
pub struct ChainView {
    pub layout: Fat32Layout,
    pub phase: ChainPhase,
    pub fuel: nat,
    pub data: Seq<u8>,
}

impl View for ChainRead {
    type V = ChainView;

    closed spec fn view(&self) -> ChainView {
        ChainView {
            layout: self.layout@,
            phase: self.phase,
            fuel: self.fuel as nat,
            data: self.data@,
        }
    }
}

/// Going on at cluster `c` with `data` read so far.
pub open spec fn chain_start(l: Fat32Layout, c: u32, fuel: nat, data: Seq<u8>) -> ChainView {
    let phase = if is_chain_end(c) {
        ChainPhase::Finished
    } else if fuel == 0 || cluster_lba(l, c) > u32::MAX {
        ChainPhase::Failed
    } else {
        ChainPhase::ReadCluster { cluster: c, lba: cluster_lba(l, c) as u32 }
    };
    ChainView { layout: l, phase, fuel, data }
}

/// The read that a chain read waits for.
pub open spec fn chain_request(v: ChainView) -> SectorRequest {
    match v.phase {
        ChainPhase::ReadCluster { lba, .. } => SectorRequest::Read {
            lba,
            count: v.layout.sectors_per_cluster,
        },
        ChainPhase::ReadFat { lba, .. } => SectorRequest::Read { lba, count: 1 },
        _ => SectorRequest::Done,
    }
}

/// The chain read after the requested sectors arrive (`Some`) or the read
/// fails (`None`); data of the wrong length counts as a failed read.
pub open spec fn chain_feed(v: ChainView, resp: Option<Seq<u8>>) -> ChainView {
    let l = v.layout;
    match v.phase {
        ChainPhase::ReadCluster { cluster, .. } => match resp {
            Some(b) => if b.len() == l.sectors_per_cluster * 512 {
                let data = v.data + b;
                if fat_sector_lba(l, cluster) > u32::MAX {
                    ChainView { phase: ChainPhase::Failed, data, ..v }
                } else {
                    ChainView {
                        phase: ChainPhase::ReadFat {
                            cluster,
                            lba: fat_sector_lba(l, cluster) as u32,
                            off: fat_entry_offset(cluster) as usize,
                        },
                        data,
                        ..v
                    }
                }
            } else {
                ChainView { phase: ChainPhase::Failed, ..v }
            },
            None => ChainView { phase: ChainPhase::Failed, ..v },
        },
        ChainPhase::ReadFat { off, .. } => match resp {
            Some(b) => if b.len() == 512 {
                chain_start(l, fat_value(b, off as int), (v.fuel - 1) as nat, v.data)
            } else {
                ChainView { phase: ChainPhase::Failed, ..v }
            },
            None => ChainView { phase: ChainPhase::Failed, ..v },
        },
        _ => v,
    }
}

/// The states a chain read passes through.
pub open spec fn chain_inv(v: ChainView) -> bool {
    match v.phase {
        ChainPhase::ReadCluster { cluster, lba } => !is_chain_end(cluster) && v.fuel > 0 && lba
            == cluster_lba(v.layout, cluster),
        ChainPhase::ReadFat { cluster, lba, off } => !is_chain_end(cluster) && v.fuel > 0 && lba
            == fat_sector_lba(v.layout, cluster) && off == fat_entry_offset(cluster)
            && cluster_lba(v.layout, cluster) <= u32::MAX,
        _ => true,
    }
}

pub open spec fn prepend(prefix: Seq<u8>, rest: Option<Seq<u8>>) -> Option<Seq<u8>> {
    match rest {
        Some(r) => Some(prefix + r),
        None => None,
    }
}

/// What the chain read ends with if every remaining read returns `img`'s sectors.
pub open spec fn chain_outcome(v: ChainView, img: spec_fn(nat) -> Seq<u8>) -> Option<Seq<u8>> {
    let l = v.layout;
    match v.phase {
        ChainPhase::ReadCluster { cluster, .. } => prepend(
            v.data,
            chain_data(l, img, cluster, v.fuel),
        ),
        ChainPhase::ReadFat { cluster, .. } => prepend(
            v.data,
            chain_data(
                l,
                img,
                fat_value(img(fat_sector_lba(l, cluster) as nat), fat_entry_offset(cluster)),
                (v.fuel - 1) as nat,
            ),
        ),
        ChainPhase::Finished => Some(v.data),
        ChainPhase::Failed => None,
    }
}

/// A measure that every step of a running chain read lowers.
pub open spec fn chain_measure(v: ChainView) -> nat {
    match v.phase {
        ChainPhase::ReadCluster { .. } => 2 * v.fuel + 1,
        ChainPhase::ReadFat { .. } => 2 * v.fuel,
        _ => 0,
    }
}

pub open spec fn is_running(v: ChainView) -> bool {
    v.phase is ReadCluster || v.phase is ReadFat
}

impl ChainRead {
    pub closed spec fn wf(&self) -> bool {
        chain_inv(self@)
    }

    /// Starts reading the chain at cluster `first`.
    pub fn new(layout: &Fat32, first: u32) -> (r: Self)
        ensures
            r@ == chain_start(layout@, first, max_chain_len(), Seq::empty()),
            chain_inv(r@),
    {
        let fs = layout.copy();
        let phase = if chain_ends(first) {
            ChainPhase::Finished
        } else {
            match fs.cluster_to_lba(first) {
                Some(lba) => ChainPhase::ReadCluster { cluster: first, lba },
                None => ChainPhase::Failed,
            }
        };
        ChainRead { layout: fs, phase, fuel: 0x0FFFFFF6, data: Vec::new() }
    }

    /// The read to do next, or `Done`.
    pub fn request(&self) -> (r: SectorRequest)
        ensures
            r == chain_request(self@),
    {
        match self.phase {
            ChainPhase::ReadCluster { lba, .. } => SectorRequest::Read {
                lba,
                count: self.layout.sectors_per_cluster(),
            },
            ChainPhase::ReadFat { lba, .. } => SectorRequest::Read { lba, count: 1 },
            _ => SectorRequest::Done,
        }
    }

    /// Hands over the result of the requested read.
    pub fn feed(&mut self, resp: Option<Vec<u8>>)
        requires
            chain_inv(old(self)@),
        ensures
            final(self)@ == chain_feed(
                old(self)@,
                match resp {
                    Some(b) => Some(b@),
                    None => None,
                },
            ),
            chain_inv(final(self)@),
    {
        match self.phase {
            ChainPhase::ReadCluster { cluster, .. } => match resp {
                Some(b) => {
                    let spc = self.layout.sectors_per_cluster() as usize;
                    if b.len() == spc * 512 {
                        let mut b = b;
                        self.data.append(&mut b);
                        match self.layout.fat_entry_location(cluster) {
                            Some((lba, off)) => {
                                self.phase = ChainPhase::ReadFat { cluster, lba, off };
                            },
                            None => {
                                self.phase = ChainPhase::Failed;
                            },
                        }
                    } else {
                        self.phase = ChainPhase::Failed;
                    }
                },
                None => {
                    self.phase = ChainPhase::Failed;
                },
            },
            ChainPhase::ReadFat { off, .. } => match resp {
                Some(b) => {
                    if b.len() == 512 {
                        let next = read_fat_value(b.as_slice(), off);
                        self.fuel = self.fuel - 1;
                        if chain_ends(next) {
                            self.phase = ChainPhase::Finished;
                        } else if self.fuel == 0 {
                            self.phase = ChainPhase::Failed;
                        } else {
                            match self.layout.cluster_to_lba(next) {
                                Some(lba) => {
                                    self.phase = ChainPhase::ReadCluster { cluster: next, lba };
                                },
                                None => {
                                    self.phase = ChainPhase::Failed;
                                },
                            }
                        }
                    } else {
                        self.phase = ChainPhase::Failed;
                    }
                },
                None => {
                    self.phase = ChainPhase::Failed;
                },
            },
            _ => {},
        }
    }

    /// The chain's contents once done, or `None` if it failed or is not done.
    pub fn result(self) -> (r: Option<Vec<u8>>)
        ensures
            match self@.phase {
                ChainPhase::Finished => r matches Some(d) && d@ == self@.data,
                _ => r is None,
            },
    {
        match self.phase {
            ChainPhase::Finished => Some(self.data),
            _ => None,
        }
    }
}

/// A chain read starts by predicting the whole chain.
pub proof fn law_chain_read_starts_with_chain(l: Fat32Layout, img: spec_fn(nat) -> Seq<u8>, c: u32)
    ensures
        chain_outcome(chain_start(l, c, max_chain_len(), Seq::empty()), img) == cluster_chain(l, img, c),
        chain_inv(chain_start(l, c, max_chain_len(), Seq::empty())),
{
    let v = chain_start(l, c, max_chain_len(), Seq::empty());
    match chain_outcome(v, img) {
        Some(d) => {
            assert(Seq::<u8>::empty() + d =~= d);
        },
        None => {},
    }
    if !is_chain_end(c) && cluster_lba(l, c) <= u32::MAX {
        match chain_data(l, img, c, max_chain_len()) {
            Some(d) => {
                assert(Seq::<u8>::empty() + d =~= d);
            },
            None => {},
        }
    }
}

/// Answering a read with the disk's sectors keeps the predicted result, and
/// every step of a running chain read brings it closer to its end.
pub proof fn law_chain_read_step(v: ChainView, img: spec_fn(nat) -> Seq<u8>)
    requires
        chain_inv(v),
        image_wf(img),
        is_running(v),
    ensures
        ({
            let resp = match chain_request(v) {
                SectorRequest::Read { lba, count } => Some(sectors(img, lba as nat, count as nat)),
                SectorRequest::Done => None,
            };
            &&& chain_outcome(chain_feed(v, resp), img) == chain_outcome(v, img)
            &&& chain_inv(chain_feed(v, resp))
        }),
        forall|resp: Option<Seq<u8>>| chain_measure(#[trigger] chain_feed(v, resp)) < chain_measure(v),
{
    let l = v.layout;
    match v.phase {
        ChainPhase::ReadCluster { cluster, lba } => {
            let b = sectors(img, lba as nat, l.sectors_per_cluster as nat);
            lemma_sectors_len(img, lba as nat, l.sectors_per_cluster as nat);
            let data = v.data + b;
            match chain_data(l, img, cluster, v.fuel) {
                Some(d) => {
                    let next = fat_value(img(fat_sector_lba(l, cluster) as nat), fat_entry_offset(cluster));
                    let rest = chain_data(l, img, next, (v.fuel - 1) as nat)->0;
                    assert(v.data + (b + rest) =~= data + rest);
                },
                None => {},
            }
        },
        ChainPhase::ReadFat { cluster, lba, off } => {
            let b = img(lba as nat);
            assert(sectors(img, lba as nat, 1) =~= b) by {
                assert(sectors(img, lba as nat, 0) =~= Seq::<u8>::empty());
            }
            let next = fat_value(b, off as int);
            let f = (v.fuel - 1) as nat;
            let w = chain_start(l, next, f, v.data);
            if !is_chain_end(next) && f > 0 && cluster_lba(l, next) <= u32::MAX {
                assert(chain_outcome(w, img) == prepend(v.data, chain_data(l, img, next, f)));
            } else if is_chain_end(next) {
                assert(v.data + Seq::<u8>::empty() =~= v.data);
            }
        },
        _ => {},
    }
}

} // verus!
