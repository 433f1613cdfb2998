//! Finding a file or listing a directory by path on FAT32, driven one cluster
//! chain at a time: the caller reads the chain that `request` names (with a
//! `ChainRead`), hands the result to `feed`, and repeats until `Done`.
use vstd::prelude::*;
use crate::chain::cluster_chain;
use crate::fat::{
    DirEntryView, Fat32, Fat32Layout, FatDirEntry, char_vecs_view, dir_entries_view,
    directory_entries, find_entry, is_directory, lookup_entry, path_components, path_parts,
    read_directory_entries,
};
use crate::text::chars_of;
use crate::fatwrite::{
    FatError, create_entry, create_outcome, delete_entry, delete_outcome,
    write_outcome,
};

verus! {

/// The chain to read next.
#[derive(Debug, Clone, Copy, PartialEq, Eq)]
pub enum ChainRequest {
    Chain(u32),
    Done,
}

/// The file at components `i..` of a path, starting in the directory whose
/// first cluster is `c`, where `ch(x)` is the chain starting at cluster `x`:
/// each component names an entry of the directory so far (ignoring ASCII
/// case; the first such entry), and the last names a file, not a directory.
/// The first `size` bytes of a chain's data (all of it if it is shorter):
/// a file's contents.
pub open spec fn sized(data: Seq<u8>, size: u32) -> Seq<u8> {
    if data.len() <= size {
        data
    } else {
        data.take(size as int)
    }
}

/// What a directory entry holds, from its chain: a file its first `size`
/// bytes, a subdirectory all of its records.
pub open spec fn entry_bytes(e: DirEntryView, data: Seq<u8>) -> Seq<u8> {
    if is_directory(e.attributes) {
        data
    } else {
        sized(data, e.size)
    }
}

fn cut_to_size(data: &mut Vec<u8>, size: u32)
    ensures
        final(data)@ == sized(old(data)@, size),
{
    if (size as usize) < data.len() {
        data.truncate(size as usize);
    }
}

pub open spec fn walk_file(ch: spec_fn(u32) -> Option<Seq<u8>>, c: u32, parts: Seq<Seq<char>>, i: nat) -> Option<
    Seq<u8>,
>
    decreases parts.len() - i,
{
    if i >= parts.len() {
        None
    } else {
        match ch(c) {
            None => None,
            Some(data) => {
                let es = directory_entries(data);
                match find_entry(es, parts[i as int]) {
                    None => None,
                    Some(k) => if i == parts.len() - 1 {
                        if is_directory(es[k].attributes) {
                            None
                        } else {
                            match ch(es[k].cluster) {
                                Some(d) => Some(sized(d, es[k].size)),
                                None => None,
                            }
                        }
                    } else {
                        walk_file(ch, es[k].cluster, parts, i + 1)
                    },
                }
            },
        }
    }
}

/// The contents of the file at `path` on the file system `l` on disk `img`.
pub open spec fn file_at(l: Fat32Layout, img: spec_fn(nat) -> Seq<u8>, path: Seq<char>) -> Option<
    Seq<u8>,
> {
    walk_file(|x: u32| cluster_chain(l, img, x), l.root_cluster, path_parts(path), 0)
}

/// Where a file lookup stands.
#[derive(Debug, Clone, Copy, PartialEq, Eq)]
pub enum LookupStage {
    /// Waiting for the directory chain at `cluster`, to look up the current component.
    Dir(u32),
    /// Waiting for the chain of the file found, at `cluster`, of `size` bytes.
    File(u32, u32),
    Finished,
}

/// A file lookup.
pub struct FileLookup {
    parts: Vec<Vec<char>>,
    depth: usize,
    stage: LookupStage,
    result: Option<Vec<u8>>,
}

/// What a `FileLookup` holds.
pub struct LookupView {
    pub parts: Seq<Seq<char>>,
    pub depth: nat,
    pub stage: LookupStage,
    pub result: Option<Seq<u8>>,
}

pub open spec fn opt_bytes_view(o: Option<Vec<u8>>) -> Option<Seq<u8>> {
    match o {
        Some(v) => Some(v@),
        None => None,
    }
}

impl View for FileLookup {
    type V = LookupView;

    closed spec fn view(&self) -> LookupView {
        LookupView {
            parts: char_vecs_view(self.parts@),
            depth: self.depth as nat,
            stage: self.stage,
            result: opt_bytes_view(self.result),
        }
    }
}

pub open spec fn lookup_inv(v: LookupView) -> bool {
    &&& v.stage is Dir ==> v.depth < v.parts.len()
    &&& v.stage is Finished || v.result is None
}

/// What the lookup ends with if every remaining chain is read as `ch` says.
pub open spec fn lookup_outcome(v: LookupView, ch: spec_fn(u32) -> Option<Seq<u8>>) -> Option<Seq<u8>> {
    match v.stage {
        LookupStage::Dir(c) => walk_file(ch, c, v.parts, v.depth),
        LookupStage::File(c, size) => match ch(c) {
            Some(d) => Some(sized(d, size)),
            None => None,
        },
        LookupStage::Finished => v.result,
    }
}

/// A measure that every step of a lookup lowers.
pub open spec fn lookup_measure(v: LookupView) -> int {
    match v.stage {
        LookupStage::Dir(_) => 2 * (v.parts.len() - v.depth),
        LookupStage::File(_, _) => 1,
        LookupStage::Finished => 0,
    }
}

pub open spec fn lookup_request(v: LookupView) -> ChainRequest {
    match v.stage {
        LookupStage::Dir(c) => ChainRequest::Chain(c),
        LookupStage::File(c, _) => ChainRequest::Chain(c),
        LookupStage::Finished => ChainRequest::Done,
    }
}

/// The lookup after the requested chain arrives (`Some`) or fails (`None`).
pub open spec fn lookup_feed(v: LookupView, resp: Option<Seq<u8>>) -> LookupView {
    match v.stage {
        LookupStage::Dir(_) => match resp {
            None => LookupView { stage: LookupStage::Finished, result: None, ..v },
            Some(data) => {
                let es = directory_entries(data);
                match find_entry(es, v.parts[v.depth as int]) {
                    None => LookupView { stage: LookupStage::Finished, result: None, ..v },
                    Some(k) => if v.depth == v.parts.len() - 1 {
                        if is_directory(es[k].attributes) {
                            LookupView { stage: LookupStage::Finished, result: None, ..v }
                        } else {
                            LookupView { stage: LookupStage::File(es[k].cluster, es[k].size), ..v }
                        }
                    } else {
                        LookupView { stage: LookupStage::Dir(es[k].cluster), depth: v.depth + 1, ..v }
                    },
                }
            },
        },
        LookupStage::File(_, size) => LookupView {
            stage: LookupStage::Finished,
            result: match resp {
                Some(d) => Some(sized(d, size)),
                None => None,
            },
            ..v
        },
        LookupStage::Finished => v,
    }
}

pub open spec fn lookup_start(root: u32, path: Seq<char>) -> LookupView {
    let parts = path_parts(path);
    LookupView {
        parts,
        depth: 0,
        stage: if parts.len() == 0 {
            LookupStage::Finished
        } else {
            LookupStage::Dir(root)
        },
        result: None,
    }
}

impl Fat32 {
    /// Starts looking up the file at `path` (components separated by `/` or
    /// `\`, empty ones ignored).
    pub fn read_file(&self, path: &str) -> (r: FileLookup)
        ensures
            r@ == lookup_start(self@.root_cluster, path@),
            lookup_inv(r@),
    {
        let chars = chars_of(path);
        let parts = path_components(chars.as_slice());
        let stage = if parts.len() == 0 {
            LookupStage::Finished
        } else {
            LookupStage::Dir(self.root_cluster())
        };
        FileLookup { parts, depth: 0, stage, result: None }
    }

    /// Writes the file `name` of `len` bytes into a directory, as
    /// `write_outcome` says: a file of that name is deleted first, then the
    /// new entry is made in as many clusters as `len` bytes take. `fat`
    /// is the FAT and `dir` the directory's clusters, as read; they change
    /// as the outcome says (on an error they may have changed and are not
    /// to be written back). Gives the clusters where the data goes.
    pub fn write_file(&self, fat: &mut Vec<u8>, dir: &mut Vec<u8>, name: &str, len: u32) -> (r: Result<
        Vec<u32>,
        FatError,
    >)
        requires
            self@.sectors_per_cluster > 0,
        ensures
            match write_outcome(old(fat)@, old(dir)@, name@, len, self@.sectors_per_cluster as int * 512) {
                Ok((f, d, cs)) => r matches Ok(v) && v@ == cs && final(fat)@ == f && final(dir)@ == d,
                Err(e) => r == Err::<Vec<u32>, FatError>(e),
            },
    {
        let _ = delete_entry(fat, dir, name);
        let cb: u64 = self.sectors_per_cluster() as u64 * 512;
        let l = len as u64;
        assert((l + cb - 1) / (cb as int) <= 0xFFFF_FFFF) by (nonlinear_arith)
            requires
                cb >= 512,
                l <= 0xFFFF_FFFF,
        ;
        let count = ((l + cb - 1) / cb) as usize;
        create_entry(fat, dir, name, 0x20, len, count)
    }

    /// Deletes the file `name` from a directory, as `delete_outcome` says;
    /// nothing changes on an error.
    pub fn delete_file(&self, fat: &mut Vec<u8>, dir: &mut Vec<u8>, name: &str) -> (r: Result<(), FatError>)
        ensures
            match delete_outcome(old(fat)@, old(dir)@, name@) {
                Ok((f, d)) => r is Ok && final(fat)@ == f && final(dir)@ == d,
                Err(e) => r == Err::<(), FatError>(e) && final(fat)@ == old(fat)@ && final(dir)@
                    == old(dir)@,
            },
    {
        delete_entry(fat, dir, name)
    }

    /// Makes the subdirectory `name` in a directory: an entry with the
    /// directory attribute in one new cluster, as `create_outcome` says;
    /// nothing changes on an error. Gives the cluster, which then takes
    /// `new_directory_cluster`.
    pub fn create_dir(&self, fat: &mut Vec<u8>, dir: &mut Vec<u8>, name: &str) -> (r: Result<Vec<u32>, FatError>)
        ensures
            match create_outcome(old(fat)@, old(dir)@, name@, 0x10, 0, 1) {
                Ok((f, d, cs)) => r matches Ok(v) && v@ == cs && final(fat)@ == f && final(dir)@ == d,
                Err(e) => r == Err::<Vec<u32>, FatError>(e) && final(fat)@ == old(fat)@ && final(dir)@
                    == old(dir)@,
            },
    {
        create_entry(fat, dir, name, 0x10, 0, 1)
    }
}

impl FileLookup {
    pub fn request(&self) -> (r: ChainRequest)
        ensures
            r == lookup_request(self@),
    {
        match self.stage {
            LookupStage::Dir(c) => ChainRequest::Chain(c),
            LookupStage::File(c, _) => ChainRequest::Chain(c),
            LookupStage::Finished => ChainRequest::Done,
        }
    }

    /// Hands over the chain that `request` named.
    pub fn feed(&mut self, resp: Option<Vec<u8>>)
        requires
            lookup_inv(old(self)@),
        ensures
            final(self)@ == lookup_feed(old(self)@, opt_bytes_view(resp)),
            lookup_inv(final(self)@),
    {
        match self.stage {
            LookupStage::Dir(_) => match resp {
                None => {
                    self.stage = LookupStage::Finished;
                },
                Some(data) => {
                    let es = read_directory_entries(data.as_slice());
                    let ghost ev = dir_entries_view(es@);
                    assert(self@.parts[self.depth as int] == self.parts@[self.depth as int]@);
                    match lookup_entry(&es, self.parts[self.depth].as_slice()) {
                        None => {
                            self.stage = LookupStage::Finished;
                        },
                        Some(k) => {
                            assert(ev[k as int] == es@[k as int]@);
                            let attributes = es[k].attributes;
                            let cluster = es[k].cluster;
                            let size = es[k].size;
                            if self.depth == self.parts.len() - 1 {
                                if attributes & 0x10 != 0 {
                                    self.stage = LookupStage::Finished;
                                } else {
                                    self.stage = LookupStage::File(cluster, size);
                                }
                            } else {
                                self.depth = self.depth + 1;
                                self.stage = LookupStage::Dir(cluster);
                            }
                        },
                    }
                },
            },
            LookupStage::File(_, size) => {
                self.result = match resp {
                    Some(d) => {
                        let mut d = d;
                        cut_to_size(&mut d, size);
                        Some(d)
                    },
                    None => None,
                };
                self.stage = LookupStage::Finished;
            },
            LookupStage::Finished => {},
        }
    }

    /// The file's contents once done; `None` if it was not found, is a
    /// directory, a read failed, or the lookup is not done.
    pub fn result(self) -> (r: Option<Vec<u8>>)
        ensures
            opt_bytes_view(r) == if self@.stage is Finished {
                self@.result
            } else {
                None
            },
    {
        match self.stage {
            LookupStage::Finished => self.result,
            _ => None,
        }
    }
}

/// A lookup starts by predicting the file at its path.
pub proof fn law_lookup_starts_with_file(l: Fat32Layout, img: spec_fn(nat) -> Seq<u8>, path: Seq<char>)
    ensures
        lookup_outcome(lookup_start(l.root_cluster, path), |x: u32| cluster_chain(l, img, x))
            == file_at(l, img, path),
        lookup_inv(lookup_start(l.root_cluster, path)),
{
}

/// Answering with the chain that was asked for keeps the predicted result,
/// and every step brings the lookup closer to its end.
pub proof fn law_lookup_step(v: LookupView, ch: spec_fn(u32) -> Option<Seq<u8>>)
    requires
        lookup_inv(v),
        !(v.stage is Finished),
    ensures
        ({
            let resp = match lookup_request(v) {
                ChainRequest::Chain(c) => ch(c),
                ChainRequest::Done => None,
            };
            lookup_outcome(lookup_feed(v, resp), ch) == lookup_outcome(v, ch)
        }),
        forall|resp: Option<Seq<u8>>|
            0 <= lookup_measure(#[trigger] lookup_feed(v, resp)) < lookup_measure(v),
{
}

// ---------------------------------------------------------------------------
// Directory listings
// ---------------------------------------------------------------------------

/// The files and subdirectories among entries `j..` (but `.` and `..`),
/// each with its contents (a subdirectory's are its records); one whose
/// chain cannot be read is left out.
pub open spec fn files_from(ch: spec_fn(u32) -> Option<Seq<u8>>, es: Seq<DirEntryView>, j: int) -> Seq<
    (Seq<char>, Seq<u8>),
>
    decreases es.len() - j,
{
    if j < 0 || j >= es.len() {
        Seq::empty()
    } else {
        let rest = files_from(ch, es, j + 1);
        if is_dot_name(es[j].name) {
            rest
        } else {
            match ch(es[j].cluster) {
                Some(d) => seq![(es[j].name, entry_bytes(es[j], d))] + rest,
                None => rest,
            }
        }
    }
}

/// The files of the directory at components `i..` of a path, starting in
/// the directory whose first cluster is `c`.
pub open spec fn walk_dir(ch: spec_fn(u32) -> Option<Seq<u8>>, c: u32, parts: Seq<Seq<char>>, i: nat) -> Option<
    Seq<(Seq<char>, Seq<u8>)>,
>
    decreases parts.len() - i,
{
    match ch(c) {
        None => None,
        Some(data) => {
            let es = directory_entries(data);
            if i >= parts.len() {
                Some(files_from(ch, es, 0))
            } else {
                match find_entry(es, parts[i as int]) {
                    None => None,
                    Some(k) => walk_dir(ch, es[k].cluster, parts, i + 1),
                }
            }
        },
    }
}

/// The files of the directory at `path`, with their contents.
pub open spec fn dir_at(l: Fat32Layout, img: spec_fn(nat) -> Seq<u8>, path: Seq<char>) -> Option<
    Seq<(Seq<char>, Seq<u8>)>,
> {
    walk_dir(|x: u32| cluster_chain(l, img, x), l.root_cluster, path_parts(path), 0)
}

/// Where a listing stands.
#[derive(Debug, Clone, Copy, PartialEq, Eq)]
pub enum ListingStage {
    /// Waiting for the directory chain at `cluster`: to look up the current
    /// component, or to list it once all components are found.
    Dir(u32),
    /// Waiting for the chain of the file at `index` of the listed entries.
    Files,
    Finished,
}

/// A directory listing.
pub struct DirListing {
    parts: Vec<Vec<char>>,
    depth: usize,
    stage: ListingStage,
    entries: Vec<FatDirEntry>,
    index: usize,
    files: Vec<(String, Vec<u8>)>,
    ok: bool,
}

/// What a `DirListing` holds.
pub struct ListingView {
    pub parts: Seq<Seq<char>>,
    pub depth: nat,
    pub stage: ListingStage,
    pub entries: Seq<DirEntryView>,
    pub index: int,
    pub files: Seq<(Seq<char>, Seq<u8>)>,
    pub ok: bool,
}

pub open spec fn files_view(v: Seq<(String, Vec<u8>)>) -> Seq<(Seq<char>, Seq<u8>)> {
    v.map_values(|p: (String, Vec<u8>)| (p.0@, p.1@))
}

impl View for DirListing {
    type V = ListingView;

    closed spec fn view(&self) -> ListingView {
        ListingView {
            parts: char_vecs_view(self.parts@),
            depth: self.depth as nat,
            stage: self.stage,
            entries: dir_entries_view(self.entries@),
            index: self.index as int,
            files: files_view(self.files@),
            ok: self.ok,
        }
    }
}

/// `.` or `..`, the records of a directory for itself and its parent.
pub open spec fn is_dot_name(name: Seq<char>) -> bool {
    name == seq!['.'] || name == seq!['.', '.']
}

fn is_dot_entry(e: &FatDirEntry) -> (r: bool)
    ensures
        r == is_dot_name(e@.name),
{
    let cs = chars_of(e.name.as_str());
    let r = (cs.len() == 1 && cs[0] == '.') || (cs.len() == 2 && cs[0] == '.' && cs[1] == '.');
    assert(r == (cs@ =~= seq!['.'] || cs@ =~= seq!['.', '.']));
    r
}

/// The first entry but `.` and `..` at or after `j`, or the end.
pub open spec fn next_file(es: Seq<DirEntryView>, j: int) -> int
    decreases es.len() - j,
{
    if j < 0 || j >= es.len() {
        es.len() as int
    } else if is_dot_name(es[j].name) {
        next_file(es, j + 1)
    } else {
        j
    }
}

proof fn lemma_next_file(ch: spec_fn(u32) -> Option<Seq<u8>>, es: Seq<DirEntryView>, j: int)
    requires
        0 <= j <= es.len(),
    ensures
        j <= next_file(es, j) <= es.len(),
        next_file(es, j) < es.len() ==> !is_dot_name(es[next_file(es, j)].name),
        files_from(ch, es, j) == files_from(ch, es, next_file(es, j)),
    decreases es.len() - j,
{
    if j < es.len() && is_dot_name(es[j].name) {
        lemma_next_file(ch, es, j + 1);
    }
}

pub open spec fn listing_inv(v: ListingView) -> bool {
    &&& v.stage is Dir ==> v.depth <= v.parts.len()
    &&& v.stage is Files ==> 0 <= v.index < v.entries.len() && !is_dot_name(
        v.entries[v.index].name,
    )
}

/// What the listing ends with if every remaining chain is read as `ch` says.
pub open spec fn listing_outcome(v: ListingView, ch: spec_fn(u32) -> Option<Seq<u8>>) -> Option<
    Seq<(Seq<char>, Seq<u8>)>,
> {
    match v.stage {
        ListingStage::Dir(c) => walk_dir(ch, c, v.parts, v.depth),
        ListingStage::Files => Some(v.files + files_from(ch, v.entries, v.index)),
        ListingStage::Finished => if v.ok {
            Some(v.files)
        } else {
            None
        },
    }
}

pub open spec fn listing_request(v: ListingView) -> ChainRequest {
    match v.stage {
        ListingStage::Dir(c) => ChainRequest::Chain(c),
        ListingStage::Files => ChainRequest::Chain(v.entries[v.index].cluster),
        ListingStage::Finished => ChainRequest::Done,
    }
}

/// Moves on to the first file at or after `j`, or finishes.
pub open spec fn listing_advance(v: ListingView, j: int) -> ListingView {
    let n = next_file(v.entries, j);
    if n < v.entries.len() {
        ListingView { stage: ListingStage::Files, index: n, ..v }
    } else {
        ListingView { stage: ListingStage::Finished, ok: true, ..v }
    }
}

/// The listing after the requested chain arrives (`Some`) or fails (`None`).
pub open spec fn listing_feed(v: ListingView, resp: Option<Seq<u8>>) -> ListingView {
    match v.stage {
        ListingStage::Dir(_) => match resp {
            None => ListingView { stage: ListingStage::Finished, ok: false, ..v },
            Some(data) => {
                let es = directory_entries(data);
                if v.depth >= v.parts.len() {
                    listing_advance(
                        ListingView { entries: es, files: Seq::empty(), ..v },
                        0,
                    )
                } else {
                    match find_entry(es, v.parts[v.depth as int]) {
                        None => ListingView { stage: ListingStage::Finished, ok: false, ..v },
                        Some(k) => ListingView {
                            stage: ListingStage::Dir(es[k].cluster),
                            depth: v.depth + 1,
                            ..v
                        },
                    }
                }
            },
        },
        ListingStage::Files => {
            let files = match resp {
                Some(d) => v.files.push((v.entries[v.index].name, entry_bytes(v.entries[v.index], d))),
                None => v.files,
            };
            listing_advance(ListingView { files, ..v }, v.index + 1)
        },
        ListingStage::Finished => v,
    }
}

pub open spec fn listing_start(root: u32, path: Seq<char>) -> ListingView {
    ListingView {
        parts: path_parts(path),
        depth: 0,
        stage: ListingStage::Dir(root),
        entries: Seq::empty(),
        index: 0,
        files: Seq::empty(),
        ok: false,
    }
}

/// The stages still to come, most significant first.
pub open spec fn listing_measure(v: ListingView) -> (int, int) {
    match v.stage {
        ListingStage::Dir(_) => (v.parts.len() - v.depth + 1, 0),
        ListingStage::Files => (0, v.entries.len() - v.index),
        ListingStage::Finished => (0, 0),
    }
}

pub open spec fn lex_less(a: (int, int), b: (int, int)) -> bool {
    a.0 < b.0 || (a.0 == b.0 && a.1 < b.1)
}

/// The first entry but `.` and `..` at or after `j`, or the number of
/// entries.
fn first_file_from(es: &Vec<FatDirEntry>, j: usize) -> (r: usize)
    requires
        j <= es@.len(),
    ensures
        r == next_file(dir_entries_view(es@), j as int),
{
    let ghost ev = dir_entries_view(es@);
    let mut i = j;
    while i < es.len() && is_dot_entry(&es[i])
        invariant
            j <= i <= es@.len(),
            ev == dir_entries_view(es@),
            next_file(ev, j as int) == next_file(ev, i as int),
        decreases es@.len() - i,
    {
        assert(ev[i as int] == es@[i as int]@);
        i = i + 1;
    }
    if i < es.len() {
        assert(ev[i as int] == es@[i as int]@);
    }
    i
}

impl Fat32 {
    /// Starts listing the files and subdirectories of the directory at
    /// `path` (the root for an empty path), each with its contents.
    pub fn read_dir(&self, path: &str) -> (r: DirListing)
        ensures
            r@ == listing_start(self@.root_cluster, path@),
            listing_inv(r@),
    {
        let chars = chars_of(path);
        let parts = path_components(chars.as_slice());
        let r = DirListing {
            parts,
            depth: 0,
            stage: ListingStage::Dir(self.root_cluster()),
            entries: Vec::new(),
            index: 0,
            files: Vec::new(),
            ok: false,
        };
        assert(r@.entries =~= Seq::<DirEntryView>::empty());
        assert(r@.files =~= Seq::<(Seq<char>, Seq<u8>)>::empty());
        r
    }
}

impl DirListing {
    pub fn request(&self) -> (r: ChainRequest)
        requires
            listing_inv(self@),
        ensures
            r == listing_request(self@),
    {
        match self.stage {
            ListingStage::Dir(c) => ChainRequest::Chain(c),
            ListingStage::Files => {
                assert(self@.entries[self.index as int] == self.entries@[self.index as int]@);
                ChainRequest::Chain(self.entries[self.index].cluster)
            },
            ListingStage::Finished => ChainRequest::Done,
        }
    }

    fn advance(&mut self, j: usize)
        requires
            j <= old(self)@.entries.len(),
        ensures
            final(self)@ == listing_advance(old(self)@, j as int),
            listing_inv(final(self)@),
    {
        proof {
            lemma_next_file(|x: u32| None::<Seq<u8>>, self@.entries, j as int);
        }
        let n = first_file_from(&self.entries, j);
        if n < self.entries.len() {
            self.stage = ListingStage::Files;
            self.index = n;
        } else {
            self.stage = ListingStage::Finished;
            self.ok = true;
        }
    }

    /// Hands over the chain that `request` named.
    pub fn feed(&mut self, resp: Option<Vec<u8>>)
        requires
            listing_inv(old(self)@),
        ensures
            final(self)@ == listing_feed(old(self)@, opt_bytes_view(resp)),
            listing_inv(final(self)@),
    {
        match self.stage {
            ListingStage::Dir(_) => match resp {
                None => {
                    self.stage = ListingStage::Finished;
                    self.ok = false;
                },
                Some(data) => {
                    let es = read_directory_entries(data.as_slice());
                    if self.depth >= self.parts.len() {
                        self.entries = es;
                        self.files = Vec::new();
                        assert(self@.files =~= Seq::<(Seq<char>, Seq<u8>)>::empty());
                        self.advance(0);
                    } else {
                        let ghost ev = dir_entries_view(es@);
                        assert(self@.parts[self.depth as int] == self.parts@[self.depth as int]@);
                        match lookup_entry(&es, self.parts[self.depth].as_slice()) {
                            None => {
                                self.stage = ListingStage::Finished;
                                self.ok = false;
                            },
                            Some(k) => {
                                assert(ev[k as int] == es@[k as int]@);
                                self.depth = self.depth + 1;
                                self.stage = ListingStage::Dir(es[k].cluster);
                            },
                        }
                    }
                },
            },
            ListingStage::Files => {
                let i = self.index;
                assert(self@.entries.len() == self.entries@.len());
                assert(i < self.entries.len());
                assert(self@.entries[i as int] == self.entries@[i as int]@);
                match resp {
                    Some(d) => {
                        let ghost prev = self@.files;
                        let ghost dv = d@;
                        let name = self.entries[i].name.clone();
                        let mut d = d;
                        if self.entries[i].attributes & 0x10 == 0 {
                            cut_to_size(&mut d, self.entries[i].size);
                        }
                        self.files.push((name, d));
                        assert(self@.files =~= prev.push((self@.entries[i as int].name, entry_bytes(self@.entries[i as int], dv))));
                    },
                    None => {},
                }
                self.advance(i + 1);
            },
            ListingStage::Finished => {},
        }
    }

    /// The files and their contents once done; `None` if a directory was not
    /// found or could not be read, or the listing is not done.
    pub fn result(self) -> (r: Option<Vec<(String, Vec<u8>)>>)
        ensures
            match r {
                Some(v) => self@.stage is Finished && self@.ok && files_view(v@) == self@.files,
                None => !(self@.stage is Finished && self@.ok),
            },
    {
        match self.stage {
            ListingStage::Finished => if self.ok {
                Some(self.files)
            } else {
                None
            },
            _ => None,
        }
    }
}

/// A listing starts by predicting the directory's files.
pub proof fn law_listing_starts_with_dir(l: Fat32Layout, img: spec_fn(nat) -> Seq<u8>, path: Seq<char>)
    ensures
        listing_outcome(listing_start(l.root_cluster, path), |x: u32| cluster_chain(l, img, x))
            == dir_at(l, img, path),
        listing_inv(listing_start(l.root_cluster, path)),
{
}

/// Answering with the chain that was asked for keeps the predicted result,
/// and every step brings the listing closer to its end.
pub proof fn law_listing_step(v: ListingView, ch: spec_fn(u32) -> Option<Seq<u8>>)
    requires
        listing_inv(v),
        !(v.stage is Finished),
    ensures
        ({
            let resp = match listing_request(v) {
                ChainRequest::Chain(c) => ch(c),
                ChainRequest::Done => None,
            };
            listing_outcome(listing_feed(v, resp), ch) == listing_outcome(v, ch)
        }),
        forall|resp: Option<Seq<u8>>|
            lex_less(listing_measure(#[trigger] listing_feed(v, resp)), listing_measure(v)),
{
    match v.stage {
        ListingStage::Dir(c) => {
            match ch(c) {
                Some(data) => {
                    let es = directory_entries(data);
                    if v.depth >= v.parts.len() {
                        lemma_next_file(ch, es, 0);
                        let w = ListingView { entries: es, files: Seq::empty(), ..v };
                        let n = next_file(es, 0);
                        if n >= es.len() {
                            assert(files_from(ch, es, n) =~= Seq::<(Seq<char>, Seq<u8>)>::empty());
                        }
                        assert(Seq::<(Seq<char>, Seq<u8>)>::empty() + files_from(ch, es, n)
                            =~= files_from(ch, es, n));
                    }
                },
                None => {},
            }
        },
        ListingStage::Files => {
            let i = v.index;
            let e = v.entries[i];
            lemma_next_file(ch, v.entries, i + 1);
            let n = next_file(v.entries, i + 1);
            let rest = files_from(ch, v.entries, i + 1);
            match ch(e.cluster) {
                Some(d) => {
                    let b = entry_bytes(e, d);
                    assert(v.files + (seq![(e.name, b)] + rest) =~= v.files.push((e.name, b))
                        + rest);
                },
                None => {},
            }
            if n >= v.entries.len() {
                assert(files_from(ch, v.entries, n) =~= Seq::<(Seq<char>, Seq<u8>)>::empty());
                assert(v.files + Seq::<(Seq<char>, Seq<u8>)>::empty() =~= v.files);
                match ch(e.cluster) {
                    Some(d) => {
                        let b = entry_bytes(e, d);
                        assert(v.files.push((e.name, b)) + Seq::<(Seq<char>, Seq<u8>)>::empty()
                            =~= v.files.push((e.name, b)));
                    },
                    None => {},
                }
            }
        },
        ListingStage::Finished => {},
    }
}

/// What a write gives back on a read: after a file is written into a
/// directory as `write_outcome` says, looking up its name in the new
/// directory, whose clusters hold the data (a whole number of clusters
/// from its first), gives exactly the data.
pub proof fn law_written_file_reads_back(
    fat: Seq<u8>,
    dir: Seq<u8>,
    name: Seq<char>,
    data: Seq<u8>,
    cluster_bytes: int,
    ch: spec_fn(u32) -> Option<Seq<u8>>,
    c: u32,
)
    requires
        cluster_bytes > 0,
        data.len() <= u32::MAX,
        write_outcome(fat, dir, name, data.len() as u32, cluster_bytes) is Ok,
        ({
            let (f, d, cs) = write_outcome(fat, dir, name, data.len() as u32, cluster_bytes)->Ok_0;
            let first: u32 = if data.len() > 0 {
                cs[0]
            } else {
                0
            };
            &&& ch(c) == Some(d)
            &&& ch(first) matches Some(x)
            &&& x.len() >= data.len()
            &&& x.take(data.len() as int) == data
        }),
    ensures
        walk_file(ch, c, seq![name], 0) == Some(data),
{
    let len = data.len() as u32;
    crate::fatwrite::law_write_lists_the_file(fat, dir, name, len, cluster_bytes);
    let (f, d, cs) = write_outcome(fat, dir, name, len, cluster_bytes)->Ok_0;
    let es = directory_entries(d);
    let i = find_entry(es, name)->Some_0;
    assert(!is_directory(0x20u8)) by (bit_vector);
    let x = ch(es[i].cluster)->Some_0;
    if x.len() == data.len() {
        assert(x.take(data.len() as int) =~= x);
    }
    assert(seq![name][0] == name);
}

} // verus!
