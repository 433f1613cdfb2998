//! What the boot manager decides around the menu: loading the configuration
//! from the main file and the entry files, boot counters, backups, and the
//! kernel command line and load layout.
use vstd::prelude::*;
use vstd::utf8::{valid_utf8, decode_utf8};
use crate::config::{
    Config, ConfigView, Entry, EntryView, entries_view, entry_file_text, initial_config,
    config_text,
};
use crate::text::{
    all_digits, decimal, digits_value, ends_with, has_suffix, index_of, lemma_decimal,
    lemma_rindex_of, push_chars, push_decimal, push_str, rfind_char, rindex_of,
    parse_u64, strip_suffix_all, string_from, trim_end_matches, find_char, chars_of, strings_view,
};

verus! {

// ---------------------------------------------------------------------------
// Entry file names
// ---------------------------------------------------------------------------

/// `\EFI\nexec\entries\`, where entry files live.
pub open spec fn entries_prefix() -> Seq<char> {
    seq!['\\', 'E', 'F', 'I', '\\', 'n', 'e', 'x', 'e', 'c', '\\', 'e', 'n', 't', 'r', 'i', 'e', 's', '\\']
}

/// `\EFI\nexec\backup\entries\`, where entry files are backed up.
pub open spec fn backup_prefix() -> Seq<char> {
    seq![
        '\\', 'E', 'F', 'I', '\\', 'n', 'e', 'x', 'e', 'c', '\\', 'b', 'a', 'c', 'k', 'u', 'p', '\\',
        'e', 'n', 't', 'r', 'i', 'e', 's', '\\',
    ]
}

pub open spec fn dot_conf() -> Seq<char> {
    seq!['.', 'c', 'o', 'n', 'f']
}

pub open spec fn dot_conf_upper() -> Seq<char> {
    seq!['.', 'C', 'O', 'N', 'F']
}

/// A file name without its trailing `.conf` (and then `.CONF`) suffixes.
pub open spec fn raw_name(file_name: Seq<char>) -> Seq<char> {
    strip_suffix_all(strip_suffix_all(file_name, dot_conf()), dot_conf_upper())
}

/// The entry's name: the raw name up to its first `+`.
pub open spec fn entry_name_of(raw: Seq<char>) -> Seq<char> {
    match index_of(raw, '+') {
        Some(i) => raw.take(i),
        None => raw,
    }
}

/// The boot counter of a raw name: the digits after its last `+`, as a `u32`.
pub open spec fn spec_parse_counter(raw: Seq<char>) -> Option<u32> {
    match rindex_of(raw, '+') {
        None => None,
        Some(p) => {
            let suffix = raw.skip(p + 1);
            if suffix.len() > 0 && all_digits(suffix) && digits_value(suffix) <= u32::MAX {
                Some(digits_value(suffix) as u32)
            } else {
                None
            }
        },
    }
}

/// The boot counter in a raw entry file name (`arch+3` has 3 tries left).
pub fn parse_counter(raw_name: &[char]) -> (r: Option<u32>)
    ensures
        r == spec_parse_counter(raw_name@),
{
    proof {
        lemma_rindex_of(raw_name@, '+');
    }
    match rfind_char(raw_name, '+') {
        None => None,
        Some(p) => {
            let n = raw_name.len();
            assert(p < n);
            let suffix = &raw_name[p + 1..n];
            assert(suffix@ =~= raw_name@.skip(p + 1));
            if suffix.len() == 0 {
                return None;
            }
            assert(suffix@[0] != '+');
            match parse_u64(suffix) {
                Some(v) => if v <= 0xFFFF_FFFF {
                    Some(v as u32)
                } else {
                    None
                },
                None => None,
            }
        },
    }
}

fn lit_conf() -> (r: [char; 5])
    ensures
        r@ == dot_conf(),
{
    let r = ['.', 'c', 'o', 'n', 'f'];
    assert(r@ =~= dot_conf());
    r
}

fn lit_conf_upper() -> (r: [char; 5])
    ensures
        r@ == dot_conf_upper(),
{
    let r = ['.', 'C', 'O', 'N', 'F'];
    assert(r@ =~= dot_conf_upper());
    r
}

/// The raw name of an entry file name.
pub fn entry_raw_name(file_name: &[char]) -> (r: &[char])
    ensures
        r@ == raw_name(file_name@),
{
    let lower = lit_conf();
    let upper = lit_conf_upper();
    let a = trim_end_matches(file_name, &lower);
    trim_end_matches(a, &upper)
}

/// The entry name in a raw name.
pub fn entry_name(raw: &[char]) -> (r: &[char])
    ensures
        r@ == entry_name_of(raw@),
{
    match find_char(raw, '+') {
        Some(i) => {
            proof {
                crate::text::lemma_index_of(raw@, '+');
            }
            assert(raw@.subrange(0, i as int) =~= raw@.take(i as int));
            &raw[0..i]
        },
        None => raw,
    }
}

fn entries_prefix_string() -> (r: String)
    ensures
        r@ == entries_prefix(),
{
    let cs = [
        '\\', 'E', 'F', 'I', '\\', 'n', 'e', 'x', 'e', 'c', '\\', 'e', 'n', 't', 'r', 'i', 'e', 's',
        '\\',
    ];
    assert(cs@ =~= entries_prefix());
    string_from(&cs)
}

fn backup_prefix_string() -> (r: String)
    ensures
        r@ == backup_prefix(),
{
    let cs = [
        '\\', 'E', 'F', 'I', '\\', 'n', 'e', 'x', 'e', 'c', '\\', 'b', 'a', 'c', 'k', 'u', 'p',
        '\\', 'e', 'n', 't', 'r', 'i', 'e', 's', '\\',
    ];
    assert(cs@ =~= backup_prefix());
    string_from(&cs)
}

/// `\EFI\nexec\nexec.conf`, the main configuration file.
pub open spec fn main_config_file() -> Seq<char> {
    seq!['\\', 'E', 'F', 'I', '\\', 'n', 'e', 'x', 'e', 'c', '\\', 'n', 'e', 'x', 'e', 'c', '.', 'c', 'o', 'n', 'f']
}

/// The path of the main configuration file on the partition.
pub fn main_config_path() -> (r: String)
    ensures
        r@ == main_config_file(),
{
    let cs = [
        '\\', 'E', 'F', 'I', '\\', 'n', 'e', 'x', 'e', 'c', '\\', 'n', 'e', 'x', 'e', 'c', '.', 'c',
        'o', 'n', 'f',
    ];
    assert(cs@ =~= main_config_file());
    string_from(&cs)
}

/// The directory of the entry files, `\EFI\nexec\entries`.
pub fn entries_dir_path() -> (r: String)
    ensures
        r@ == entries_prefix().drop_last(),
{
    let full = entries_prefix_string();
    let cs = chars_of(full.as_str());
    assert(cs@.subrange(0, 18) =~= entries_prefix().drop_last());
    string_from(&cs.as_slice()[0..18])
}

/// The directory of the backed-up entry files, `\EFI\nexec\backup\entries`.
pub fn backup_entries_dir_path() -> (r: String)
    ensures
        r@ == backup_prefix().drop_last(),
{
    let full = backup_prefix_string();
    let cs = chars_of(full.as_str());
    assert(cs@.subrange(0, 25) =~= backup_prefix().drop_last());
    string_from(&cs.as_slice()[0..25])
}

// ---------------------------------------------------------------------------
// Loading the configuration
// ---------------------------------------------------------------------------

/// Some entry has this name.
pub open spec fn has_name(s: Seq<EntryView>, name: Seq<char>) -> bool {
    exists|i: int| 0 <= i < s.len() && #[trigger] s[i].name == name
}

/// The entries in order, each name kept at its first occurrence only.
pub open spec fn first_of_each_name(s: Seq<EntryView>) -> Seq<EntryView>
    decreases s.len(),
{
    if s.len() == 0 {
        Seq::empty()
    } else {
        let d = first_of_each_name(s.drop_last());
        if has_name(d, s.last().name) {
            d
        } else {
            d.push(s.last())
        }
    }
}

/// The entries in order, without those of this name.
pub open spec fn without_name(s: Seq<EntryView>, name: Seq<char>) -> Seq<EntryView>
    decreases s.len(),
{
    if s.len() == 0 {
        Seq::empty()
    } else {
        let w = without_name(s.drop_last(), name);
        if s.last().name == name {
            w
        } else {
            w.push(s.last())
        }
    }
}

/// The settings of the main file: its parse when it exists and parses
/// (each entry name kept once), the defaults otherwise.
pub open spec fn main_config(data: Option<Seq<u8>>) -> ConfigView {
    match data {
        Some(d) => if valid_utf8(d) {
            match config_text(decode_utf8(d)) {
                Ok(c) => ConfigView { entries: first_of_each_name(c.entries), ..c },
                Err(_) => initial_config(),
            }
        } else {
            initial_config()
        },
        None => initial_config(),
    }
}

/// The entry that an entry file describes, with its boot counter and where
/// it came from; `None` when its name does not end in `.conf` (or `.CONF`)
/// or it does not parse.
pub open spec fn file_entry(file_name: Seq<char>, data: Seq<u8>) -> Option<EntryView> {
    let raw = raw_name(file_name);
    if is_conf_name(file_name) && valid_utf8(data) {
        let e = entry_file_text(entry_name_of(raw), decode_utf8(data));
        if e.efi_path.len() > 0 {
            Some(
                EntryView {
                    boot_counter: spec_parse_counter(raw),
                    source_path: Some(entries_prefix() + file_name),
                    ..e
                },
            )
        } else {
            None
        }
    } else {
        None
    }
}

/// Each entry file in turn replaces the entries of its name.
pub open spec fn add_file_entries(entries: Seq<EntryView>, files: Seq<(Seq<char>, Seq<u8>)>) -> Seq<
    EntryView,
>
    decreases files.len(),
{
    if files.len() == 0 {
        entries
    } else {
        let es = add_file_entries(entries, files.drop_last());
        match file_entry(files.last().0, files.last().1) {
            Some(e) => without_name(es, e.name).push(e),
            None => es,
        }
    }
}

pub open spec fn opt_bytes(o: Option<&[u8]>) -> Option<Seq<u8>> {
    match o {
        Some(b) => Some(b@),
        None => None,
    }
}

pub open spec fn named_files_view(v: Seq<(String, Vec<u8>)>) -> Seq<(Seq<char>, Seq<u8>)> {
    v.map_values(|p: (String, Vec<u8>)| (p.0@, p.1@))
}

/// The configuration from the main file (if it could be read) and the entry
/// files (if the entries directory could be listed).
pub open spec fn loaded_config(main: Option<Seq<u8>>, files: Option<Seq<(Seq<char>, Seq<u8>)>>) -> ConfigView {
    let c = main_config(main);
    match files {
        Some(f) => ConfigView { entries: add_file_entries(c.entries, f), ..c },
        None => c,
    }
}

fn has_named(entries: &Vec<Entry>, name: &String) -> (r: bool)
    ensures
        r == has_name(entries_view(entries@), name@),
{
    let ghost ev = entries_view(entries@);
    let mut i: usize = 0;
    while i < entries.len()
        invariant
            0 <= i <= entries@.len(),
            ev == entries_view(entries@),
            forall|k: int| 0 <= k < i ==> ev[k].name != name@,
        decreases entries@.len() - i,
    {
        assert(ev[i as int] == entries@[i as int]@);
        if entries[i].name == *name {
            assert(ev[i as int].name == name@);
            return true;
        }
        i = i + 1;
    }
    false
}

fn remove_named(entries: &Vec<Entry>, name: &String) -> (r: Vec<Entry>)
    ensures
        entries_view(r@) == without_name(entries_view(entries@), name@),
{
    let ghost ev = entries_view(entries@);
    let mut out: Vec<Entry> = Vec::new();
    let mut i: usize = 0;
    assert(ev.take(0) =~= Seq::<EntryView>::empty());
    assert(entries_view(out@) =~= Seq::<EntryView>::empty());
    while i < entries.len()
        invariant
            0 <= i <= entries@.len(),
            ev == entries_view(entries@),
            entries_view(out@) == without_name(ev.take(i as int), name@),
        decreases entries@.len() - i,
    {
        assert(ev.take(i + 1).drop_last() =~= ev.take(i as int));
        assert(ev[i as int] == entries@[i as int]@);
        if !(entries[i].name == *name) {
            let ghost prev = entries_view(out@);
            out.push(entries[i].copy());
            assert(entries_view(out@) =~= prev.push(ev[i as int]));
        }
        i = i + 1;
    }
    assert(ev.take(entries@.len() as int) =~= ev);
    out
}

/// The entry of an entry file, as `file_entry` says.
fn load_entry_file(file_name: &String, data: &Vec<u8>) -> (r: Option<Entry>)
    ensures
        match r {
            Some(e) => file_entry(file_name@, data@) == Some(e@),
            None => file_entry(file_name@, data@) is None,
        },
{
    if !conf_file_name(file_name.as_str()) {
        return None;
    }
    let fname = chars_of(file_name.as_str());
    let raw = entry_raw_name(fname.as_slice());
    let name = string_from(entry_name(raw));
    match Config::parse_entry_file(name.as_str(), data.as_slice()) {
        Ok(e) => {
            let mut e = e;
            e.boot_counter = parse_counter(raw);
            let mut source = entries_prefix_string();
            push_str(&mut source, file_name.as_str());
            e.source_path = Some(source);
            Some(e)
        },
        Err(_) => None,
    }
}

/// Loads the configuration: the defaults, then the settings and entries of
/// the main file (`\EFI\nexec\nexec.conf`) if it was read and parses, then
/// each `.conf` file of `\EFI\nexec\entries\` that parses, replacing any entry of the same
/// name; the boot counter comes from the file name (`name+N.conf`).
pub fn load_config(main: Option<&[u8]>, entry_files: Option<&Vec<(String, Vec<u8>)>>) -> (r: Config)
    ensures
        r@ == loaded_config(
            opt_bytes(main),
            match entry_files {
                Some(f) => Some(named_files_view(f@)),
                None => None,
            },
        ),
{
    let mut cfg = match main {
        Some(data) => match Config::parse(data) {
            Ok(parsed) => {
                let mut entries: Vec<Entry> = Vec::new();
                let ghost pv = entries_view(parsed.entries@);
                let mut i: usize = 0;
                assert(pv.take(0) =~= Seq::<EntryView>::empty());
                assert(entries_view(entries@) =~= Seq::<EntryView>::empty());
                while i < parsed.entries.len()
                    invariant
                        0 <= i <= parsed.entries@.len(),
                        pv == entries_view(parsed.entries@),
                        entries_view(entries@) == first_of_each_name(pv.take(i as int)),
                    decreases parsed.entries@.len() - i,
                {
                    assert(pv.take(i + 1).drop_last() =~= pv.take(i as int));
                    assert(pv[i as int] == parsed.entries@[i as int]@);
                    if !has_named(&entries, &parsed.entries[i].name) {
                        let ghost prev = entries_view(entries@);
                        entries.push(parsed.entries[i].copy());
                        assert(entries_view(entries@) =~= prev.push(pv[i as int]));
                    }
                    i = i + 1;
                }
                assert(pv.take(parsed.entries@.len() as int) =~= pv);
                let r = Config {
                    default: parsed.default,
                    timeout: parsed.timeout,
                    no_scan: parsed.no_scan,
                    order: parsed.order,
                    entries,
                    keybinds: parsed.keybinds,
                };
                assert(r@ == main_config(opt_bytes(main)));
                r
            },
            Err(_) => default_config(),
        },
        None => default_config(),
    };
    assert(cfg@ == main_config(opt_bytes(main)));
    match entry_files {
        Some(files) => {
            let ghost fv = named_files_view(files@);
            let ghost base = cfg@.entries;
            let ghost c0 = cfg@;
            let mut k: usize = 0;
            assert(fv.take(0) =~= Seq::<(Seq<char>, Seq<u8>)>::empty());
            while k < files.len()
                invariant
                    0 <= k <= files@.len(),
                    fv == named_files_view(files@),
                    entries_view(cfg.entries@) == add_file_entries(base, fv.take(k as int)),
                    cfg@ == (ConfigView { entries: entries_view(cfg.entries@), ..c0 }),
                decreases files@.len() - k,
            {
                assert(fv.take(k + 1).drop_last() =~= fv.take(k as int));
                assert(fv[k as int] == (files@[k as int].0@, files@[k as int].1@));
                let (fname, data) = &files[k];
                match load_entry_file(fname, data) {
                    Some(e) => {
                        let mut kept = remove_named(&cfg.entries, &e.name);
                        let ghost prev = entries_view(kept@);
                        kept.push(e);
                        assert(entries_view(kept@) =~= prev.push(e@));
                        cfg.entries = kept;
                    },
                    None => {},
                }
                k = k + 1;
            }
            assert(fv.take(files@.len() as int) =~= fv);
        },
        None => {},
    }
    cfg
}

/// The defaults.
fn default_config() -> (r: Config)
    ensures
        r@ == initial_config(),
{
    let r = Config {
        default: None,
        timeout: 5,
        no_scan: false,
        order: None,
        entries: Vec::new(),
        keybinds: crate::config::Keybinds::default(),
    };
    assert(entries_view(r.entries@) =~= Seq::<EntryView>::empty());
    r
}


// ---------------------------------------------------------------------------
// Boot counters
// ---------------------------------------------------------------------------

/// The number of bytes of a character in UTF-8 (`char::len_utf8`).
pub open spec fn utf8_width(c: char) -> nat {
    if (c as u32) < 0x80 {
        1
    } else if (c as u32) < 0x800 {
        2
    } else if (c as u32) < 0x10000 {
        3
    } else {
        4
    }
}

fn char_width(c: char) -> (r: usize)
    ensures
        r == utf8_width(c),
{
    let u = c as u32;
    if u < 0x80 {
        1
    } else if u < 0x800 {
        2
    } else if u < 0x10000 {
        3
    } else {
        4
    }
}

/// The character index where the last `n` bytes of the UTF-8 encoding of
/// `s` begin, if that is a character boundary.
pub open spec fn cut_last_bytes(s: Seq<char>, n: nat) -> Option<int>
    decreases s.len(),
{
    if n == 0 {
        Some(s.len() as int)
    } else if s.len() == 0 || utf8_width(s.last()) > n {
        None
    } else {
        cut_last_bytes(s.drop_last(), (n - utf8_width(s.last())) as nat)
    }
}

proof fn lemma_cut_last_bytes(s: Seq<char>, n: nat)
    ensures
        cut_last_bytes(s, n) matches Some(k) ==> 0 <= k <= s.len(),
    decreases s.len(),
{
    if n > 0 && s.len() > 0 && utf8_width(s.last()) <= n {
        lemma_cut_last_bytes(s.drop_last(), (n - utf8_width(s.last())) as nat);
    }
}

/// The new name of an entry file whose boot counter is `counter` (at least
/// 1) when it is booted: the path without its last five bytes (`.conf`) is
/// cut at its last `+`, and gets `+counter-1` back unless the counter was 1;
/// then `.conf`. `None` when there is no `+`.
pub open spec fn counter_rename(source: Seq<char>, counter: u32) -> Option<Seq<char>> {
    let k = cut_last_bytes(source, 5)->0;
    let name_part = source.take(k);
    match rindex_of(name_part, '+') {
        None => None,
        Some(p) => {
            let base = name_part.take(p);
            Some(
                if counter == 1 {
                    base + dot_conf()
                } else {
                    base + seq!['+'] + decimal((counter - 1) as nat) + dot_conf()
                },
            )
        },
    }
}

/// The renaming that records a boot of `e`: from its source path to the
/// path with one try less; none without a source path, without a counter
/// left, or without a `+` in the path.
pub open spec fn rename_plan(e: EntryView) -> Option<(Seq<char>, Seq<char>)> {
    match (e.source_path, e.boot_counter) {
        (Some(s), Some(c)) => if c > 0 {
            match counter_rename(s, c) {
                Some(n) => Some((s, n)),
                None => None,
            }
        } else {
            None
        },
        _ => None,
    }
}

/// The source path can be cut five bytes before its end.
pub open spec fn rename_sliceable(e: EntryView) -> bool {
    match (e.source_path, e.boot_counter) {
        (Some(s), Some(c)) => c > 0 ==> cut_last_bytes(s, 5) is Some,
        _ => true,
    }
}

/// The renaming that records a boot of `entry`, as `rename_plan` says.
pub fn boot_counter_rename(entry: &Entry) -> (r: Option<(String, String)>)
    requires
        rename_sliceable(entry@),
    ensures
        match r {
            Some((from, to)) => rename_plan(entry@) == Some((from@, to@)),
            None => rename_plan(entry@) is None,
        },
{
    let source = match &entry.source_path {
        Some(s) => s,
        None => return None,
    };
    let counter = match entry.boot_counter {
        Some(c) => if c > 0 {
            c
        } else {
            return None
        },
        None => return None,
    };
    let chars = chars_of(source.as_str());
    let ghost s = chars@;
    let mut k: usize = chars.len();
    let mut left: usize = 5;
    proof {
        lemma_cut_last_bytes(s, 5);
        assert(s.take(k as int) =~= s);
    }
    while left > 0
        invariant
            0 <= k <= s.len(),
            s == chars@,
            left <= 5,
            cut_last_bytes(s, 5) == cut_last_bytes(s.take(k as int), left as nat),
            cut_last_bytes(s, 5) is Some,
        decreases k,
    {
        let w = char_width(chars[k - 1]);
        assert(s.take(k as int).drop_last() =~= s.take(k - 1));
        assert(s.take(k as int).last() == chars@[k - 1]);
        left = left - w;
        k = k - 1;
    }
    assert(s.take(k as int).len() == k);
    let name_part = &chars[0..k];
    assert(name_part@ =~= s.take(k as int));
    proof {
        lemma_rindex_of(name_part@, '+');
    }
    match rfind_char(name_part, '+') {
        None => None,
        Some(p) => {
            let mut to = string_from(&name_part[0..p]);
            assert(name_part@.subrange(0, p as int) =~= name_part@.take(p as int));
            if counter != 1 {
                push_chars(&mut to, &['+']);
                push_decimal(&mut to, (counter - 1) as u64);
            }
            let conf = lit_conf();
            push_chars(&mut to, &conf);
            proof {
                if counter == 1 {
                    assert(to@ =~= name_part@.take(p as int) + dot_conf());
                } else {
                    assert(to@ =~= name_part@.take(p as int) + seq!['+'] + decimal(
                        (counter - 1) as nat,
                    ) + dot_conf());
                }
            }
            Some((source.clone(), to))
        },
    }
}

proof fn lemma_strip_once(x: Seq<char>, pat: Seq<char>)
    requires
        pat.len() > 0,
    ensures
        strip_suffix_all(x + pat, pat) == strip_suffix_all(x, pat),
{
    let y = x + pat;
    assert(y.skip(y.len() - pat.len()) =~= pat);
    assert(y.take(y.len() - pat.len()) =~= x);
}

proof fn lemma_strip_none(x: Seq<char>, pat: Seq<char>)
    requires
        x.len() > 0,
        pat.len() > 0,
        x.last() != pat.last(),
    ensures
        strip_suffix_all(x, pat) == x,
{
    if x.len() >= pat.len() {
        let t = x.skip(x.len() - pat.len());
        assert(t.last() == x.last());
        assert(t != pat);
    }
}

pub(crate) proof fn lemma_counter_of(stem: Seq<char>, d: Seq<char>)
    requires
        forall|i: int| 0 <= i < stem.len() ==> stem[i] != '+',
        d.len() > 0,
        all_digits(d),
    ensures
        ({
            let raw = stem + seq!['+'] + d;
            &&& rindex_of(raw, '+') == Some(stem.len() as int)
            &&& index_of(raw, '+') == Some(stem.len() as int)
            &&& raw.skip((stem.len() + 1) as int) == d
            &&& raw.take(stem.len() as int) == stem
        }),
{
    let raw = stem + seq!['+'] + d;
    crate::text::lemma_rindex_of(raw, '+');
    crate::text::lemma_index_of(raw, '+');
    assert(raw[stem.len() as int] == '+');
    assert forall|j: int| stem.len() < j < raw.len() implies raw[j] != '+' by {
        assert(raw[j] == d[j - stem.len() - 1]);
        assert(crate::text::is_digit(d[j - stem.len() - 1]));
    }
    assert forall|j: int| 0 <= j < stem.len() implies raw[j] != '+' by {
        assert(raw[j] == stem[j]);
    }
    assert(raw.skip((stem.len() + 1) as int) =~= d);
    assert(raw.take(stem.len() as int) =~= stem);
}

proof fn lemma_cut_conf(base: Seq<char>)
    ensures
        cut_last_bytes(base + dot_conf(), 5) == Some(base.len() as int),
{
    let s0 = base + dot_conf();
    let s1 = base + seq!['.', 'c', 'o', 'n'];
    let s2 = base + seq!['.', 'c', 'o'];
    let s3 = base + seq!['.', 'c'];
    let s4 = base + seq!['.'];
    assert(s0.drop_last() =~= s1);
    assert(s1.drop_last() =~= s2);
    assert(s2.drop_last() =~= s3);
    assert(s3.drop_last() =~= s4);
    assert(s4.drop_last() =~= base);
    assert(s0.last() == 'f');
    assert(s1.last() == 'n');
    assert(s2.last() == 'o');
    assert(s3.last() == 'c');
    assert(s4.last() == '.');
    assert(cut_last_bytes(base, 0) == Some(base.len() as int));
    assert(cut_last_bytes(s4, 1) == Some(base.len() as int));
    assert(cut_last_bytes(s3, 2) == Some(base.len() as int));
    assert(cut_last_bytes(s2, 3) == Some(base.len() as int));
    assert(cut_last_bytes(s1, 4) == Some(base.len() as int));
}

pub(crate) proof fn lemma_plain_name(stem: Seq<char>)
    requires
        !ends_with(stem, dot_conf()),
        !ends_with(stem, dot_conf_upper()),
    ensures
        raw_name(stem + dot_conf()) == stem,
{
    lemma_strip_once(stem, dot_conf());
}

pub(crate) proof fn lemma_counted_name(stem: Seq<char>, d: Seq<char>)
    requires
        d.len() > 0,
        all_digits(d),
    ensures
        raw_name(stem + seq!['+'] + d + dot_conf()) == stem + seq!['+'] + d,
{
    let raw = stem + seq!['+'] + d;
    lemma_strip_once(raw, dot_conf());
    assert(crate::text::is_digit(d[d.len() - 1]));
    assert(raw.last() == d.last());
    lemma_strip_none(raw, dot_conf());
    lemma_strip_none(raw, dot_conf_upper());
}

proof fn lemma_rename_of(prefix: Seq<char>, stem: Seq<char>, n: u32)
    requires
        n >= 1,
        forall|i: int| 0 <= i < stem.len() ==> stem[i] != '+',
        forall|i: int| 0 <= i < prefix.len() ==> prefix[i] != '+',
    ensures
        counter_rename(prefix + stem + seq!['+'] + decimal(n as nat) + dot_conf(), n) == Some(
            prefix + if n == 1 {
                stem + dot_conf()
            } else {
                stem + seq!['+'] + decimal((n - 1) as nat) + dot_conf()
            },
        ),
{
    let d = decimal(n as nat);
    lemma_decimal(n as nat);
    let pstem = prefix + stem;
    let base = pstem + seq!['+'] + d;
    assert(prefix + stem + seq!['+'] + d + dot_conf() =~= base + dot_conf());
    lemma_cut_conf(base);
    assert((base + dot_conf()).take(base.len() as int) =~= base);
    assert forall|i: int| 0 <= i < pstem.len() implies pstem[i] != '+' by {
        if i < prefix.len() {
            assert(pstem[i] == prefix[i]);
        } else {
            assert(pstem[i] == stem[i - prefix.len()]);
        }
    }
    lemma_counter_of(pstem, d);
    if n == 1 {
        assert(pstem + dot_conf() =~= prefix + (stem + dot_conf()));
    } else {
        assert(pstem + seq!['+'] + decimal((n - 1) as nat) + dot_conf() =~= prefix + (stem
            + seq!['+'] + decimal((n - 1) as nat) + dot_conf()));
    }
}

/// Boot counting: booting an entry from `stem+N.conf` renames it to
/// `stem+(N-1).conf`, or to `stem.conf` when N is 1; loading the renamed
/// file gives the same entry name with one try less, or no counter.
pub proof fn law_boot_counter_counts_down(stem: Seq<char>, n: u32)
    requires
        n >= 1,
        forall|i: int| 0 <= i < stem.len() ==> stem[i] != '+',
        !ends_with(stem, dot_conf()),
        !ends_with(stem, dot_conf_upper()),
    ensures
        ({
            let name = stem + seq!['+'] + decimal(n as nat) + dot_conf();
            let renamed = if n == 1 {
                stem + dot_conf()
            } else {
                stem + seq!['+'] + decimal((n - 1) as nat) + dot_conf()
            };
            &&& spec_parse_counter(raw_name(name)) == Some(n)
            &&& entry_name_of(raw_name(name)) == stem
            &&& counter_rename(entries_prefix() + name, n) == Some(entries_prefix() + renamed)
            &&& entry_name_of(raw_name(renamed)) == stem
            &&& spec_parse_counter(raw_name(renamed)) == if n == 1 {
                None::<u32>
            } else {
                Some((n - 1) as u32)
            }
        }),
{
    let d = decimal(n as nat);
    lemma_decimal(n as nat);
    lemma_counted_name(stem, d);
    lemma_counter_of(stem, d);
    let name = stem + seq!['+'] + decimal(n as nat) + dot_conf();
    assert(entries_prefix() + name =~= entries_prefix() + stem + seq!['+'] + decimal(n as nat)
        + dot_conf());
    lemma_rename_of(entries_prefix(), stem, n);
    if n == 1 {
        lemma_plain_name(stem);
        crate::text::lemma_index_of(stem, '+');
        crate::text::lemma_rindex_of(stem, '+');
    } else {
        let d2 = decimal((n - 1) as nat);
        lemma_decimal((n - 1) as nat);
        lemma_counted_name(stem, d2);
        lemma_counter_of(stem, d2);
    }
}


// ---------------------------------------------------------------------------
// Backups of the entry files
// ---------------------------------------------------------------------------

/// `.conf` or `.CONF` ends the file name.
pub open spec fn is_conf_name(name: Seq<char>) -> bool {
    ends_with(name, dot_conf()) || ends_with(name, dot_conf_upper())
}

/// The positions of the `.conf` files among the first `k` names of a listing.
pub open spec fn conf_positions(names: Seq<Seq<char>>, k: int) -> Seq<usize>
    decreases k,
{
    if k <= 0 {
        Seq::empty()
    } else {
        let prev = conf_positions(names, k - 1);
        if is_conf_name(names[k - 1]) {
            prev.push((k - 1) as usize)
        } else {
            prev
        }
    }
}

/// Whether `name` ends with `.conf` or `.CONF`.
pub fn conf_file_name(name: &str) -> (r: bool)
    ensures
        r == is_conf_name(name@),
{
    let cs = chars_of(name);
    let lower = lit_conf();
    let upper = lit_conf_upper();
    has_suffix(&cs, &lower) || has_suffix(&cs, &upper)
}

/// The files of a directory listing that a backup or a restore copies: the
/// positions of the `.conf` files, in listing order.
pub fn conf_files(names: &Vec<String>) -> (r: Vec<usize>)
    ensures
        r@ == conf_positions(strings_view(names@), names@.len() as int),
{
    let mut r: Vec<usize> = Vec::new();
    let mut i: usize = 0;
    while i < names.len()
        invariant
            0 <= i <= names@.len(),
            r@ == conf_positions(strings_view(names@), i as int),
        decreases names@.len() - i,
    {
        assert(strings_view(names@)[i as int] == names@[i as int]@);
        if conf_file_name(names[i].as_str()) {
            r.push(i);
        }
        i = i + 1;
    }
    r
}

/// Where a backup puts the entry file `name`.
pub fn backup_path(name: &str) -> (r: String)
    ensures
        r@ == backup_prefix() + name@,
{
    let mut r = backup_prefix_string();
    push_str(&mut r, name);
    r
}

/// Where a restore puts the backed-up file `name`: back among the entries.
pub fn entry_file_path(name: &str) -> (r: String)
    ensures
        r@ == entries_prefix() + name@,
{
    let mut r = entries_prefix_string();
    push_str(&mut r, name);
    r
}

/// `\EFI\nexec\backup`.
pub open spec fn backup_dir() -> Seq<char> {
    backup_prefix().take(17)
}

/// The directories that a backup creates first, parent first:
/// `\EFI\nexec\backup` and `\EFI\nexec\backup\entries`.
pub fn backup_dirs() -> (r: Vec<String>)
    ensures
        strings_view(r@) == seq![backup_dir(), backup_prefix().drop_last()],
{
    let full = backup_prefix_string();
    let cs = chars_of(full.as_str());
    let a = string_from(&cs.as_slice()[0..17]);
    let b = string_from(&cs.as_slice()[0..25]);
    assert(cs@.subrange(0, 17) =~= backup_dir());
    assert(cs@.subrange(0, 25) =~= backup_prefix().drop_last());
    let r = vec![a, b];
    assert(strings_view(r@) =~= seq![backup_dir(), backup_prefix().drop_last()]);
    r
}

// ---------------------------------------------------------------------------
// Paths
// ---------------------------------------------------------------------------

/// `path` with every `/` turned into `\`.
pub open spec fn normalized(path: Seq<char>) -> Seq<char> {
    path.map_values(|c: char| if c == '/' { '\\' } else { c })
}

/// A path as the FAT32 code reads it: with `\` between the components.
pub fn normalize_path(path: &str) -> (r: String)
    ensures
        r@ == normalized(path@),
{
    let cs = chars_of(path);
    let mut r = String::new();
    let mut i: usize = 0;
    while i < cs.len()
        invariant
            0 <= i <= cs@.len(),
            cs@ == path@,
            r@ == normalized(cs@.take(i as int)),
        decreases cs@.len() - i,
    {
        let c = cs[i];
        let d = if c == '/' { '\\' } else { c };
        crate::text::push_char(&mut r, d);
        assert(normalized(cs@.take(i + 1)) =~= normalized(cs@.take(i as int)).push(d));
        i = i + 1;
    }
    assert(cs@.take(cs@.len() as int) =~= cs@);
    r
}

} // verus!
