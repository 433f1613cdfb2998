//! The configuration language: the main file (`nexec.conf`), entry files
//! (`entries/*.conf`) and Boot Loader Specification entries.
use vstd::prelude::*;
use vstd::utf8::*;
use crate::text::{
    chars_eq, decode_utf8_chars, find_char, find_whitespace, index_of, index_of_ws, is_truthy,
    lemma_split_lines_step, parse_u64, spec_is_truthy, spec_parse_u64, spec_trim, spec_trim_char,
    spec_is_whitespace, trim_start_ws, trim_end_ws, trim_start_char, trim_end_char, lemma_index_of,
    split_lines, split_whitespace, split_words, string_from, strings_view, trim, trim_char,
};

verus! {

/// One bootable entry.
#[derive(Debug, Clone)]
pub struct Entry {
    pub name: String,
    pub title: String,
    pub efi_path: String,
    pub options: Option<String>,
    pub initrd: Vec<String>,
    pub boot_counter: Option<u32>,
    pub source_path: Option<String>,
}

/// The keys that trigger the menu's actions.
#[derive(Debug, Clone, Copy, PartialEq, Eq)]
pub struct Keybinds {
    pub manual: char,
    pub firmware: char,
    pub reboot: char,
    pub shutdown: char,
    pub backup: char,
}

/// The global settings and the entries of a configuration.
#[derive(Debug)]
pub struct Config {
    pub default: Option<String>,
    pub timeout: u64,
    pub no_scan: bool,
    pub order: Option<Vec<String>>,
    pub entries: Vec<Entry>,
    pub keybinds: Keybinds,
}

/// What an `Entry` holds, as character sequences.
#[verifier::ext_equal]
pub struct EntryView {
    pub name: Seq<char>,
    pub title: Seq<char>,
    pub efi_path: Seq<char>,
    pub options: Option<Seq<char>>,
    pub initrd: Seq<Seq<char>>,
    pub boot_counter: Option<u32>,
    pub source_path: Option<Seq<char>>,
}

/// What a `Config` holds, as character sequences.
#[verifier::ext_equal]
pub struct ConfigView {
    pub default: Option<Seq<char>>,
    pub timeout: u64,
    pub no_scan: bool,
    pub order: Option<Seq<Seq<char>>>,
    pub entries: Seq<EntryView>,
    pub keybinds: Keybinds,
}

pub open spec fn opt_string_view(o: Option<String>) -> Option<Seq<char>> {
    match o {
        Some(s) => Some(s@),
        None => None,
    }
}

pub open spec fn opt_strings_view(o: Option<Vec<String>>) -> Option<Seq<Seq<char>>> {
    match o {
        Some(v) => Some(strings_view(v@)),
        None => None,
    }
}

pub open spec fn entries_view(v: Seq<Entry>) -> Seq<EntryView> {
    v.map_values(|e: Entry| e@)
}

pub open spec fn opt_entry_view(o: Option<Entry>) -> Option<EntryView> {
    match o {
        Some(e) => Some(e@),
        None => None,
    }
}

impl View for Entry {
    type V = EntryView;

    open spec fn view(&self) -> EntryView {
        EntryView {
            name: self.name@,
            title: self.title@,
            efi_path: self.efi_path@,
            options: opt_string_view(self.options),
            initrd: strings_view(self.initrd@),
            boot_counter: self.boot_counter,
            source_path: opt_string_view(self.source_path),
        }
    }
}

impl View for Config {
    type V = ConfigView;

    open spec fn view(&self) -> ConfigView {
        ConfigView {
            default: opt_string_view(self.default),
            timeout: self.timeout,
            no_scan: self.no_scan,
            order: opt_strings_view(self.order),
            entries: entries_view(self.entries@),
            keybinds: self.keybinds,
        }
    }
}

/// `m`, `f`, `r`, `s` and `b`.
pub open spec fn default_keybinds() -> Keybinds {
    Keybinds { manual: 'm', firmware: 'f', reboot: 'r', shutdown: 's', backup: 'b' }
}

impl Default for Keybinds {
    fn default() -> (r: Self)
        ensures
            r == default_keybinds(),
    {
        Keybinds { manual: 'm', firmware: 'f', reboot: 'r', shutdown: 's', backup: 'b' }
    }
}

// ---------------------------------------------------------------------------
// The language, as spec functions
// ---------------------------------------------------------------------------

pub open spec fn key_title() -> Seq<char> {
    seq!['t', 'i', 't', 'l', 'e']
}

pub open spec fn key_efi() -> Seq<char> {
    seq!['e', 'f', 'i']
}

pub open spec fn key_options() -> Seq<char> {
    seq!['o', 'p', 't', 'i', 'o', 'n', 's']
}

pub open spec fn key_initrd() -> Seq<char> {
    seq!['i', 'n', 'i', 't', 'r', 'd']
}

pub open spec fn key_linux() -> Seq<char> {
    seq!['l', 'i', 'n', 'u', 'x']
}

pub open spec fn key_default() -> Seq<char> {
    seq!['d', 'e', 'f', 'a', 'u', 'l', 't']
}

pub open spec fn key_timeout() -> Seq<char> {
    seq!['t', 'i', 'm', 'e', 'o', 'u', 't']
}

pub open spec fn key_no_scan() -> Seq<char> {
    seq!['n', 'o', '_', 's', 'c', 'a', 'n']
}

pub open spec fn key_scan() -> Seq<char> {
    seq!['s', 'c', 'a', 'n']
}

pub open spec fn key_order() -> Seq<char> {
    seq!['o', 'r', 'd', 'e', 'r']
}

pub open spec fn key_manual() -> Seq<char> {
    seq!['k', 'e', 'y', '_', 'm', 'a', 'n', 'u', 'a', 'l']
}

pub open spec fn key_firmware() -> Seq<char> {
    seq!['k', 'e', 'y', '_', 'f', 'i', 'r', 'm', 'w', 'a', 'r', 'e']
}

pub open spec fn key_reboot() -> Seq<char> {
    seq!['k', 'e', 'y', '_', 'r', 'e', 'b', 'o', 'o', 't']
}

pub open spec fn key_shutdown() -> Seq<char> {
    seq!['k', 'e', 'y', '_', 's', 'h', 'u', 't', 'd', 'o', 'w', 'n']
}

pub open spec fn key_backup() -> Seq<char> {
    seq!['k', 'e', 'y', '_', 'b', 'a', 'c', 'k', 'u', 'p']
}

/// An entry with only a name.
pub open spec fn blank_entry(name: Seq<char>) -> EntryView {
    EntryView {
        name,
        title: Seq::empty(),
        efi_path: Seq::empty(),
        options: None,
        initrd: Seq::empty(),
        boot_counter: None,
        source_path: None,
    }
}

/// An empty value stands for no value.
pub open spec fn non_empty(v: Seq<char>) -> Option<Seq<char>> {
    if v.len() == 0 {
        None
    } else {
        Some(v)
    }
}

/// A line that is blank or a `#` comment.
pub open spec fn is_skipped(t: Seq<char>) -> bool {
    t.len() == 0 || t[0] == '#'
}

/// The value part of a line: trimmed, then stripped of surrounding quotes.
pub open spec fn line_value(rest: Seq<char>) -> Seq<char> {
    spec_trim_char(spec_trim(rest), '"')
}

/// `key = value` inside an entry, in an entry file or in a section of the
/// main file.
pub open spec fn entry_set(e: EntryView, key: Seq<char>, value: Seq<char>) -> EntryView {
    if key == key_title() {
        EntryView { title: value, ..e }
    } else if key == key_efi() {
        EntryView { efi_path: value, ..e }
    } else if key == key_options() {
        EntryView { options: non_empty(value), ..e }
    } else if key == key_initrd() {
        if value.len() > 0 {
            EntryView { initrd: e.initrd.push(value), ..e }
        } else {
            e
        }
    } else {
        e
    }
}

/// `key value` in a Boot Loader Specification entry.
pub open spec fn bls_set(e: EntryView, key: Seq<char>, value: Seq<char>) -> EntryView {
    if key == key_title() {
        EntryView { title: value, ..e }
    } else if key == key_linux() {
        EntryView { efi_path: value, ..e }
    } else if key == key_initrd() {
        if value.len() > 0 {
            EntryView { initrd: e.initrd.push(value), ..e }
        } else {
            e
        }
    } else if key == key_options() {
        EntryView { options: non_empty(value), ..e }
    } else if key == key_efi() {
        EntryView { efi_path: value, ..e }
    } else {
        e
    }
}

pub open spec fn entry_file_line(e: EntryView, line: Seq<char>) -> EntryView {
    let t = spec_trim(line);
    if is_skipped(t) {
        e
    } else {
        match index_of(t, '=') {
            Some(eq) => entry_set(e, spec_trim(t.take(eq)), line_value(t.skip(eq + 1))),
            None => e,
        }
    }
}

pub open spec fn entry_file_lines(e: EntryView, lines: Seq<Seq<char>>) -> EntryView
    decreases lines.len(),
{
    if lines.len() == 0 {
        e
    } else {
        entry_file_line(entry_file_lines(e, lines.drop_last()), lines.last())
    }
}

/// The entry that an entry file's text describes.
pub open spec fn entry_file_text(name: Seq<char>, text: Seq<char>) -> EntryView {
    entry_file_lines(blank_entry(name), split_lines(text))
}

pub open spec fn bls_line(e: EntryView, line: Seq<char>) -> EntryView {
    let t = spec_trim(line);
    if is_skipped(t) {
        e
    } else {
        match index_of_ws(t) {
            Some(ws) => bls_set(e, spec_trim(t.take(ws)), line_value(t.skip(ws + 1))),
            None => e,
        }
    }
}

pub open spec fn bls_lines(e: EntryView, lines: Seq<Seq<char>>) -> EntryView
    decreases lines.len(),
{
    if lines.len() == 0 {
        e
    } else {
        bls_line(bls_lines(e, lines.drop_last()), lines.last())
    }
}

/// The entry that a Boot Loader Specification file's text describes.
pub open spec fn bls_text(name: Seq<char>, text: Seq<char>) -> EntryView {
    bls_lines(blank_entry(name), split_lines(text))
}

/// A BLS line whose key ends at a white-space character outside ASCII: the
/// value would start inside that character's UTF-8 encoding, which
/// `parse_bls_entry` cannot slice.
pub open spec fn bls_line_unsliceable(line: Seq<char>) -> bool {
    let t = spec_trim(line);
    &&& !is_skipped(t)
    &&& match index_of_ws(t) {
        Some(ws) => (t[ws] as u32) >= 0x80,
        None => false,
    }
}

/// Every line of the text can be split into key and value.
pub open spec fn bls_sliceable(text: Seq<char>) -> bool {
    forall|i: int|
        0 <= i < split_lines(text).len() ==> !bls_line_unsliceable(#[trigger] split_lines(text)[i])
}

/// The defaults of the main file.
pub open spec fn initial_config() -> ConfigView {
    ConfigView {
        default: None,
        timeout: 5,
        no_scan: false,
        order: None,
        entries: Seq::empty(),
        keybinds: default_keybinds(),
    }
}

/// The section in progress, if any, added to the entries.
pub open spec fn flush(c: ConfigView, cur: Option<EntryView>) -> ConfigView {
    match cur {
        Some(e) => ConfigView { entries: c.entries.push(e), ..c },
        None => c,
    }
}

/// The first character of a value, if any, replaces a key binding.
pub open spec fn first_char_or(v: Seq<char>, current: char) -> char {
    if v.len() > 0 {
        v[0]
    } else {
        current
    }
}

/// `key = value` outside any section of the main file.
pub open spec fn global_set(c: ConfigView, key: Seq<char>, value: Seq<char>) -> Result<
    ConfigView,
    &'static str,
> {
    let kb = c.keybinds;
    if key == key_default() {
        Ok(ConfigView { default: Some(value), ..c })
    } else if key == key_timeout() {
        match spec_parse_u64(value) {
            Some(n) => Ok(ConfigView { timeout: n, ..c }),
            None => Err("invalid timeout"),
        }
    } else if key == key_no_scan() {
        Ok(ConfigView { no_scan: spec_is_truthy(value), ..c })
    } else if key == key_scan() {
        Ok(ConfigView { no_scan: !spec_is_truthy(value), ..c })
    } else if key == key_order() {
        Ok(ConfigView { order: Some(split_words(value)), ..c })
    } else if key == key_manual() {
        Ok(ConfigView { keybinds: Keybinds { manual: first_char_or(value, kb.manual), ..kb }, ..c })
    } else if key == key_firmware() {
        Ok(
            ConfigView {
                keybinds: Keybinds { firmware: first_char_or(value, kb.firmware), ..kb },
                ..c
            },
        )
    } else if key == key_reboot() {
        Ok(ConfigView { keybinds: Keybinds { reboot: first_char_or(value, kb.reboot), ..kb }, ..c })
    } else if key == key_shutdown() {
        Ok(
            ConfigView {
                keybinds: Keybinds { shutdown: first_char_or(value, kb.shutdown), ..kb },
                ..c
            },
        )
    } else if key == key_backup() {
        Ok(ConfigView { keybinds: Keybinds { backup: first_char_or(value, kb.backup), ..kb }, ..c })
    } else {
        Ok(c)
    }
}

/// One line of the main file.
pub open spec fn config_line(st: (ConfigView, Option<EntryView>), line: Seq<char>) -> Result<
    (ConfigView, Option<EntryView>),
    &'static str,
> {
    let (c, cur) = st;
    let t = spec_trim(line);
    if is_skipped(t) {
        Ok(st)
    } else if t[0] == '[' {
        match index_of(t, ']') {
            None => Err("unclosed section"),
            Some(end) => {
                let name = spec_trim(t.subrange(1, end));
                if name.len() == 0 {
                    Err("empty section name")
                } else {
                    Ok((flush(c, cur), Some(blank_entry(name))))
                }
            },
        }
    } else {
        match index_of(t, '=') {
            None => Ok(st),
            Some(eq) => {
                let key = spec_trim(t.take(eq));
                let value = line_value(t.skip(eq + 1));
                match cur {
                    Some(e) => Ok((c, Some(entry_set(e, key, value)))),
                    None => match global_set(c, key, value) {
                        Ok(c2) => Ok((c2, None)),
                        Err(m) => Err(m),
                    },
                }
            },
        }
    }
}

/// The lines of the main file in order; the first error ends the parse.
pub open spec fn config_lines(lines: Seq<Seq<char>>) -> Result<
    (ConfigView, Option<EntryView>),
    &'static str,
>
    decreases lines.len(),
{
    if lines.len() == 0 {
        Ok((initial_config(), None))
    } else {
        match config_lines(lines.drop_last()) {
            Ok(st) => config_line(st, lines.last()),
            Err(m) => Err(m),
        }
    }
}

/// The configuration that the main file's text describes.
pub open spec fn config_text(text: Seq<char>) -> Result<ConfigView, &'static str> {
    match config_lines(split_lines(text)) {
        Ok((c, cur)) => Ok(flush(c, cur)),
        Err(m) => Err(m),
    }
}


// ---------------------------------------------------------------------------
// Lines
// ---------------------------------------------------------------------------

/// The key before position `at` and the value after it, of a trimmed line.
fn split_key_value(t: &[char], at: usize) -> (r: (&[char], &[char]))
    requires
        at < t@.len(),
    ensures
        r.0@ == spec_trim(t@.take(at as int)),
        r.1@ == line_value(t@.skip(at + 1)),
{
    let key = trim(&t[0..at]);
    let n = t.len();
    assert(at < n);
    let after: usize = at + 1;
    let rest = trim(&t[after..n]);
    let value = trim_char(rest, '"');
    assert(t@.subrange(0, at as int) =~= t@.take(at as int));
    assert(t@.subrange(at + 1, t@.len() as int) =~= t@.skip(at + 1));
    (key, value)
}

/// Whether a trimmed line is blank or a comment.
fn skipped(t: &[char]) -> (r: bool)
    ensures
        r == is_skipped(t@),
{
    t.len() == 0 || t[0] == '#'
}

fn key_is(key: &[char], word: &[char]) -> (r: bool)
    ensures
        r == (key@ == word@),
{
    chars_eq(key, word)
}

impl Entry {
    /// An entry with only a name.
    fn blank(name: String) -> (r: Entry)
        ensures
            r@ == blank_entry(name@),
    {
        let r = Entry {
            name,
            title: String::new(),
            efi_path: String::new(),
            options: None,
            initrd: Vec::new(),
            boot_counter: None,
            source_path: None,
        };
        assert(strings_view(r.initrd@) =~= Seq::<Seq<char>>::empty());
        r
    }

    /// Records `value` under `key`, as `entry_set` (or `bls_set`) says.
    fn set_key(&mut self, key: &[char], value: &[char], bls: bool)
        ensures
            !bls ==> final(self)@ == entry_set(old(self)@, key@, value@),
            bls ==> final(self)@ == bls_set(old(self)@, key@, value@),
    {
        let title = ['t', 'i', 't', 'l', 'e'];
        let efi = ['e', 'f', 'i'];
        let options = ['o', 'p', 't', 'i', 'o', 'n', 's'];
        let initrd = ['i', 'n', 'i', 't', 'r', 'd'];
        let linux = ['l', 'i', 'n', 'u', 'x'];
        assert(title@ =~= key_title());
        assert(efi@ =~= key_efi());
        assert(options@ =~= key_options());
        assert(initrd@ =~= key_initrd());
        assert(linux@ =~= key_linux());
        if key_is(key, &title) {
            self.title = string_from(value);
        } else if key_is(key, &efi) || (bls && key_is(key, &linux)) {
            self.efi_path = string_from(value);
        } else if key_is(key, &options) {
            self.options = if value.len() == 0 {
                None
            } else {
                Some(string_from(value))
            };
        } else if key_is(key, &initrd) {
            if value.len() > 0 {
                let ghost prev = strings_view(self.initrd@);
                let v = string_from(value);
                self.initrd.push(v);
                assert(strings_view(self.initrd@) =~= prev.push(value@));
            }
        }
    }

    /// One line of an entry file (`bls == false`) or of a BLS entry.
    fn apply_line(&mut self, line: &[char], bls: bool)
        requires
            bls ==> !bls_line_unsliceable(line@),
        ensures
            !bls ==> final(self)@ == entry_file_line(old(self)@, line@),
            bls ==> final(self)@ == bls_line(old(self)@, line@),
    {
        let t = trim(line);
        if skipped(t) {
            return ;
        }
        let sep = if bls {
            find_whitespace(t)
        } else {
            find_char(t, '=')
        };
        match sep {
            Some(at) => {
                proof {
                    if bls {
                        crate::text::lemma_index_of_ws(t@);
                    } else {
                        crate::text::lemma_index_of(t@, '=');
                    }
                }
                let (key, value) = split_key_value(t, at);
                self.set_key(key, value, bls);
            },
            None => {},
        }
    }

    /// The entry described by decoded text, line by line.
    fn from_text(name: String, t: &[char], bls: bool) -> (r: Entry)
        requires
            bls ==> bls_sliceable(t@),
        ensures
            !bls ==> r@ == entry_file_text(name@, t@),
            bls ==> r@ == bls_text(name@, t@),
    {
        let ghost name_view = name@;
        let mut e = Entry::blank(name);
        let n = t.len();
        let mut start: usize = 0;
        let mut i: usize = 0;
        let ghost mut done: Seq<Seq<char>> = Seq::empty();
        assert(t@.take(0) =~= Seq::<char>::empty());
        assert(split_lines(t@.take(0)) =~= done.push(t@.subrange(0, 0)));
        proof {
            crate::text::lemma_split_lines_nonempty(t@);
        }
        while i < n
            invariant
                n == t@.len(),
                0 <= start <= i <= n,
                split_lines(t@.take(i as int)) == done.push(t@.subrange(start as int, i as int)),
                !bls ==> e@ == entry_file_lines(blank_entry(name_view), done),
                bls ==> e@ == bls_lines(blank_entry(name_view), done),
                bls ==> bls_sliceable(t@),
                forall|k: int| 0 <= k < done.len() ==> split_lines(t@)[k] == #[trigger] done[k],
                done.len() < split_lines(t@).len(),
            decreases n - i,
        {
            proof {
                lemma_split_lines_step(t@, i as int, start as int, done);
            }
            if t[i] == '\n' {
                let ghost line = t@.subrange(start as int, i as int);
                proof {
                    lemma_split_lines_prefix(t@, i + 1);
                    assert(done.push(line)[done.len() as int] == line);
                    assert(split_lines(t@)[done.len() as int] == line);
                }
                e.apply_line(&t[start..i], bls);
                proof {
                    assert(done.push(line).drop_last() =~= done);
                    done = done.push(line);
                }
                start = i + 1;
            }
            i = i + 1;
        }
        proof {
            assert(t@.take(n as int) =~= t@);
            assert(split_lines(t@)[done.len() as int] == t@.subrange(start as int, n as int));
        }
        e.apply_line(&t[start..n], bls);
        proof {
            let line = t@.subrange(start as int, n as int);
            assert(done.push(line).drop_last() =~= done);
        }
        e
    }
}

/// The lines finished before position `k` are the first lines of the text.
proof fn lemma_split_lines_prefix(t: Seq<char>, k: int)
    requires
        0 <= k <= t.len(),
    ensures
        split_lines(t.take(k)).len() <= split_lines(t).len(),
        forall|j: int|
            0 <= j < split_lines(t.take(k)).len() - 1 ==> #[trigger] split_lines(t)[j] == split_lines(
                t.take(k),
            )[j],
    decreases t.len() - k,
{
    crate::text::lemma_split_lines_nonempty(t.take(k));
    if k == t.len() {
        assert(t.take(k) =~= t);
    } else {
        lemma_split_lines_prefix(t, k + 1);
        assert(t.take(k + 1).drop_last() =~= t.take(k));
    }
}

impl Config {
    /// Parses an entry file (`entries/<name>.conf`): `key = value` lines for
    /// `title`, `efi`, `options` and `initrd`; other keys, blank lines and
    /// `#` comments are ignored.
    pub fn parse_entry_file(name: &str, data: &[u8]) -> (r: Result<Entry, &'static str>)
        ensures
            !valid_utf8(data@) ==> r == Err::<Entry, &'static str>("entry file not valid UTF-8"),
            valid_utf8(data@) ==> {
                let e = entry_file_text(name@, decode_utf8(data@));
                if e.efi_path.len() == 0 {
                    r == Err::<Entry, &'static str>("entry file has no efi = path")
                } else {
                    r matches Ok(got) && got@ == e
                }
            },
    {
        let text = match decode_utf8_chars(data) {
            Some(t) => t,
            None => return Err("entry file not valid UTF-8"),
        };
        let entry = Entry::from_text(name.to_owned(), text.as_slice(), false);
        if entry.efi_path.as_str().is_empty() {
            return Err("entry file has no efi = path");
        }
        Ok(entry)
    }

    /// Parses a Boot Loader Specification entry: `key value` lines for
    /// `title`, `linux` (or `efi`), `initrd` and `options`.
    pub fn parse_bls_entry(filename: &str, data: &[u8]) -> (r: Result<Entry, &'static str>)
        requires
            valid_utf8(data@) ==> bls_sliceable(decode_utf8(data@)),
        ensures
            !valid_utf8(data@) ==> r == Err::<Entry, &'static str>("BLS entry not valid UTF-8"),
            valid_utf8(data@) ==> {
                let e = bls_text(filename@, decode_utf8(data@));
                if e.efi_path.len() == 0 {
                    r == Err::<Entry, &'static str>("BLS entry has no linux= or efi= path")
                } else {
                    r matches Ok(got) && got@ == e
                }
            },
    {
        let text = match decode_utf8_chars(data) {
            Some(t) => t,
            None => return Err("BLS entry not valid UTF-8"),
        };
        let entry = Entry::from_text(filename.to_owned(), text.as_slice(), true);
        if entry.efi_path.as_str().is_empty() {
            return Err("BLS entry has no linux= or efi= path");
        }
        Ok(entry)
    }
}


impl Config {
    /// The defaults of the main file.
    fn initial() -> (r: Config)
        ensures
            r@ == initial_config(),
    {
        let r = Config {
            default: None,
            timeout: 5,
            no_scan: false,
            order: None,
            entries: Vec::new(),
            keybinds: Keybinds::default(),
        };
        assert(entries_view(r.entries@) =~= Seq::<EntryView>::empty());
        r
    }

    /// Adds the section in progress, if any, to the entries.
    fn flush(&mut self, cur: &mut Option<Entry>)
        ensures
            final(self)@ == flush(old(self)@, opt_entry_view(*old(cur))),
            *final(cur) is None,
    {
        if let Some(e) = cur.take() {
            let ghost prev = entries_view(self.entries@);
            self.entries.push(e);
            assert(entries_view(self.entries@) =~= prev.push(e@));
        }
    }

    /// `key = value` outside any section.
    fn set_global(&mut self, key: &[char], value: &[char]) -> (r: Result<(), &'static str>)
        ensures
            match global_set(old(self)@, key@, value@) {
                Ok(c) => r is Ok && final(self)@ == c,
                Err(m) => r == Err::<(), &'static str>(m),
            },
    {
        let default = ['d', 'e', 'f', 'a', 'u', 'l', 't'];
        let timeout = ['t', 'i', 'm', 'e', 'o', 'u', 't'];
        let no_scan = ['n', 'o', '_', 's', 'c', 'a', 'n'];
        let scan = ['s', 'c', 'a', 'n'];
        let order = ['o', 'r', 'd', 'e', 'r'];
        let manual = ['k', 'e', 'y', '_', 'm', 'a', 'n', 'u', 'a', 'l'];
        let firmware = ['k', 'e', 'y', '_', 'f', 'i', 'r', 'm', 'w', 'a', 'r', 'e'];
        let reboot = ['k', 'e', 'y', '_', 'r', 'e', 'b', 'o', 'o', 't'];
        let shutdown = ['k', 'e', 'y', '_', 's', 'h', 'u', 't', 'd', 'o', 'w', 'n'];
        let backup = ['k', 'e', 'y', '_', 'b', 'a', 'c', 'k', 'u', 'p'];
        assert(default@ =~= key_default());
        assert(timeout@ =~= key_timeout());
        assert(no_scan@ =~= key_no_scan());
        assert(scan@ =~= key_scan());
        assert(order@ =~= key_order());
        assert(manual@ =~= key_manual());
        assert(firmware@ =~= key_firmware());
        assert(reboot@ =~= key_reboot());
        assert(shutdown@ =~= key_shutdown());
        assert(backup@ =~= key_backup());
        if key_is(key, &default) {
            self.default = Some(string_from(value));
        } else if key_is(key, &timeout) {
            match parse_u64(value) {
                Some(n) => {
                    self.timeout = n;
                },
                None => {
                    return Err("invalid timeout");
                },
            }
        } else if key_is(key, &no_scan) {
            self.no_scan = is_truthy(value);
        } else if key_is(key, &scan) {
            self.no_scan = !is_truthy(value);
        } else if key_is(key, &order) {
            self.order = Some(split_whitespace(value));
        } else if key_is(key, &manual) {
            if value.len() > 0 {
                self.keybinds.manual = value[0];
            }
        } else if key_is(key, &firmware) {
            if value.len() > 0 {
                self.keybinds.firmware = value[0];
            }
        } else if key_is(key, &reboot) {
            if value.len() > 0 {
                self.keybinds.reboot = value[0];
            }
        } else if key_is(key, &shutdown) {
            if value.len() > 0 {
                self.keybinds.shutdown = value[0];
            }
        } else if key_is(key, &backup) {
            if value.len() > 0 {
                self.keybinds.backup = value[0];
            }
        }
        Ok(())
    }

    /// One line of the main file.
    fn apply_line(&mut self, cur: &mut Option<Entry>, line: &[char]) -> (r: Result<
        (),
        &'static str,
    >)
        ensures
            match config_line((old(self)@, opt_entry_view(*old(cur))), line@) {
                Ok((c, e)) => r is Ok && final(self)@ == c && opt_entry_view(*final(cur)) == e,
                Err(m) => r == Err::<(), &'static str>(m),
            },
    {
        let t = trim(line);
        if skipped(t) {
            return Ok(());
        }
        if t[0] == '[' {
            match find_char(t, ']') {
                None => {
                    return Err("unclosed section");
                },
                Some(end) => {
                    proof {
                        crate::text::lemma_index_of(t@, ']');
                    }
                    let name = trim(&t[1..end]);
                    if name.len() == 0 {
                        return Err("empty section name");
                    }
                    self.flush(cur);
                    *cur = Some(Entry::blank(string_from(name)));
                    return Ok(());
                },
            }
        }
        match find_char(t, '=') {
            None => Ok(()),
            Some(at) => {
                proof {
                    crate::text::lemma_index_of(t@, '=');
                }
                let (key, value) = split_key_value(t, at);
                match cur {
                    Some(e) => {
                        e.set_key(key, value, false);
                        Ok(())
                    },
                    None => self.set_global(key, value),
                }
            },
        }
    }

    /// The configuration described by decoded text, line by line.
    fn from_text(t: &[char]) -> (r: Result<Config, &'static str>)
        ensures
            match config_text(t@) {
                Ok(c) => r matches Ok(got) && got@ == c,
                Err(m) => r matches Err(e) && e == m,
            },
    {
        let mut config = Config::initial();
        let mut cur: Option<Entry> = None;
        let mut failed: Option<&'static str> = None;
        let n = t.len();
        let mut start: usize = 0;
        let mut i: usize = 0;
        let ghost mut done: Seq<Seq<char>> = Seq::empty();
        assert(t@.take(0) =~= Seq::<char>::empty());
        assert(split_lines(t@.take(0)) =~= done.push(t@.subrange(0, 0)));
        while i < n
            invariant
                n == t@.len(),
                0 <= start <= i <= n,
                split_lines(t@.take(i as int)) == done.push(t@.subrange(start as int, i as int)),
                match failed {
                    Some(m) => config_lines(done) == Err::<(ConfigView, Option<EntryView>), &'static str>(m),
                    None => config_lines(done) == Ok::<(ConfigView, Option<EntryView>), &'static str>((config@, opt_entry_view(cur))),
                },
            decreases n - i,
        {
            proof {
                lemma_split_lines_step(t@, i as int, start as int, done);
            }
            if t[i] == '\n' {
                let ghost line = t@.subrange(start as int, i as int);
                if failed.is_none() {
                    match config.apply_line(&mut cur, &t[start..i]) {
                        Ok(()) => {},
                        Err(m) => {
                            failed = Some(m);
                        },
                    }
                }
                proof {
                    assert(done.push(line).drop_last() =~= done);
                    done = done.push(line);
                }
                start = i + 1;
            }
            i = i + 1;
        }
        assert(t@.take(n as int) =~= t@);
        let ghost line = t@.subrange(start as int, n as int);
        assert(done.push(line).drop_last() =~= done);
        if let Some(m) = failed {
            return Err(m);
        }
        match config.apply_line(&mut cur, &t[start..n]) {
            Ok(()) => {},
            Err(m) => {
                return Err(m);
            },
        }
        config.flush(&mut cur);
        Ok(config)
    }

    /// Parses the main configuration file.
    ///
    /// Before any `[section]` line, `key = value` lines set the global
    /// settings (`default`, `timeout`, `no_scan`, `scan`, `order` and the
    /// `key_*` bindings); a `[name]` line starts an entry, whose lines then
    /// set `title`, `efi`, `options` and `initrd`. Blank lines and `#`
    /// comments are ignored, values lose surrounding quotes, later lines
    /// override earlier ones, and unknown keys are ignored.
    pub fn parse(data: &[u8]) -> (r: Result<Self, &'static str>)
        ensures
            !valid_utf8(data@) ==> r == Err::<Config, &'static str>("config not valid UTF-8"),
            valid_utf8(data@) ==> match config_text(decode_utf8(data@)) {
                Ok(c) => r matches Ok(got) && got@ == c,
                Err(m) => r matches Err(e) && e == m,
            },
    {
        let text = match decode_utf8_chars(data) {
            Some(t) => t,
            None => return Err("config not valid UTF-8"),
        };
        Config::from_text(text.as_slice())
    }
}

// ---------------------------------------------------------------------------
// Scanning switched by `scan` and `no_scan`
// ---------------------------------------------------------------------------

/// A value that switches something on: `true`, `yes` or `1`, in any ASCII
/// case.
pub open spec fn switched_on(v: Seq<char>) -> bool {
    let l = v.map_values(|c: char| crate::text::spec_ascii_lower(c));
    l == seq!['t', 'r', 'u', 'e'] || l == seq!['y', 'e', 's'] || l == seq!['1']
}

/// Outside any section, `scan = v` and `no_scan = v` are opposites: both
/// keep every other setting, `no_scan = v` turns scanning off exactly when
/// `v` switches on, and `scan = v` exactly when it does not; so `scan =
/// false`, `no` or `0` turns scanning off.
pub proof fn law_scan_is_opposite_of_no_scan(c: ConfigView, v: Seq<char>)
    ensures
        global_set(c, key_no_scan(), v) == Ok::<ConfigView, &'static str>(
            ConfigView { no_scan: switched_on(v), ..c },
        ),
        global_set(c, key_scan(), v) == Ok::<ConfigView, &'static str>(
            ConfigView { no_scan: !switched_on(v), ..c },
        ),
        (v == seq!['f', 'a', 'l', 's', 'e'] || v == seq!['n', 'o'] || v == seq!['0']) ==> global_set(
            c,
            key_scan(),
            v,
        )->Ok_0.no_scan,
{
    assert(key_scan() != key_default() && key_scan() != key_timeout() && key_scan() != key_no_scan()) by {
        assert(key_scan().len() != key_default().len());
        assert(key_scan().len() != key_timeout().len());
        assert(key_scan().len() != key_no_scan().len());
    }
    assert(key_no_scan() != key_default() && key_no_scan() != key_timeout()) by {
        assert(key_no_scan()[0] != key_default()[0]);
        assert(key_no_scan()[0] != key_timeout()[0]);
    }
    let l = v.map_values(|c: char| crate::text::spec_ascii_lower(c));
    if v == seq!['f', 'a', 'l', 's', 'e'] || v == seq!['n', 'o'] || v == seq!['0'] {
        assert(l[0] == crate::text::spec_ascii_lower(v[0]));
        assert(l.len() == v.len());
        assert(l != seq!['t', 'r', 'u', 'e'] && l != seq!['y', 'e', 's'] && l != seq!['1']) by {
            if l.len() == 4 {
                assert(l[0] != seq!['t', 'r', 'u', 'e'][0]);
            }
            if l.len() == 3 {
                assert(l[0] != seq!['y', 'e', 's'][0]);
            }
            if l.len() == 1 {
                assert(l[0] != seq!['1'][0]);
            }
        }
    }
}

/// The one-line main file `key = v`.
pub open spec fn setting_line(key: Seq<char>, v: Seq<char>) -> Seq<char> {
    key + seq![' ', '=', ' '] + v
}

/// A word: not empty, without white space.
pub open spec fn bare_word(w: Seq<char>) -> bool {
    w.len() > 0 && forall|i: int| 0 <= i < w.len() ==> !spec_is_whitespace(#[trigger] w[i])
}

proof fn lemma_one_line(t: Seq<char>)
    requires
        forall|i: int| 0 <= i < t.len() ==> #[trigger] t[i] != '\n',
    ensures
        split_lines(t) == seq![t],
    decreases t.len(),
{
    if t.len() > 0 {
        lemma_one_line(t.drop_last());
        assert(t.drop_last().push(t.last()) =~= t);
        assert(seq![t.drop_last()].update(0, t.drop_last().push(t.last())) =~= seq![t]);
    } else {
        assert(t =~= Seq::<char>::empty());
    }
}

/// A main file of the one line `key = v` sets what `global_set` says.
proof fn lemma_setting_line(key: Seq<char>, v: Seq<char>)
    requires
        bare_word(key),
        bare_word(v),
        forall|i: int| 0 <= i < key.len() ==> #[trigger] key[i] != '=',
        key[0] != '#',
        key[0] != '[',
        v[0] != '"',
        v.last() != '"',
    ensures
        config_text(setting_line(key, v)) == match global_set(initial_config(), key, v) {
            Ok(c) => Ok::<ConfigView, &'static str>(c),
            Err(m) => Err(m),
        },
{
    let t = setting_line(key, v);
    let n = key.len() as int;
    assert(spec_is_whitespace(' '));
    assert(!spec_is_whitespace('='));
    assert forall|i: int| 0 <= i < t.len() implies #[trigger] t[i] != '\n' by {
        assert(spec_is_whitespace('\n'));
        if i < n {
            assert(t[i] == key[i]);
        } else if i >= n + 3 {
            assert(t[i] == v[i - n - 3]);
        }
    }
    lemma_one_line(t);
    assert(config_lines(seq![t]) == config_line((initial_config(), None), t)) by {
        assert(seq![t].drop_last() =~= Seq::<Seq<char>>::empty());
        assert(config_lines(Seq::<Seq<char>>::empty()) == Ok::<(ConfigView, Option<EntryView>), &'static str>((initial_config(), None)));
        assert(seq![t].last() == t);
    }
    assert(t[0] == key[0]);
    assert(trim_start_ws(t) == t);
    assert(t.last() == v.last());
    assert(trim_end_ws(t) == t);
    assert(spec_trim(t) == t);
    lemma_index_of(t, '=');
    assert(t[n + 1] == '=');
    assert forall|i: int| 0 <= i < n implies t[i] != '=' by {
        assert(t[i] == key[i]);
    }
    assert(index_of(t, '=') == Some(n + 1));
    // The key.
    let kp = t.take(n + 1);
    assert(kp =~= key.push(' '));
    assert(trim_start_ws(kp) == kp);
    assert(kp.drop_last() =~= key);
    assert(trim_end_ws(key) == key);
    assert(trim_end_ws(kp) == key);
    assert(spec_trim(kp) == key);
    // The value.
    let vp = t.skip(n + 2);
    assert(vp =~= seq![' '] + v);
    assert(vp.drop_first() =~= v);
    assert(trim_start_ws(v) == v);
    assert(trim_start_ws(vp) == v);
    assert(trim_end_ws(v) == v);
    assert(spec_trim(vp) == v);
    assert(trim_start_char(v, '"') == v);
    assert(trim_end_char(v, '"') == v);
    assert(line_value(vp) == v);
    assert(!is_skipped(t));
}

/// A main file whose only line is `scan = v` turns scanning off exactly
/// when `no_scan = v` would turn it on, and otherwise leaves the defaults;
/// `scan = false`, `no` or `0` turns scanning off.
pub proof fn law_scan_line_turns_scanning_off(v: Seq<char>)
    requires
        bare_word(v),
        v[0] != '"',
        v.last() != '"',
    ensures
        config_text(setting_line(key_scan(), v)) == Ok::<ConfigView, &'static str>(
            ConfigView { no_scan: !switched_on(v), ..initial_config() },
        ),
        config_text(setting_line(key_no_scan(), v)) == Ok::<ConfigView, &'static str>(
            ConfigView { no_scan: switched_on(v), ..initial_config() },
        ),
        (v == seq!['f', 'a', 'l', 's', 'e'] || v == seq!['n', 'o'] || v == seq!['0']) ==> config_text(
            setting_line(key_scan(), v),
        )->Ok_0.no_scan,
{
    law_scan_is_opposite_of_no_scan(initial_config(), v);
    assert(bare_word(key_scan()));
    assert(bare_word(key_no_scan()));
    lemma_setting_line(key_scan(), v);
    lemma_setting_line(key_no_scan(), v);
}

} // verus!
