//! What the management tool decides: the kernel options it writes into
//! generated entries, the names and contents of entry files, which file an
//! entry name refers to, boot counters in file names, the rewrite of the
//! `default` line, and the configuration it generates from what it finds on
//! the boot partition.
use vstd::prelude::*;
use crate::config::{
    EntryView, blank_entry, entry_file_line, entry_file_lines, key_efi, key_initrd, key_options,
    key_title,
};
use crate::detect::{
    dot_efi, dot_efi_upper, is_efi_name, join_words, lowercase_of, remove_all, remove_all_of,
    str_to_lowercase, title_of_uki, uki_title,
};
use crate::text::{
    spec_is_whitespace, spec_trim, trim_end_char, trim_end_ws, trim_start_char, trim_start_ws,
    all_digits, chars_of, decimal, ends_with, has_prefix, has_suffix, index_of, push_chars,
    push_decimal, push_str, rindex_of, rfind_char, split_lines, split_lines_of, split_whitespace,
    split_words, starts_with, string_from, strings_view, strip_suffix_all, trim_end_matches,
};

verus! {

// ---------------------------------------------------------------------------
// Words
// ---------------------------------------------------------------------------

/// Some word starts with `pre`.
pub open spec fn has_word_with_prefix(ws: Seq<Seq<char>>, pre: Seq<char>) -> bool {
    exists|i: int| 0 <= i < ws.len() && starts_with(#[trigger] ws[i], pre)
}

fn any_word_with_prefix(ws: &Vec<String>, pre: &[char]) -> (r: bool)
    ensures
        r == has_word_with_prefix(strings_view(ws@), pre@),
{
    let ghost v = strings_view(ws@);
    let mut i: usize = 0;
    while i < ws.len()
        invariant
            0 <= i <= ws@.len(),
            v == strings_view(ws@),
            forall|j: int| 0 <= j < i ==> !starts_with(#[trigger] v[j], pre@),
        decreases ws@.len() - i,
    {
        assert(v[i as int] == ws@[i as int]@);
        let cs = chars_of(ws[i].as_str());
        if has_prefix(&cs, pre) {
            return true;
        }
        i = i + 1;
    }
    false
}

fn has_word(ws: &Vec<String>, w: &[char]) -> (r: bool)
    ensures
        r == strings_view(ws@).contains(w@),
{
    let ghost v = strings_view(ws@);
    let mut i: usize = 0;
    while i < ws.len()
        invariant
            0 <= i <= ws@.len(),
            v == strings_view(ws@),
            forall|j: int| 0 <= j < i ==> v[j] != w@,
        decreases ws@.len() - i,
    {
        assert(v[i as int] == ws@[i as int]@);
        let cs = chars_of(ws[i].as_str());
        if crate::text::chars_eq(&cs, w) {
            return true;
        }
        i = i + 1;
    }
    false
}

/// The words joined by single spaces.
pub fn join_with_spaces(ws: &Vec<String>) -> (r: String)
    ensures
        r@ == join_words(strings_view(ws@)),
{
    let ghost v = strings_view(ws@);
    let mut r = String::new();
    let mut i: usize = 0;
    while i < ws.len()
        invariant
            0 <= i <= ws@.len(),
            v == strings_view(ws@),
            r@ == join_words(v.take(i as int)),
        decreases ws@.len() - i,
    {
        assert(v[i as int] == ws@[i as int]@);
        if i > 0 {
            push_chars(&mut r, &[' ']);
        }
        push_str(&mut r, ws[i].as_str());
        assert(v.take(i + 1).drop_last() =~= v.take(i as int));
        if i == 0 {
            assert(r@ =~= join_words(v.take(1)));
        } else {
            assert(r@ =~= join_words(v.take(i as int)) + seq![' '] + v[i as int]);
        }
        i = i + 1;
    }
    assert(v.take(ws@.len() as int) =~= v);
    r
}

// ---------------------------------------------------------------------------
// Kernel options
// ---------------------------------------------------------------------------

pub open spec fn archiso() -> Seq<char> {
    seq!['a', 'r', 'c', 'h', 'i', 's', 'o']
}

pub open spec fn initrd_eq() -> Seq<char> {
    seq!['i', 'n', 'i', 't', 'r', 'd', '=']
}

/// The system runs from an Arch install medium: a word of its command line
/// starts with `archiso`.
pub open spec fn spec_in_live_env(cmdline: Seq<char>) -> bool {
    has_word_with_prefix(split_words(cmdline), archiso())
}

/// Whether the command line is that of an Arch install medium.
pub fn in_live_env(cmdline: &str) -> (r: bool)
    ensures
        r == spec_in_live_env(cmdline@),
{
    let cs = chars_of(cmdline);
    let ws = split_whitespace(&cs);
    let pre = ['a', 'r', 'c', 'h', 'i', 's', 'o'];
    assert(pre@ =~= archiso());
    any_word_with_prefix(&ws, &pre)
}

/// A word that a generated entry keeps from the running command line: not
/// an `initrd=` and not an install medium's `archiso...`.
pub open spec fn kept_option(w: Seq<char>) -> bool {
    !starts_with(w, initrd_eq()) && !starts_with(w, archiso())
}

/// The words among the first `k` that are kept.
pub open spec fn kept_options(ws: Seq<Seq<char>>, k: int) -> Seq<Seq<char>>
    decreases k,
{
    if k <= 0 {
        Seq::empty()
    } else if kept_option(ws[k - 1]) {
        kept_options(ws, k - 1).push(ws[k - 1])
    } else {
        kept_options(ws, k - 1)
    }
}

/// The words among the first `k` other than `w`.
pub open spec fn without_word(ws: Seq<Seq<char>>, w: Seq<char>, k: int) -> Seq<Seq<char>>
    decreases k,
{
    if k <= 0 {
        Seq::empty()
    } else if ws[k - 1] != w {
        without_word(ws, w, k - 1).push(ws[k - 1])
    } else {
        without_word(ws, w, k - 1)
    }
}

/// The word list with `w` added at the end unless it is there.
pub open spec fn with_word(ws: Seq<Seq<char>>, w: Seq<char>) -> Seq<Seq<char>> {
    if ws.contains(w) {
        ws
    } else {
        ws.push(w)
    }
}

pub open spec fn rootwait() -> Seq<char> {
    seq!['r', 'o', 'o', 't', 'w', 'a', 'i', 't']
}

pub open spec fn rw() -> Seq<char> {
    seq!['r', 'w']
}

pub open spec fn panic_eq() -> Seq<char> {
    seq!['p', 'a', 'n', 'i', 'c', '=']
}

pub open spec fn panic_10() -> Seq<char> {
    seq!['p', 'a', 'n', 'i', 'c', '=', '1', '0']
}

pub open spec fn quiet() -> Seq<char> {
    seq!['q', 'u', 'i', 'e', 't']
}

/// The options of a generated Linux entry, word by word: the words of the
/// command line but `initrd=...` and `archiso...`; then `rootwait`, `rw`
/// and `panic=10` where no such word is there yet; without `quiet`.
pub open spec fn linux_option_words(cmdline: Seq<char>) -> Seq<Seq<char>> {
    let ws = split_words(cmdline);
    let w0 = kept_options(ws, ws.len() as int);
    let w1 = with_word(w0, rootwait());
    let w2 = with_word(w1, rw());
    let w3 = if has_word_with_prefix(w2, panic_eq()) {
        w2
    } else {
        w2.push(panic_10())
    };
    without_word(w3, quiet(), w3.len() as int)
}

/// The options of a generated Linux entry, from a command line.
pub open spec fn spec_linux_options_from(cmdline: Seq<char>) -> Seq<char> {
    join_words(linux_option_words(cmdline))
}

fn string_of(cs: &[char]) -> (r: String)
    ensures
        r@ == cs@,
{
    string_from(cs)
}

/// The options of a generated Linux entry, built from a kernel command line.
pub fn build_linux_options_from(cmdline: &str) -> (r: String)
    ensures
        r@ == spec_linux_options_from(cmdline@),
{
    let cs = chars_of(cmdline);
    let ws = split_whitespace(&cs);
    let ghost wv = strings_view(ws@);
    let ini = ['i', 'n', 'i', 't', 'r', 'd', '='];
    let arc = ['a', 'r', 'c', 'h', 'i', 's', 'o'];
    assert(ini@ =~= initrd_eq());
    assert(arc@ =~= archiso());
    let mut kept: Vec<String> = Vec::new();
    let mut i: usize = 0;
    while i < ws.len()
        invariant
            0 <= i <= ws@.len(),
            wv == strings_view(ws@),
            ini@ == initrd_eq(),
            arc@ == archiso(),
            strings_view(kept@) == kept_options(wv, i as int),
        decreases ws@.len() - i,
    {
        assert(wv[i as int] == ws@[i as int]@);
        let w = chars_of(ws[i].as_str());
        if !has_prefix(&w, &ini) && !has_prefix(&w, &arc) {
            let ghost before = strings_view(kept@);
            kept.push(ws[i].clone());
            assert(strings_view(kept@) =~= before.push(wv[i as int]));
        }
        i = i + 1;
    }
    let rwt = ['r', 'o', 'o', 't', 'w', 'a', 'i', 't'];
    assert(rwt@ =~= rootwait());
    if !has_word(&kept, &rwt) {
        let ghost before = strings_view(kept@);
        kept.push(string_of(&rwt));
        assert(strings_view(kept@) =~= before.push(rootwait()));
    }
    let rwo = ['r', 'w'];
    assert(rwo@ =~= rw());
    if !has_word(&kept, &rwo) {
        let ghost before = strings_view(kept@);
        kept.push(string_of(&rwo));
        assert(strings_view(kept@) =~= before.push(rw()));
    }
    let pe = ['p', 'a', 'n', 'i', 'c', '='];
    assert(pe@ =~= panic_eq());
    if !any_word_with_prefix(&kept, &pe) {
        let p10 = ['p', 'a', 'n', 'i', 'c', '=', '1', '0'];
        assert(p10@ =~= panic_10());
        let ghost before = strings_view(kept@);
        kept.push(string_of(&p10));
        assert(strings_view(kept@) =~= before.push(panic_10()));
    }
    let ghost w3 = strings_view(kept@);
    let q = ['q', 'u', 'i', 'e', 't'];
    assert(q@ =~= quiet());
    let mut out: Vec<String> = Vec::new();
    let mut k: usize = 0;
    while k < kept.len()
        invariant
            0 <= k <= kept@.len(),
            w3 == strings_view(kept@),
            q@ == quiet(),
            strings_view(out@) == without_word(w3, quiet(), k as int),
        decreases kept@.len() - k,
    {
        assert(w3[k as int] == kept@[k as int]@);
        let w = chars_of(kept[k].as_str());
        if !crate::text::chars_eq(&w, &q) {
            let ghost before = strings_view(out@);
            out.push(kept[k].clone());
            assert(strings_view(out@) =~= before.push(w3[k as int]));
        }
        k = k + 1;
    }
    join_with_spaces(&out)
}

// ---------------------------------------------------------------------------
// Paths
// ---------------------------------------------------------------------------

/// The boot partition's mount point without trailing slashes.
pub open spec fn boot_root(boot: Seq<char>) -> Seq<char> {
    strip_suffix_all(boot, seq!['/'])
}

pub open spec fn entries_subdir() -> Seq<char> {
    seq!['/', 'E', 'F', 'I', '/', 'n', 'e', 'x', 'e', 'c', '/', 'e', 'n', 't', 'r', 'i', 'e', 's']
}

pub open spec fn install_subdir() -> Seq<char> {
    seq!['/', 'E', 'F', 'I', '/', 'n', 'e', 'x', 'e', 'c']
}

fn boot_root_of(boot: &str) -> (r: String)
    ensures
        r@ == boot_root(boot@),
{
    let cs = chars_of(boot);
    let slash = ['/'];
    assert(slash@ =~= seq!['/']);
    string_from(trim_end_matches(&cs, &slash))
}

/// Where the entry files are, under the boot partition's mount point.
pub fn entries_dir(boot: &str) -> (r: String)
    ensures
        r@ == boot_root(boot@) + entries_subdir(),
{
    let mut r = boot_root_of(boot);
    push_str(&mut r, "/EFI/nexec/entries");
    proof {
        reveal_strlit("/EFI/nexec/entries");
        assert(r@ =~= boot_root(boot@) + entries_subdir());
    }
    r
}

/// Where the boot manager is installed, under the boot partition's mount
/// point.
pub fn install_dir(boot: &str) -> (r: String)
    ensures
        r@ == boot_root(boot@) + install_subdir(),
{
    let mut r = boot_root_of(boot);
    push_str(&mut r, "/EFI/nexec");
    proof {
        reveal_strlit("/EFI/nexec");
        assert(r@ =~= boot_root(boot@) + install_subdir());
    }
    r
}

// ---------------------------------------------------------------------------
// Entry files
// ---------------------------------------------------------------------------

pub open spec fn dot_conf() -> Seq<char> {
    seq!['.', 'c', 'o', 'n', 'f']
}

/// `NAME+N.conf`, the file of an entry with N tries left.
pub open spec fn counted_file(name: Seq<char>, n: u32) -> Seq<char> {
    name + seq!['+'] + decimal(n as nat) + dot_conf()
}

/// The file name `entry add` creates: with a boot counter if tries are
/// given.
pub open spec fn added_file(name: Seq<char>, tries: Option<u32>) -> Seq<char> {
    match tries {
        Some(t) => counted_file(name, t),
        None => name + dot_conf(),
    }
}

/// The file name `entry set-tries` gives: no counter for 0 tries.
pub open spec fn tries_file(name: Seq<char>, tries: u32) -> Seq<char> {
    if tries > 0 {
        counted_file(name, tries)
    } else {
        name + dot_conf()
    }
}

/// The file name of an entry, with a boot counter if tries are given.
pub fn entry_file_name(name: &str, tries: Option<u32>) -> (r: String)
    ensures
        r@ == added_file(name@, tries),
{
    let mut r = String::new();
    push_str(&mut r, name);
    match tries {
        Some(t) => {
            push_chars(&mut r, &['+']);
            push_decimal(&mut r, t as u64);
        },
        None => {},
    }
    push_str(&mut r, ".conf");
    proof {
        reveal_strlit(".conf");
        assert(r@ =~= added_file(name@, tries));
    }
    r
}

/// The file name of an entry with `tries` boot tries (none for 0).
pub fn tries_file_name(name: &str, tries: u32) -> (r: String)
    ensures
        r@ == tries_file(name@, tries),
{
    if tries > 0 {
        entry_file_name(name, Some(tries))
    } else {
        entry_file_name(name, None)
    }
}

/// `key = value` and a newline.
pub open spec fn kv_line(key: Seq<char>, value: Seq<char>) -> Seq<char> {
    key + seq![' ', '=', ' '] + value + seq!['\n']
}

pub open spec fn title_key() -> Seq<char> {
    seq!['t', 'i', 't', 'l', 'e']
}

pub open spec fn efi_key() -> Seq<char> {
    seq!['e', 'f', 'i']
}

pub open spec fn initrd_key() -> Seq<char> {
    seq!['i', 'n', 'i', 't', 'r', 'd']
}

pub open spec fn options_key() -> Seq<char> {
    seq!['o', 'p', 't', 'i', 'o', 'n', 's']
}

/// The contents of an entry file: `title` (the name if no title is given),
/// `efi`, then `initrd` and `options` where given.
pub open spec fn entry_contents(
    title: Seq<char>,
    efi: Seq<char>,
    initrd: Seq<Seq<char>>,
    options: Option<Seq<char>>,
) -> Seq<char> {
    kv_line(title_key(), title) + kv_line(efi_key(), efi) + initrd_lines(initrd, initrd.len() as int)
        + match options {
        Some(o) => kv_line(options_key(), o),
        None => Seq::empty(),
    }
}

/// One `initrd = PATH` line for each of the first `k` paths.
pub open spec fn initrd_lines(initrd: Seq<Seq<char>>, k: int) -> Seq<char>
    decreases k,
{
    if k <= 0 {
        Seq::empty()
    } else {
        initrd_lines(initrd, k - 1) + kv_line(initrd_key(), initrd[k - 1])
    }
}

fn push_kv(s: &mut String, key: &str, value: &str)
    ensures
        final(s)@ == old(s)@ + kv_line(key@, value@),
{
    push_str(s, key);
    push_str(s, " = ");
    push_str(s, value);
    push_str(s, "\n");
    proof {
        reveal_strlit(" = ");
        reveal_strlit("\n");
        assert(final(s)@ =~= old(s)@ + kv_line(key@, value@));
    }
}

/// The contents of an entry file with this title, kernel, initramfs paths
/// and options.
pub fn entry_file_contents(
    title: &str,
    efi: &str,
    initrd: &Vec<String>,
    options: Option<&str>,
) -> (r: String)
    ensures
        r@ == entry_contents(
            title@,
            efi@,
            strings_view(initrd@),
            match options {
                Some(o) => Some(o@),
                None => None,
            },
        ),
{
    proof {
        reveal_strlit("title");
        reveal_strlit("efi");
        reveal_strlit("initrd");
        reveal_strlit("options");
        assert("title"@ =~= title_key());
        assert("efi"@ =~= efi_key());
        assert("initrd"@ =~= initrd_key());
        assert("options"@ =~= options_key());
    }
    let ghost iv = strings_view(initrd@);
    let mut r = String::new();
    push_kv(&mut r, "title", title);
    push_kv(&mut r, "efi", efi);
    let ghost head = r@;
    let mut i: usize = 0;
    while i < initrd.len()
        invariant
            0 <= i <= initrd@.len(),
            iv == strings_view(initrd@),
            "initrd"@ == initrd_key(),
            r@ == head + initrd_lines(iv, i as int),
        decreases initrd@.len() - i,
    {
        assert(iv[i as int] == initrd@[i as int]@);
        push_kv(&mut r, "initrd", initrd[i].as_str());
        assert(r@ =~= head + initrd_lines(iv, i + 1));
        i = i + 1;
    }
    match options {
        Some(o) => {
            push_kv(&mut r, "options", o);
        },
        None => {},
    }
    assert(r@ =~= entry_contents(
        title@,
        efi@,
        iv,
        match options {
            Some(o) => Some(o@),
            None => None,
        },
    ));
    r
}

/// `fname` is a file of the entry `name`: `NAME.conf`, or `NAME+...` ending
/// in `.conf`.
pub open spec fn is_file_of_entry(fname: Seq<char>, name: Seq<char>) -> bool {
    fname == name + dot_conf() || (starts_with(fname, name.push('+')) && ends_with(
        fname,
        dot_conf(),
    ))
}

/// `fname` is a file of the entry `name` with a boot counter.
pub open spec fn is_counted_file_of(fname: Seq<char>, name: Seq<char>) -> bool {
    starts_with(fname, name.push('+')) && ends_with(fname, dot_conf())
}

fn file_matches(fname: &String, name: &str) -> (r: (bool, bool))
    ensures
        r.0 == (fname@ == name@ + dot_conf()),
        r.1 == is_counted_file_of(fname@, name@),
{
    let f = chars_of(fname.as_str());
    let mut base = String::new();
    push_str(&mut base, name);
    push_str(&mut base, ".conf");
    let mut plus = String::new();
    push_str(&mut plus, name);
    push_chars(&mut plus, &['+']);
    proof {
        reveal_strlit(".conf");
        assert(base@ =~= name@ + dot_conf());
        assert(plus@ =~= name@.push('+'));
    }
    let b = chars_of(base.as_str());
    let p = chars_of(plus.as_str());
    let conf = ['.', 'c', 'o', 'n', 'f'];
    assert(conf@ =~= dot_conf());
    (crate::text::chars_eq(&f, &b), has_prefix(&f, &p) && has_suffix(&f, &conf))
}

/// The first file of the listing that belongs to the entry `name`.
pub open spec fn first_entry_file(names: Seq<Seq<char>>, name: Seq<char>, from: int) -> Option<int>
    decreases names.len() - from,
{
    if from < 0 || from >= names.len() {
        None
    } else if is_file_of_entry(names[from], name) {
        Some(from)
    } else {
        first_entry_file(names, name, from + 1)
    }
}

/// The position in a directory listing of the file of the entry `name`:
/// the first that is `NAME.conf` or `NAME+...conf`.
pub fn find_entry_file(names: &Vec<String>, name: &str) -> (r: Option<usize>)
    ensures
        match r {
            Some(i) => first_entry_file(strings_view(names@), name@, 0) == Some(i as int),
            None => first_entry_file(strings_view(names@), name@, 0) is None,
        },
{
    let ghost v = strings_view(names@);
    let mut i: usize = 0;
    while i < names.len()
        invariant
            0 <= i <= names@.len(),
            v == strings_view(names@),
            first_entry_file(v, name@, 0) == first_entry_file(v, name@, i as int),
        decreases names@.len() - i,
    {
        assert(v[i as int] == names@[i as int]@);
        let (exact, counted) = file_matches(&names[i], name);
        if exact || counted {
            return Some(i);
        }
        i = i + 1;
    }
    None
}

/// What `entry mark-good` does.
#[derive(Debug, Clone, Copy, PartialEq, Eq, Structural)]
pub enum MarkGood {
    /// `NAME.conf` is there: nothing to do.
    AlreadyGood,
    /// Rename the file at this position of the listing to `NAME.conf`.
    Rename(usize),
    /// No file of the entry has a boot counter.
    NotFound,
}

/// Going through the listing from `i`: `NAME.conf` ends the search; of the
/// files with a counter, the last one seen is renamed.
pub open spec fn mark_good_scan(
    names: Seq<Seq<char>>,
    name: Seq<char>,
    i: int,
    found: Option<usize>,
) -> MarkGood
    decreases names.len() - i,
{
    if i < 0 || i >= names.len() {
        match found {
            Some(j) => MarkGood::Rename(j),
            None => MarkGood::NotFound,
        }
    } else if names[i] == name + dot_conf() {
        MarkGood::AlreadyGood
    } else if is_counted_file_of(names[i], name) {
        mark_good_scan(names, name, i + 1, Some(i as usize))
    } else {
        mark_good_scan(names, name, i + 1, found)
    }
}

/// Which file `entry mark-good NAME` renames, given the entries directory's
/// listing.
pub fn mark_good_plan(names: &Vec<String>, name: &str) -> (r: MarkGood)
    ensures
        r == mark_good_scan(strings_view(names@), name@, 0, None),
{
    let ghost v = strings_view(names@);
    let mut found: Option<usize> = None;
    let mut i: usize = 0;
    while i < names.len()
        invariant
            0 <= i <= names@.len(),
            v == strings_view(names@),
            mark_good_scan(v, name@, 0, None) == mark_good_scan(v, name@, i as int, found),
        decreases names@.len() - i,
    {
        assert(v[i as int] == names@[i as int]@);
        let (exact, counted) = file_matches(&names[i], name);
        if exact {
            return MarkGood::AlreadyGood;
        }
        if counted {
            found = Some(i);
        }
        i = i + 1;
    }
    match found {
        Some(j) => MarkGood::Rename(j),
        None => MarkGood::NotFound,
    }
}

// ---------------------------------------------------------------------------
// Listing entries
// ---------------------------------------------------------------------------

/// ` [N tries]` for a file `...+N.conf` whose counter is all digits;
/// nothing otherwise.
pub open spec fn tries_label(fname: Seq<char>) -> Seq<char> {
    let raw = strip_suffix_all(fname, dot_conf());
    match rindex_of(raw, '+') {
        Some(p) => {
            let suffix = raw.skip(p + 1);
            if suffix.len() > 0 && all_digits(suffix) {
                seq![' ', '['] + suffix + seq![' ', 't', 'r', 'i', 'e', 's', ']']
            } else {
                Seq::empty()
            }
        },
        None => Seq::empty(),
    }
}

/// The label that `entry list` puts after a file name with a boot counter.
pub fn tries_label_of(fname: &str) -> (r: String)
    ensures
        r@ == tries_label(fname@),
{
    let cs = chars_of(fname);
    let conf = ['.', 'c', 'o', 'n', 'f'];
    assert(conf@ =~= dot_conf());
    let raw = trim_end_matches(&cs, &conf);
    proof {
        crate::text::lemma_rindex_of(raw@, '+');
    }
    let mut r = String::new();
    match rfind_char(raw, '+') {
        Some(p) => {
            let n = raw.len();
            assert(p < n);
            let suffix = &raw[p + 1..n];
            assert(suffix@ =~= raw@.skip(p + 1));
            let mut all = suffix.len() > 0;
            let mut i: usize = 0;
            while i < suffix.len()
                invariant
                    0 <= i <= suffix@.len(),
                    all == (suffix@.len() > 0 && forall|j: int| 0 <= j < i ==> crate::text::is_digit(#[trigger] suffix@[j])),
                decreases suffix@.len() - i,
            {
                let c = suffix[i];
                if !('0' <= c && c <= '9') {
                    all = false;
                }
                i = i + 1;
            }
            if all {
                push_str(&mut r, " [");
                push_chars(&mut r, suffix);
                push_str(&mut r, " tries]");
                proof {
                    reveal_strlit(" [");
                    reveal_strlit(" tries]");
                    assert(r@ =~= tries_label(fname@));
                }
            }
        },
        None => {},
    }
    r
}

/// The lines of a text as `str::lines` gives them: split at each `\n`, a
/// `\r` before it dropped, no last line if the text ends with `\n` (or is
/// empty).
pub open spec fn text_lines(t: Seq<char>) -> Seq<Seq<char>> {
    let ps = split_lines(t);
    let n = ps.len() as int;
    let body = Seq::new((n - 1) as nat, |i: int| strip_cr(ps[i]));
    if ps[n - 1].len() > 0 {
        body.push(ps[n - 1])
    } else {
        body
    }
}

/// A line without the `\r` that ends it, if any.
pub open spec fn strip_cr(l: Seq<char>) -> Seq<char> {
    if l.len() > 0 && l.last() == '\r' {
        l.drop_last()
    } else {
        l
    }
}

fn without_cr(l: &Vec<char>) -> (r: Vec<char>)
    ensures
        r@ == strip_cr(l@),
{
    let n = l.len();
    if n > 0 && l[n - 1] == '\r' {
        let r = crate::text::chars_vec(&l.as_slice()[0..n - 1]);
        assert(r@ =~= l@.drop_last());
        r
    } else {
        crate::text::chars_vec(l.as_slice())
    }
}

/// The lines of a text, as `str::lines` gives them.
pub fn lines_of(t: &str) -> (r: Vec<Vec<char>>)
    ensures
        r@.map_values(|v: Vec<char>| v@) == text_lines(t@),
{
    let cs = chars_of(t);
    let ps = split_lines_of(&cs);
    let ghost pv = ps@.map_values(|v: Vec<char>| v@);
    proof {
        crate::text::lemma_split_lines_nonempty(t@);
    }
    let n = ps.len();
    let ghost body = Seq::new((n - 1) as nat, |i: int| strip_cr(pv[i]));
    let mut out: Vec<Vec<char>> = Vec::new();
    let mut i: usize = 0;
    while i + 1 < n
        invariant
            0 <= i < n,
            n == ps@.len(),
            pv == ps@.map_values(|v: Vec<char>| v@),
            pv == split_lines(t@),
            body == Seq::new((n - 1) as nat, |i: int| strip_cr(pv[i])),
            out@.map_values(|v: Vec<char>| v@) == body.take(i as int),
        decreases n - i,
    {
        let l = without_cr(&ps[i]);
        let ghost lv = l@;
        let ghost before = out@.map_values(|v: Vec<char>| v@);
        out.push(l);
        assert(out@.map_values(|v: Vec<char>| v@) =~= before.push(lv));
        assert(body.take(i + 1) =~= body.take(i as int).push(lv));
        i = i + 1;
    }
    assert(body.take((n - 1) as int) =~= body);
    if ps[n - 1].len() > 0 {
        let last = crate::text::chars_vec(ps[n - 1].as_slice());
        let ghost lv = last@;
        let ghost before = out@.map_values(|v: Vec<char>| v@);
        out.push(last);
        assert(out@.map_values(|v: Vec<char>| v@) =~= before.push(lv));
    }
    out
}

/// The rest of the first line that starts with `prefix`.
pub open spec fn first_value(lines: Seq<Seq<char>>, prefix: Seq<char>, from: int) -> Option<
    Seq<char>,
>
    decreases lines.len() - from,
{
    if from < 0 || from >= lines.len() {
        None
    } else if starts_with(lines[from], prefix) {
        Some(lines[from].skip(prefix.len() as int))
    } else {
        first_value(lines, prefix, from + 1)
    }
}

/// The value after `prefix` on the first line of `content` that starts with
/// it, as `entry list` and `install` read `title = ` and `efi = `.
pub fn line_value(content: &str, prefix: &str) -> (r: Option<String>)
    ensures
        match r {
            Some(v) => first_value(text_lines(content@), prefix@, 0) == Some(v@),
            None => first_value(text_lines(content@), prefix@, 0) is None,
        },
{
    let lines = lines_of(content);
    let ghost lv = lines@.map_values(|v: Vec<char>| v@);
    let pre = chars_of(prefix);
    let mut i: usize = 0;
    while i < lines.len()
        invariant
            0 <= i <= lines@.len(),
            lv == lines@.map_values(|v: Vec<char>| v@),
            lv == text_lines(content@),
            pre@ == prefix@,
            first_value(lv, prefix@, 0) == first_value(lv, prefix@, i as int),
        decreases lines@.len() - i,
    {
        assert(lv[i as int] == lines@[i as int]@);
        if has_prefix(lines[i].as_slice(), &pre) {
            let rest = string_from(&lines[i].as_slice()[pre.len()..lines[i].len()]);
            assert(lines@[i as int]@.subrange(pre@.len() as int, lines@[i as int]@.len() as int)
                =~= lv[i as int].skip(prefix@.len() as int));
            return Some(rest);
        }
        i = i + 1;
    }
    None
}


// ---------------------------------------------------------------------------
// The default entry
// ---------------------------------------------------------------------------

pub open spec fn default_word() -> Seq<char> {
    seq!['d', 'e', 'f', 'a', 'u', 'l', 't']
}

/// A line that sets the default entry: trimmed, it starts with `default`
/// and holds a `=`.
pub open spec fn is_default_line(l: Seq<char>) -> bool {
    starts_with(crate::text::spec_trim(l), default_word()) && index_of(
        crate::text::spec_trim(l),
        '=',
    ) is Some
}

/// `default = ENTRY`.
pub open spec fn default_line(entry: Seq<char>) -> Seq<char> {
    default_word() + seq![' ', '=', ' '] + entry
}

pub open spec fn first_default_line(lines: Seq<Seq<char>>, from: int) -> Option<int>
    decreases lines.len() - from,
{
    if from < 0 || from >= lines.len() {
        None
    } else if is_default_line(lines[from]) {
        Some(from)
    } else {
        first_default_line(lines, from + 1)
    }
}

/// The lines joined by `\n`, without one at the end.
pub open spec fn join_lines(ls: Seq<Seq<char>>) -> Seq<char>
    decreases ls.len(),
{
    if ls.len() == 0 {
        Seq::empty()
    } else if ls.len() == 1 {
        ls[0]
    } else {
        join_lines(ls.drop_last()) + seq!['\n'] + ls.last()
    }
}

/// The configuration after `config set-default ENTRY`: the first default
/// line becomes `default = ENTRY`; without one, an empty line and that line
/// are added at the end. The lines are joined by `\n`. Also whether a
/// default line was there.
pub open spec fn with_default(content: Seq<char>, entry: Seq<char>) -> (Seq<char>, bool) {
    let ls = text_lines(content);
    match first_default_line(ls, 0) {
        Some(i) => (join_lines(ls.update(i, default_line(entry))), true),
        None => (join_lines(ls.push(Seq::empty()).push(default_line(entry))), false),
    }
}

fn join_char_lines(ls: &Vec<Vec<char>>) -> (r: String)
    ensures
        r@ == join_lines(ls@.map_values(|v: Vec<char>| v@)),
{
    let ghost v = ls@.map_values(|v: Vec<char>| v@);
    let mut r = String::new();
    let mut i: usize = 0;
    while i < ls.len()
        invariant
            0 <= i <= ls@.len(),
            v == ls@.map_values(|v: Vec<char>| v@),
            r@ == join_lines(v.take(i as int)),
        decreases ls@.len() - i,
    {
        assert(v[i as int] == ls@[i as int]@);
        if i > 0 {
            push_chars(&mut r, &['\n']);
        }
        push_chars(&mut r, ls[i].as_slice());
        assert(v.take(i + 1).drop_last() =~= v.take(i as int));
        if i == 0 {
            assert(r@ =~= join_lines(v.take(1)));
        } else {
            assert(r@ =~= join_lines(v.take(i as int)) + seq!['\n'] + v[i as int]);
        }
        i = i + 1;
    }
    assert(v.take(ls@.len() as int) =~= v);
    r
}

/// The configuration text with its default entry set to `entry`, and
/// whether it had a default line.
pub fn set_default_content(content: &str, entry: &str) -> (r: (String, bool))
    ensures
        (r.0@, r.1) == with_default(content@, entry@),
{
    let mut lines = lines_of(content);
    let ghost lv = lines@.map_values(|v: Vec<char>| v@);
    let mut dl = String::new();
    push_str(&mut dl, "default = ");
    push_str(&mut dl, entry);
    proof {
        reveal_strlit("default = ");
        assert(dl@ =~= default_line(entry@));
    }
    let dcs = chars_of(dl.as_str());
    let word = ['d', 'e', 'f', 'a', 'u', 'l', 't'];
    assert(word@ =~= default_word());
    let mut i: usize = 0;
    while i < lines.len()
        invariant
            0 <= i <= lines@.len(),
            lv == lines@.map_values(|v: Vec<char>| v@),
            lv == text_lines(content@),
            word@ == default_word(),
            dcs@ == default_line(entry@),
            first_default_line(lv, 0) == first_default_line(lv, i as int),
        decreases lines@.len() - i,
    {
        assert(lv[i as int] == lines@[i as int]@);
        let t = crate::text::trim(lines[i].as_slice());
        if has_prefix(t, &word) && crate::text::find_char(t, '=').is_some() {
            lines.set(i, dcs);
            assert(lines@.map_values(|v: Vec<char>| v@) =~= lv.update(i as int, default_line(entry@)));
            return (join_char_lines(&lines), true);
        }
        i = i + 1;
    }
    lines.push(Vec::new());
    lines.push(dcs);
    assert(lines@.map_values(|v: Vec<char>| v@) =~= lv.push(Seq::empty()).push(default_line(entry@)));
    (join_char_lines(&lines), false)
}

// ---------------------------------------------------------------------------
// The generated configuration
// ---------------------------------------------------------------------------

/// An entry that `config detect` and `install` generate a file for.
pub struct DetectedEntry {
    pub name: String,
    pub title: String,
    pub efi_path: String,
    pub options: Option<String>,
    pub initrd: Vec<String>,
}

#[verifier::ext_equal]
pub struct DetectedView {
    pub name: Seq<char>,
    pub title: Seq<char>,
    pub efi_path: Seq<char>,
    pub options: Option<Seq<char>>,
    pub initrd: Seq<Seq<char>>,
}

impl View for DetectedEntry {
    type V = DetectedView;

    open spec fn view(&self) -> DetectedView {
        DetectedView {
            name: self.name@,
            title: self.title@,
            efi_path: self.efi_path@,
            options: match self.options {
                Some(o) => Some(o@),
                None => None,
            },
            initrd: strings_view(self.initrd@),
        }
    }
}

pub open spec fn detected_view(v: Seq<DetectedEntry>) -> Seq<DetectedView> {
    v.map_values(|d: DetectedEntry| d@)
}

/// The generated entry for Windows, when `bootmgr` is on the partition.
pub open spec fn windows_detected_view() -> DetectedView {
    DetectedView {
        name: seq!['w', 'i', 'n', 'd', 'o', 'w', 's'],
        title: seq!['W', 'i', 'n', 'd', 'o', 'w', 's'],
        efi_path: seq!['/', 'b', 'o', 'o', 't', 'm', 'g', 'r'],
        options: None,
        initrd: Seq::empty(),
    }
}

/// The generated entry for Windows.
pub fn windows_detected() -> (r: DetectedEntry)
    ensures
        r@ == windows_detected_view(),
{
    let r = DetectedEntry {
        name: string_from(&['w', 'i', 'n', 'd', 'o', 'w', 's']),
        title: string_from(&['W', 'i', 'n', 'd', 'o', 'w', 's']),
        efi_path: string_from(&['/', 'b', 'o', 'o', 't', 'm', 'g', 'r']),
        options: None,
        initrd: Vec::new(),
    };
    assert(r@ =~= windows_detected_view());
    r
}

/// Some entry has this kernel path.
pub open spec fn has_path(ds: Seq<DetectedView>, path: Seq<char>) -> bool {
    exists|i: int| 0 <= i < ds.len() && #[trigger] ds[i].efi_path == path
}

/// The first `k` entries, each kernel path kept at its first entry only.
pub open spec fn first_per_path(ds: Seq<DetectedView>, k: int) -> Seq<DetectedView>
    decreases k,
{
    if k <= 0 {
        Seq::empty()
    } else {
        let prev = first_per_path(ds, k - 1);
        if has_path(prev, ds[k - 1].efi_path) {
            prev
        } else {
            prev.push(ds[k - 1])
        }
    }
}

/// The start of the generated main configuration.
pub open spec fn main_conf_head() -> Seq<char> {
    seq!['#', ' ', 'n', 'e', 'x', 'e', 'c', '-', 'l', 'g', 'c', ' ', 'm', 'a', 'i', 'n', ' ', 'c', 'o', 'n', 'f', 'i', 'g', 'u', 'r', 'a', 't', 'i', 'o', 'n', '\n', '#', ' ', 'B', 'o', 'o', 't', ' ', 'e', 'n', 't', 'r', 'i', 'e', 's', ' ', 'a', 'r', 'e', ' ', 'i', 'n', ' ', '/', 'E', 'F', 'I', '/', 'n', 'e', 'x', 'e', 'c', '/', 'e', 'n', 't', 'r', 'i', 'e', 's', '/', '*', '.', 'c', 'o', 'n', 'f', '\n', 'n', 'o', '_', 's', 'c', 'a', 'n', ' ', '=', ' ', 't', 'r', 'u', 'e', '\n', 't', 'i', 'm', 'e', 'o', 'u', 't', ' ', '=', ' ', '5', '\n']
}

/// The keybind lines of the generated main configuration.
pub open spec fn main_conf_keys() -> Seq<char> {
    seq!['#', ' ', 'K', 'e', 'y', 'b', 'i', 'n', 'd', 's', ' ', '(', 'c', 'h', 'a', 'n', 'g', 'e', ' ', 't', 'h', 'e', 's', 'e', ' ', 'f', 'o', 'r', ' ', 'n', 'o', 'n', '-', 'Q', 'W', 'E', 'R', 'T', 'Y', ' ', 'l', 'a', 'y', 'o', 'u', 't', 's', ')', '\n', 'k', 'e', 'y', '_', 'm', 'a', 'n', 'u', 'a', 'l', ' ', '=', ' ', 'm', '\n', 'k', 'e', 'y', '_', 'f', 'i', 'r', 'm', 'w', 'a', 'r', 'e', ' ', '=', ' ', 'f', '\n', 'k', 'e', 'y', '_', 'r', 'e', 'b', 'o', 'o', 't', ' ', '=', ' ', 'r', '\n', 'k', 'e', 'y', '_', 's', 'h', 'u', 't', 'd', 'o', 'w', 'n', ' ', '=', ' ', 's', '\n', 'k', 'e', 'y', '_', 'b', 'a', 'c', 'k', 'u', 'p', ' ', '=', ' ', 'b', '\n']
}

pub open spec fn entry_names(ds: Seq<DetectedView>) -> Seq<Seq<char>> {
    ds.map_values(|d: DetectedView| d.name)
}

/// The generated main configuration: no scanning, a 5 s timeout, the
/// entries in order (if any), the default keys.
pub open spec fn main_conf(ds: Seq<DetectedView>) -> Seq<char> {
    main_conf_head() + (if ds.len() > 0 {
        seq!['o', 'r', 'd', 'e', 'r', ' ', '=', ' '] + join_words(entry_names(ds)) + seq!['\n']
    } else {
        Seq::empty()
    }) + main_conf_keys()
}

/// The file of a generated entry: its name and contents.
pub open spec fn entry_file_of(d: DetectedView) -> (Seq<char>, Seq<char>) {
    (d.name, entry_contents(d.title, d.efi_path, d.initrd, d.options))
}

/// The generated configuration: the main file and one file per entry, each
/// kernel path once.
pub open spec fn generated_config(ds: Seq<DetectedView>) -> (Seq<char>, Seq<(Seq<char>, Seq<char>)>) {
    let kept = first_per_path(ds, ds.len() as int);
    (main_conf(kept), kept.map_values(|d: DetectedView| entry_file_of(d)))
}

pub open spec fn named_texts(v: Seq<(String, String)>) -> Seq<(Seq<char>, Seq<char>)> {
    v.map_values(|p: (String, String)| (p.0@, p.1@))
}

fn copy_detected(d: &DetectedEntry) -> (r: DetectedEntry)
    ensures
        r@ == d@,
{
    let mut initrd: Vec<String> = Vec::new();
    let mut i: usize = 0;
    while i < d.initrd.len()
        invariant
            0 <= i <= d.initrd@.len(),
            strings_view(initrd@) == strings_view(d.initrd@).take(i as int),
        decreases d.initrd@.len() - i,
    {
        let ghost before = strings_view(initrd@);
        let c = d.initrd[i].clone();
        let ghost cv = c@;
        initrd.push(c);
        assert(strings_view(initrd@) =~= before.push(cv));
        assert(strings_view(d.initrd@)[i as int] == cv);
        assert(strings_view(d.initrd@).take(i + 1) =~= strings_view(d.initrd@).take(i as int).push(cv));
        i = i + 1;
    }
    assert(strings_view(d.initrd@).take(d.initrd@.len() as int) =~= strings_view(d.initrd@));
    let r = DetectedEntry {
        name: d.name.clone(),
        title: d.title.clone(),
        efi_path: d.efi_path.clone(),
        options: match &d.options {
            Some(o) => Some(o.clone()),
            None => None,
        },
        initrd,
    };
    assert(r@.initrd =~= d@.initrd);
    r
}

fn has_efi_path(ds: &Vec<DetectedEntry>, path: &String) -> (r: bool)
    ensures
        r == has_path(detected_view(ds@), path@),
{
    let ghost v = detected_view(ds@);
    let mut i: usize = 0;
    while i < ds.len()
        invariant
            0 <= i <= ds@.len(),
            v == detected_view(ds@),
            forall|j: int| 0 <= j < i ==> v[j].efi_path != path@,
        decreases ds@.len() - i,
    {
        assert(v[i as int] == ds@[i as int]@);
        if ds[i].efi_path == *path {
            assert(v[i as int].efi_path == path@);
            return true;
        }
        i = i + 1;
    }
    false
}

/// The generated main configuration and entry files for the detected
/// entries, in order, each kernel path once.
pub fn generate_config_files(detected: &Vec<DetectedEntry>) -> (r: (String, Vec<(String, String)>))
    ensures
        (r.0@, named_texts(r.1@)) == generated_config(detected_view(detected@)),
{
    let ghost dv = detected_view(detected@);
    let mut kept: Vec<DetectedEntry> = Vec::new();
    let mut i: usize = 0;
    while i < detected.len()
        invariant
            0 <= i <= detected@.len(),
            dv == detected_view(detected@),
            detected_view(kept@) == first_per_path(dv, i as int),
        decreases detected@.len() - i,
    {
        assert(dv[i as int] == detected@[i as int]@);
        if !has_efi_path(&kept, &detected[i].efi_path) {
            let c = copy_detected(&detected[i]);
            let ghost before = detected_view(kept@);
            let ghost cv = c@;
            kept.push(c);
            assert(detected_view(kept@) =~= before.push(cv));
        }
        i = i + 1;
    }
    let ghost kv = detected_view(kept@);
    let mut main = String::new();
    push_str(&mut main, "# nexec-lgc main configuration\n# Boot entries are in /EFI/nexec/entries/*.conf\nno_scan = true\ntimeout = 5\n");
    proof {
        reveal_strlit("# nexec-lgc main configuration\n# Boot entries are in /EFI/nexec/entries/*.conf\nno_scan = true\ntimeout = 5\n");
        assert(main@ =~= main_conf_head());
    }
    if kept.len() > 0 {
        let mut names: Vec<String> = Vec::new();
        let mut k: usize = 0;
        while k < kept.len()
            invariant
                0 <= k <= kept@.len(),
                kv == detected_view(kept@),
                strings_view(names@) == entry_names(kv).take(k as int),
            decreases kept@.len() - k,
        {
            assert(kv[k as int] == kept@[k as int]@);
            let ghost before = strings_view(names@);
            let nm = kept[k].name.clone();
            let ghost nv = nm@;
            names.push(nm);
            assert(strings_view(names@) =~= before.push(nv));
            assert(entry_names(kv)[k as int] == nv);
            assert(entry_names(kv).take(k + 1) =~= entry_names(kv).take(k as int).push(nv));
            k = k + 1;
        }
        assert(entry_names(kv).take(kept@.len() as int) =~= entry_names(kv));
        push_str(&mut main, "order = ");
        let joined = join_with_spaces(&names);
        push_str(&mut main, joined.as_str());
        push_str(&mut main, "\n");
        proof {
            reveal_strlit("order = ");
            reveal_strlit("\n");
        }
    }
    push_str(&mut main, "# Keybinds (change these for non-QWERTY layouts)\nkey_manual = m\nkey_firmware = f\nkey_reboot = r\nkey_shutdown = s\nkey_backup = b\n");
    proof {
        reveal_strlit("# Keybinds (change these for non-QWERTY layouts)\nkey_manual = m\nkey_firmware = f\nkey_reboot = r\nkey_shutdown = s\nkey_backup = b\n");
        assert(main@ =~= main_conf(kv));
    }
    let ghost files_spec = kv.map_values(|d: DetectedView| entry_file_of(d));
    let mut files: Vec<(String, String)> = Vec::new();
    let mut k: usize = 0;
    while k < kept.len()
        invariant
            0 <= k <= kept@.len(),
            kv == detected_view(kept@),
            files_spec == kv.map_values(|d: DetectedView| entry_file_of(d)),
            named_texts(files@) == files_spec.take(k as int),
        decreases kept@.len() - k,
    {
        assert(kv[k as int] == kept@[k as int]@);
        let d = &kept[k];
        let content = entry_file_contents(
            d.title.as_str(),
            d.efi_path.as_str(),
            &d.initrd,
            match &d.options {
                Some(o) => Some(o.as_str()),
                None => None,
            },
        );
        let ghost before = named_texts(files@);
        let nm = d.name.clone();
        let ghost pair = (nm@, content@);
        files.push((nm, content));
        assert(named_texts(files@) =~= before.push(pair));
        assert(files_spec[k as int] == pair);
        assert(files_spec.take(k + 1) =~= files_spec.take(k as int).push(pair));
        k = k + 1;
    }
    assert(files_spec.take(kept@.len() as int) =~= files_spec);
    (main, files)
}


// ---------------------------------------------------------------------------
// Detected unified kernel images and kernels
// ---------------------------------------------------------------------------

/// `/EFI/Linux/`.
pub open spec fn uki_prefix() -> Seq<char> {
    seq!['/', 'E', 'F', 'I', '/', 'L', 'i', 'n', 'u', 'x', '/']
}

/// The generated entry of the unified kernel image `name` in `EFI/Linux`:
/// the name in lower case without `.efi`, the capitalized title, no
/// options.
pub open spec fn uki_detected_view(name: Seq<char>) -> DetectedView {
    uki_detected_view_lowered(name, lowercase_of(name))
}

/// The generated entry of the unified kernel image `name`, given the file
/// name in lower case.
pub open spec fn uki_detected_view_lowered(name: Seq<char>, lowered: Seq<char>) -> DetectedView {
    DetectedView {
        name: remove_all(lowered, dot_efi()),
        title: uki_title(name),
        efi_path: uki_prefix() + name,
        options: None,
        initrd: Seq::empty(),
    }
}

/// The generated entry of a file of `EFI/Linux`, if it is an `.efi` file.
pub fn uki_detected(name: &str) -> (r: Option<DetectedEntry>)
    ensures
        r is Some <==> is_efi_name(name@),
        r matches Some(d) ==> d@ == uki_detected_view(name@),
{
    let low = str_to_lowercase(name);
    uki_detected_lowered(name, low.as_str())
}

/// The generated entry of a file of `EFI/Linux`, if it is an `.efi` file,
/// given the file name in lower case.
pub fn uki_detected_lowered(name: &str, lowered: &str) -> (r: Option<DetectedEntry>)
    ensures
        r is Some <==> is_efi_name(name@),
        r matches Some(d) ==> d@ == uki_detected_view_lowered(name@, lowered@),
{
    let cs = chars_of(name);
    let lower = ['.', 'e', 'f', 'i'];
    let upper = ['.', 'E', 'F', 'I'];
    assert(lower@ =~= dot_efi());
    assert(upper@ =~= dot_efi_upper());
    if !(has_suffix(&cs, &lower) || has_suffix(&cs, &upper)) {
        return None;
    }
    let low_cs = chars_of(lowered);
    let entry_name = remove_all_of(&low_cs, &lower);
    let title = title_of_uki(&cs);
    let mut path = String::new();
    push_str(&mut path, "/EFI/Linux/");
    push_str(&mut path, name);
    proof {
        reveal_strlit("/EFI/Linux/");
        assert(path@ =~= uki_prefix() + name@);
    }
    let d = DetectedEntry { name: entry_name, title, efi_path: path, options: None, initrd: Vec::new() };
    assert(d@.initrd =~= Seq::<Seq<char>>::empty());
    assert(d@ =~= uki_detected_view_lowered(name@, lowered@));
    Some(d)
}

pub open spec fn vmlinuz() -> Seq<char> {
    seq!['v', 'm', 'l', 'i', 'n', 'u', 'z']
}

/// The version of a kernel file of the partition root: what follows
/// `vmlinuz-`, or nothing.
pub open spec fn root_kernel_version(name: Seq<char>) -> Seq<char> {
    if starts_with(name, vmlinuz().push('-')) {
        name.skip(8)
    } else {
        Seq::empty()
    }
}

/// The generated entry of a kernel file on the partition root (a name that
/// starts with `vmlinuz`): `linux` and `Linux`, or `linux-V` (V in lower
/// case) and `Linux V`; the given options; no initramfs.
pub open spec fn kernel_detected_view(name: Seq<char>, options: Seq<char>) -> DetectedView {
    kernel_detected_view_lowered(name, lowercase_of(root_kernel_version(name)), options)
}

/// The generated entry of a kernel file on the partition root, given its
/// version in lower case.
pub open spec fn kernel_detected_view_lowered(
    name: Seq<char>,
    lowered_ver: Seq<char>,
    options: Seq<char>,
) -> DetectedView {
    let ver = root_kernel_version(name);
    DetectedView {
        name: if ver.len() == 0 {
            seq!['l', 'i', 'n', 'u', 'x']
        } else {
            seq!['l', 'i', 'n', 'u', 'x', '-'] + lowered_ver
        },
        title: if ver.len() == 0 {
            seq!['L', 'i', 'n', 'u', 'x']
        } else {
            seq!['L', 'i', 'n', 'u', 'x', ' '] + ver
        },
        efi_path: seq!['/'] + name,
        options: Some(options),
        initrd: Seq::empty(),
    }
}

fn root_version(name: &str) -> (r: String)
    ensures
        r@ == root_kernel_version(name@),
{
    let cs = chars_of(name);
    let pre = ['v', 'm', 'l', 'i', 'n', 'u', 'z', '-'];
    assert(pre@ =~= vmlinuz().push('-'));
    if has_prefix(&cs, &pre) {
        assert(cs@.subrange(8, cs@.len() as int) =~= name@.skip(8));
        string_from(&cs.as_slice()[8..cs.len()])
    } else {
        String::new()
    }
}

/// The generated entry of a file on the partition root, if its name starts
/// with `vmlinuz`.
pub fn kernel_detected(name: &str, options: &str) -> (r: Option<DetectedEntry>)
    ensures
        r is Some <==> starts_with(name@, vmlinuz()),
        r matches Some(d) ==> d@ == kernel_detected_view(name@, options@),
{
    let ver = root_version(name);
    let low = str_to_lowercase(ver.as_str());
    kernel_detected_lowered(name, low.as_str(), options)
}

/// The generated entry of a file on the partition root, if its name starts
/// with `vmlinuz`, given the kernel's version in lower case.
pub fn kernel_detected_lowered(name: &str, lowered_ver: &str, options: &str) -> (r: Option<DetectedEntry>)
    ensures
        r is Some <==> starts_with(name@, vmlinuz()),
        r matches Some(d) ==> d@ == kernel_detected_view_lowered(name@, lowered_ver@, options@),
{
    let cs = chars_of(name);
    let pre = ['v', 'm', 'l', 'i', 'n', 'u', 'z', '-'];
    assert(pre@ =~= vmlinuz().push('-'));
    assert(pre@.subrange(0, 7) =~= vmlinuz());
    if !has_prefix(&cs, &pre.as_slice()[0..7]) {
        return None;
    }
    let ver = root_version(name);
    proof {
        reveal_strlit("linux");
        reveal_strlit("linux-");
        reveal_strlit("Linux");
        reveal_strlit("Linux ");
        reveal_strlit("/");
    }
    let mut entry_name = String::new();
    let mut title = String::new();
    if ver.as_str().is_empty() {
        push_str(&mut entry_name, "linux");
        push_str(&mut title, "Linux");
    } else {
        push_str(&mut entry_name, "linux-");
        push_str(&mut entry_name, lowered_ver);
        push_str(&mut title, "Linux ");
        push_str(&mut title, ver.as_str());
    }
    let mut path = String::new();
    push_str(&mut path, "/");
    push_str(&mut path, name);
    let mut opts = String::new();
    push_str(&mut opts, options);
    let d = DetectedEntry {
        name: entry_name,
        title,
        efi_path: path,
        options: Some(opts),
        initrd: Vec::new(),
    };
    assert(d@.initrd =~= Seq::<Seq<char>>::empty());
    assert(d@ =~= kernel_detected_view_lowered(name@, lowered_ver@, options@));
    Some(d)
}

/// The first kernel file (a name starting with `vmlinuz`) of a listing of
/// the partition root, as a partition path.
pub open spec fn first_root_kernel(names: Seq<Seq<char>>, from: int) -> Option<Seq<char>>
    decreases names.len() - from,
{
    if from < 0 || from >= names.len() {
        None
    } else if starts_with(names[from], vmlinuz()) {
        Some(seq!['/'] + names[from])
    } else {
        first_root_kernel(names, from + 1)
    }
}

/// The path of the first kernel file in a listing of the partition root.
pub fn root_kernel_path(names: &Vec<String>) -> (r: Option<String>)
    ensures
        match r {
            Some(p) => first_root_kernel(strings_view(names@), 0) == Some(p@),
            None => first_root_kernel(strings_view(names@), 0) is None,
        },
{
    let ghost v = strings_view(names@);
    let pre = ['v', 'm', 'l', 'i', 'n', 'u', 'z'];
    assert(pre@ =~= vmlinuz());
    let mut i: usize = 0;
    while i < names.len()
        invariant
            0 <= i <= names@.len(),
            v == strings_view(names@),
            pre@ == vmlinuz(),
            first_root_kernel(v, 0) == first_root_kernel(v, i as int),
        decreases names@.len() - i,
    {
        assert(v[i as int] == names@[i as int]@);
        let cs = chars_of(names[i].as_str());
        if has_prefix(&cs, &pre) {
            let mut p = String::new();
            push_chars(&mut p, &['/']);
            push_str(&mut p, names[i].as_str());
            return Some(p);
        }
        i = i + 1;
    }
    None
}

// ---------------------------------------------------------------------------
// Sorting names
// ---------------------------------------------------------------------------

/// `a` comes before `b` or equals it, character by character (the order of
/// `String`s, as UTF-8 bytes compare as code points do).
pub open spec fn lex_le(a: Seq<char>, b: Seq<char>) -> bool
    decreases a.len(),
{
    if a.len() == 0 {
        true
    } else if b.len() == 0 {
        false
    } else if (a[0] as u32) != (b[0] as u32) {
        (a[0] as u32) < (b[0] as u32)
    } else {
        lex_le(a.drop_first(), b.drop_first())
    }
}

pub proof fn lemma_lex_total(a: Seq<char>, b: Seq<char>)
    ensures
        lex_le(a, b) || lex_le(b, a),
    decreases a.len(),
{
    if a.len() > 0 && b.len() > 0 && (a[0] as u32) == (b[0] as u32) {
        lemma_lex_total(a.drop_first(), b.drop_first());
    }
}

pub proof fn lemma_lex_trans(a: Seq<char>, b: Seq<char>, c: Seq<char>)
    requires
        lex_le(a, b),
        lex_le(b, c),
    ensures
        lex_le(a, c),
    decreases a.len(),
{
    if a.len() > 0 && b.len() > 0 && c.len() > 0 && (a[0] as u32) == (b[0] as u32) && (b[0]
        as u32) == (c[0] as u32) {
        lemma_lex_trans(a.drop_first(), b.drop_first(), c.drop_first());
    }
}

fn lex_le_of(a: &[char], b: &[char]) -> (r: bool)
    ensures
        r == lex_le(a@, b@),
{
    let mut i: usize = 0;
    assert(a@.skip(0) =~= a@);
    assert(b@.skip(0) =~= b@);
    while i < a.len()
        invariant
            0 <= i <= a@.len(),
            i <= b@.len(),
            lex_le(a@, b@) == lex_le(a@.skip(i as int), b@.skip(i as int)),
        decreases a@.len() - i,
    {
        if i >= b.len() {
            return false;
        }
        assert(a@.skip(i as int)[0] == a@[i as int]);
        assert(b@.skip(i as int)[0] == b@[i as int]);
        let x = a[i] as u32;
        let y = b[i] as u32;
        if x != y {
            return x < y;
        }
        assert(a@.skip(i as int).drop_first() =~= a@.skip(i + 1));
        assert(b@.skip(i as int).drop_first() =~= b@.skip(i + 1));
        i = i + 1;
    }
    assert(a@.skip(i as int).len() == 0);
    true
}

/// The names in order, each pair in `lex_le` order.
pub open spec fn sorted_names(s: Seq<Seq<char>>) -> bool {
    forall|i: int, j: int| 0 <= i < j < s.len() ==> lex_le(#[trigger] s[i], #[trigger] s[j])
}

/// The names sorted, as `Vec::sort` orders `String`s.
pub fn sort_names(v: &Vec<String>) -> (r: Vec<String>)
    ensures
        sorted_names(strings_view(r@)),
        strings_view(r@).to_multiset() == strings_view(v@).to_multiset(),
{
    broadcast use vstd::seq_lib::to_multiset_build, vstd::seq_lib::to_multiset_insert;

    let ghost vv = strings_view(v@);
    let mut out: Vec<String> = Vec::new();
    let mut i: usize = 0;
    assert(vv.take(0) =~= Seq::<Seq<char>>::empty());
    assert(strings_view(out@) =~= Seq::<Seq<char>>::empty());
    while i < v.len()
        invariant
            0 <= i <= v@.len(),
            vv == strings_view(v@),
            sorted_names(strings_view(out@)),
            strings_view(out@).to_multiset() == vv.take(i as int).to_multiset(),
        decreases v@.len() - i,
    {
        let x = v[i].clone();
        assert(vv[i as int] == x@);
        let xc = chars_of(x.as_str());
        let ghost ov = strings_view(out@);
        let mut p: usize = 0;
        while p < out.len()
            invariant
                0 <= p <= out@.len(),
                ov == strings_view(out@),
                xc@ == x@,
                forall|k: int| 0 <= k < p ==> lex_le(#[trigger] ov[k], x@),
            ensures
                0 <= p <= out@.len(),
                forall|k: int| 0 <= k < p ==> lex_le(#[trigger] ov[k], x@),
                p < out@.len() ==> !lex_le(ov[p as int], x@),
            decreases out@.len() - p,
        {
            assert(ov[p as int] == out@[p as int]@);
            let oc = chars_of(out[p].as_str());
            if !lex_le_of(&oc, &xc) {
                break;
            }
            p = p + 1;
        }
        assert(p < ov.len() ==> lex_le(x@, ov[p as int])) by {
            if p < ov.len() {
                lemma_lex_total(ov[p as int], x@);
            }
        }
        let ghost xv = x@;
        out.insert(p, x);
        let ghost nv = strings_view(out@);
        assert(nv =~= ov.insert(p as int, xv));
        assert forall|a: int, b: int| 0 <= a < b < nv.len() implies lex_le(
            #[trigger] nv[a],
            #[trigger] nv[b],
        ) by {
            if b < p {
                assert(nv[a] == ov[a] && nv[b] == ov[b]);
            } else if b == p {
                assert(nv[a] == ov[a]);
            } else if a < p {
                assert(nv[a] == ov[a] && nv[b] == ov[b - 1]);
                if p < ov.len() {
                    lemma_lex_trans(ov[a], xv, ov[p as int]);
                    if b - 1 > p {
                        lemma_lex_trans(ov[a], ov[p as int], ov[b - 1]);
                    }
                }
            } else if a == p {
                assert(nv[b] == ov[b - 1]);
                if b - 1 > p {
                    lemma_lex_trans(xv, ov[p as int], ov[b - 1]);
                }
            } else {
                assert(nv[a] == ov[a - 1] && nv[b] == ov[b - 1]);
            }
        }
        assert(vv.take(i + 1) =~= vv.take(i as int).push(xv));
        proof {
            vstd::seq_lib::to_multiset_insert(ov, p as int, xv);
            vstd::seq_lib::to_multiset_build(vv.take(i as int), xv);
        }
        i = i + 1;
    }
    assert(vv.take(v@.len() as int) =~= vv);
    out
}

// ---------------------------------------------------------------------------
// The running system
// ---------------------------------------------------------------------------

pub open spec fn id_eq() -> Seq<char> {
    seq!['I', 'D', '=']
}

pub open spec fn name_eq() -> Seq<char> {
    seq!['N', 'A', 'M', 'E', '=']
}

/// The `ID=` and `NAME=` values of the first `k` lines of `os-release`,
/// the last of each kept, without quotes.
pub open spec fn os_fields(lines: Seq<Seq<char>>, k: int) -> (Option<Seq<char>>, Option<Seq<char>>)
    decreases k,
{
    if k <= 0 {
        (None, None)
    } else {
        let (id, name) = os_fields(lines, k - 1);
        let l = lines[k - 1];
        let id2 = if starts_with(l, id_eq()) {
            Some(crate::text::spec_trim_char(l.skip(3), '"'))
        } else {
            id
        };
        let name2 = if starts_with(l, name_eq()) {
            Some(crate::text::spec_trim_char(l.skip(5), '"'))
        } else {
            name
        };
        (id2, name2)
    }
}

/// The running system's ID and name from the `ID=` value in lower case
/// and the `NAME=` value: `linux` and `Linux` where a field is missing.
pub open spec fn os_identity_with(id: Option<Seq<char>>, name: Option<Seq<char>>) -> (Seq<char>, Seq<char>) {
    (
        match id {
            Some(i) => i,
            None => seq!['l', 'i', 'n', 'u', 'x'],
        },
        match name {
            Some(n) => n,
            None => seq!['L', 'i', 'n', 'u', 'x'],
        },
    )
}

/// The running system's ID (in lower case) and name from the contents of
/// `os-release`: `linux` and `Linux` where a field is missing.
pub open spec fn os_identity(content: Seq<char>) -> (Seq<char>, Seq<char>) {
    let ls = text_lines(content);
    let (id, name) = os_fields(ls, ls.len() as int);
    os_identity_with(
        match id {
            Some(i) => Some(lowercase_of(i)),
            None => None,
        },
        name,
    )
}

/// The `ID=` and `NAME=` values of `os-release`, the last of each, without
/// quotes.
pub fn os_release_fields(content: &str) -> (r: (Option<String>, Option<String>))
    ensures
        ({
            let ls = text_lines(content@);
            os_fields(ls, ls.len() as int) == (
                match r.0 {
                    Some(s) => Some(s@),
                    None => None::<Seq<char>>,
                },
                match r.1 {
                    Some(s) => Some(s@),
                    None => None::<Seq<char>>,
                },
            )
        }),
{
    let lines = lines_of(content);
    let ghost lv = lines@.map_values(|v: Vec<char>| v@);
    let ide = ['I', 'D', '='];
    let ne = ['N', 'A', 'M', 'E', '='];
    assert(ide@ =~= id_eq());
    assert(ne@ =~= name_eq());
    let mut id: Option<String> = None;
    let mut name: Option<String> = None;
    let mut i: usize = 0;
    while i < lines.len()
        invariant
            0 <= i <= lines@.len(),
            lv == lines@.map_values(|v: Vec<char>| v@),
            ide@ == id_eq(),
            ne@ == name_eq(),
            os_fields(lv, i as int) == (
                match id {
                    Some(s) => Some(s@),
                    None => None::<Seq<char>>,
                },
                match name {
                    Some(s) => Some(s@),
                    None => None::<Seq<char>>,
                },
            ),
        decreases lines@.len() - i,
    {
        assert(lv[i as int] == lines@[i as int]@);
        let l = lines[i].as_slice();
        if has_prefix(l, &ide) {
            let v = &l[3..l.len()];
            assert(v@ =~= lv[i as int].skip(3));
            let t = crate::text::trim_char(v, '"');
            id = Some(string_from(t));
        }
        if has_prefix(l, &ne) {
            let v = &l[5..l.len()];
            assert(v@ =~= lv[i as int].skip(5));
            let t = crate::text::trim_char(v, '"');
            name = Some(string_from(t));
        }
        i = i + 1;
    }
    assert(lv == text_lines(content@));
    proof {
        assert(lv.len() == lines@.len());
    }
    (id, name)
}

/// The running system's ID and name from the `ID=` value in lower case and
/// the `NAME=` value, with `linux` and `Linux` where one is missing.
pub fn os_identity_of(id: Option<String>, name: Option<String>) -> (r: (String, String))
    ensures
        (r.0@, r.1@) == os_identity_with(
            match id {
                Some(s) => Some(s@),
                None => None,
            },
            match name {
                Some(s) => Some(s@),
                None => None,
            },
        ),
{
    let a = match id {
        Some(s) => s,
        None => {
            let mut s = String::new();
            push_str(&mut s, "linux");
            proof {
                reveal_strlit("linux");
            }
            s
        },
    };
    let b = match name {
        Some(s) => s,
        None => {
            let mut s = String::new();
            push_str(&mut s, "Linux");
            proof {
                reveal_strlit("Linux");
            }
            s
        },
    };
    (a, b)
}

/// The running system's ID and name, read from the contents of
/// `/etc/os-release`.
pub fn current_os_from(content: &str) -> (r: (String, String))
    ensures
        (r.0@, r.1@) == os_identity(content@),
{
    let (id, name) = os_release_fields(content);
    let low = match id {
        Some(s) => Some(str_to_lowercase(s.as_str())),
        None => None,
    };
    os_identity_of(low, name)
}

/// The kernel of the running system's entry: the running kernel if it is on
/// the boot partition (with its initramfs there, if found), else the first
/// kernel on the partition root; none if neither.
pub open spec fn running_kernel(
    on_boot: Option<Seq<char>>,
    initrd_on_boot: Option<Seq<char>>,
    on_root: Option<Seq<char>>,
) -> Option<(Seq<char>, Seq<Seq<char>>)> {
    match on_boot {
        Some(p) => Some(
            (
                p,
                match initrd_on_boot {
                    Some(i) => seq![i],
                    None => Seq::empty(),
                },
            ),
        ),
        None => match on_root {
            Some(p) => Some((p, Seq::empty())),
            None => None,
        },
    }
}

/// The generated entry for the running system: its ID and name, the kernel
/// that `running_kernel` picks (if that path is not empty) and the options.
pub open spec fn running_entry_view(
    os: (Seq<char>, Seq<char>),
    kernel: Option<(Seq<char>, Seq<Seq<char>>)>,
    options: Seq<char>,
) -> Option<DetectedView> {
    match kernel {
        Some((path, initrd)) => if path.len() > 0 {
            Some(
                DetectedView {
                    name: os.0,
                    title: os.1,
                    efi_path: path,
                    options: Some(options),
                    initrd,
                },
            )
        } else {
            None
        },
        None => None,
    }
}

/// The generated entry for the running system.
pub fn running_entry(
    os_id: &str,
    os_name: &str,
    on_boot: Option<&str>,
    initrd_on_boot: Option<&str>,
    on_root: Option<&str>,
    options: &str,
) -> (r: Option<DetectedEntry>)
    ensures
        match r {
            Some(d) => running_entry_view(
                (os_id@, os_name@),
                running_kernel(
                    match on_boot {
                        Some(p) => Some(p@),
                        None => None,
                    },
                    match initrd_on_boot {
                        Some(p) => Some(p@),
                        None => None,
                    },
                    match on_root {
                        Some(p) => Some(p@),
                        None => None,
                    },
                ),
                options@,
            ) == Some(d@),
            None => running_entry_view(
                (os_id@, os_name@),
                running_kernel(
                    match on_boot {
                        Some(p) => Some(p@),
                        None => None,
                    },
                    match initrd_on_boot {
                        Some(p) => Some(p@),
                        None => None,
                    },
                    match on_root {
                        Some(p) => Some(p@),
                        None => None,
                    },
                ),
                options@,
            ) is None,
        },
{
    let (path, initrd): (&str, Vec<String>) = match on_boot {
        Some(p) => {
            let mut v: Vec<String> = Vec::new();
            match initrd_on_boot {
                Some(i) => {
                    let mut s = String::new();
                    push_str(&mut s, i);
                    v.push(s);
                },
                None => {},
            }
            (p, v)
        },
        None => match on_root {
            Some(p) => (p, Vec::new()),
            None => {
                return None;
            },
        },
    };
    if path.is_empty() {
        return None;
    }
    let mut name = String::new();
    push_str(&mut name, os_id);
    let mut title = String::new();
    push_str(&mut title, os_name);
    let mut efi = String::new();
    push_str(&mut efi, path);
    let mut opts = String::new();
    push_str(&mut opts, options);
    let d = DetectedEntry { name, title, efi_path: efi, options: Some(opts), initrd };
    proof {
        match initrd_on_boot {
            Some(i) => {
                if on_boot is Some {
                    assert(d@.initrd =~= seq![i@]);
                }
            },
            None => {
                assert(d@.initrd =~= Seq::<Seq<char>>::empty());
            },
        }
        if on_boot is None {
            assert(d@.initrd =~= Seq::<Seq<char>>::empty());
        }
    }
    Some(d)
}


// ---------------------------------------------------------------------------
// Kernel options for the running system
// ---------------------------------------------------------------------------

pub open spec fn root_eq() -> Seq<char> {
    seq!['r', 'o', 'o', 't', '=']
}

/// The running kernel's command line (trimmed) is used for generated
/// entries when it names a root and is not an install medium's.
pub open spec fn spec_uses_running_cmdline(cmdline: Seq<char>) -> bool {
    let c = crate::text::spec_trim(cmdline);
    has_word_with_prefix(split_words(c), root_eq()) && !spec_in_live_env(c)
}

/// Whether the running kernel's command line is used for generated entries.
pub fn uses_running_cmdline(cmdline: &str) -> (r: bool)
    ensures
        r == spec_uses_running_cmdline(cmdline@),
{
    let cs = chars_of(cmdline);
    let c = crate::text::trim(&cs);
    let ws = split_whitespace(c);
    let pre = ['r', 'o', 'o', 't', '='];
    assert(pre@ =~= root_eq());
    let cstr = string_from(c);
    any_word_with_prefix(&ws, &pre) && !in_live_env(cstr.as_str())
}

/// The options of generated Linux entries: from the running command line
/// when it is used, else from the root parameter found for `/` (or from
/// nothing).
pub open spec fn spec_linux_options(cmdline: Seq<char>, root: Option<Seq<char>>) -> Seq<char> {
    if spec_uses_running_cmdline(cmdline) {
        spec_linux_options_from(crate::text::spec_trim(cmdline))
    } else {
        match root {
            Some(r) => spec_linux_options_from(r),
            None => spec_linux_options_from(Seq::empty()),
        }
    }
}

/// The options of generated Linux entries, from the contents of
/// `/proc/cmdline` and the root parameter found for `/`, if any.
pub fn linux_options(cmdline: &str, root: Option<&str>) -> (r: String)
    ensures
        r@ == spec_linux_options(
            cmdline@,
            match root {
                Some(x) => Some(x@),
                None => None,
            },
        ),
{
    if uses_running_cmdline(cmdline) {
        let cs = chars_of(cmdline);
        let c = string_from(crate::text::trim(&cs));
        build_linux_options_from(c.as_str())
    } else {
        match root {
            Some(x) => build_linux_options_from(x),
            None => {
                proof {
                    reveal_strlit("");
                }
                build_linux_options_from("")
            },
        }
    }
}

/// `root=UUID=U` when blkid reported a UUID (its output trimmed), else
/// `root=DEVICE`.
pub open spec fn spec_root_param(blkid: Option<Seq<char>>, device: Seq<char>) -> Seq<char> {
    match blkid {
        Some(out) => {
            let uuid = crate::text::spec_trim(out);
            if uuid.len() > 0 {
                seq!['r', 'o', 'o', 't', '=', 'U', 'U', 'I', 'D', '='] + uuid
            } else {
                root_eq() + device
            }
        },
        None => root_eq() + device,
    }
}

/// The kernel's root parameter for the device of `/`, from what `blkid`
/// printed (none if it could not be run).
pub fn root_param(blkid: Option<&str>, device: &str) -> (r: String)
    ensures
        r@ == spec_root_param(
            match blkid {
                Some(x) => Some(x@),
                None => None,
            },
            device@,
        ),
{
    let mut r = String::new();
    proof {
        reveal_strlit("root=UUID=");
        reveal_strlit("root=");
    }
    match blkid {
        Some(out) => {
            let cs = chars_of(out);
            let uuid = crate::text::trim(&cs);
            if uuid.len() > 0 {
                push_str(&mut r, "root=UUID=");
                push_chars(&mut r, uuid);
                return r;
            }
        },
        None => {},
    }
    push_str(&mut r, "root=");
    push_str(&mut r, device);
    r
}

/// What `mountpoint -d /` printed, trimmed, when that is not empty.
pub fn mount_target(output: &str) -> (r: Option<String>)
    ensures
        match r {
            Some(t) => t@ == crate::text::spec_trim(output@) && t@.len() > 0,
            None => crate::text::spec_trim(output@).len() == 0,
        },
{
    let cs = chars_of(output);
    let t = crate::text::trim(&cs);
    if t.len() > 0 {
        Some(string_from(t))
    } else {
        None
    }
}

/// `pat` occurs in `s`.
pub open spec fn has_substring(s: Seq<char>, pat: Seq<char>) -> bool {
    exists|i: int| 0 <= i <= s.len() - pat.len() && #[trigger] s.subrange(i, i + pat.len()) == pat
}

fn contains_str(s: &[char], pat: &[char]) -> (r: bool)
    ensures
        r == has_substring(s@, pat@),
{
    if pat.len() > s.len() {
        return false;
    }
    let last = s.len() - pat.len();
    let plen = pat.len();
    let slen = s.len();
    let mut i: usize = 0;
    loop
        invariant
            plen == pat@.len(),
            slen == s@.len(),
            pat@.len() <= s@.len(),
            last == s@.len() - pat@.len(),
            0 <= i <= last,
            forall|j: int| 0 <= j < i ==> #[trigger] s@.subrange(j, j + pat@.len()) != pat@,
        decreases last - i,
    {
        let piece = &s[i..i + plen];
        if crate::text::chars_eq(piece, pat) {
            assert(s@.subrange(i as int, i + pat@.len()) == pat@);
            return true;
        }
        if i == last {
            return false;
        }
        i = i + 1;
    }
}

/// The position of the first field that is `w`.
pub open spec fn field_position(fields: Seq<Seq<char>>, w: Seq<char>, from: int) -> Option<int>
    decreases fields.len() - from,
{
    if from < 0 || from >= fields.len() {
        None
    } else if fields[from] == w {
        Some(from)
    } else {
        field_position(fields, w, from + 1)
    }
}

/// The source of a `mountinfo` line mounted from `target` (the third
/// field): the second field after the `-` separator, when it is a real
/// device (under `/dev/`, not a loop or RAM disk).
pub open spec fn mount_source(fields: Seq<Seq<char>>, target: Seq<char>) -> Option<Seq<char>> {
    if fields.len() >= 4 && fields[2] == target {
        match field_position(fields, seq!['-'], 0) {
            Some(d) => if d + 3 < fields.len() {
                let src = fields[d + 2];
                if starts_with(src, seq!['/', 'd', 'e', 'v', '/']) && !has_substring(
                    src,
                    seq!['/', 'l', 'o', 'o', 'p'],
                ) && !has_substring(src, seq!['/', 'r', 'a', 'm']) {
                    Some(src)
                } else {
                    None
                }
            } else {
                None
            },
            None => None,
        }
    } else {
        None
    }
}

/// The device of the first line of `mountinfo` that gives one for
/// `target`.
pub open spec fn spec_root_device(lines: Seq<Seq<char>>, target: Seq<char>, from: int) -> Option<
    Seq<char>,
>
    decreases lines.len() - from,
{
    if from < 0 || from >= lines.len() {
        None
    } else {
        match mount_source(split_words(lines[from]), target) {
            Some(src) => Some(src),
            None => spec_root_device(lines, target, from + 1),
        }
    }
}

fn mount_source_of(fields: &Vec<String>, target: &str) -> (r: Option<String>)
    ensures
        match r {
            Some(s) => mount_source(strings_view(fields@), target@) == Some(s@),
            None => mount_source(strings_view(fields@), target@) is None,
        },
{
    let ghost fv = strings_view(fields@);
    if fields.len() < 4 {
        return None;
    }
    assert(fv[2] == fields@[2]@);
    let f2 = chars_of(fields[2].as_str());
    let t = chars_of(target);
    if !crate::text::chars_eq(&f2, &t) {
        return None;
    }
    let mut d: usize = 0;
    let dash = ['-'];
    assert(dash@ =~= seq!['-']);
    while d < fields.len()
        invariant
            0 <= d <= fields@.len(),
            fv == strings_view(fields@),
            dash@ == seq!['-'],
            field_position(fv, seq!['-'], 0) == field_position(fv, seq!['-'], d as int),
        ensures
            0 <= d <= fields@.len(),
            d < fields@.len() ==> field_position(fv, seq!['-'], 0) == Some(d as int),
            d == fields@.len() ==> field_position(fv, seq!['-'], 0) is None,
        decreases fields@.len() - d,
    {
        assert(fv[d as int] == fields@[d as int]@);
        let f = chars_of(fields[d].as_str());
        if crate::text::chars_eq(&f, &dash) {
            break;
        }
        d = d + 1;
    }
    if d >= fields.len() {
        return None;
    }
    if fields.len() - d <= 3 {
        return None;
    }
    assert(fv[d + 2] == fields@[d + 2]@);
    let src = chars_of(fields[d + 2].as_str());
    let dev = ['/', 'd', 'e', 'v', '/'];
    let lp = ['/', 'l', 'o', 'o', 'p'];
    let ram = ['/', 'r', 'a', 'm'];
    assert(dev@ =~= seq!['/', 'd', 'e', 'v', '/']);
    assert(lp@ =~= seq!['/', 'l', 'o', 'o', 'p']);
    assert(ram@ =~= seq!['/', 'r', 'a', 'm']);
    if has_prefix(&src, &dev) && !contains_str(&src, &lp) && !contains_str(&src, &ram) {
        Some(string_from(&src))
    } else {
        None
    }
}

/// The device mounted at `/`, from the contents of `/proc/self/mountinfo`
/// and the device numbers `mountpoint -d /` printed.
pub fn root_device_from(mountinfo: &str, target: &str) -> (r: Option<String>)
    ensures
        match r {
            Some(s) => spec_root_device(text_lines(mountinfo@), target@, 0) == Some(s@),
            None => spec_root_device(text_lines(mountinfo@), target@, 0) is None,
        },
{
    let lines = lines_of(mountinfo);
    let ghost lv = lines@.map_values(|v: Vec<char>| v@);
    let mut i: usize = 0;
    while i < lines.len()
        invariant
            0 <= i <= lines@.len(),
            lv == lines@.map_values(|v: Vec<char>| v@),
            lv == text_lines(mountinfo@),
            spec_root_device(lv, target@, 0) == spec_root_device(lv, target@, i as int),
        decreases lines@.len() - i,
    {
        assert(lv[i as int] == lines@[i as int]@);
        let fields = split_whitespace(lines[i].as_slice());
        match mount_source_of(&fields, target) {
            Some(src) => {
                return Some(src);
            },
            None => {},
        }
        i = i + 1;
    }
    None
}

/// Some line of `/proc/mounts` has at least three fields and mounts at
/// `candidate` (its second field).
pub open spec fn spec_is_mounted(lines: Seq<Seq<char>>, candidate: Seq<char>) -> bool {
    exists|i: int|
        0 <= i < lines.len() && #[trigger] split_words(lines[i]).len() >= 3 && split_words(
            lines[i],
        )[1] == candidate
}

/// Whether something is mounted at `candidate`, from the contents of
/// `/proc/mounts`.
pub fn is_mounted(mounts: &str, candidate: &str) -> (r: bool)
    ensures
        r == spec_is_mounted(text_lines(mounts@), candidate@),
{
    let lines = lines_of(mounts);
    let ghost lv = lines@.map_values(|v: Vec<char>| v@);
    let c = chars_of(candidate);
    let mut i: usize = 0;
    while i < lines.len()
        invariant
            0 <= i <= lines@.len(),
            lv == lines@.map_values(|v: Vec<char>| v@),
            lv == text_lines(mounts@),
            c@ == candidate@,
            forall|j: int|
                0 <= j < i ==> !(#[trigger] split_words(lv[j]).len() >= 3 && split_words(lv[j])[1]
                    == candidate@),
        decreases lines@.len() - i,
    {
        assert(lv[i as int] == lines@[i as int]@);
        let parts = split_whitespace(lines[i].as_slice());
        if parts.len() >= 3 {
            assert(strings_view(parts@)[1] == parts@[1]@);
            let p1 = chars_of(parts[1].as_str());
            if crate::text::chars_eq(&p1, &c) {
                assert(split_words(lv[i as int]).len() >= 3 && split_words(lv[i as int])[1]
                    == candidate@);
                return true;
            }
        }
        i = i + 1;
    }
    false
}

// ---------------------------------------------------------------------------
// Installing and removing
// ---------------------------------------------------------------------------

/// The arguments of `install`.
pub struct InstallArgs {
    pub boot_path: Option<String>,
    pub disk: Option<String>,
    pub bios_path: Option<String>,
    pub no_build: bool,
    pub no_config: bool,
}

/// Where the boot manager binary for `install` comes from.
#[derive(Debug, PartialEq, Eq)]
pub enum BiosSource {
    /// The path given with `--bios`.
    Given(String),
    /// `--no-build` without `--bios`: an error.
    Missing,
    /// Look next to the tool, then download, then build.
    Locate,
}

/// The binary given with `--bios` is used; without it, `--no-build` is an
/// error; otherwise the binary is looked for.
pub fn bios_source(args: &InstallArgs) -> (r: BiosSource)
    ensures
        match args.bios_path {
            Some(p) => r matches BiosSource::Given(q) && q@ == p@,
            None => if args.no_build {
                r is Missing
            } else {
                r is Locate
            },
        },
{
    match &args.bios_path {
        Some(p) => BiosSource::Given(p.clone()),
        None => if args.no_build {
            BiosSource::Missing
        } else {
            BiosSource::Locate
        },
    }
}

pub open spec fn bios_file_name() -> Seq<char> {
    seq!['n', 'e', 'x', 'e', 'c', '-', 'l', 'g', 'c', '-', 'b', 'i', 'o', 's']
}

/// Where `install` puts the boot manager binary on the boot partition.
pub fn installed_bios_path(boot: &str) -> (r: String)
    ensures
        r@ == boot_root(boot@) + install_subdir() + seq!['/'] + bios_file_name(),
{
    let mut r = install_dir(boot);
    push_str(&mut r, "/nexec-lgc-bios");
    proof {
        reveal_strlit("/nexec-lgc-bios");
        assert(r@ =~= boot_root(boot@) + install_subdir() + seq!['/'] + bios_file_name());
    }
    r
}

/// `DIR/NAME.conf`, where `install` writes a generated entry.
pub fn entry_conf_path(dir: &str, name: &str) -> (r: String)
    ensures
        r@ == dir@ + seq!['/'] + name@ + dot_conf(),
{
    let mut r = String::new();
    push_str(&mut r, dir);
    push_chars(&mut r, &['/']);
    push_str(&mut r, name);
    push_str(&mut r, ".conf");
    proof {
        reveal_strlit(".conf");
        assert(r@ =~= dir@ + seq!['/'] + name@ + dot_conf());
    }
    r
}

/// The configuration files that `remove --all` deletes: the partition's
/// `nexec.conf`, then the installed one.
pub fn config_files_to_remove(boot: &str) -> (r: (String, String))
    ensures
        r.0@ == boot_root(boot@) + seq!['/'] + seq!['n', 'e', 'x', 'e', 'c', '.', 'c', 'o', 'n', 'f'],
        r.1@ == boot_root(boot@) + install_subdir() + seq!['/'] + seq![
            'n', 'e', 'x', 'e', 'c', '.', 'c', 'o', 'n', 'f',
        ],
{
    let mut a = boot_root_of(boot);
    push_str(&mut a, "/nexec.conf");
    let mut b = install_dir(boot);
    push_str(&mut b, "/nexec.conf");
    proof {
        reveal_strlit("/nexec.conf");
        assert(a@ =~= boot_root(boot@) + seq!['/'] + seq![
            'n', 'e', 'x', 'e', 'c', '.', 'c', 'o', 'n', 'f',
        ]);
        assert(b@ =~= boot_root(boot@) + install_subdir() + seq!['/'] + seq![
            'n', 'e', 'x', 'e', 'c', '.', 'c', 'o', 'n', 'f',
        ]);
    }
    (a, b)
}

/// The arguments of the `dd` that writes the boot sector of the binary to
/// the disk's MBR.
pub fn mbr_write_args(binary: &str, disk: &str) -> (r: Vec<String>)
    ensures
        strings_view(r@) == seq![
            seq!['i', 'f', '='] + binary@,
            seq!['o', 'f', '='] + disk@,
            seq!['b', 's', '=', '5', '1', '2'],
            seq!['c', 'o', 'u', 'n', 't', '=', '1'],
            seq!['c', 'o', 'n', 'v', '=', 'n', 'o', 't', 'r', 'u', 'n', 'c'],
        ],
{
    let mut a = String::new();
    push_str(&mut a, "if=");
    push_str(&mut a, binary);
    let mut b = String::new();
    push_str(&mut b, "of=");
    push_str(&mut b, disk);
    let mut c = String::new();
    push_str(&mut c, "bs=512");
    let mut d = String::new();
    push_str(&mut d, "count=1");
    let mut e = String::new();
    push_str(&mut e, "conv=notrunc");
    proof {
        reveal_strlit("if=");
        reveal_strlit("of=");
        reveal_strlit("bs=512");
        reveal_strlit("count=1");
        reveal_strlit("conv=notrunc");
    }
    assert(a@ =~= seq!['i', 'f', '='] + binary@);
    assert(b@ =~= seq!['o', 'f', '='] + disk@);
    assert(c@ =~= seq!['b', 's', '=', '5', '1', '2']);
    assert(d@ =~= seq!['c', 'o', 'u', 'n', 't', '=', '1']);
    assert(e@ =~= seq!['c', 'o', 'n', 'v', '=', 'n', 'o', 't', 'r', 'u', 'n', 'c']);
    let r = vec![a, b, c, d, e];
    assert(strings_view(r@) =~= seq![
        seq!['i', 'f', '='] + binary@,
        seq!['o', 'f', '='] + disk@,
        seq!['b', 's', '=', '5', '1', '2'],
        seq!['c', 'o', 'u', 'n', 't', '=', '1'],
        seq!['c', 'o', 'n', 'v', '=', 'n', 'o', 't', 'r', 'u', 'n', 'c'],
    ]);
    r
}

/// Where `install` keeps the boot sector it replaces: `mbr.bak` in the
/// install directory.
pub fn mbr_backup_path(boot: &str) -> (r: String)
    ensures
        r@ == boot_root(boot@) + install_subdir() + seq!['/', 'm', 'b', 'r', '.', 'b', 'a', 'k'],
{
    let mut r = install_dir(boot);
    push_str(&mut r, "/mbr.bak");
    proof {
        reveal_strlit("/mbr.bak");
        assert(r@ =~= boot_root(boot@) + install_subdir() + seq!['/', 'm', 'b', 'r', '.', 'b', 'a', 'k']);
    }
    r
}

/// Where `install` notes the disk whose boot sector it replaced:
/// `mbr.disk` in the install directory.
pub fn mbr_disk_path(boot: &str) -> (r: String)
    ensures
        r@ == boot_root(boot@) + install_subdir() + seq!['/', 'm', 'b', 'r', '.', 'd', 'i', 's', 'k'],
{
    let mut r = install_dir(boot);
    push_str(&mut r, "/mbr.disk");
    proof {
        reveal_strlit("/mbr.disk");
        assert(r@ =~= boot_root(boot@) + install_subdir() + seq!['/', 'm', 'b', 'r', '.', 'd', 'i', 's', 'k']);
    }
    r
}

/// The arguments of `dd` that copy the first sector of `disk` to `backup`.
pub fn mbr_save_args(disk: &str, backup: &str) -> (r: Vec<String>)
    ensures
        strings_view(r@) == seq![
            seq!['i', 'f', '='] + disk@,
            seq!['o', 'f', '='] + backup@,
            seq!['b', 's', '=', '5', '1', '2'],
            seq!['c', 'o', 'u', 'n', 't', '=', '1'],
        ],
{
    let mut a = String::new();
    push_str(&mut a, "if=");
    push_str(&mut a, disk);
    let mut b = String::new();
    push_str(&mut b, "of=");
    push_str(&mut b, backup);
    let mut c = String::new();
    push_str(&mut c, "bs=512");
    let mut d = String::new();
    push_str(&mut d, "count=1");
    proof {
        reveal_strlit("if=");
        reveal_strlit("of=");
        reveal_strlit("bs=512");
        reveal_strlit("count=1");
    }
    assert(a@ =~= seq!['i', 'f', '='] + disk@);
    assert(b@ =~= seq!['o', 'f', '='] + backup@);
    assert(c@ =~= seq!['b', 's', '=', '5', '1', '2']);
    assert(d@ =~= seq!['c', 'o', 'u', 'n', 't', '=', '1']);
    let r = vec![a, b, c, d];
    assert(strings_view(r@) =~= seq![
        seq!['i', 'f', '='] + disk@,
        seq!['o', 'f', '='] + backup@,
        seq!['b', 's', '=', '5', '1', '2'],
        seq!['c', 'o', 'u', 'n', 't', '=', '1'],
    ]);
    r
}

/// Where `config init` writes the main file: into the given directory
/// (`nexec.conf` joined as a path component; an empty output names the
/// current directory) unless the output is a path
/// ending in `nexec.conf` that is not a directory.
pub open spec fn init_main_path(output: Seq<char>, is_dir: bool) -> Seq<char> {
    let name = seq!['n', 'e', 'x', 'e', 'c', '.', 'c', 'o', 'n', 'f'];
    let joined = if output.len() == 0 || output.last() == '/' {
        output + name
    } else {
        output.push('/') + name
    };
    if ends_with(output, seq!['/']) || ends_with(output, seq!['\\']) || is_dir {
        joined
    } else if ends_with(output, name) {
        output
    } else {
        joined
    }
}

/// The main file's path for `config init` with this output argument.
pub fn init_main_path_of(output: &str, is_dir: bool) -> (r: String)
    ensures
        r@ == init_main_path(output@, is_dir),
{
    let cs = chars_of(output);
    let name = ['n', 'e', 'x', 'e', 'c', '.', 'c', 'o', 'n', 'f'];
    let slash = ['/'];
    let back = ['\\'];
    assert(slash@ =~= seq!['/']);
    assert(back@ =~= seq!['\\']);
    let mut joined = string_from(&cs);
    let n = cs.len();
    if !(n == 0 || cs[n - 1] == '/') {
        push_chars(&mut joined, &slash);
    }
    push_chars(&mut joined, &name);
    proof {
        let nm = seq!['n', 'e', 'x', 'e', 'c', '.', 'c', 'o', 'n', 'f'];
        assert(name@ =~= nm);
        if n == 0 || cs@[n - 1] == '/' {
            assert(joined@ =~= output@ + nm);
        } else {
            assert(joined@ =~= output@.push('/') + nm);
        }
    }
    if has_suffix(&cs, &slash) || has_suffix(&cs, &back) || is_dir {
        joined
    } else if has_suffix(&cs, &name) {
        string_from(&cs)
    } else {
        joined
    }
}

/// How a line of the tool's report is shown.
#[derive(Debug, Clone, Copy, PartialEq, Eq, Structural)]
pub enum Style {
    Green,
    Cyan,
    BoldCyan,
    Yellow,
    BoldGreen,
    Dim,
}

pub open spec fn styled_view(v: Seq<(Style, String)>) -> Seq<(Style, Seq<char>)> {
    v.map_values(|p: (Style, String)| (p.0, p.1@))
}

/// The report of `status`: whether the boot manager is installed on the
/// detected boot partition, or that none was detected.
pub open spec fn status_report(boot: Option<Seq<char>>, installed: bool) -> Seq<(Style, Seq<char>)> {
    let head = seq![
        (Style::BoldCyan, seq!['n', 'e', 'x', 'e', 'c', '-', 'l', 'g', 'c', ' ', 's', 't', 'a', 't', 'u', 's']),
        (Style::Dim, seq!['-', '-', '-', '-', '-', '-', '-', '-', '-', '-', '-', '-', '-', '-', '-', '-']),
    ];
    match boot {
        Some(path) => if installed {
            head.push(
                (
                    Style::Green,
                    seq![' ', ' ', 'I', 'n', 's', 't', 'a', 'l', 'l', 'e', 'd', ':', ' ', 'y', 'e', 's', ' ', '(']
                        + boot_root(path) + install_subdir() + seq!['/'] + bios_file_name()
                        + seq![')'],
                ),
            )
        } else {
            head + seq![
                (Style::Yellow, seq![' ', ' ', 'I', 'n', 's', 't', 'a', 'l', 'l', 'e', 'd', ':', ' ', 'n', 'o']),
                (
                    Style::Dim,
                    seq![' ', ' ', 'B', 'o', 'o', 't', ' ', 'p', 'a', 'r', 't', 'i', 't', 'i', 'o', 'n', ' ', 'd', 'e', 't', 'e', 'c', 't', 'e', 'd', ' ', 'a', 't', ':', ' ']
                        + path,
                ),
                (Style::Dim, seq![' ', ' ', 'R', 'u', 'n', ' ', '\'', 'n', 'e', 'x', 'e', 'c', '-', 'l', 'g', 'c', ' ', 'i', 'n', 's', 't', 'a', 'l', 'l', '\'', ' ', 't', 'o', ' ', 'i', 'n', 's', 't', 'a', 'l', 'l', '.']),
            ]
        },
        None => head + seq![
            (Style::Yellow, seq![' ', ' ', 'B', 'o', 'o', 't', ' ', 'p', 'a', 'r', 't', 'i', 't', 'i', 'o', 'n', ':', ' ', 'n', 'o', 't', ' ', 'd', 'e', 't', 'e', 'c', 't', 'e', 'd']),
            (Style::Dim, seq![' ', ' ', 'R', 'u', 'n', ' ', '\'', 'n', 'e', 'x', 'e', 'c', '-', 'l', 'g', 'c', ' ', 'i', 'n', 's', 't', 'a', 'l', 'l', ' ', '-', '-', 'b', 'o', 'o', 't', ' ', '<', 'p', 'a', 't', 'h', '>', '\'', ' ', 't', 'o', ' ', 's', 'p', 'e', 'c', 'i', 'f', 'y', ' ', 'm', 'a', 'n', 'u', 'a', 'l', 'l', 'y', '.']),
        ],
    }
}

fn styled(style: Style, text: &str) -> (r: (Style, String))
    ensures
        r.0 == style && r.1@ == text@,
{
    let mut s = String::new();
    push_str(&mut s, text);
    (style, s)
}

/// The lines of `status` for the detected boot partition (if any) and
/// whether the boot manager's binary is there.
pub fn status(boot: Option<&str>, installed: bool) -> (r: Vec<(Style, String)>)
    ensures
        styled_view(r@) == status_report(
            match boot {
                Some(b) => Some(b@),
                None => None,
            },
            installed,
        ),
{
    proof {
        reveal_strlit("nexec-lgc status");
        reveal_strlit("----------------");
        reveal_strlit("  Installed: yes (");
        reveal_strlit(")");
        reveal_strlit("  Installed: no");
        reveal_strlit("  Boot partition detected at: ");
        reveal_strlit("  Run 'nexec-lgc install' to install.");
        reveal_strlit("  Boot partition: not detected");
        reveal_strlit("  Run 'nexec-lgc install --boot <path>' to specify manually.");
    }
    let ghost bv = match boot {
        Some(b) => Some(b@),
        None => None::<Seq<char>>,
    };
    let ghost want = status_report(bv, installed);
    let mut r: Vec<(Style, String)> = Vec::new();
    let h1 = styled(Style::BoldCyan, "nexec-lgc status");
    let h2 = styled(Style::Dim, "----------------");
    assert(h1.1@ =~= want[0].1);
    assert(h2.1@ =~= want[1].1);
    r.push(h1);
    r.push(h2);
    match boot {
        Some(path) => {
            if installed {
                let mut t = String::new();
                push_str(&mut t, "  Installed: yes (");
                let p = installed_bios_path(path);
                push_str(&mut t, p.as_str());
                push_str(&mut t, ")");
                assert(t@ =~= want[2].1);
                r.push((Style::Green, t));
            } else {
                let l1 = styled(Style::Yellow, "  Installed: no");
                let mut t = String::new();
                push_str(&mut t, "  Boot partition detected at: ");
                push_str(&mut t, path);
                let l3 = styled(Style::Dim, "  Run 'nexec-lgc install' to install.");
                assert(l1.1@ =~= want[2].1);
                assert(t@ =~= want[3].1);
                assert(l3.1@ =~= want[4].1);
                r.push(l1);
                r.push((Style::Dim, t));
                r.push(l3);
            }
        },
        None => {
            let l1 = styled(Style::Yellow, "  Boot partition: not detected");
            let l2 = styled(Style::Dim, "  Run 'nexec-lgc install --boot <path>' to specify manually.");
            assert(l1.1@ =~= want[2].1);
            assert(l2.1@ =~= want[3].1);
            r.push(l1);
            r.push(l2);
        },
    }
    assert(styled_view(r@) =~= status_report(
        match boot {
            Some(b) => Some(b@),
            None => None,
        },
        installed,
    ));
    r
}


/// `name` ends with `.conf`: the files that `entry list` shows and that a
/// backup copies.
pub fn is_conf_file(name: &str) -> (r: bool)
    ensures
        r == ends_with(name@, dot_conf()),
{
    let cs = chars_of(name);
    let conf = ['.', 'c', 'o', 'n', 'f'];
    assert(conf@ =~= dot_conf());
    has_suffix(&cs, &conf)
}

/// Where the initramfs of the running kernel `/boot/NAME` is looked for, in
/// order: for `vmlinuz-V`, `/boot/initramfs-V.img` and `/boot/initrd.img-V`;
/// otherwise the three usual names.
pub open spec fn initrd_patterns(kernel_name: Seq<char>) -> Seq<Seq<char>> {
    let stem = root_kernel_version(kernel_name);
    if stem.len() == 0 {
        seq![
            seq!['/', 'b', 'o', 'o', 't', '/', 'i', 'n', 'i', 't', 'r', 'a', 'm', 'f', 's', '-', 'l', 'i', 'n', 'u', 'x', '.', 'i', 'm', 'g'],
            seq!['/', 'b', 'o', 'o', 't', '/', 'i', 'n', 'i', 't', 'r', 'd', '.', 'i', 'm', 'g'],
            seq!['/', 'b', 'o', 'o', 't', '/', 'i', 'n', 'i', 't', 'r', 'a', 'm', 'f', 's', '.', 'i', 'm', 'g'],
        ]
    } else {
        seq![
            seq!['/', 'b', 'o', 'o', 't', '/', 'i', 'n', 'i', 't', 'r', 'a', 'm', 'f', 's', '-'] + stem
                + seq!['.', 'i', 'm', 'g'],
            seq!['/', 'b', 'o', 'o', 't', '/', 'i', 'n', 'i', 't', 'r', 'd', '.', 'i', 'm', 'g', '-'] + stem,
        ]
    }
}

/// The places where the running kernel's initramfs is looked for.
pub fn initrd_patterns_for(kernel_name: &str) -> (r: Vec<String>)
    ensures
        strings_view(r@) == initrd_patterns(kernel_name@),
{
    let cs = chars_of(kernel_name);
    let pre = ['v', 'm', 'l', 'i', 'n', 'u', 'z', '-'];
    assert(pre@ =~= vmlinuz().push('-'));
    let stem = if has_prefix(&cs, &pre) {
        assert(cs@.subrange(8, cs@.len() as int) =~= kernel_name@.skip(8));
        string_from(&cs.as_slice()[8..cs.len()])
    } else {
        String::new()
    };
    proof {
        reveal_strlit("/boot/initramfs-linux.img");
        reveal_strlit("/boot/initrd.img");
        reveal_strlit("/boot/initramfs.img");
        reveal_strlit("/boot/initramfs-");
        reveal_strlit(".img");
        reveal_strlit("/boot/initrd.img-");
    }
    let ghost want = initrd_patterns(kernel_name@);
    if stem.as_str().is_empty() {
        let mut a = String::new();
        push_str(&mut a, "/boot/initramfs-linux.img");
        let mut b = String::new();
        push_str(&mut b, "/boot/initrd.img");
        let mut c = String::new();
        push_str(&mut c, "/boot/initramfs.img");
        assert(a@ =~= want[0]);
        assert(b@ =~= want[1]);
        assert(c@ =~= want[2]);
        let r = vec![a, b, c];
        assert(strings_view(r@) =~= want);
        r
    } else {
        let mut a = String::new();
        push_str(&mut a, "/boot/initramfs-");
        push_str(&mut a, stem.as_str());
        push_str(&mut a, ".img");
        let mut b = String::new();
        push_str(&mut b, "/boot/initrd.img-");
        push_str(&mut b, stem.as_str());
        assert(a@ =~= want[0]);
        assert(b@ =~= want[1]);
        let r = vec![a, b];
        assert(strings_view(r@) =~= want);
        r
    }
}


// ---------------------------------------------------------------------------
// Written entry files read back
// ---------------------------------------------------------------------------

/// `key = value`, the line of an entry file without its line break.
pub open spec fn kv_text(key: Seq<char>, value: Seq<char>) -> Seq<char> {
    key + seq![' ', '=', ' '] + value
}

/// The lines, each followed by a line break.
pub open spec fn lines_text(ls: Seq<Seq<char>>) -> Seq<char>
    decreases ls.len(),
{
    if ls.len() == 0 {
        Seq::empty()
    } else {
        lines_text(ls.drop_last()) + ls.last() + seq!['\n']
    }
}

pub open spec fn no_newline(l: Seq<char>) -> bool {
    forall|i: int| 0 <= i < l.len() ==> l[i] != '\n'
}

/// A value that an entry file gives back as it was written: no line break,
/// and neither white space nor `"` at either end.
pub open spec fn clean_value(v: Seq<char>) -> bool {
    &&& no_newline(v)
    &&& v.len() > 0 ==> {
        &&& !crate::text::spec_is_whitespace(v[0])
        &&& !crate::text::spec_is_whitespace(v.last())
        &&& v[0] != '"'
        &&& v.last() != '"'
    }
}

/// The lines of a written entry file, in order.
pub open spec fn entry_lines(
    title: Seq<char>,
    efi: Seq<char>,
    initrd: Seq<Seq<char>>,
    options: Option<Seq<char>>,
) -> Seq<Seq<char>> {
    seq![kv_text(title_key(), title), kv_text(efi_key(), efi)] + Seq::new(
        initrd.len(),
        |i: int| kv_text(initrd_key(), initrd[i]),
    ) + match options {
        Some(o) => seq![kv_text(options_key(), o)],
        None => Seq::empty(),
    }
}

proof fn lemma_lines_text_concat(a: Seq<Seq<char>>, b: Seq<Seq<char>>)
    ensures
        lines_text(a + b) == lines_text(a) + lines_text(b),
    decreases b.len(),
{
    if b.len() == 0 {
        assert(a + b =~= a);
        assert(lines_text(a) + lines_text(b) =~= lines_text(a));
    } else {
        lemma_lines_text_concat(a, b.drop_last());
        assert((a + b).drop_last() =~= a + b.drop_last());
        assert(lines_text(a) + (lines_text(b.drop_last()) + b.last() + seq!['\n']) =~= lines_text(a)
            + lines_text(b.drop_last()) + b.last() + seq!['\n']);
    }
}

proof fn lemma_initrd_lines(initrd: Seq<Seq<char>>, k: int)
    requires
        0 <= k <= initrd.len(),
    ensures
        initrd_lines(initrd, k) == lines_text(
            Seq::new(k as nat, |i: int| kv_text(initrd_key(), initrd[i])),
        ),
    decreases k,
{
    let ls = Seq::new(k as nat, |i: int| kv_text(initrd_key(), initrd[i]));
    if k > 0 {
        lemma_initrd_lines(initrd, k - 1);
        assert(ls.drop_last() =~= Seq::new((k - 1) as nat, |i: int| kv_text(initrd_key(), initrd[i])));
        assert(kv_line(initrd_key(), initrd[k - 1]) =~= ls.last() + seq!['\n']);
        assert(initrd_lines(initrd, k - 1) + kv_line(initrd_key(), initrd[k - 1]) =~= initrd_lines(
            initrd,
            k - 1,
        ) + ls.last() + seq!['\n']);
    } else {
        assert(ls =~= Seq::<Seq<char>>::empty());
    }
}

proof fn lemma_contents_are_lines(
    title: Seq<char>,
    efi: Seq<char>,
    initrd: Seq<Seq<char>>,
    options: Option<Seq<char>>,
)
    ensures
        entry_contents(title, efi, initrd, options) == lines_text(
            entry_lines(title, efi, initrd, options),
        ),
{
    let head = seq![kv_text(title_key(), title), kv_text(efi_key(), efi)];
    let mid = Seq::new(initrd.len(), |i: int| kv_text(initrd_key(), initrd[i]));
    let tail = match options {
        Some(o) => seq![kv_text(options_key(), o)],
        None => Seq::<Seq<char>>::empty(),
    };
    lemma_lines_text_concat(head + mid, tail);
    lemma_lines_text_concat(head, mid);
    lemma_initrd_lines(initrd, initrd.len() as int);
    let a = kv_text(title_key(), title);
    let b = kv_text(efi_key(), efi);
    assert(head.drop_last() =~= seq![a]);
    assert(seq![a].drop_last() =~= Seq::<Seq<char>>::empty());
    assert(lines_text(seq![a]) == lines_text(Seq::<Seq<char>>::empty()) + a + seq!['\n']);
    assert(lines_text(seq![a]) =~= kv_line(title_key(), title));
    assert(lines_text(head) == lines_text(seq![a]) + b + seq!['\n']);
    assert(lines_text(head) =~= kv_line(title_key(), title) + kv_line(efi_key(), efi));
    match options {
        Some(o) => {
            let c = kv_text(options_key(), o);
            assert(tail.drop_last() =~= Seq::<Seq<char>>::empty());
            assert(lines_text(tail) == lines_text(Seq::<Seq<char>>::empty()) + c + seq!['\n']);
            assert(lines_text(tail) =~= kv_line(options_key(), o));
        },
        None => {},
    }
    assert(entry_lines(title, efi, initrd, options) =~= head + mid + tail);
    assert(entry_contents(title, efi, initrd, options) =~= lines_text(head) + lines_text(mid)
        + lines_text(tail));
}

proof fn lemma_split_append(t: Seq<char>, l: Seq<char>)
    requires
        no_newline(l),
    ensures
        split_lines(t + l) == split_lines(t).update(
            split_lines(t).len() - 1,
            split_lines(t).last() + l,
        ),
    decreases l.len(),
{
    crate::text::lemma_split_lines_nonempty(t);
    let st = split_lines(t);
    if l.len() == 0 {
        assert(t + l =~= t);
        assert(st.update(st.len() - 1, st.last() + l) =~= st);
    } else {
        let l0 = l.drop_last();
        assert forall|i: int| 0 <= i < l0.len() implies l0[i] != '\n' by {
            assert(l0[i] == l[i]);
        }
        lemma_split_append(t, l0);
        assert((t + l).drop_last() =~= t + l0);
        assert((t + l).last() == l.last());
        assert(l[l.len() - 1] != '\n');
        let r = split_lines(t + l0);
        crate::text::lemma_split_lines_nonempty(t + l0);
        assert(r.len() == st.len());
        assert(r.last() == st.last() + l0);
        assert((st.last() + l0).push(l.last()) =~= st.last() + l);
        assert(r.update(r.len() - 1, r.last().push(l.last())) =~= st.update(
            st.len() - 1,
            st.last() + l,
        ));
    }
}

proof fn lemma_split_lines_text(ls: Seq<Seq<char>>)
    requires
        forall|k: int| 0 <= k < ls.len() ==> no_newline(#[trigger] ls[k]),
    ensures
        split_lines(lines_text(ls)) == ls.push(Seq::empty()),
    decreases ls.len(),
{
    if ls.len() == 0 {
        assert(split_lines(Seq::<char>::empty()) =~= seq![Seq::<char>::empty()]);
        assert(ls.push(Seq::empty()) =~= seq![Seq::<char>::empty()]);
    } else {
        let p = ls.drop_last();
        assert forall|k: int| 0 <= k < p.len() implies no_newline(#[trigger] p[k]) by {
            assert(p[k] == ls[k]);
        }
        lemma_split_lines_text(p);
        let x = lines_text(p);
        let l = ls.last();
        assert(no_newline(ls[ls.len() - 1]));
        lemma_split_append(x, l);
        let t = x + l + seq!['\n'];
        assert(t.drop_last() =~= x + l);
        assert(split_lines(x + l) =~= p.push(l));
        assert(p.push(l).push(Seq::empty()) =~= ls.push(Seq::empty()));
    }
}

proof fn lemma_entry_lines_concat(e: EntryView, a: Seq<Seq<char>>, b: Seq<Seq<char>>)
    ensures
        crate::config::entry_file_lines(e, a + b) == crate::config::entry_file_lines(
            crate::config::entry_file_lines(e, a),
            b,
        ),
    decreases b.len(),
{
    if b.len() == 0 {
        assert(a + b =~= a);
    } else {
        lemma_entry_lines_concat(e, a, b.drop_last());
        assert((a + b).drop_last() =~= a + b.drop_last());
    }
}

/// A key of an entry file: not empty, starting with neither white space nor
/// `#`, holding no `=` and no white space.
pub open spec fn plain_key(key: Seq<char>) -> bool {
    &&& key.len() > 0
    &&& key[0] != '#'
    &&& forall|i: int|
        0 <= i < key.len() ==> key[i] != '=' && !crate::text::spec_is_whitespace(#[trigger] key[i])
}

proof fn lemma_kv_parts(key: Seq<char>, v: Seq<char>)
    requires
        plain_key(key),
        clean_value(v),
    ensures
        ({
            let t = spec_trim(kv_text(key, v));
            &&& t.len() > 0
            &&& t[0] == key[0]
            &&& index_of(t, '=') == Some(key.len() + 1int)
            &&& spec_trim(t.take(key.len() + 1int)) == key
            &&& crate::config::line_value(t.skip(key.len() + 2int)) == v
        }),
{
    let s = kv_text(key, v);
    let n = key.len() as int;
    assert(s[0] == key[0]);
    assert(!spec_is_whitespace(s[0]));
    assert(trim_start_ws(s) == s);
    let t = if v.len() > 0 {
        s
    } else {
        key + seq![' ', '=']
    };
    if v.len() > 0 {
        assert(s.last() == v.last());
        assert(trim_end_ws(s) == s);
    } else {
        assert(s =~= key + seq![' ', '=', ' ']);
        assert(s.drop_last() =~= key + seq![' ', '=']);
        assert(spec_is_whitespace(' '));
        assert((key + seq![' ', '=']).last() == '=');
        assert(trim_end_ws(s.drop_last()) == s.drop_last());
    }
    assert(spec_trim(s) == t);
    assert(t[0] == key[0]);
    assert(t[n + 1] == '=');
    crate::text::lemma_index_of(t, '=');
    assert forall|j: int| 0 <= j < n + 1 implies t[j] != '=' by {
        if j < n {
            assert(t[j] == key[j]);
        } else {
            assert(t[j] == ' ');
        }
    }
    assert(index_of(t, '=') == Some(n + 1));
    let k = t.take(n + 1);
    assert(k =~= key.push(' '));
    assert(k[0] == key[0]);
    assert(trim_start_ws(k) == k);
    assert(k.drop_last() =~= key);
    assert(key.last() == key[n - 1]);
    assert(!spec_is_whitespace(key.last()));
    assert(trim_end_ws(key) == key);
    assert(spec_trim(k) == key);
    let rest = t.skip(n + 2);
    if v.len() > 0 {
        assert(rest =~= seq![' '] + v);
        assert(rest.drop_first() =~= v);
        assert(trim_start_ws(rest) == trim_start_ws(v));
        assert(trim_start_ws(v) == v);
        assert(trim_end_ws(v) == v);
        assert(trim_start_char(v, '"') == v);
        assert(trim_end_char(v, '"') == v);
    } else {
        assert(rest =~= Seq::<char>::empty());
        assert(v =~= Seq::<char>::empty());
    }
    assert(crate::config::line_value(rest) == v);
}

proof fn lemma_kv_line(e: EntryView, key: Seq<char>, v: Seq<char>)
    requires
        plain_key(key),
        clean_value(v),
    ensures
        crate::config::entry_file_line(e, kv_text(key, v)) == crate::config::entry_set(e, key, v),
{
    lemma_kv_parts(key, v);
}

proof fn lemma_initrd_set(e: EntryView, initrd: Seq<Seq<char>>, k: int)
    requires
        0 <= k <= initrd.len(),
        forall|i: int| 0 <= i < initrd.len() ==> clean_value(#[trigger] initrd[i]) && initrd[i].len() > 0,
    ensures
        crate::config::entry_file_lines(
            e,
            Seq::new(k as nat, |i: int| kv_text(initrd_key(), initrd[i])),
        ) == (EntryView { initrd: e.initrd + initrd.take(k), ..e }),
    decreases k,
{
    let ls = Seq::new(k as nat, |i: int| kv_text(initrd_key(), initrd[i]));
    if k == 0 {
        assert(ls =~= Seq::<Seq<char>>::empty());
        assert(e.initrd + initrd.take(0) =~= e.initrd);
    } else {
        lemma_initrd_set(e, initrd, k - 1);
        assert(ls.drop_last() =~= Seq::new((k - 1) as nat, |i: int| kv_text(initrd_key(), initrd[i])));
        assert(clean_value(initrd[k - 1]) && initrd[k - 1].len() > 0);
        lemma_kv_line(EntryView { initrd: e.initrd + initrd.take(k - 1), ..e }, initrd_key(), initrd[k - 1]);
        assert(initrd_key() == crate::config::key_initrd());
        assert(initrd_key() != crate::config::key_title());
        assert(initrd_key() != crate::config::key_efi());
        assert(initrd_key() != crate::config::key_options());
        assert((e.initrd + initrd.take(k - 1)).push(initrd[k - 1]) =~= e.initrd + initrd.take(k));
    }
}

/// An entry file written by `entry add` or by the installer reads back as
/// what was written: the bootloader gets the same title, kernel path,
/// initramfs paths and options, for values without line breaks or white
/// space or quotes at their ends (and, but for the title, not empty).
pub proof fn law_written_entry_reads_back(
    name: Seq<char>,
    title: Seq<char>,
    efi: Seq<char>,
    initrd: Seq<Seq<char>>,
    options: Option<Seq<char>>,
)
    requires
        clean_value(title),
        clean_value(efi),
        efi.len() > 0,
        forall|i: int| 0 <= i < initrd.len() ==> clean_value(#[trigger] initrd[i]) && initrd[i].len() > 0,
        match options {
            Some(o) => clean_value(o) && o.len() > 0,
            None => true,
        },
    ensures
        ({
            let bytes = vstd::utf8::encode_utf8(entry_contents(title, efi, initrd, options));
            &&& vstd::utf8::valid_utf8(bytes)
            &&& crate::config::entry_file_text(name, vstd::utf8::decode_utf8(bytes)) == EntryView {
                name,
                title,
                efi_path: efi,
                options,
                initrd,
                boot_counter: None,
                source_path: None,
            }
        }),
{
    broadcast use vstd::utf8::encode_utf8_decode_utf8, vstd::utf8::encode_utf8_valid_utf8;

    let text = entry_contents(title, efi, initrd, options);
    lemma_contents_are_lines(title, efi, initrd, options);
    let ls = entry_lines(title, efi, initrd, options);
    assert forall|k: int| 0 <= k < ls.len() implies no_newline(#[trigger] ls[k]) by {
        let l = ls[k];
        assert forall|i: int| 0 <= i < l.len() implies l[i] != '\n' by {
            if k == 0 {
                assert(l == kv_text(title_key(), title));
                if i >= 8 {
                    assert(l[i] == title[i - 8]);
                }
            } else if k == 1 {
                assert(l == kv_text(efi_key(), efi));
                if i >= 6 {
                    assert(l[i] == efi[i - 6]);
                }
            } else if k < 2 + initrd.len() {
                assert(l == kv_text(initrd_key(), initrd[k - 2]));
                assert(clean_value(initrd[k - 2]));
                if i >= 9 {
                    assert(l[i] == initrd[k - 2][i - 9]);
                }
            } else {
                let o = options->0;
                assert(l == kv_text(options_key(), o));
                if i >= 10 {
                    assert(l[i] == o[i - 10]);
                }
            }
        }
    }
    lemma_split_lines_text(ls);
    assert(vstd::utf8::decode_utf8(vstd::utf8::encode_utf8(text)) == text);
    let e0 = blank_entry(name);
    assert(entry_file_lines(e0, ls.push(Seq::empty())) == entry_file_line(
        entry_file_lines(e0, ls),
        Seq::empty(),
    )) by {
        assert(ls.push(Seq::<char>::empty()).drop_last() =~= ls);
    }
    assert(crate::text::spec_trim(Seq::<char>::empty()) =~= Seq::<char>::empty());
    let head = seq![kv_text(title_key(), title), kv_text(efi_key(), efi)];
    let mid = Seq::new(initrd.len(), |i: int| kv_text(initrd_key(), initrd[i]));
    let tail = match options {
        Some(o) => seq![kv_text(options_key(), o)],
        None => Seq::<Seq<char>>::empty(),
    };
    assert(ls =~= head + mid + tail);
    lemma_entry_lines_concat(e0, head + mid, tail);
    lemma_entry_lines_concat(e0, head, mid);
    assert(title_key() == key_title());
    assert(efi_key() == key_efi());
    assert(options_key() == key_options());
    assert(efi_key() != key_title());
    assert(options_key() != key_title());
    assert(options_key() != key_efi());
    assert(options_key() != key_initrd());
    lemma_kv_line(e0, title_key(), title);
    let e1 = EntryView { title, ..e0 };
    lemma_kv_line(e1, efi_key(), efi);
    let e2 = EntryView { efi_path: efi, ..e1 };
    assert(entry_file_lines(e0, head) == e2) by {
        let a = kv_text(title_key(), title);
        let b = kv_text(efi_key(), efi);
        assert(head.drop_last() =~= seq![a]);
        assert(seq![a].drop_last() =~= Seq::<Seq<char>>::empty());
        assert(entry_file_lines(e0, Seq::<Seq<char>>::empty()) == e0);
        assert(entry_file_lines(e0, seq![a]) == entry_file_line(e0, a));
        assert(entry_file_line(e0, a) == e1);
        assert(entry_file_lines(e0, head) == entry_file_line(e1, b));
        assert(entry_file_line(e1, b) == e2);
    }
    lemma_initrd_set(e2, initrd, initrd.len() as int);
    assert(mid =~= Seq::new(initrd.len() as nat, |i: int| kv_text(initrd_key(), initrd[i])));
    let e3 = EntryView { initrd: e2.initrd + initrd.take(initrd.len() as int), ..e2 };
    assert(e2.initrd + initrd.take(initrd.len() as int) =~= initrd);
    assert(entry_file_lines(e0, head + mid) == e3);
    assert(entry_file_lines(e3, tail) == EntryView { options, ..e3 }) by {
        match options {
            Some(o) => {
                let c = kv_text(options_key(), o);
                lemma_kv_line(e3, options_key(), o);
                assert(tail.drop_last() =~= Seq::<Seq<char>>::empty());
                assert(entry_file_lines(e3, Seq::<Seq<char>>::empty()) == e3);
                assert(entry_file_lines(e3, tail) == entry_file_line(e3, c));
            },
            None => {
                assert(tail =~= Seq::<Seq<char>>::empty());
            },
        }
    }
    assert(entry_file_lines(e0, ls) == EntryView { options, ..e3 });
    assert(split_lines(text) == ls.push(Seq::empty()));
    assert(entry_file_line(entry_file_lines(e0, ls), Seq::empty()) == entry_file_lines(e0, ls));
}


/// The boot counter that `entry add --tries` or `entry set-tries` writes into
/// a file name is the one the bootloader reads from it, and the entry keeps
/// its name: for a name without `+` that does not end in `.conf` or `.CONF`.
pub proof fn law_written_tries_read_back(name: Seq<char>, tries: Option<u32>, n: u32)
    requires
        forall|i: int| 0 <= i < name.len() ==> name[i] != '+',
        !ends_with(name, dot_conf()),
        !ends_with(name, crate::boot::dot_conf_upper()),
    ensures
        crate::boot::entry_name_of(crate::boot::raw_name(added_file(name, tries))) == name,
        crate::boot::spec_parse_counter(crate::boot::raw_name(added_file(name, tries))) == tries,
        crate::boot::entry_name_of(crate::boot::raw_name(tries_file(name, n))) == name,
        crate::boot::spec_parse_counter(crate::boot::raw_name(tries_file(name, n))) == if n > 0 {
            Some(n)
        } else {
            None::<u32>
        },
{
    assert(dot_conf() =~= crate::boot::dot_conf());
    crate::boot::lemma_plain_name(name);
    crate::text::lemma_index_of(name, '+');
    crate::text::lemma_rindex_of(name, '+');
    match tries {
        Some(t) => {
            let d = decimal(t as nat);
            crate::text::lemma_decimal(t as nat);
            crate::boot::lemma_counted_name(name, d);
            crate::boot::lemma_counter_of(name, d);
        },
        None => {},
    }
    if n > 0 {
        let d = decimal(n as nat);
        crate::text::lemma_decimal(n as nat);
        crate::boot::lemma_counted_name(name, d);
        crate::boot::lemma_counter_of(name, d);
    }
}

proof fn lemma_mark_good_scan(names: Seq<Seq<char>>, name: Seq<char>, i: int, found: Option<usize>)
    requires
        0 <= i <= names.len(),
        names.len() <= usize::MAX,
        match found {
            Some(j) => 0 <= j < i && is_counted_file_of(names[j as int], name),
            None => forall|k: int| 0 <= k < i ==> !is_counted_file_of(#[trigger] names[k], name),
        },
        forall|k: int| 0 <= k < i ==> #[trigger] names[k] != name + dot_conf(),
    ensures
        match mark_good_scan(names, name, i, found) {
            MarkGood::Rename(j) => 0 <= j < names.len() && is_counted_file_of(names[j as int], name)
                && forall|k: int| 0 <= k < names.len() ==> #[trigger] names[k] != name + dot_conf(),
            MarkGood::AlreadyGood => exists|k: int| 0 <= k < names.len() && #[trigger] names[k] == name + dot_conf(),
            MarkGood::NotFound => forall|k: int|
                0 <= k < names.len() ==> #[trigger] names[k] != name + dot_conf()
                    && !is_counted_file_of(names[k], name),
        },
    decreases names.len() - i,
{
    if i < names.len() {
        if names[i] == name + dot_conf() {
        } else if is_counted_file_of(names[i], name) {
            lemma_mark_good_scan(names, name, i + 1, Some(i as usize));
        } else {
            lemma_mark_good_scan(names, name, i + 1, found);
        }
    }
}

/// `entry mark-good NAME` renames a file only when `NAME.conf` is not there,
/// and then a file of that entry with a boot counter; it reports the entry
/// as not found only when the directory holds neither.
pub proof fn law_mark_good_renames_counted_file(names: Seq<Seq<char>>, name: Seq<char>)
    requires
        names.len() <= usize::MAX,
    ensures
        match mark_good_scan(names, name, 0, None) {
            MarkGood::Rename(j) => 0 <= j < names.len() && is_counted_file_of(names[j as int], name)
                && forall|k: int| 0 <= k < names.len() ==> #[trigger] names[k] != name + dot_conf(),
            MarkGood::AlreadyGood => exists|k: int| 0 <= k < names.len() && #[trigger] names[k] == name + dot_conf(),
            MarkGood::NotFound => forall|k: int|
                0 <= k < names.len() ==> #[trigger] names[k] != name + dot_conf()
                    && !is_counted_file_of(names[k], name),
        },
{
    lemma_mark_good_scan(names, name, 0, None);
}

proof fn lemma_first_per_path(ds: Seq<DetectedView>, k: int)
    requires
        0 <= k <= ds.len(),
    ensures
        ({
            let kept = first_per_path(ds, k);
            &&& forall|a: int, b: int|
                0 <= a < b < kept.len() ==> #[trigger] kept[a].efi_path != #[trigger] kept[b].efi_path
            &&& forall|j: int| 0 <= j < k ==> has_path(kept, #[trigger] ds[j].efi_path)
            &&& forall|a: int|
                #![trigger kept[a]]
                0 <= a < kept.len() ==> exists|j: int| 0 <= j < k && #[trigger] ds[j] == kept[a]
        }),
    decreases k,
{
    if k > 0 {
        lemma_first_per_path(ds, k - 1);
        let prev = first_per_path(ds, k - 1);
        let kept = first_per_path(ds, k);
        if !has_path(prev, ds[k - 1].efi_path) {
            assert(kept == prev.push(ds[k - 1]));
            assert forall|j: int| 0 <= j < k implies has_path(kept, #[trigger] ds[j].efi_path) by {
                if j < k - 1 {
                    let w = choose|i: int| 0 <= i < prev.len() && #[trigger] prev[i].efi_path == ds[j].efi_path;
                    assert(kept[w] == prev[w]);
                } else {
                    assert(kept[prev.len() as int] == ds[k - 1]);
                }
            }
            assert forall|a: int| #![trigger kept[a]] 0 <= a < kept.len() implies exists|j: int|
                0 <= j < k && #[trigger] ds[j] == kept[a] by {
                if a < prev.len() {
                    assert(kept[a] == prev[a]);
                } else {
                    assert(ds[k - 1] == kept[a]);
                }
            }
        } else {
            assert forall|j: int| 0 <= j < k implies has_path(kept, #[trigger] ds[j].efi_path) by {
                if j < k - 1 {
                } else {
                }
            }
        }
    }
}

/// The generated configuration has one entry file for each kernel path
/// among the detected entries and no two for the same path; each is the file
/// of a detected entry, and the main file lists them in order.
pub proof fn law_generated_config_each_path_once(ds: Seq<DetectedView>)
    ensures
        ({
            let kept = first_per_path(ds, ds.len() as int);
            &&& generated_config(ds).1 == kept.map_values(|d: DetectedView| entry_file_of(d))
            &&& generated_config(ds).0 == main_conf(kept)
            &&& forall|a: int, b: int|
                0 <= a < b < kept.len() ==> #[trigger] kept[a].efi_path != #[trigger] kept[b].efi_path
            &&& forall|j: int| 0 <= j < ds.len() ==> has_path(kept, #[trigger] ds[j].efi_path)
            &&& forall|a: int|
                #![trigger kept[a]]
                0 <= a < kept.len() ==> exists|j: int| 0 <= j < ds.len() && #[trigger] ds[j] == kept[a]
        }),
{
    lemma_first_per_path(ds, ds.len() as int);
}

// ---------------------------------------------------------------------------
// The generated main configuration reads back
// ---------------------------------------------------------------------------

/// A word of an `order` line: not empty, without white space.
pub open spec fn plain_word(w: Seq<char>) -> bool {
    &&& w.len() > 0
    &&& forall|i: int| 0 <= i < w.len() ==> !spec_is_whitespace(#[trigger] w[i])
}

proof fn lemma_scan_word(s: Seq<char>, w: Seq<char>)
    requires
        forall|i: int| 0 <= i < w.len() ==> !spec_is_whitespace(#[trigger] w[i]),
    ensures
        crate::text::words_scan(s + w) == (crate::text::words_scan(s).0, crate::text::words_scan(s).1 + w),
    decreases w.len(),
{
    if w.len() == 0 {
        assert(s + w =~= s);
        assert(crate::text::words_scan(s).1 + w =~= crate::text::words_scan(s).1);
    } else {
        let w0 = w.drop_last();
        assert forall|i: int| 0 <= i < w0.len() implies !spec_is_whitespace(#[trigger] w0[i]) by {
            assert(w0[i] == w[i]);
        }
        lemma_scan_word(s, w0);
        assert((s + w).drop_last() =~= s + w0);
        assert((s + w).last() == w.last());
        assert(!spec_is_whitespace(w[w.len() - 1]));
        assert((crate::text::words_scan(s).1 + w0).push(w.last()) =~= crate::text::words_scan(s).1 + w);
    }
}

proof fn lemma_scan_joined(ws: Seq<Seq<char>>)
    requires
        ws.len() > 0,
        forall|k: int| 0 <= k < ws.len() ==> plain_word(#[trigger] ws[k]),
    ensures
        crate::text::words_scan(join_words(ws)) == (ws.drop_last(), ws.last()),
    decreases ws.len(),
{
    if ws.len() == 1 {
        assert(plain_word(ws[0]));
        lemma_scan_word(Seq::<char>::empty(), ws[0]);
        assert(Seq::<char>::empty() + ws[0] =~= ws[0]);
        assert(Seq::<char>::empty() + ws[0] =~= ws[0]);
        assert(ws.drop_last() =~= Seq::<Seq<char>>::empty());
    } else {
        let p = ws.drop_last();
        assert forall|k: int| 0 <= k < p.len() implies plain_word(#[trigger] p[k]) by {
            assert(p[k] == ws[k]);
        }
        lemma_scan_joined(p);
        assert(plain_word(p[p.len() - 1]));
        let j = join_words(p);
        let js = j + seq![' '];
        assert(js.drop_last() =~= j);
        assert(js.last() == ' ');
        assert(spec_is_whitespace(' '));
        assert(p.drop_last().push(p.last()) =~= p);
        assert(crate::text::words_scan(js) == (p, Seq::<char>::empty()));
        assert(plain_word(ws[ws.len() - 1]));
        lemma_scan_word(js, ws.last());
        assert(Seq::<char>::empty() + ws.last() =~= ws.last());
        assert(join_words(ws) == js + ws.last());
    }
}

/// Splitting joined words at white space gives the words back.
proof fn lemma_split_joined(ws: Seq<Seq<char>>)
    requires
        forall|k: int| 0 <= k < ws.len() ==> plain_word(#[trigger] ws[k]),
    ensures
        split_words(join_words(ws)) == ws,
{
    if ws.len() == 0 {
        assert(crate::text::words_scan(Seq::<char>::empty()) == (Seq::<Seq<char>>::empty(), Seq::<char>::empty()));
    } else {
        lemma_scan_joined(ws);
        assert(plain_word(ws[ws.len() - 1]));
        assert(ws.drop_last().push(ws.last()) =~= ws);
    }
}

// ---------------------------------------------------------------------------
// Options built twice
// ---------------------------------------------------------------------------

proof fn lemma_scan_plain(s: Seq<char>)
    ensures
        forall|k: int| 0 <= k < crate::text::words_scan(s).0.len() ==> plain_word(#[trigger] crate::text::words_scan(s).0[k]),
        forall|i: int| 0 <= i < crate::text::words_scan(s).1.len() ==> !spec_is_whitespace(#[trigger] crate::text::words_scan(s).1[i]),
    decreases s.len(),
{
    if s.len() > 0 {
        lemma_scan_plain(s.drop_last());
        let (ws, cur) = crate::text::words_scan(s.drop_last());
        let c = s.last();
        if spec_is_whitespace(c) {
            if cur.len() > 0 {
                assert forall|k: int| 0 <= k < ws.push(cur).len() implies plain_word(#[trigger] ws.push(cur)[k]) by {
                    if k == ws.len() {
                        assert(ws.push(cur)[k] == cur);
                    } else {
                        assert(ws.push(cur)[k] == ws[k]);
                    }
                }
            }
        } else {
            assert forall|i: int| 0 <= i < cur.push(c).len() implies !spec_is_whitespace(#[trigger] cur.push(c)[i]) by {
                if i < cur.len() {
                    assert(cur.push(c)[i] == cur[i]);
                }
            }
        }
    }
}

/// The words of a text are plain words.
proof fn lemma_split_plain(s: Seq<char>)
    ensures
        forall|k: int| 0 <= k < split_words(s).len() ==> plain_word(#[trigger] split_words(s)[k]),
{
    lemma_scan_plain(s);
    let (ws, cur) = crate::text::words_scan(s);
    if cur.len() > 0 {
        assert forall|k: int| 0 <= k < ws.push(cur).len() implies plain_word(#[trigger] ws.push(cur)[k]) by {
            if k == ws.len() {
                assert(ws.push(cur)[k] == cur);
            } else {
                assert(ws.push(cur)[k] == ws[k]);
            }
        }
    }
}

proof fn lemma_kept_options(ws: Seq<Seq<char>>, k: int)
    requires
        0 <= k <= ws.len(),
    ensures
        forall|i: int| 0 <= i < kept_options(ws, k).len() ==> kept_option(#[trigger] kept_options(ws, k)[i])
            && ws.take(k).contains(kept_options(ws, k)[i]),
        (forall|i: int| 0 <= i < k ==> kept_option(#[trigger] ws[i])) ==> kept_options(ws, k) == ws.take(k),
    decreases k,
{
    if k > 0 {
        lemma_kept_options(ws, k - 1);
        let p = kept_options(ws, k - 1);
        assert(ws.take(k) =~= ws.take(k - 1).push(ws[k - 1]));
        assert forall|i: int| 0 <= i < kept_options(ws, k).len() implies kept_option(#[trigger] kept_options(ws, k)[i])
            && ws.take(k).contains(kept_options(ws, k)[i]) by {
            if i < p.len() {
                assert(kept_options(ws, k)[i] == p[i]);
                let j = choose|j: int| 0 <= j < ws.take(k - 1).len() && #[trigger] ws.take(k - 1)[j] == p[i];
                assert(ws.take(k)[j] == p[i]);
            } else {
                assert(ws.take(k)[k - 1] == ws[k - 1]);
            }
        }
    } else {
        assert(ws.take(0) =~= Seq::<Seq<char>>::empty());
    }
}

proof fn lemma_without_word(ws: Seq<Seq<char>>, w: Seq<char>, k: int)
    requires
        0 <= k <= ws.len(),
    ensures
        forall|i: int| 0 <= i < without_word(ws, w, k).len() ==> #[trigger] without_word(ws, w, k)[i] != w
            && ws.take(k).contains(without_word(ws, w, k)[i]),
        forall|x: Seq<char>| ws.take(k).contains(x) && x != w ==> #[trigger] without_word(ws, w, k).contains(x),
        (forall|i: int| 0 <= i < k ==> #[trigger] ws[i] != w) ==> without_word(ws, w, k) == ws.take(k),
    decreases k,
{
    if k > 0 {
        lemma_without_word(ws, w, k - 1);
        let p = without_word(ws, w, k - 1);
        let q = without_word(ws, w, k);
        assert(ws.take(k) =~= ws.take(k - 1).push(ws[k - 1]));
        assert forall|i: int| 0 <= i < q.len() implies #[trigger] q[i] != w && ws.take(k).contains(q[i]) by {
            if i < p.len() {
                assert(q[i] == p[i]);
                let j = choose|j: int| 0 <= j < ws.take(k - 1).len() && #[trigger] ws.take(k - 1)[j] == p[i];
                assert(ws.take(k)[j] == p[i]);
            } else {
                assert(ws.take(k)[k - 1] == ws[k - 1]);
            }
        }
        assert forall|x: Seq<char>| ws.take(k).contains(x) && x != w implies #[trigger] q.contains(x) by {
            let j = choose|j: int| 0 <= j < ws.take(k).len() && #[trigger] ws.take(k)[j] == x;
            if j < k - 1 {
                assert(ws.take(k - 1)[j] == x);
                assert(p.contains(x));
                let m = choose|m: int| 0 <= m < p.len() && #[trigger] p[m] == x;
                assert(q[m] == x);
            } else {
                assert(q[q.len() - 1] == x);
            }
        }
    } else {
        assert(ws.take(0) =~= Seq::<Seq<char>>::empty());
    }
}

/// Building the options of a generated entry from options it built gives
/// them back unchanged.
pub proof fn law_linux_options_idempotent(cmdline: Seq<char>)
    ensures
        spec_linux_options_from(spec_linux_options_from(cmdline)) == spec_linux_options_from(cmdline),
{
    let ws = split_words(cmdline);
    let w0 = kept_options(ws, ws.len() as int);
    let w1 = with_word(w0, rootwait());
    let w2 = with_word(w1, rw());
    let w3 = if has_word_with_prefix(w2, panic_eq()) {
        w2
    } else {
        w2.push(panic_10())
    };
    let out = without_word(w3, quiet(), w3.len() as int);
    assert(out == linux_option_words(cmdline));
    lemma_split_plain(cmdline);
    lemma_kept_options(ws, ws.len() as int);
    lemma_without_word(w3, quiet(), w3.len() as int);
    assert(w3.take(w3.len() as int) =~= w3);
    assert(ws.take(ws.len() as int) =~= ws);
    // Every word of the result is plain and kept.
    assert(plain_word(rootwait()) && plain_word(rw()) && plain_word(panic_10()));
    assert(kept_option(rootwait()) && kept_option(rw()) && kept_option(panic_10())) by {
        assert(rootwait().take(7)[0] != initrd_eq()[0]);
        assert(rootwait().take(7)[0] != archiso()[0]);
        assert(rw().len() < 7);
        assert(panic_10().take(7)[0] != initrd_eq()[0]);
        assert(panic_10().take(7)[0] != archiso()[0]);
    }
    assert forall|x: Seq<char>| w3.contains(x) implies plain_word(x) && kept_option(x) by {
        let j = choose|j: int| 0 <= j < w3.len() && #[trigger] w3[j] == x;
        if j < w0.len() {
            assert(w3[j] == w0[j]);
            let m = choose|m: int| 0 <= m < ws.len() && #[trigger] ws[m] == w0[j];
            assert(plain_word(ws[m]));
        } else if j < w1.len() {
            assert(w3[j] == w1[j]);
        } else if j < w2.len() {
            assert(w3[j] == w2[j]);
        }
    }
    assert forall|k: int| 0 <= k < out.len() implies plain_word(#[trigger] out[k]) && kept_option(out[k]) by {
        assert(w3.contains(out[k]));
    }
    lemma_split_joined(out);
    let t = join_words(out);
    assert(split_words(t) == out);
    // Building again changes nothing.
    lemma_kept_options(out, out.len() as int);
    assert(out.take(out.len() as int) =~= out);
    let v0 = kept_options(out, out.len() as int);
    assert(v0 == out);
    assert(w1.contains(rootwait())) by {
        if !w0.contains(rootwait()) {
            assert(w1[w0.len() as int] == rootwait());
        }
    }
    assert(w2.contains(rootwait())) by {
        let j = choose|j: int| 0 <= j < w1.len() && #[trigger] w1[j] == rootwait();
        assert(w2[j] == rootwait());
    }
    assert(w3.contains(rootwait())) by {
        let j = choose|j: int| 0 <= j < w2.len() && #[trigger] w2[j] == rootwait();
        assert(w3[j] == rootwait());
    }
    assert(w2.contains(rw())) by {
        if !w1.contains(rw()) {
            assert(w2[w1.len() as int] == rw());
        }
    }
    assert(w3.contains(rw())) by {
        let j = choose|j: int| 0 <= j < w2.len() && #[trigger] w2[j] == rw();
        assert(w3[j] == rw());
    }
    assert(rootwait() != quiet()) by {
        assert(rootwait().len() != quiet().len());
    }
    assert(rw() != quiet()) by {
        assert(rw().len() != quiet().len());
    }
    assert(out.contains(rootwait()));
    assert(out.contains(rw()));
    let v1 = with_word(v0, rootwait());
    let v2 = with_word(v1, rw());
    assert(v2 == out);
    assert(has_word_with_prefix(out, panic_eq())) by {
        let p = if has_word_with_prefix(w2, panic_eq()) {
            let j = choose|j: int| 0 <= j < w2.len() && starts_with(#[trigger] w2[j], panic_eq());
            w2[j]
        } else {
            assert(starts_with(panic_10(), panic_eq())) by {
                assert(panic_10().take(6) =~= panic_eq());
            }
            panic_10()
        };
        assert(starts_with(p, panic_eq()));
        assert(w3.contains(p)) by {
            if has_word_with_prefix(w2, panic_eq()) {
                let j = choose|j: int| 0 <= j < w2.len() && starts_with(#[trigger] w2[j], panic_eq());
                assert(w3[j] == p);
            } else {
                assert(w3[w2.len() as int] == p);
            }
        }
        assert(p != quiet()) by {
            assert(p.take(6)[0] == 'p');
            assert(p[0] == 'p');
        }
        assert(out.contains(p));
        let m = choose|m: int| 0 <= m < out.len() && #[trigger] out[m] == p;
        assert(starts_with(out[m], panic_eq()));
    }
    lemma_without_word(out, quiet(), out.len() as int);
    assert forall|i: int| 0 <= i < out.len() implies #[trigger] out[i] != quiet() by {}
    assert(linux_option_words(t) == out);
}

proof fn lemma_join_chars(ws: Seq<Seq<char>>)
    requires
        ws.len() > 0,
        forall|k: int| 0 <= k < ws.len() ==> plain_word(#[trigger] ws[k]),
    ensures
        join_words(ws).len() > 0,
        join_words(ws)[0] == ws[0][0],
        join_words(ws).last() == ws.last().last(),
        no_newline(join_words(ws)),
    decreases ws.len(),
{
    assert(spec_is_whitespace('\n'));
    if ws.len() == 1 {
        assert(plain_word(ws[0]));
    } else {
        let p = ws.drop_last();
        assert forall|k: int| 0 <= k < p.len() implies plain_word(#[trigger] p[k]) by {
            assert(p[k] == ws[k]);
        }
        lemma_join_chars(p);
        let j = join_words(p);
        let w = ws.last();
        assert(plain_word(ws[ws.len() - 1]));
        let full = j + seq![' '] + w;
        assert(join_words(ws) == full);
        assert(full[0] == j[0]);
        assert(p[0] == ws[0]);
        assert(full.last() == w.last());
        assert forall|i: int| 0 <= i < full.len() implies full[i] != '\n' by {
            if i < j.len() {
                assert(full[i] == j[i]);
            } else if i > j.len() {
                assert(full[i] == w[i - j.len() - 1]);
                assert(!spec_is_whitespace(w[i - j.len() - 1]));
            }
        }
    }
}

pub open spec fn conf_comment_head() -> Seq<char> {
    seq!['#', ' ', 'n', 'e', 'x', 'e', 'c', '-', 'l', 'g', 'c', ' ', 'm', 'a', 'i', 'n', ' ', 'c', 'o', 'n', 'f', 'i', 'g', 'u', 'r', 'a', 't', 'i', 'o', 'n']
}

pub open spec fn conf_comment_entries() -> Seq<char> {
    seq!['#', ' ', 'B', 'o', 'o', 't', ' ', 'e', 'n', 't', 'r', 'i', 'e', 's', ' ', 'a', 'r', 'e', ' ', 'i', 'n', ' ', '/', 'E', 'F', 'I', '/', 'n', 'e', 'x', 'e', 'c', '/', 'e', 'n', 't', 'r', 'i', 'e', 's', '/', '*', '.', 'c', 'o', 'n', 'f']
}

pub open spec fn conf_comment_keys() -> Seq<char> {
    seq!['#', ' ', 'K', 'e', 'y', 'b', 'i', 'n', 'd', 's', ' ', '(', 'c', 'h', 'a', 'n', 'g', 'e', ' ', 't', 'h', 'e', 's', 'e', ' ', 'f', 'o', 'r', ' ', 'n', 'o', 'n', '-', 'Q', 'W', 'E', 'R', 'T', 'Y', ' ', 'l', 'a', 'y', 'o', 'u', 't', 's', ')']
}

/// The lines of the generated main configuration, without line breaks.
pub open spec fn main_conf_lines(ds: Seq<DetectedView>) -> Seq<Seq<char>> {
    seq![
        conf_comment_head(),
        conf_comment_entries(),
        kv_text(crate::config::key_no_scan(), seq!['t', 'r', 'u', 'e']),
        kv_text(crate::config::key_timeout(), seq!['5']),
    ] + (if ds.len() > 0 {
        seq![kv_text(crate::config::key_order(), join_words(entry_names(ds)))]
    } else {
        Seq::empty()
    }) + seq![
        conf_comment_keys(),
        kv_text(crate::config::key_manual(), seq!['m']),
        kv_text(crate::config::key_firmware(), seq!['f']),
        kv_text(crate::config::key_reboot(), seq!['r']),
        kv_text(crate::config::key_shutdown(), seq!['s']),
        kv_text(crate::config::key_backup(), seq!['b']),
    ]
}

#[verifier::spinoff_prover]
#[verifier::rlimit(40)]
proof fn lemma_main_conf_lines(ds: Seq<DetectedView>)
    ensures
        main_conf(ds) == lines_text(main_conf_lines(ds)),
{
    let head = seq![
        conf_comment_head(),
        conf_comment_entries(),
        kv_text(crate::config::key_no_scan(), seq!['t', 'r', 'u', 'e']),
        kv_text(crate::config::key_timeout(), seq!['5']),
    ];
    let mid: Seq<Seq<char>> = if ds.len() > 0 {
        seq![kv_text(crate::config::key_order(), join_words(entry_names(ds)))]
    } else {
        Seq::empty()
    };
    let keys = seq![
        conf_comment_keys(),
        kv_text(crate::config::key_manual(), seq!['m']),
        kv_text(crate::config::key_firmware(), seq!['f']),
        kv_text(crate::config::key_reboot(), seq!['r']),
        kv_text(crate::config::key_shutdown(), seq!['s']),
        kv_text(crate::config::key_backup(), seq!['b']),
    ];
    assert(main_conf_lines(ds) =~= head + mid + keys);
    lemma_lines_text_concat(head + mid, keys);
    lemma_lines_text_concat(head, mid);
    reveal_with_fuel(lines_text, 7);
    assert(lines_text(head) =~= main_conf_head());
    assert(lines_text(keys) =~= main_conf_keys());
    if ds.len() > 0 {
        assert(mid.drop_last() =~= Seq::<Seq<char>>::empty());
        assert(lines_text(mid) =~= seq!['o', 'r', 'd', 'e', 'r', ' ', '=', ' '] + join_words(entry_names(ds))
            + seq!['\n']);
    } else {
        assert(lines_text(mid) =~= Seq::<char>::empty());
    }
    assert(main_conf(ds) =~= lines_text(head) + lines_text(mid) + lines_text(keys));
}

proof fn lemma_config_push(lines: Seq<Seq<char>>, x: Seq<char>)
    ensures
        crate::config::config_lines(lines.push(x)) == match crate::config::config_lines(lines) {
            Ok(st) => crate::config::config_line(st, x),
            Err(m) => Err(m),
        },
{
    assert(lines.push(x).drop_last() =~= lines);
}

proof fn lemma_comment_line(st: (crate::config::ConfigView, Option<EntryView>), c: Seq<char>)
    requires
        c.len() > 0,
        c[0] == '#',
        !spec_is_whitespace(c.last()),
    ensures
        crate::config::config_line(st, c) == Ok::<_, &'static str>(st),
{
    assert(!spec_is_whitespace('#'));
    assert(trim_start_ws(c) == c);
    assert(trim_end_ws(c) == c);
}

proof fn lemma_global_line(c: crate::config::ConfigView, key: Seq<char>, v: Seq<char>)
    requires
        plain_key(key),
        clean_value(v),
        key[0] != '[',
    ensures
        crate::config::config_line((c, None), kv_text(key, v)) == match crate::config::global_set(
            c,
            key,
            v,
        ) {
            Ok(c2) => Ok((c2, None::<EntryView>)),
            Err(m) => Err(m),
        },
{
    lemma_kv_parts(key, v);
}

proof fn lemma_kv_no_newline(key: Seq<char>, v: Seq<char>)
    requires
        no_newline(key),
        no_newline(v),
    ensures
        no_newline(kv_text(key, v)),
{
    let t = kv_text(key, v);
    assert forall|i: int| 0 <= i < t.len() implies t[i] != '\n' by {
        if i < key.len() {
            assert(t[i] == key[i]);
        } else if i >= key.len() + 3 {
            assert(t[i] == v[i - key.len() - 3]);
        }
    }
}

proof fn lemma_scan_line(c: crate::config::ConfigView)
    ensures
        crate::config::config_line(
            (c, None),
            kv_text(crate::config::key_no_scan(), seq!['t', 'r', 'u', 'e']),
        ) == Ok::<_, &'static str>((crate::config::ConfigView { no_scan: true, ..c }, None::<EntryView>)),
{
    lemma_global_line(c, crate::config::key_no_scan(), seq!['t', 'r', 'u', 'e']);
    assert(seq!['t', 'r', 'u', 'e'].map_values(|c: char| crate::text::spec_ascii_lower(c)) =~= seq![
        't',
        'r',
        'u',
        'e',
    ]);
    assert(crate::text::spec_is_truthy(seq!['t', 'r', 'u', 'e']));
}

proof fn lemma_timeout_line(c: crate::config::ConfigView)
    ensures
        crate::config::config_line((c, None), kv_text(crate::config::key_timeout(), seq!['5']))
            == Ok::<_, &'static str>((crate::config::ConfigView { timeout: 5, ..c }, None::<EntryView>)),
{
    lemma_global_line(c, crate::config::key_timeout(), seq!['5']);
    assert(crate::text::unsigned_digits(seq!['5']) =~= seq!['5']);
    assert(seq!['5'].drop_last() =~= Seq::<char>::empty());
    assert(crate::text::digits_value(Seq::<char>::empty()) == 0);
    assert(crate::text::digit_value('5') == 5);
    assert(crate::text::digits_value(seq!['5']) == 5);
    assert(crate::text::spec_parse_u64(seq!['5']) == Some(5u64));
}

proof fn lemma_order_line(c: crate::config::ConfigView, names: Seq<Seq<char>>)
    requires
        names.len() > 0,
        forall|k: int| 0 <= k < names.len() ==> plain_word(#[trigger] names[k]),
        names[0][0] != '"',
        names.last().last() != '"',
    ensures
        crate::config::config_line((c, None), kv_text(crate::config::key_order(), join_words(names)))
            == Ok::<_, &'static str>(
            (crate::config::ConfigView { order: Some(names), ..c }, None::<EntryView>),
        ),
{
    lemma_split_joined(names);
    lemma_join_chars(names);
    assert(plain_word(names[0]));
    assert(plain_word(names[names.len() - 1]));
    lemma_global_line(c, crate::config::key_order(), join_words(names));
}

/// A key line of the generated file leaves the default keys as they are.
proof fn lemma_key_lines(c: crate::config::ConfigView)
    requires
        c.keybinds == crate::config::default_keybinds(),
    ensures
        crate::config::config_line((c, None), kv_text(crate::config::key_manual(), seq!['m']))
            == Ok::<_, &'static str>((c, None::<EntryView>)),
        crate::config::config_line((c, None), kv_text(crate::config::key_firmware(), seq!['f']))
            == Ok::<_, &'static str>((c, None::<EntryView>)),
        crate::config::config_line((c, None), kv_text(crate::config::key_reboot(), seq!['r']))
            == Ok::<_, &'static str>((c, None::<EntryView>)),
        crate::config::config_line((c, None), kv_text(crate::config::key_shutdown(), seq!['s']))
            == Ok::<_, &'static str>((c, None::<EntryView>)),
        crate::config::config_line((c, None), kv_text(crate::config::key_backup(), seq!['b']))
            == Ok::<_, &'static str>((c, None::<EntryView>)),
{
    lemma_global_line(c, crate::config::key_manual(), seq!['m']);
    lemma_global_line(c, crate::config::key_firmware(), seq!['f']);
    lemma_global_line(c, crate::config::key_reboot(), seq!['r']);
    lemma_global_line(c, crate::config::key_shutdown(), seq!['s']);
    lemma_global_line(c, crate::config::key_backup(), seq!['b']);
}

proof fn lemma_main_conf_split(ds: Seq<DetectedView>)
    requires
        forall|k: int| 0 <= k < entry_names(ds).len() ==> plain_word(#[trigger] entry_names(ds)[k]),
    ensures
        split_lines(main_conf(ds)) == main_conf_lines(ds).push(Seq::empty()),
{
    let names = entry_names(ds);
    lemma_main_conf_lines(ds);
    let lines = main_conf_lines(ds);
    if ds.len() > 0 {
        lemma_join_chars(names);
    }
    lemma_kv_no_newline(crate::config::key_no_scan(), seq!['t', 'r', 'u', 'e']);
    lemma_kv_no_newline(crate::config::key_timeout(), seq!['5']);
    lemma_kv_no_newline(crate::config::key_order(), join_words(names));
    lemma_kv_no_newline(crate::config::key_manual(), seq!['m']);
    lemma_kv_no_newline(crate::config::key_firmware(), seq!['f']);
    lemma_kv_no_newline(crate::config::key_reboot(), seq!['r']);
    lemma_kv_no_newline(crate::config::key_shutdown(), seq!['s']);
    lemma_kv_no_newline(crate::config::key_backup(), seq!['b']);
    assert(no_newline(conf_comment_head()));
    assert(no_newline(conf_comment_entries()));
    assert(no_newline(conf_comment_keys()));
    assert forall|k: int| 0 <= k < lines.len() implies no_newline(#[trigger] lines[k]) by {
        if ds.len() > 0 {
            if k >= 5 {
                assert(lines[k] == main_conf_lines(ds)[k]);
            }
        }
    }
    lemma_split_lines_text(lines);
}

/// The head of the generated file: two comments, `no_scan = true` and
/// `timeout = 5`.
proof fn lemma_head_lines()
    ensures
        crate::config::config_lines(
            seq![
                conf_comment_head(),
                conf_comment_entries(),
                kv_text(crate::config::key_no_scan(), seq!['t', 'r', 'u', 'e']),
                kv_text(crate::config::key_timeout(), seq!['5']),
            ],
        ) == Ok::<_, &'static str>(
            (
                crate::config::ConfigView { no_scan: true, ..crate::config::initial_config() },
                None::<EntryView>,
            ),
        ),
{
    let c1 = conf_comment_head();
    let c2 = conf_comment_entries();
    let init = crate::config::initial_config();
    let s0: (crate::config::ConfigView, Option<EntryView>) = (init, None);
    let p1 = Seq::<Seq<char>>::empty().push(c1);
    let p2 = p1.push(c2);
    let p3 = p2.push(kv_text(crate::config::key_no_scan(), seq!['t', 'r', 'u', 'e']));
    let p4 = p3.push(kv_text(crate::config::key_timeout(), seq!['5']));
    lemma_config_push(Seq::empty(), c1);
    lemma_comment_line(s0, c1);
    lemma_config_push(p1, c2);
    lemma_comment_line(s0, c2);
    lemma_config_push(p2, kv_text(crate::config::key_no_scan(), seq!['t', 'r', 'u', 'e']));
    lemma_scan_line(init);
    lemma_config_push(p3, kv_text(crate::config::key_timeout(), seq!['5']));
    lemma_timeout_line(crate::config::ConfigView { no_scan: true, ..init });
    assert(p4 =~= seq![
        c1,
        c2,
        kv_text(crate::config::key_no_scan(), seq!['t', 'r', 'u', 'e']),
        kv_text(crate::config::key_timeout(), seq!['5']),
    ]);
}

/// The tail of the generated file: a comment and the default keys.
proof fn lemma_tail_lines(pre: Seq<Seq<char>>, c: crate::config::ConfigView)
    requires
        crate::config::config_lines(pre) == Ok::<_, &'static str>((c, None::<EntryView>)),
        c.keybinds == crate::config::default_keybinds(),
    ensures
        crate::config::config_lines(
            pre + seq![
                conf_comment_keys(),
                kv_text(crate::config::key_manual(), seq!['m']),
                kv_text(crate::config::key_firmware(), seq!['f']),
                kv_text(crate::config::key_reboot(), seq!['r']),
                kv_text(crate::config::key_shutdown(), seq!['s']),
                kv_text(crate::config::key_backup(), seq!['b']),
            ],
        ) == Ok::<_, &'static str>((c, None::<EntryView>)),
{
    let c3 = conf_comment_keys();
    let st: (crate::config::ConfigView, Option<EntryView>) = (c, None);
    lemma_key_lines(c);
    let p6 = pre.push(c3);
    let p7 = p6.push(kv_text(crate::config::key_manual(), seq!['m']));
    let p8 = p7.push(kv_text(crate::config::key_firmware(), seq!['f']));
    let p9 = p8.push(kv_text(crate::config::key_reboot(), seq!['r']));
    let p10 = p9.push(kv_text(crate::config::key_shutdown(), seq!['s']));
    let p11 = p10.push(kv_text(crate::config::key_backup(), seq!['b']));
    lemma_config_push(pre, c3);
    lemma_comment_line(st, c3);
    lemma_config_push(p6, kv_text(crate::config::key_manual(), seq!['m']));
    lemma_config_push(p7, kv_text(crate::config::key_firmware(), seq!['f']));
    lemma_config_push(p8, kv_text(crate::config::key_reboot(), seq!['r']));
    lemma_config_push(p9, kv_text(crate::config::key_shutdown(), seq!['s']));
    lemma_config_push(p10, kv_text(crate::config::key_backup(), seq!['b']));
    assert(p11 =~= pre + seq![
        c3,
        kv_text(crate::config::key_manual(), seq!['m']),
        kv_text(crate::config::key_firmware(), seq!['f']),
        kv_text(crate::config::key_reboot(), seq!['r']),
        kv_text(crate::config::key_shutdown(), seq!['s']),
        kv_text(crate::config::key_backup(), seq!['b']),
    ]);
}

/// The main configuration that `install` and `config detect` generate reads
/// back as written: no scanning, a timeout of 5 s, the entries' names as the
/// order (none without entries), no default, no sections, the default keys;
/// for names that are not empty and hold no white space, the first not
/// starting and the last not ending with `"`.
pub proof fn law_generated_main_config_reads_back(ds: Seq<DetectedView>)
    requires
        forall|k: int| 0 <= k < ds.len() ==> plain_word(#[trigger] ds[k].name),
        ds.len() > 0 ==> ds[0].name[0] != '"' && ds.last().name.last() != '"',
    ensures
        ({
            let bytes = vstd::utf8::encode_utf8(main_conf(ds));
            &&& vstd::utf8::valid_utf8(bytes)
            &&& crate::config::config_text(vstd::utf8::decode_utf8(bytes)) == Ok::<
                crate::config::ConfigView,
                &'static str,
            >(
                crate::config::ConfigView {
                    default: None,
                    timeout: 5,
                    no_scan: true,
                    order: if ds.len() > 0 {
                        Some(entry_names(ds))
                    } else {
                        None
                    },
                    entries: Seq::empty(),
                    keybinds: crate::config::default_keybinds(),
                },
            )
        }),
{
    broadcast use vstd::utf8::encode_utf8_decode_utf8, vstd::utf8::encode_utf8_valid_utf8;

    let names = entry_names(ds);
    assert forall|k: int| 0 <= k < names.len() implies plain_word(#[trigger] names[k]) by {
        assert(names[k] == ds[k].name);
    }
    lemma_main_conf_split(ds);
    let head = seq![
        conf_comment_head(),
        conf_comment_entries(),
        kv_text(crate::config::key_no_scan(), seq!['t', 'r', 'u', 'e']),
        kv_text(crate::config::key_timeout(), seq!['5']),
    ];
    let tail = seq![
        conf_comment_keys(),
        kv_text(crate::config::key_manual(), seq!['m']),
        kv_text(crate::config::key_firmware(), seq!['f']),
        kv_text(crate::config::key_reboot(), seq!['r']),
        kv_text(crate::config::key_shutdown(), seq!['s']),
        kv_text(crate::config::key_backup(), seq!['b']),
    ];
    lemma_head_lines();
    let cfg3 = crate::config::ConfigView { no_scan: true, ..crate::config::initial_config() };
    let cfg5 = crate::config::ConfigView {
        order: if ds.len() > 0 {
            Some(names)
        } else {
            None
        },
        ..cfg3
    };
    let mid: Seq<Seq<char>> = if ds.len() > 0 {
        seq![kv_text(crate::config::key_order(), join_words(names))]
    } else {
        Seq::empty()
    };
    if ds.len() > 0 {
        assert(names[0] == ds[0].name);
        assert(names.last() == ds.last().name);
        lemma_config_push(head, kv_text(crate::config::key_order(), join_words(names)));
        lemma_order_line(cfg3, names);
        assert(head.push(kv_text(crate::config::key_order(), join_words(names))) =~= head + mid);
    } else {
        assert(head + mid =~= head);
    }
    assert(crate::config::config_lines(head + mid) == Ok::<_, &'static str>((cfg5, None::<EntryView>)));
    lemma_tail_lines(head + mid, cfg5);
    let lines = main_conf_lines(ds);
    assert(lines =~= head + mid + tail);
    lemma_config_push(lines, Seq::empty());
    assert(spec_trim(Seq::<char>::empty()) =~= Seq::<char>::empty());
}

/// An entry added with `entry add NAME` (with or without `--tries`) is what
/// the bootloader loads from the file: named NAME, with the title, kernel,
/// initramfs paths and options written, and the boot counter given; for the
/// names and values of `law_written_tries_read_back` and
/// `law_written_entry_reads_back`.
pub proof fn law_added_entry_loads(
    name: Seq<char>,
    tries: Option<u32>,
    title: Seq<char>,
    efi: Seq<char>,
    initrd: Seq<Seq<char>>,
    options: Option<Seq<char>>,
)
    requires
        forall|i: int| 0 <= i < name.len() ==> name[i] != '+',
        !ends_with(name, dot_conf()),
        !ends_with(name, crate::boot::dot_conf_upper()),
        clean_value(title),
        clean_value(efi),
        efi.len() > 0,
        forall|i: int| 0 <= i < initrd.len() ==> clean_value(#[trigger] initrd[i]) && initrd[i].len() > 0,
        match options {
            Some(o) => clean_value(o) && o.len() > 0,
            None => true,
        },
    ensures
        crate::boot::file_entry(
            added_file(name, tries),
            vstd::utf8::encode_utf8(entry_contents(title, efi, initrd, options)),
        ) == Some(
            EntryView {
                name,
                title,
                efi_path: efi,
                options,
                initrd,
                boot_counter: tries,
                source_path: Some(crate::boot::entries_prefix() + added_file(name, tries)),
            },
        ),
{
    law_written_tries_read_back(name, tries, 0);
    law_written_entry_reads_back(name, title, efi, initrd, options);
    let f = added_file(name, tries);
    assert(f.skip(f.len() - 5) =~= dot_conf());
    assert(dot_conf() =~= crate::boot::dot_conf());
    assert(ends_with(f, crate::boot::dot_conf()));
}

} // verus!
