//! Finding what can be booted on the boot partition: Windows' `\bootmgr`,
//! unified kernel images under `\EFI\Linux`, kernels `\vmlinuz[-VERSION]`
//! on the partition root with their initramfs, and, for the manual boot
//! browser, every `.efi` file.
use vstd::prelude::*;
use crate::boot::{normalize_path, normalized};
use crate::config::{Entry, EntryView, entries_view};
use crate::text::{
    chars_of, ends_with, find_char, has_prefix, index_of, has_suffix, push_chars, push_str,
    split_whitespace, split_words, starts_with, string_from, strings_view, strip_suffix_all,
    trim_end_matches, spec_eq_ignore_ascii_case, eq_ignore_ascii_case,
};

verus! {

// ---------------------------------------------------------------------------
// Case mapping
// ---------------------------------------------------------------------------

/// What `char::to_uppercase` gives for a character: its Unicode upper case
/// mapping, one to three characters.
pub uninterp spec fn uppercase_of(c: char) -> Seq<char>;

/// What `str::to_lowercase` gives for a string: its Unicode lower case
/// mapping.
pub uninterp spec fn lowercase_of(s: Seq<char>) -> Seq<char>;

/// Calls `char::to_uppercase` and collects the characters it yields. The
/// mapping depends on the character alone (Unicode's tables); it is named,
/// not stated.
#[verifier::external_body]
fn char_to_uppercase(c: char) -> (r: String)
    ensures
        r@ == uppercase_of(c),
{
    c.to_uppercase().collect::<String>()
}

/// Calls `str::to_lowercase`. The mapping depends on the string alone
/// (Unicode's tables); it is named, not stated.
#[verifier::external_body]
pub(crate) fn str_to_lowercase(s: &str) -> (r: String)
    ensures
        r@ == lowercase_of(s@),
{
    s.to_lowercase()
}

// ---------------------------------------------------------------------------
// Text helpers
// ---------------------------------------------------------------------------

/// `str::replace(pat, "")`: every occurrence of `pat`, found from the left
/// without overlap, taken out.
pub open spec fn remove_all(s: Seq<char>, pat: Seq<char>) -> Seq<char>
    decreases s.len(),
{
    if s.len() == 0 {
        s
    } else if pat.len() > 0 && starts_with(s, pat) {
        remove_all(s.skip(pat.len() as int), pat)
    } else {
        seq![s[0]] + remove_all(s.drop_first(), pat)
    }
}

/// `s` without any occurrence of `pat`, as `str::replace(pat, "")` gives it.
pub fn remove_all_of(s: &[char], pat: &[char]) -> (r: String)
    ensures
        r@ == remove_all(s@, pat@),
{
    let mut r = String::new();
    let mut i: usize = 0;
    assert(s@.skip(0) =~= s@);
    assert(Seq::<char>::empty() + remove_all(s@, pat@) =~= remove_all(s@, pat@));
    while i < s.len()
        invariant
            0 <= i <= s@.len(),
            remove_all(s@, pat@) == r@ + remove_all(s@.skip(i as int), pat@),
        decreases s@.len() - i,
    {
        let rest = &s[i..s.len()];
        assert(rest@ =~= s@.skip(i as int));
        if pat.len() > 0 && has_prefix(rest, pat) {
            assert(s@.skip(i as int).skip(pat@.len() as int) =~= s@.skip(i + pat@.len()));
            i = i + pat.len();
        } else {
            push_chars(&mut r, &[s[i]]);
            assert(s@.skip(i as int).drop_first() =~= s@.skip(i + 1));
            assert(r@ + remove_all(s@.skip(i + 1), pat@) =~= (r@.drop_last() + (seq![s@[i as int]]
                + remove_all(s@.skip(i + 1), pat@))));
            i = i + 1;
        }
    }
    assert(s@.skip(s@.len() as int) =~= Seq::<char>::empty());
    assert(r@ + Seq::<char>::empty() =~= r@);
    r
}

/// The words joined by single spaces.
pub open spec fn join_words(ws: Seq<Seq<char>>) -> Seq<char>
    decreases ws.len(),
{
    if ws.len() == 0 {
        Seq::empty()
    } else if ws.len() == 1 {
        ws[0]
    } else {
        join_words(ws.drop_last()) + seq![' '] + ws.last()
    }
}

/// A word with its first character in upper case.
pub open spec fn capitalized(w: Seq<char>) -> Seq<char> {
    if w.len() == 0 {
        w
    } else {
        uppercase_of(w[0]) + w.drop_first()
    }
}

/// The word `w` with its first character replaced by `first_upper`, the
/// upper case of that character.
pub fn capitalized_with(w: &str, first_upper: &str) -> (r: String)
    ensures
        r@ == if w@.len() == 0 {
            w@
        } else {
            first_upper@ + w@.drop_first()
        },
{
    let cs = chars_of(w);
    if cs.len() == 0 {
        return String::new();
    }
    let mut r = String::new();
    push_str(&mut r, first_upper);
    push_chars(&mut r, &cs.as_slice()[1..cs.len()]);
    assert(cs@.subrange(1, cs@.len() as int) =~= w@.drop_first());
    r
}

fn capitalize(w: &str) -> (r: String)
    ensures
        r@ == capitalized(w@),
{
    let cs = chars_of(w);
    if cs.len() == 0 {
        return String::new();
    }
    let upper = char_to_uppercase(cs[0]);
    capitalized_with(w, upper.as_str())
}

// ---------------------------------------------------------------------------
// Windows
// ---------------------------------------------------------------------------

/// `\bootmgr`.
pub open spec fn bootmgr_path() -> Seq<char> {
    seq!['\\', 'b', 'o', 'o', 't', 'm', 'g', 'r']
}

/// The entry for Windows' boot manager.
pub open spec fn windows_entry_view() -> EntryView {
    EntryView {
        name: seq!['w', 'i', 'n', 'd', 'o', 'w', 's'],
        title: seq!['W', 'i', 'n', 'd', 'o', 'w', 's'],
        efi_path: bootmgr_path(),
        options: None,
        initrd: Seq::empty(),
        boot_counter: None,
        source_path: None,
    }
}

/// The entry for Windows' boot manager, `\bootmgr`.
pub fn windows_entry() -> (r: Entry)
    ensures
        r@ == windows_entry_view(),
{
    let mut name = String::new();
    push_str(&mut name, "windows");
    let mut title = String::new();
    push_str(&mut title, "Windows");
    let mut path = String::new();
    push_str(&mut path, "\\bootmgr");
    proof {
        reveal_strlit("windows");
        reveal_strlit("Windows");
        reveal_strlit("\\bootmgr");
    }
    let r = Entry {
        name,
        title,
        efi_path: path,
        options: None,
        initrd: Vec::new(),
        boot_counter: None,
        source_path: None,
    };
    assert(r@.initrd =~= Seq::<Seq<char>>::empty());
    assert(r@ =~= windows_entry_view());
    r
}

// ---------------------------------------------------------------------------
// Unified kernel images
// ---------------------------------------------------------------------------

pub open spec fn dot_efi() -> Seq<char> {
    seq!['.', 'e', 'f', 'i']
}

pub open spec fn dot_efi_upper() -> Seq<char> {
    seq!['.', 'E', 'F', 'I']
}

/// `.efi` or `.EFI` ends the file name.
pub open spec fn is_efi_name(name: Seq<char>) -> bool {
    ends_with(name, dot_efi()) || ends_with(name, dot_efi_upper())
}

/// `\EFI\Linux\`.
pub open spec fn uki_dir() -> Seq<char> {
    seq!['\\', 'E', 'F', 'I', '\\', 'L', 'i', 'n', 'u', 'x']
}

/// The name without its `.efi` and then `.EFI` suffixes.
pub open spec fn efi_stem(name: Seq<char>) -> Seq<char> {
    strip_suffix_all(strip_suffix_all(name, dot_efi()), dot_efi_upper())
}

/// The title of a unified kernel image: the stem with `-` read as a space,
/// each word capitalized, the words joined by single spaces.
pub open spec fn uki_title(name: Seq<char>) -> Seq<char> {
    let display = efi_stem(name).map_values(|c: char| if c == '-' { ' ' } else { c });
    join_words(split_words(display).map_values(|w: Seq<char>| capitalized(w)))
}

/// The entry of the unified kernel image `name` in `\EFI\Linux`: named by
/// the file name in lower case without `.efi`.
pub open spec fn uki_entry_view(name: Seq<char>) -> EntryView {
    uki_entry_view_lowered(name, lowercase_of(name))
}

/// The entry of the unified kernel image `name`, given the file name in
/// lower case.
pub open spec fn uki_entry_view_lowered(name: Seq<char>, lowered: Seq<char>) -> EntryView {
    EntryView {
        name: remove_all(lowered, dot_efi()),
        title: uki_title(name),
        efi_path: uki_dir() + seq!['\\'] + name,
        options: None,
        initrd: Seq::empty(),
        boot_counter: None,
        source_path: None,
    }
}

/// The entries of the unified kernel images among the first `k` names.
pub open spec fn uki_entries(names: Seq<Seq<char>>, k: int) -> Seq<EntryView>
    decreases k,
{
    if k <= 0 {
        Seq::empty()
    } else if is_efi_name(names[k - 1]) {
        uki_entries(names, k - 1).push(uki_entry_view(names[k - 1]))
    } else {
        uki_entries(names, k - 1)
    }
}

pub(crate) fn title_of_uki(name: &[char]) -> (r: String)
    ensures
        r@ == uki_title(name@),
{
    let lower = [ '.', 'e', 'f', 'i' ];
    let upper = [ '.', 'E', 'F', 'I' ];
    assert(lower@ =~= dot_efi());
    assert(upper@ =~= dot_efi_upper());
    let stem = trim_end_matches(trim_end_matches(name, &lower), &upper);
    let ghost display = efi_stem(name@).map_values(|c: char| if c == '-' { ' ' } else { c });
    let mut d: Vec<char> = Vec::new();
    let mut i: usize = 0;
    while i < stem.len()
        invariant
            0 <= i <= stem@.len(),
            stem@ == efi_stem(name@),
            display == efi_stem(name@).map_values(|c: char| if c == '-' { ' ' } else { c }),
            d@ == display.take(i as int),
        decreases stem@.len() - i,
    {
        let c = stem[i];
        d.push(if c == '-' { ' ' } else { c });
        assert(d@ =~= display.take(i + 1));
        i = i + 1;
    }
    assert(display.take(stem@.len() as int) =~= display);
    let words = split_whitespace(d.as_slice());
    let ghost caps = split_words(display).map_values(|w: Seq<char>| capitalized(w));
    let mut r = String::new();
    let mut k: usize = 0;
    while k < words.len()
        invariant
            0 <= k <= words@.len(),
            strings_view(words@) == split_words(display),
            caps == split_words(display).map_values(|w: Seq<char>| capitalized(w)),
            r@ == join_words(caps.take(k as int)),
        decreases words@.len() - k,
    {
        assert(strings_view(words@)[k as int] == words@[k as int]@);
        let cw = capitalize(words[k].as_str());
        if k > 0 {
            push_chars(&mut r, &[' ']);
        }
        push_str(&mut r, cw.as_str());
        assert(caps.take(k + 1).drop_last() =~= caps.take(k as int));
        if k == 0 {
            assert(r@ =~= join_words(caps.take(1)));
        } else {
            assert(r@ =~= join_words(caps.take(k as int)) + seq![' '] + caps[k as int]);
        }
        k = k + 1;
    }
    assert(caps.take(words@.len() as int) =~= caps);
    r
}

/// The entry of the unified kernel image `name`, if it is an `.efi` file.
pub fn uki_entry(name: &str) -> (r: Option<Entry>)
    ensures
        r is Some <==> is_efi_name(name@),
        r matches Some(e) ==> e@ == uki_entry_view(name@),
{
    let low = str_to_lowercase(name);
    uki_entry_lowered(name, low.as_str())
}

/// The entry of the unified kernel image `name`, if it is an `.efi` file,
/// given the file name in lower case.
pub fn uki_entry_lowered(name: &str, lowered: &str) -> (r: Option<Entry>)
    ensures
        r is Some <==> is_efi_name(name@),
        r matches Some(e) ==> e@ == uki_entry_view_lowered(name@, lowered@),
{
    let cs = chars_of(name);
    let lower = [ '.', 'e', 'f', 'i' ];
    let upper = [ '.', 'E', 'F', 'I' ];
    assert(lower@ =~= dot_efi());
    assert(upper@ =~= dot_efi_upper());
    if !(has_suffix(&cs, &lower) || has_suffix(&cs, &upper)) {
        return None;
    }
    let mut path = String::new();
    push_str(&mut path, "\\EFI\\Linux\\");
    push_str(&mut path, name);
    proof {
        reveal_strlit("\\EFI\\Linux\\");
        assert(path@ =~= uki_dir() + seq!['\\'] + name@);
    }
    let title = title_of_uki(&cs);
    let low_cs = chars_of(lowered);
    let entry_name = remove_all_of(&low_cs, &lower);
    let e = Entry {
        name: entry_name,
        title,
        efi_path: path,
        options: None,
        initrd: Vec::new(),
        boot_counter: None,
        source_path: None,
    };
    assert(e@.initrd =~= Seq::<Seq<char>>::empty());
    assert(e@ =~= uki_entry_view_lowered(name@, lowered@));
    Some(e)
}

/// The entries for the unified kernel images of a `\EFI\Linux` listing, in
/// listing order.
pub fn uki_entries_of(names: &Vec<String>) -> (r: Vec<Entry>)
    ensures
        entries_view(r@) == uki_entries(strings_view(names@), names@.len() as int),
{
    let ghost nv = strings_view(names@);
    let mut r: Vec<Entry> = Vec::new();
    let mut i: usize = 0;
    while i < names.len()
        invariant
            0 <= i <= names@.len(),
            nv == strings_view(names@),
            entries_view(r@) == uki_entries(nv, i as int),
        decreases names@.len() - i,
    {
        assert(nv[i as int] == names@[i as int]@);
        let ghost before = entries_view(r@);
        match uki_entry(names[i].as_str()) {
            Some(e) => {
                let ghost ev = e@;
                r.push(e);
                assert(entries_view(r@) =~= before.push(ev));
            },
            None => {},
        }
        i = i + 1;
    }
    r
}


// ---------------------------------------------------------------------------
// Kernels on the partition root
// ---------------------------------------------------------------------------

pub open spec fn vmlinuz() -> Seq<char> {
    seq!['v', 'm', 'l', 'i', 'n', 'u', 'z']
}

/// The version of a kernel file: empty for `vmlinuz`, `V` for
/// `vmlinuz-V`; none for other names.
pub open spec fn kernel_version(name: Seq<char>) -> Option<Seq<char>> {
    if spec_eq_ignore_ascii_case(name, vmlinuz()) {
        Some(Seq::empty())
    } else if name.len() >= 8 && spec_eq_ignore_ascii_case(name.take(8), vmlinuz().push('-')) {
        Some(name.skip(8))
    } else {
        None
    }
}

/// Where the initramfs of a kernel is looked for, in this order.
pub open spec fn initrd_candidates(ver: Seq<char>) -> Seq<Seq<char>> {
    if ver.len() == 0 {
        seq![
            seq!['\\', 'i', 'n', 'i', 't', 'r', 'a', 'm', 'f', 's', '-', 'l', 'i', 'n', 'u', 'x', '.', 'i', 'm', 'g'],
            seq!['\\', 'i', 'n', 'i', 't', 'r', 'd', '.', 'i', 'm', 'g'],
            seq!['\\', 'i', 'n', 'i', 't', 'r', 'a', 'm', 'f', 's', '.', 'i', 'm', 'g'],
        ]
    } else {
        seq![
            seq!['\\', 'i', 'n', 'i', 't', 'r', 'a', 'm', 'f', 's', '-'] + ver + seq!['.', 'i', 'm', 'g'],
            seq!['\\', 'i', 'n', 'i', 't', 'r', 'd', '.', 'i', 'm', 'g', '-'] + ver,
            seq!['\\', 'i', 'n', 'i', 't', 'r', 'a', 'm', 'f', 's', '-'] + ver + seq![
                '-', 'g', 'e', 'n', 'e', 'r', 'i', 'c', '.', 'i', 'm', 'g',
            ],
        ]
    }
}

/// The entry of the kernel `name` of version `ver`: `linux` and `Linux`
/// without a version, `linux-V` (V in lower case) and `Linux V` with one.
pub open spec fn kernel_entry_view(name: Seq<char>, ver: Seq<char>, initrd: Seq<Seq<char>>) -> EntryView {
    kernel_entry_view_lowered(name, ver, lowercase_of(ver), initrd)
}

/// The entry of the kernel `name` of version `ver`, given the version in
/// lower case.
pub open spec fn kernel_entry_view_lowered(
    name: Seq<char>,
    ver: Seq<char>,
    lowered_ver: Seq<char>,
    initrd: Seq<Seq<char>>,
) -> EntryView {
    EntryView {
        name: if ver.len() == 0 {
            seq!['l', 'i', 'n', 'u', 'x']
        } else {
            seq!['l', 'i', 'n', 'u', 'x', '-'] + lowered_ver
        },
        title: if ver.len() == 0 {
            seq!['L', 'i', 'n', 'u', 'x']
        } else {
            seq!['L', 'i', 'n', 'u', 'x', ' '] + ver
        },
        efi_path: seq!['\\'] + name,
        options: None,
        initrd,
        boot_counter: None,
        source_path: None,
    }
}

/// The version of the kernel file `name`, if it is one.
pub fn kernel_version_of(name: &str) -> (r: Option<String>)
    ensures
        match r {
            Some(v) => kernel_version(name@) == Some(v@),
            None => kernel_version(name@) is None,
        },
{
    let cs = chars_of(name);
    let pre = ['v', 'm', 'l', 'i', 'n', 'u', 'z', '-'];
    assert(pre@ =~= vmlinuz().push('-'));
    assert(pre@.subrange(0, 7) =~= vmlinuz());
    if eq_ignore_ascii_case(cs.as_slice(), &pre.as_slice()[0..7]) {
        return Some(String::new());
    }
    if cs.len() >= 8 && eq_ignore_ascii_case(&cs.as_slice()[0..8], &pre) {
        assert(cs@.subrange(0, 8) =~= name@.take(8));
        let v = string_from(&cs.as_slice()[8..cs.len()]);
        assert(cs@.subrange(8, cs@.len() as int) =~= name@.skip(8));
        Some(v)
    } else {
        proof {
            if name@.len() >= 8 {
                assert(cs@.subrange(0, 8) =~= name@.take(8));
            }
        }
        None
    }
}

/// The places where the initramfs of a kernel of version `ver` is looked
/// for, in order.
pub fn initrd_candidates_for(ver: &str) -> (r: Vec<String>)
    ensures
        strings_view(r@) == initrd_candidates(ver@),
{
    proof {
        reveal_strlit("\\initramfs-linux.img");
        reveal_strlit("\\initrd.img");
        reveal_strlit("\\initramfs.img");
        reveal_strlit("\\initramfs-");
        reveal_strlit(".img");
        reveal_strlit("\\initrd.img-");
        reveal_strlit("-generic.img");
    }
    let mut a = String::new();
    let mut b = String::new();
    let mut c = String::new();
    if ver.is_empty() {
        push_str(&mut a, "\\initramfs-linux.img");
        push_str(&mut b, "\\initrd.img");
        push_str(&mut c, "\\initramfs.img");
    } else {
        push_str(&mut a, "\\initramfs-");
        push_str(&mut a, ver);
        push_str(&mut a, ".img");
        push_str(&mut b, "\\initrd.img-");
        push_str(&mut b, ver);
        push_str(&mut c, "\\initramfs-");
        push_str(&mut c, ver);
        push_str(&mut c, "-generic.img");
    }
    proof {
        let cs = initrd_candidates(ver@);
        assert(a@ =~= cs[0]);
        assert(b@ =~= cs[1]);
        assert(c@ =~= cs[2]);
    }
    let r = vec![a, b, c];
    assert(strings_view(r@) =~= initrd_candidates(ver@));
    r
}

/// The entry of the kernel `name` of version `ver` with these initramfs
/// paths.
pub fn kernel_entry(name: &str, ver: &str, initrd: Vec<String>) -> (r: Entry)
    ensures
        r@ == kernel_entry_view(name@, ver@, strings_view(initrd@)),
{
    let low = str_to_lowercase(ver);
    kernel_entry_lowered(name, ver, low.as_str(), initrd)
}

/// The entry of the kernel `name` of version `ver` with these initramfs
/// paths, given the version in lower case.
pub fn kernel_entry_lowered(name: &str, ver: &str, lowered_ver: &str, initrd: Vec<String>) -> (r: Entry)
    ensures
        r@ == kernel_entry_view_lowered(name@, ver@, lowered_ver@, strings_view(initrd@)),
{
    proof {
        reveal_strlit("linux");
        reveal_strlit("linux-");
        reveal_strlit("Linux");
        reveal_strlit("Linux ");
        reveal_strlit("\\");
    }
    let mut entry_name = String::new();
    let mut title = String::new();
    if ver.is_empty() {
        push_str(&mut entry_name, "linux");
        push_str(&mut title, "Linux");
    } else {
        push_str(&mut entry_name, "linux-");
        push_str(&mut entry_name, lowered_ver);
        push_str(&mut title, "Linux ");
        push_str(&mut title, ver);
    }
    let mut path = String::new();
    push_str(&mut path, "\\");
    push_str(&mut path, name);
    let r = Entry {
        name: entry_name,
        title,
        efi_path: path,
        options: None,
        initrd,
        boot_counter: None,
        source_path: None,
    };
    assert(r@ =~= kernel_entry_view_lowered(name@, ver@, lowered_ver@, strings_view(initrd@)));
    r
}

// ---------------------------------------------------------------------------
// The partition scan
// ---------------------------------------------------------------------------

/// The position of the first kernel file at or after `from`; the length of
/// the listing when there is none.
pub open spec fn next_kernel(names: Seq<Seq<char>>, from: int) -> int
    decreases names.len() - from,
{
    if from >= names.len() {
        names.len() as int
    } else if kernel_version(names[from]) is Some {
        from
    } else {
        next_kernel(names, from + 1)
    }
}

pub proof fn lemma_next_kernel(names: Seq<Seq<char>>, from: int)
    requires
        0 <= from,
    ensures
        from <= next_kernel(names, from) || from > names.len(),
        next_kernel(names, from) <= names.len() || from > names.len(),
        next_kernel(names, from) < names.len() ==> kernel_version(names[next_kernel(names, from)])
            is Some,
    decreases names.len() - from,
{
    if from < names.len() && kernel_version(names[from]) is None {
        lemma_next_kernel(names, from + 1);
    }
}

/// The initramfs found for version `ver`: the first candidate from the
/// `c`-th on that can be read, as a one-element list; empty if none.
pub open spec fn initrd_found(ver: Seq<char>, c: int, file_ok: spec_fn(Seq<char>) -> bool) -> Seq<
    Seq<char>,
>
    decreases 3 - c,
{
    if c >= 3 || c < 0 {
        Seq::empty()
    } else if file_ok(normalized(initrd_candidates(ver)[c])) {
        seq![initrd_candidates(ver)[c]]
    } else {
        initrd_found(ver, c + 1, file_ok)
    }
}

/// The entries of the kernel files of a root listing from position `from`
/// on, each with the initramfs found for it.
pub open spec fn kernel_entries(
    names: Seq<Seq<char>>,
    from: int,
    file_ok: spec_fn(Seq<char>) -> bool,
) -> Seq<EntryView>
    decreases names.len() - from,
{
    let k = next_kernel(names, from);
    if from < 0 || from >= names.len() || k >= names.len() || k < from {
        Seq::empty()
    } else {
        let ver = kernel_version(names[k])->0;
        seq![kernel_entry_view(names[k], ver, initrd_found(ver, 0, file_ok))] + kernel_entries(
            names,
            k + 1,
            file_ok,
        )
    }
}

/// `\`, the root directory.
pub open spec fn root_dir() -> Seq<char> {
    seq!['\\']
}

/// What the scan detects on a partition on which `file_ok` tells which
/// files can be read and `dir` gives the names in each directory: Windows
/// if `\bootmgr` reads, then the unified kernel images of `\EFI\Linux`, then
/// the kernels of the root with their initramfs.
pub open spec fn detected(
    file_ok: spec_fn(Seq<char>) -> bool,
    dir: spec_fn(Seq<char>) -> Option<Seq<Seq<char>>>,
) -> Seq<EntryView> {
    (if file_ok(bootmgr_path()) {
        seq![windows_entry_view()]
    } else {
        Seq::empty()
    }) + match dir(uki_dir()) {
        Some(ns) => uki_entries(ns, ns.len() as int),
        None => Seq::empty(),
    } + match dir(root_dir()) {
        Some(ns) => kernel_entries(ns, 0, file_ok),
        None => Seq::empty(),
    }
}

/// Where a partition scan is.
#[derive(Debug, Clone, Copy, PartialEq, Eq, Structural)]
pub enum ScanStage {
    /// Reading `\bootmgr`.
    Bootmgr,
    /// Listing `\EFI\Linux`.
    Ukis,
    /// Listing the root.
    Root,
    /// Looking for the initramfs of a kernel.
    Probe,
    /// Done.
    Finished,
}

/// What a scan asks of the file system next.
#[derive(Debug)]
pub enum FsRequest {
    /// Whether this file can be read.
    ReadFile(String),
    /// The names in this directory.
    ReadDir(String),
    /// Nothing: the scan is done.
    Done,
}

pub enum FsRequestView {
    ReadFile(Seq<char>),
    ReadDir(Seq<char>),
    Done,
}

impl View for FsRequest {
    type V = FsRequestView;

    open spec fn view(&self) -> FsRequestView {
        match self {
            FsRequest::ReadFile(p) => FsRequestView::ReadFile(p@),
            FsRequest::ReadDir(p) => FsRequestView::ReadDir(p@),
            FsRequest::Done => FsRequestView::Done,
        }
    }
}

/// A scan of the boot partition for what can be booted.
pub struct PartitionScan {
    stage: ScanStage,
    entries: Vec<Entry>,
    root: Vec<String>,
    kernel: usize,
    candidate: usize,
}

/// What a `PartitionScan` holds.
pub struct ScanView {
    pub stage: ScanStage,
    pub entries: Seq<EntryView>,
    pub root: Seq<Seq<char>>,
    pub kernel: int,
    pub candidate: int,
}

impl View for PartitionScan {
    type V = ScanView;

    closed spec fn view(&self) -> ScanView {
        ScanView {
            stage: self.stage,
            entries: entries_view(self.entries@),
            root: strings_view(self.root@),
            kernel: self.kernel as int,
            candidate: self.candidate as int,
        }
    }
}

/// While probing, the kernel is a kernel file of the root listing and the
/// candidate one of its three.
pub open spec fn scan_inv(v: ScanView) -> bool {
    v.stage == ScanStage::Probe ==> {
        &&& 0 <= v.kernel < v.root.len()
        &&& kernel_version(v.root[v.kernel]) is Some
        &&& 0 <= v.candidate < 3
    }
}

/// The path read while probing.
pub open spec fn probe_path(v: ScanView) -> Seq<char> {
    normalized(initrd_candidates(kernel_version(v.root[v.kernel])->0)[v.candidate])
}

/// What the scan asks next.
pub open spec fn scan_request(v: ScanView) -> FsRequestView {
    match v.stage {
        ScanStage::Bootmgr => FsRequestView::ReadFile(bootmgr_path()),
        ScanStage::Ukis => FsRequestView::ReadDir(uki_dir()),
        ScanStage::Root => FsRequestView::ReadDir(root_dir()),
        ScanStage::Probe => FsRequestView::ReadFile(probe_path(v)),
        ScanStage::Finished => FsRequestView::Done,
    }
}

/// On to the next kernel after the current one, or done.
pub open spec fn after_kernel(v: ScanView) -> ScanView {
    let n = next_kernel(v.root, v.kernel + 1);
    if n < v.root.len() {
        ScanView { stage: ScanStage::Probe, kernel: n, candidate: 0, ..v }
    } else {
        ScanView { stage: ScanStage::Finished, ..v }
    }
}

/// The scan after the answer to a file read: Windows is added if
/// `\bootmgr` reads; a kernel gets the first candidate that reads, or no
/// initramfs after the third.
pub open spec fn scan_feed_file(v: ScanView, found: bool) -> ScanView {
    match v.stage {
        ScanStage::Bootmgr => ScanView {
            stage: ScanStage::Ukis,
            entries: if found {
                v.entries.push(windows_entry_view())
            } else {
                v.entries
            },
            ..v
        },
        ScanStage::Probe => {
            let name = v.root[v.kernel];
            let ver = kernel_version(name)->0;
            if found {
                after_kernel(
                    ScanView {
                        entries: v.entries.push(
                            kernel_entry_view(name, ver, seq![initrd_candidates(ver)[v.candidate]]),
                        ),
                        ..v
                    },
                )
            } else if v.candidate + 1 < 3 {
                ScanView { candidate: v.candidate + 1, ..v }
            } else {
                after_kernel(
                    ScanView {
                        entries: v.entries.push(kernel_entry_view(name, ver, Seq::empty())),
                        ..v
                    },
                )
            }
        },
        _ => v,
    }
}

/// The scan after the answer to a directory listing.
pub open spec fn scan_feed_dir(v: ScanView, listing: Option<Seq<Seq<char>>>) -> ScanView {
    match v.stage {
        ScanStage::Ukis => ScanView {
            stage: ScanStage::Root,
            entries: match listing {
                Some(ns) => v.entries + uki_entries(ns, ns.len() as int),
                None => v.entries,
            },
            ..v
        },
        ScanStage::Root => match listing {
            None => ScanView { stage: ScanStage::Finished, ..v },
            Some(ns) => {
                let n = next_kernel(ns, 0);
                if n < ns.len() {
                    ScanView { stage: ScanStage::Probe, root: ns, kernel: n, candidate: 0, ..v }
                } else {
                    ScanView { stage: ScanStage::Finished, root: ns, ..v }
                }
            },
        },
        _ => v,
    }
}

/// What the scan ends with from here, on a partition described by
/// `file_ok` and `dir`.
pub open spec fn scan_outcome(
    v: ScanView,
    file_ok: spec_fn(Seq<char>) -> bool,
    dir: spec_fn(Seq<char>) -> Option<Seq<Seq<char>>>,
) -> Seq<EntryView> {
    let kernels = match dir(root_dir()) {
        Some(ns) => kernel_entries(ns, 0, file_ok),
        None => Seq::empty(),
    };
    let ukis = match dir(uki_dir()) {
        Some(ns) => uki_entries(ns, ns.len() as int),
        None => Seq::empty(),
    };
    match v.stage {
        ScanStage::Bootmgr => v.entries + detected(file_ok, dir),
        ScanStage::Ukis => v.entries + ukis + kernels,
        ScanStage::Root => v.entries + kernels,
        ScanStage::Probe => {
            let ver = kernel_version(v.root[v.kernel])->0;
            v.entries + seq![
                kernel_entry_view(v.root[v.kernel], ver, initrd_found(ver, v.candidate, file_ok)),
            ] + kernel_entries(v.root, v.kernel + 1, file_ok)
        },
        ScanStage::Finished => v.entries,
    }
}

/// Starts the scan of the boot partition for what can be booted; the
/// program answers its requests (`PartitionScan::request`) until it is done.
pub fn scan_partition() -> (r: PartitionScan)
    ensures
        r@.stage == ScanStage::Bootmgr,
        r@.entries == Seq::<EntryView>::empty(),
        scan_inv(r@),
{
    PartitionScan::new()
}

/// Starts the walk over all files for the manual boot browser; the program
/// answers its requests (`FileWalk::request`) until it is done.
pub fn scan_all_files() -> (r: FileWalk)
    ensures
        r@.stage == WalkStage::Open,
        r@.open_path == root_dir(),
        r@.open_depth == 0,
        r@.stack == Seq::<FrameView>::empty(),
        r@.entries == Seq::<EntryView>::empty(),
        walk_inv(r@),
{
    FileWalk::new()
}

impl PartitionScan {
    /// A scan that has found nothing yet and reads `\bootmgr` first.
    pub fn new() -> (r: Self)
        ensures
            r@.stage == ScanStage::Bootmgr,
            r@.entries == Seq::<EntryView>::empty(),
            scan_inv(r@),
    {
        let r = PartitionScan {
            stage: ScanStage::Bootmgr,
            entries: Vec::new(),
            root: Vec::new(),
            kernel: 0,
            candidate: 0,
        };
        assert(r@.entries =~= Seq::<EntryView>::empty());
        r
    }

    /// What the scan asks of the file system next.
    pub fn request(&self) -> (r: FsRequest)
        requires
            scan_inv(self@),
        ensures
            r@ == scan_request(self@),
    {
        match self.stage {
            ScanStage::Bootmgr => {
                let mut p = String::new();
                push_str(&mut p, "\\bootmgr");
                proof {
                    reveal_strlit("\\bootmgr");
                }
                assert(p@ =~= bootmgr_path());
                FsRequest::ReadFile(p)
            },
            ScanStage::Ukis => {
                let mut p = String::new();
                push_str(&mut p, "\\EFI\\Linux");
                proof {
                    reveal_strlit("\\EFI\\Linux");
                }
                assert(p@ =~= uki_dir());
                FsRequest::ReadDir(p)
            },
            ScanStage::Root => {
                let mut p = String::new();
                push_str(&mut p, "\\");
                proof {
                    reveal_strlit("\\");
                }
                assert(p@ =~= root_dir());
                FsRequest::ReadDir(p)
            },
            ScanStage::Probe => {
                assert(self@.root.len() == self.root@.len());
                assert(self@.root[self.kernel as int] == self.root@[self.kernel as int]@);
                let ver = kernel_version_of(self.root[self.kernel].as_str()).unwrap();
                let cands = initrd_candidates_for(ver.as_str());
                assert(strings_view(cands@).len() == 3);
                assert(cands@.len() == 3);
                assert(strings_view(cands@)[self.candidate as int] == cands@[self.candidate as int]@);
                FsRequest::ReadFile(normalize_path(cands[self.candidate].as_str()))
            },
            ScanStage::Finished => FsRequest::Done,
        }
    }

    fn next_kernel_from(&self, from: usize) -> (r: usize)
        requires
            from <= self@.root.len(),
        ensures
            r == next_kernel(self@.root, from as int),
    {
        let ghost ns = self@.root;
        assert(ns.len() == self.root@.len());
        let mut k = from;
        while k < self.root.len()
            invariant
                from <= k <= self.root@.len(),
                ns == strings_view(self.root@),
                next_kernel(ns, from as int) == next_kernel(ns, k as int),
            decreases self.root@.len() - k,
        {
            assert(ns[k as int] == self.root@[k as int]@);
            match kernel_version_of(self.root[k].as_str()) {
                Some(_) => {
                    return k;
                },
                None => {},
            }
            k = k + 1;
        }
        k
    }

    fn advance(&mut self)
        requires
            old(self)@.stage == ScanStage::Probe,
            0 <= old(self)@.kernel < old(self)@.root.len(),
        ensures
            final(self)@ == after_kernel(old(self)@),
            scan_inv(final(self)@),
    {
        let len = self.root.len();
        assert(self@.root.len() == self.root@.len());
        assert(self.kernel < len);
        let n = self.next_kernel_from(self.kernel + 1);
        proof {
            lemma_next_kernel(self@.root, self.kernel + 1);
        }
        if n < self.root.len() {
            self.kernel = n;
            self.candidate = 0;
        } else {
            self.stage = ScanStage::Finished;
        }
    }

    /// Hands over whether the file that `request` named can be read.
    pub fn feed_file(&mut self, found: bool)
        requires
            scan_inv(old(self)@),
            old(self)@.stage == ScanStage::Bootmgr || old(self)@.stage == ScanStage::Probe,
        ensures
            final(self)@ == scan_feed_file(old(self)@, found),
            scan_inv(final(self)@),
    {
        match self.stage {
            ScanStage::Bootmgr => {
                if found {
                    let ghost before = self@.entries;
                    let w = windows_entry();
                    self.entries.push(w);
                    assert(self@.entries =~= before.push(windows_entry_view()));
                }
                self.stage = ScanStage::Ukis;
            },
            ScanStage::Probe => {
                assert(self@.root.len() == self.root@.len());
                assert(self@.root[self.kernel as int] == self.root@[self.kernel as int]@);
                let name = self.root[self.kernel].clone();
                let ver = kernel_version_of(name.as_str()).unwrap();
                if found {
                    let cands = initrd_candidates_for(ver.as_str());
                    assert(strings_view(cands@).len() == 3);
                    assert(cands@.len() == 3);
                    let c = cands[self.candidate].clone();
                    assert(strings_view(cands@)[self.candidate as int] == c@);
                    let initrd = vec![c];
                    assert(strings_view(initrd@) =~= seq![c@]);
                    let e = kernel_entry(name.as_str(), ver.as_str(), initrd);
                    let ghost before = self@.entries;
                    let ghost ev = e@;
                    self.entries.push(e);
                    assert(self@.entries =~= before.push(ev));
                    self.advance();
                } else if self.candidate + 1 < 3 {
                    self.candidate = self.candidate + 1;
                } else {
                    let initrd: Vec<String> = Vec::new();
                    assert(strings_view(initrd@) =~= Seq::<Seq<char>>::empty());
                    let e = kernel_entry(name.as_str(), ver.as_str(), initrd);
                    let ghost before = self@.entries;
                    let ghost ev = e@;
                    self.entries.push(e);
                    assert(self@.entries =~= before.push(ev));
                    self.advance();
                }
            },
            _ => {},
        }
    }

    /// Hands over the names in the directory that `request` named, or
    /// `None` when it cannot be listed.
    pub fn feed_dir(&mut self, listing: Option<Vec<String>>)
        requires
            scan_inv(old(self)@),
            old(self)@.stage == ScanStage::Ukis || old(self)@.stage == ScanStage::Root,
        ensures
            final(self)@ == scan_feed_dir(
                old(self)@,
                match listing {
                    Some(v) => Some(strings_view(v@)),
                    None => None,
                },
            ),
            scan_inv(final(self)@),
    {
        match self.stage {
            ScanStage::Ukis => {
                match listing {
                    Some(names) => {
                        let mut found = uki_entries_of(&names);
                        let ghost before = self@.entries;
                        let ghost add = entries_view(found@);
                        self.entries.append(&mut found);
                        assert(self@.entries =~= before + add);
                    },
                    None => {},
                }
                self.stage = ScanStage::Root;
            },
            ScanStage::Root => {
                match listing {
                    None => {
                        self.stage = ScanStage::Finished;
                    },
                    Some(names) => {
                        self.root = names;
                        assert(self@.root.len() == self.root@.len());
                        let n = self.next_kernel_from(0);
                        proof {
                            lemma_next_kernel(self@.root, 0);
                        }
                        if n < self.root.len() {
                            self.stage = ScanStage::Probe;
                            self.kernel = n;
                            self.candidate = 0;
                        } else {
                            self.stage = ScanStage::Finished;
                        }
                    },
                }
            },
            _ => {},
        }
    }

    /// The entries found, once the scan is done.
    pub fn result(self) -> (r: Vec<Entry>)
        ensures
            entries_view(r@) == self@.entries,
    {
        self.entries
    }

    /// Where the scan is.
    pub fn stage(&self) -> (r: ScanStage)
        ensures
            r == self@.stage,
    {
        self.stage
    }
}

/// A new scan ends, on any partition, with what `detected` says.
pub proof fn law_scan_starts_with_detected(
    file_ok: spec_fn(Seq<char>) -> bool,
    dir: spec_fn(Seq<char>) -> Option<Seq<Seq<char>>>,
)
    ensures
        ({
            let v = ScanView {
                stage: ScanStage::Bootmgr,
                entries: Seq::empty(),
                root: Seq::empty(),
                kernel: 0,
                candidate: 0,
            };
            scan_outcome(v, file_ok, dir) == detected(file_ok, dir)
        }),
{
    assert(Seq::<EntryView>::empty() + detected(file_ok, dir) =~= detected(file_ok, dir));
}

/// Answering each request as the partition does keeps what the scan ends
/// with.
pub proof fn law_scan_step(
    v: ScanView,
    file_ok: spec_fn(Seq<char>) -> bool,
    dir: spec_fn(Seq<char>) -> Option<Seq<Seq<char>>>,
)
    requires
        scan_inv(v),
        v.stage != ScanStage::Finished,
    ensures
        ({
            let next = match scan_request(v) {
                FsRequestView::ReadFile(p) => scan_feed_file(v, file_ok(p)),
                FsRequestView::ReadDir(p) => scan_feed_dir(v, dir(p)),
                FsRequestView::Done => v,
            };
            &&& scan_outcome(next, file_ok, dir) == scan_outcome(v, file_ok, dir)
            &&& scan_inv(next)
        }),
{
    let kernels = match dir(root_dir()) {
        Some(ns) => kernel_entries(ns, 0, file_ok),
        None => Seq::empty(),
    };
    let ukis = match dir(uki_dir()) {
        Some(ns) => uki_entries(ns, ns.len() as int),
        None => Seq::empty(),
    };
    match v.stage {
        ScanStage::Bootmgr => {
            let w = if file_ok(bootmgr_path()) {
                seq![windows_entry_view()]
            } else {
                Seq::empty()
            };
            let n = scan_feed_file(v, file_ok(bootmgr_path()));
            assert(n.entries =~= v.entries + w);
            assert(v.entries + (w + ukis + kernels) =~= n.entries + ukis + kernels);
        },
        ScanStage::Ukis => {
            let n = scan_feed_dir(v, dir(uki_dir()));
            assert(n.entries =~= v.entries + ukis);
        },
        ScanStage::Root => {
            match dir(root_dir()) {
                None => {
                    assert(v.entries + Seq::<EntryView>::empty() =~= v.entries);
                },
                Some(ns) => {
                    lemma_next_kernel(ns, 0);
                    let k = next_kernel(ns, 0);
                    if k >= ns.len() {
                        assert(v.entries + Seq::<EntryView>::empty() =~= v.entries);
                    } else {
                        let ver = kernel_version(ns[k])->0;
                        assert(v.entries + (seq![
                            kernel_entry_view(ns[k], ver, initrd_found(ver, 0, file_ok)),
                        ] + kernel_entries(ns, k + 1, file_ok)) =~= v.entries + seq![
                            kernel_entry_view(ns[k], ver, initrd_found(ver, 0, file_ok)),
                        ] + kernel_entries(ns, k + 1, file_ok));
                    }
                },
            }
        },
        ScanStage::Probe => {
            let name = v.root[v.kernel];
            let ver = kernel_version(name)->0;
            let found = file_ok(probe_path(v));
            let rest = kernel_entries(v.root, v.kernel + 1, file_ok);
            lemma_next_kernel(v.root, v.kernel + 1);
            let nk = next_kernel(v.root, v.kernel + 1);
            if found || v.candidate + 1 >= 3 {
                let e = if found {
                    kernel_entry_view(name, ver, seq![initrd_candidates(ver)[v.candidate]])
                } else {
                    kernel_entry_view(name, ver, Seq::empty())
                };
                if !found {
                    assert(v.candidate == 2);
                    assert(initrd_found(ver, 3, file_ok) == Seq::<Seq<char>>::empty());
                    assert(initrd_found(ver, v.candidate, file_ok) == Seq::<Seq<char>>::empty());
                }
                assert(e == kernel_entry_view(name, ver, initrd_found(ver, v.candidate, file_ok)));
                if nk < v.root.len() {
                    let ver2 = kernel_version(v.root[nk])->0;
                    assert(rest == seq![
                        kernel_entry_view(v.root[nk], ver2, initrd_found(ver2, 0, file_ok)),
                    ] + kernel_entries(v.root, nk + 1, file_ok));
                    assert(v.entries.push(e) + seq![
                        kernel_entry_view(v.root[nk], ver2, initrd_found(ver2, 0, file_ok)),
                    ] + kernel_entries(v.root, nk + 1, file_ok) =~= v.entries + seq![e] + rest);
                } else {
                    assert(rest == Seq::<EntryView>::empty());
                    assert(v.entries.push(e) =~= v.entries + seq![e] + rest);
                }
            }
        },
        ScanStage::Finished => {},
    }
}


// ---------------------------------------------------------------------------
// The walk over all files, for the manual boot browser
// ---------------------------------------------------------------------------

/// How deep the walk goes below the root.
pub const MAX_WALK_DEPTH: usize = 6;

/// `path\name`.
pub open spec fn sub_path(path: Seq<char>, name: Seq<char>) -> Seq<char> {
    path + seq!['\\'] + name
}

/// `.` or `..`.
pub open spec fn is_dot_dir(name: Seq<char>) -> bool {
    name == seq!['.'] || name == seq!['.', '.']
}

/// The entry for the `.efi` file `name` in `path`: named and titled by the
/// file name without `.efi`/`.EFI`.
pub open spec fn efi_file_entry(path: Seq<char>, name: Seq<char>) -> EntryView {
    EntryView {
        name: efi_stem(name),
        title: efi_stem(name),
        efi_path: sub_path(path, name),
        options: None,
        initrd: Seq::empty(),
        boot_counter: None,
        source_path: None,
    }
}

/// The `.efi` files found by walking `path` at `depth` on a partition whose
/// directories `dir` lists (each name with whether the file's data is
/// empty). Nothing below depth 6.
pub open spec fn walk(
    dir: spec_fn(Seq<char>) -> Option<Seq<(Seq<char>, bool)>>,
    path: Seq<char>,
    depth: int,
) -> Seq<EntryView>
    decreases 7 - depth, 1int, 0int,
{
    if depth > MAX_WALK_DEPTH || depth < 0 {
        Seq::empty()
    } else {
        match dir(path) {
            None => Seq::empty(),
            Some(items) => walk_items(dir, path, depth, items, 0),
        }
    }
}

/// The files found from the `i`-th item of a listing on: an `.efi` file is
/// an entry; a name without a dot is a directory if it can be listed or
/// its data is empty, and is walked one level deeper; other names are
/// skipped.
pub open spec fn walk_items(
    dir: spec_fn(Seq<char>) -> Option<Seq<(Seq<char>, bool)>>,
    path: Seq<char>,
    depth: int,
    items: Seq<(Seq<char>, bool)>,
    i: int,
) -> Seq<EntryView>
    decreases 7 - depth, 0int, items.len() - i,
{
    if i < 0 || i >= items.len() || depth > MAX_WALK_DEPTH || depth < 0 {
        Seq::empty()
    } else {
        let name = items[i].0;
        let here = if is_efi_name(name) {
            seq![efi_file_entry(path, name)]
        } else if index_of(name, '.') is Some {
            Seq::empty()
        } else {
            let sub = sub_path(path, name);
            let is_dir = dir(sub) is Some || items[i].1;
            if is_dir && !is_dot_dir(name) && depth + 1 <= MAX_WALK_DEPTH {
                walk(dir, sub, depth + 1)
            } else {
                Seq::empty()
            }
        };
        here + walk_items(dir, path, depth, items, i + 1)
    }
}

/// What the manual boot browser offers: the `.efi` files found walking
/// from the root.
pub open spec fn all_files(dir: spec_fn(Seq<char>) -> Option<Seq<(Seq<char>, bool)>>) -> Seq<
    EntryView,
> {
    walk(dir, root_dir(), 0)
}

/// A directory being walked.
pub struct WalkFrame {
    path: String,
    items: Vec<(String, bool)>,
    index: usize,
    depth: usize,
}

pub struct FrameView {
    pub path: Seq<char>,
    pub items: Seq<(Seq<char>, bool)>,
    pub index: int,
    pub depth: int,
}

pub open spec fn items_view(v: Seq<(String, bool)>) -> Seq<(Seq<char>, bool)> {
    v.map_values(|p: (String, bool)| (p.0@, p.1))
}

impl View for WalkFrame {
    type V = FrameView;

    closed spec fn view(&self) -> FrameView {
        FrameView {
            path: self.path@,
            items: items_view(self.items@),
            index: self.index as int,
            depth: self.depth as int,
        }
    }
}

/// Where a walk is.
#[derive(Debug, Clone, Copy, PartialEq, Eq, Structural)]
pub enum WalkStage {
    /// Listing a directory to walk it.
    Open,
    /// Listing a name without a dot, to see whether it is a directory.
    Probe,
    /// Done.
    Finished,
}

/// The walk over all files for the manual boot browser.
pub struct FileWalk {
    stage: WalkStage,
    open_path: String,
    open_depth: usize,
    stack: Vec<WalkFrame>,
    entries: Vec<Entry>,
}

pub struct WalkView {
    pub stage: WalkStage,
    pub open_path: Seq<char>,
    pub open_depth: int,
    pub stack: Seq<FrameView>,
    pub entries: Seq<EntryView>,
}

pub open spec fn frames_view(v: Seq<WalkFrame>) -> Seq<FrameView> {
    v.map_values(|f: WalkFrame| f@)
}

impl View for FileWalk {
    type V = WalkView;

    closed spec fn view(&self) -> WalkView {
        WalkView {
            stage: self.stage,
            open_path: self.open_path@,
            open_depth: self.open_depth as int,
            stack: frames_view(self.stack@),
            entries: entries_view(self.entries@),
        }
    }
}

pub open spec fn frame_wf(f: FrameView) -> bool {
    0 <= f.index <= f.items.len() && 0 <= f.depth <= MAX_WALK_DEPTH
}

pub open spec fn frames_wf(s: Seq<FrameView>) -> bool {
    forall|i: int| 0 <= i < s.len() ==> #[trigger] frame_wf(s[i])
}

/// The item of the top frame is a name without a dot and not an `.efi`
/// file: it has to be listed to tell whether it is a directory.
pub open spec fn needs_probe(f: FrameView) -> bool {
    &&& f.index < f.items.len()
    &&& !is_efi_name(f.items[f.index].0)
    &&& index_of(f.items[f.index].0, '.') is None
}

pub open spec fn walk_inv(v: WalkView) -> bool {
    &&& frames_wf(v.stack)
    &&& v.stage == WalkStage::Open ==> 0 <= v.open_depth <= MAX_WALK_DEPTH
    &&& v.stage == WalkStage::Probe ==> v.stack.len() > 0 && needs_probe(v.stack.last())
    &&& v.stage == WalkStage::Finished ==> v.stack.len() == 0
}

/// The top frame one item further on.
pub open spec fn advanced(s: Seq<FrameView>) -> Seq<FrameView> {
    s.drop_last().push(FrameView { index: s.last().index + 1, ..s.last() })
}

/// Goes through the items that need no listing: `.efi` files become
/// entries, other names with a dot are skipped, finished directories are
/// left; stops at a name to probe, or when nothing is left.
pub open spec fn settle(v: WalkView) -> WalkView
    decreases v.stack.len(), if v.stack.len() > 0 {
        v.stack.last().items.len() - v.stack.last().index
    } else {
        0
    },
{
    if v.stack.len() == 0 {
        WalkView { stage: WalkStage::Finished, ..v }
    } else {
        let top = v.stack.last();
        if top.index >= top.items.len() || top.index < 0 {
            settle(WalkView { stack: v.stack.drop_last(), ..v })
        } else {
            let name = top.items[top.index].0;
            if is_efi_name(name) {
                settle(
                    WalkView {
                        stack: advanced(v.stack),
                        entries: v.entries.push(efi_file_entry(top.path, name)),
                        ..v
                    },
                )
            } else if index_of(name, '.') is Some {
                settle(WalkView { stack: advanced(v.stack), ..v })
            } else {
                WalkView { stage: WalkStage::Probe, ..v }
            }
        }
    }
}

/// What the frames on the stack still find, the top one first.
pub open spec fn frames_rest(
    dir: spec_fn(Seq<char>) -> Option<Seq<(Seq<char>, bool)>>,
    s: Seq<FrameView>,
) -> Seq<EntryView>
    decreases s.len(),
{
    if s.len() == 0 {
        Seq::empty()
    } else {
        let f = s.last();
        walk_items(dir, f.path, f.depth, f.items, f.index) + frames_rest(dir, s.drop_last())
    }
}

/// What the walk ends with from here.
pub open spec fn walk_outcome(
    v: WalkView,
    dir: spec_fn(Seq<char>) -> Option<Seq<(Seq<char>, bool)>>,
) -> Seq<EntryView> {
    match v.stage {
        WalkStage::Open => v.entries + walk(dir, v.open_path, v.open_depth) + frames_rest(
            dir,
            v.stack,
        ),
        WalkStage::Probe => v.entries + frames_rest(dir, v.stack),
        WalkStage::Finished => v.entries,
    }
}

/// What the walk asks next.
pub open spec fn walk_request(v: WalkView) -> FsRequestView {
    match v.stage {
        WalkStage::Open => FsRequestView::ReadDir(v.open_path),
        WalkStage::Probe => FsRequestView::ReadDir(
            sub_path(v.stack.last().path, v.stack.last().items[v.stack.last().index].0),
        ),
        WalkStage::Finished => FsRequestView::Done,
    }
}

/// The walk after the listing that it asked for (`None`: not a directory).
pub open spec fn walk_feed(v: WalkView, listing: Option<Seq<(Seq<char>, bool)>>) -> WalkView {
    match v.stage {
        WalkStage::Open => match listing {
            None => settle(v),
            Some(items) => settle(
                WalkView {
                    stack: v.stack.push(
                        FrameView { path: v.open_path, items, index: 0, depth: v.open_depth },
                    ),
                    ..v
                },
            ),
        },
        WalkStage::Probe => {
            let top = v.stack.last();
            let item = top.items[top.index];
            let is_dir = listing is Some || item.1;
            if is_dir && !is_dot_dir(item.0) && top.depth + 1 <= MAX_WALK_DEPTH {
                WalkView {
                    stage: WalkStage::Open,
                    open_path: sub_path(top.path, item.0),
                    open_depth: top.depth + 1,
                    stack: advanced(v.stack),
                    ..v
                }
            } else {
                settle(WalkView { stack: advanced(v.stack), ..v })
            }
        },
        WalkStage::Finished => v,
    }
}

proof fn lemma_settle(v: WalkView, dir: spec_fn(Seq<char>) -> Option<Seq<(Seq<char>, bool)>>)
    requires
        frames_wf(v.stack),
    ensures
        walk_outcome(settle(v), dir) == v.entries + frames_rest(dir, v.stack),
        walk_inv(settle(v)) || settle(v).stage == WalkStage::Open && !(0 <= settle(v).open_depth
            <= MAX_WALK_DEPTH),
        settle(v).stage != WalkStage::Open,
        frames_wf(settle(v).stack),
        settle(v).open_path == v.open_path && settle(v).open_depth == v.open_depth,
    decreases v.stack.len(), if v.stack.len() > 0 {
        v.stack.last().items.len() - v.stack.last().index
    } else {
        0
    },
{
    if v.stack.len() == 0 {
        assert(v.entries + Seq::<EntryView>::empty() =~= v.entries);
    } else {
        let top = v.stack.last();
        assert(frame_wf(v.stack[v.stack.len() - 1]));
        if top.index >= top.items.len() {
            let w = WalkView { stack: v.stack.drop_last(), ..v };
            assert(frames_wf(w.stack)) by {
                assert forall|i: int| 0 <= i < w.stack.len() implies #[trigger] frame_wf(
                    w.stack[i],
                ) by {
                    assert(frame_wf(v.stack[i]));
                }
            }
            lemma_settle(w, dir);
            assert(walk_items(dir, top.path, top.depth, top.items, top.index) =~= Seq::<
                EntryView,
            >::empty());
            assert(Seq::<EntryView>::empty() + frames_rest(dir, w.stack) =~= frames_rest(
                dir,
                w.stack,
            ));
        } else {
            let name = top.items[top.index].0;
            let adv = advanced(v.stack);
            assert(frames_wf(adv)) by {
                assert forall|i: int| 0 <= i < adv.len() implies #[trigger] frame_wf(adv[i]) by {
                    if i < adv.len() - 1 {
                        assert(adv[i] == v.stack[i]);
                        assert(frame_wf(v.stack[i]));
                    }
                }
            }
            assert(adv.drop_last() =~= v.stack.drop_last());
            let nt = adv.last();
            if is_efi_name(name) {
                let w = WalkView {
                    stack: adv,
                    entries: v.entries.push(efi_file_entry(top.path, name)),
                    ..v
                };
                lemma_settle(w, dir);
                assert(w.entries + frames_rest(dir, w.stack) =~= v.entries + frames_rest(
                    dir,
                    v.stack,
                ));
            } else if index_of(name, '.') is Some {
                let w = WalkView { stack: adv, ..v };
                lemma_settle(w, dir);
                assert(w.entries + frames_rest(dir, w.stack) =~= v.entries + frames_rest(
                    dir,
                    v.stack,
                ));
            } else {
            }
        }
    }
}

impl WalkFrame {
    fn item_name(&self) -> (r: &String)
        requires
            self@.index < self@.items.len(),
        ensures
            r@ == self@.items[self@.index].0,
    {
        assert(self@.items[self.index as int] == (
            self.items@[self.index as int].0@,
            self.items@[self.index as int].1,
        ));
        &self.items[self.index].0
    }
}

fn is_efi_file(name: &String) -> (r: bool)
    ensures
        r == is_efi_name(name@),
{
    let cs = chars_of(name.as_str());
    let lower = [ '.', 'e', 'f', 'i' ];
    let upper = [ '.', 'E', 'F', 'I' ];
    assert(lower@ =~= dot_efi());
    assert(upper@ =~= dot_efi_upper());
    has_suffix(&cs, &lower) || has_suffix(&cs, &upper)
}

fn has_dot(name: &String) -> (r: bool)
    ensures
        r == (index_of(name@, '.') is Some),
{
    let cs = chars_of(name.as_str());
    find_char(&cs, '.').is_some()
}

fn join_path(path: &String, name: &String) -> (r: String)
    ensures
        r@ == sub_path(path@, name@),
{
    let mut r = path.clone();
    push_chars(&mut r, &['\\']);
    push_str(&mut r, name.as_str());
    r
}

fn efi_file_entry_of(path: &String, name: &String) -> (r: Entry)
    ensures
        r@ == efi_file_entry(path@, name@),
{
    let cs = chars_of(name.as_str());
    let lower = [ '.', 'e', 'f', 'i' ];
    let upper = [ '.', 'E', 'F', 'I' ];
    assert(lower@ =~= dot_efi());
    assert(upper@ =~= dot_efi_upper());
    let stem = trim_end_matches(trim_end_matches(&cs, &lower), &upper);
    let r = Entry {
        name: string_from(stem),
        title: string_from(stem),
        efi_path: join_path(path, name),
        options: None,
        initrd: Vec::new(),
        boot_counter: None,
        source_path: None,
    };
    assert(r@.initrd =~= Seq::<Seq<char>>::empty());
    assert(r@ =~= efi_file_entry(path@, name@));
    r
}

impl FileWalk {
    /// A walk that lists the root first, at depth 0.
    pub fn new() -> (r: Self)
        ensures
            r@.stage == WalkStage::Open,
            r@.open_path == root_dir(),
            r@.open_depth == 0,
            r@.stack == Seq::<FrameView>::empty(),
            r@.entries == Seq::<EntryView>::empty(),
            walk_inv(r@),
    {
        let mut p = String::new();
        push_chars(&mut p, &['\\']);
        let r = FileWalk {
            stage: WalkStage::Open,
            open_path: p,
            open_depth: 0,
            stack: Vec::new(),
            entries: Vec::new(),
        };
        assert(r@.stack =~= Seq::<FrameView>::empty());
        assert(r@.entries =~= Seq::<EntryView>::empty());
        assert(r@.open_path =~= root_dir());
        r
    }

    /// What the walk asks of the file system next.
    pub fn request(&self) -> (r: FsRequest)
        requires
            walk_inv(self@),
        ensures
            r@ == walk_request(self@),
    {
        match self.stage {
            WalkStage::Open => FsRequest::ReadDir(self.open_path.clone()),
            WalkStage::Probe => {
                let n = self.stack.len();
                assert(self@.stack.last() == self.stack@[n - 1]@);
                let top = &self.stack[n - 1];
                FsRequest::ReadDir(join_path(&top.path, top.item_name()))
            },
            WalkStage::Finished => FsRequest::Done,
        }
    }

    fn advance_top(&mut self)
        requires
            old(self)@.stack.len() > 0,
            old(self)@.stack.last().index < old(self)@.stack.last().items.len(),
        ensures
            final(self)@ == (WalkView { stack: advanced(old(self)@.stack), ..old(self)@ }),
    {
        let ghost before = self@.stack;
        let mut top = self.stack.pop().unwrap();
        assert(before.last() == top@);
        assert(frames_view(self.stack@) =~= before.drop_last());
        let len = top.items.len();
        assert(top@.items.len() == len);
        assert(top.index < len);
        top.index = top.index + 1;
        let ghost t = top@;
        self.stack.push(top);
        assert(frames_view(self.stack@) =~= before.drop_last().push(t));
        assert(frames_view(self.stack@) =~= advanced(before));
    }

    fn settle(&mut self)
        requires
            frames_wf(old(self)@.stack),
        ensures
            final(self)@ == settle(old(self)@),
    {
        loop
            invariant
                frames_wf(self@.stack),
                settle(self@) == settle(old(self)@),
            decreases self@.stack.len(), if self@.stack.len() > 0 {
                self@.stack.last().items.len() - self@.stack.last().index
            } else {
                0
            },
        {
            let n = self.stack.len();
            if n == 0 {
                self.stage = WalkStage::Finished;
                return;
            }
            assert(self@.stack.last() == self.stack@[n - 1]@);
            assert(frame_wf(self@.stack[n - 1]));
            let top = &self.stack[n - 1];
            if top.index >= top.items.len() {
                let ghost before = self@;
                self.stack.pop();
                assert(frames_view(self.stack@) =~= before.stack.drop_last());
                assert forall|i: int| 0 <= i < self@.stack.len() implies #[trigger] frame_wf(
                    self@.stack[i],
                ) by {
                    assert(self@.stack[i] == before.stack[i]);
                    assert(frame_wf(before.stack[i]));
                }
            } else {
                assert(top@.items.len() == top.items@.len());
                let name = top.item_name().clone();
                let path = top.path.clone();
                let ghost before = self@;
                if is_efi_file(&name) {
                    let e = efi_file_entry_of(&path, &name);
                    let ghost ev = e@;
                    self.entries.push(e);
                    assert(self@.entries =~= before.entries.push(ev));
                    self.advance_top();
                } else if has_dot(&name) {
                    self.advance_top();
                } else {
                    self.stage = WalkStage::Probe;
                    return;
                }
                let ghost adv = advanced(before.stack);
                assert forall|i: int| 0 <= i < adv.len() implies #[trigger] frame_wf(adv[i]) by {
                    if i < adv.len() - 1 {
                        assert(adv[i] == before.stack[i]);
                        assert(frame_wf(before.stack[i]));
                    }
                }
            }
        }
    }

    /// Hands over the listing of the directory that `request` named, or
    /// `None` when it cannot be listed: each name with whether the file's
    /// data is empty.
    pub fn feed(&mut self, listing: Option<Vec<(String, bool)>>)
        requires
            walk_inv(old(self)@),
            old(self)@.stage != WalkStage::Finished,
        ensures
            final(self)@ == walk_feed(
                old(self)@,
                match listing {
                    Some(v) => Some(items_view(v@)),
                    None => None,
                },
            ),
    {
        match self.stage {
            WalkStage::Open => {
                match listing {
                    None => {},
                    Some(items) => {
                        let ghost before = self@.stack;
                        let ghost iv = items_view(items@);
                        let f = WalkFrame {
                            path: self.open_path.clone(),
                            items,
                            index: 0,
                            depth: self.open_depth,
                        };
                        self.stack.push(f);
                        assert(frames_view(self.stack@) =~= before.push(
                            FrameView {
                                path: self@.open_path,
                                items: iv,
                                index: 0,
                                depth: self@.open_depth,
                            },
                        ));
                        assert forall|i: int| 0 <= i < self@.stack.len() implies #[trigger] frame_wf(
                            self@.stack[i],
                        ) by {
                            if i < before.len() {
                                assert(self@.stack[i] == before[i]);
                                assert(frame_wf(before[i]));
                            }
                        }
                    },
                }
                self.settle();
            },
            WalkStage::Probe => {
                let n = self.stack.len();
                assert(self@.stack.last() == self.stack@[n - 1]@);
                assert(frame_wf(self@.stack[n - 1]));
                let top = &self.stack[n - 1];
                let i = top.index;
                assert(top@.items[i as int] == (top.items@[i as int].0@, top.items@[i as int].1));
                let name = top.items[i].0.clone();
                let empty = top.items[i].1;
                let depth = top.depth;
                let sub = join_path(&top.path, &name);
                let is_dir = listing.is_some() || empty;
                let ncs = chars_of(name.as_str());
                let dot = (ncs.len() == 1 && ncs[0] == '.') || (ncs.len() == 2 && ncs[0] == '.'
                    && ncs[1] == '.');
                assert(dot == is_dot_dir(name@)) by {
                    if ncs@.len() == 1 && ncs@[0] == '.' {
                        assert(name@ =~= seq!['.']);
                    }
                    if ncs@.len() == 2 && ncs@[0] == '.' && ncs@[1] == '.' {
                        assert(name@ =~= seq!['.', '.']);
                    }
                }
                let ghost before = self@;
                self.advance_top();
                let ghost adv = advanced(before.stack);
                assert forall|k: int| 0 <= k < adv.len() implies #[trigger] frame_wf(adv[k]) by {
                    if k < adv.len() - 1 {
                        assert(adv[k] == before.stack[k]);
                        assert(frame_wf(before.stack[k]));
                    }
                }
                if is_dir && !dot && depth + 1 <= MAX_WALK_DEPTH {
                    self.stage = WalkStage::Open;
                    self.open_path = sub;
                    self.open_depth = depth + 1;
                } else {
                    self.settle();
                }
            },
            WalkStage::Finished => {},
        }
    }

    /// The files found, once the walk is done.
    pub fn result(self) -> (r: Vec<Entry>)
        ensures
            entries_view(r@) == self@.entries,
    {
        self.entries
    }

    /// Where the walk is.
    pub fn stage(&self) -> (r: WalkStage)
        ensures
            r == self@.stage,
    {
        self.stage
    }
}

/// A new walk ends, on any partition, with the `.efi` files that
/// `all_files` says.
pub proof fn law_walk_starts_with_all_files(dir: spec_fn(Seq<char>) -> Option<Seq<(Seq<char>, bool)>>)
    ensures
        ({
            let v = WalkView {
                stage: WalkStage::Open,
                open_path: root_dir(),
                open_depth: 0,
                stack: Seq::empty(),
                entries: Seq::empty(),
            };
            walk_outcome(v, dir) == all_files(dir)
        }),
{
    let e = Seq::<EntryView>::empty();
    assert(e + all_files(dir) + e =~= all_files(dir));
}

/// Answering each request as the partition does keeps what the walk ends
/// with, and keeps the walk well formed.
pub proof fn law_walk_step(v: WalkView, dir: spec_fn(Seq<char>) -> Option<Seq<(Seq<char>, bool)>>)
    requires
        walk_inv(v),
        v.stage != WalkStage::Finished,
    ensures
        ({
            let next = match walk_request(v) {
                FsRequestView::ReadDir(p) => walk_feed(v, dir(p)),
                _ => v,
            };
            &&& walk_outcome(next, dir) == walk_outcome(v, dir)
            &&& walk_inv(next)
        }),
{
    match v.stage {
        WalkStage::Open => {
            match dir(v.open_path) {
                None => {
                    lemma_settle(v, dir);
                    assert(v.entries + Seq::<EntryView>::empty() + frames_rest(dir, v.stack) =~= v.entries
                        + frames_rest(dir, v.stack));
                },
                Some(items) => {
                    let f = FrameView { path: v.open_path, items, index: 0, depth: v.open_depth };
                    let w = WalkView { stack: v.stack.push(f), ..v };
                    assert(frames_wf(w.stack)) by {
                        assert forall|i: int| 0 <= i < w.stack.len() implies #[trigger] frame_wf(
                            w.stack[i],
                        ) by {
                            if i < v.stack.len() {
                                assert(w.stack[i] == v.stack[i]);
                            }
                        }
                    }
                    lemma_settle(w, dir);
                    assert(w.stack.drop_last() =~= v.stack);
                    assert(v.entries + walk_items(dir, v.open_path, v.open_depth, items, 0)
                        + frames_rest(dir, v.stack) =~= v.entries + (walk_items(
                        dir,
                        v.open_path,
                        v.open_depth,
                        items,
                        0,
                    ) + frames_rest(dir, v.stack)));
                },
            }
        },
        WalkStage::Probe => {
            let top = v.stack.last();
            let item = top.items[top.index];
            let sub = sub_path(top.path, item.0);
            let adv = advanced(v.stack);
            assert(frame_wf(v.stack[v.stack.len() - 1]));
            assert(frames_wf(adv)) by {
                assert forall|k: int| 0 <= k < adv.len() implies #[trigger] frame_wf(adv[k]) by {
                    if k < adv.len() - 1 {
                        assert(adv[k] == v.stack[k]);
                    }
                }
            }
            assert(adv.drop_last() =~= v.stack.drop_last());
            let rest_here = walk_items(dir, top.path, top.depth, top.items, top.index + 1);
            let is_dir = dir(sub) is Some || item.1;
            if is_dir && !is_dot_dir(item.0) && top.depth + 1 <= MAX_WALK_DEPTH {
                assert(v.entries + (walk(dir, sub, top.depth + 1) + rest_here) + frames_rest(
                    dir,
                    v.stack.drop_last(),
                ) =~= v.entries + walk(dir, sub, top.depth + 1) + (rest_here + frames_rest(
                    dir,
                    v.stack.drop_last(),
                )));
            } else {
                let w = WalkView { stack: adv, ..v };
                lemma_settle(w, dir);
                assert(Seq::<EntryView>::empty() + rest_here =~= rest_here);
            }
        },
        WalkStage::Finished => {},
    }
}

// ---------------------------------------------------------------------------
// Files deep in the partition are offered
// ---------------------------------------------------------------------------

/// The path of the directory reached from the root through the first `j`
/// names of `ds`.
pub open spec fn path_through(ds: Seq<Seq<char>>, j: int) -> Seq<char>
    decreases j,
{
    if j <= 0 {
        root_dir()
    } else {
        sub_path(path_through(ds, j - 1), ds[j - 1])
    }
}

/// `name` is listed in `items`.
pub open spec fn listed(items: Seq<(Seq<char>, bool)>, name: Seq<char>) -> bool {
    exists|m: int| 0 <= m < items.len() && #[trigger] items[m].0 == name
}

/// The directories `ds` lead down from the root: each can be listed, is
/// listed in the one above it, and has a name without a dot.
pub open spec fn directory_chain(
    dir: spec_fn(Seq<char>) -> Option<Seq<(Seq<char>, bool)>>,
    ds: Seq<Seq<char>>,
) -> bool {
    forall|j: int|
        0 <= j < ds.len() ==> {
            &&& dir(#[trigger] path_through(ds, j)) matches Some(items)
            &&& listed(items, ds[j])
            &&& dir(path_through(ds, j + 1)) is Some
            &&& forall|i: int| 0 <= i < ds[j].len() ==> #[trigger] ds[j][i] != '.'
        }
}

proof fn lemma_items_find(
    dir: spec_fn(Seq<char>) -> Option<Seq<(Seq<char>, bool)>>,
    path: Seq<char>,
    depth: int,
    items: Seq<(Seq<char>, bool)>,
    i: int,
    m: int,
    e: EntryView,
)
    requires
        0 <= i <= m < items.len(),
        0 <= depth <= MAX_WALK_DEPTH,
        walk_items(dir, path, depth, items, m).contains(e),
    ensures
        walk_items(dir, path, depth, items, i).contains(e),
    decreases m - i,
{
    if i < m {
        lemma_items_find(dir, path, depth, items, i + 1, m, e);
        let rest = walk_items(dir, path, depth, items, i + 1);
        let k = choose|k: int| 0 <= k < rest.len() && rest[k] == e;
        let all = walk_items(dir, path, depth, items, i);
        assert(all[all.len() - rest.len() + k] == e);
    }
}

proof fn lemma_item_here(
    dir: spec_fn(Seq<char>) -> Option<Seq<(Seq<char>, bool)>>,
    path: Seq<char>,
    depth: int,
    items: Seq<(Seq<char>, bool)>,
    m: int,
    here: Seq<EntryView>,
    e: EntryView,
)
    requires
        0 <= m < items.len(),
        0 <= depth <= MAX_WALK_DEPTH,
        here.contains(e),
        walk_items(dir, path, depth, items, m) == here + walk_items(dir, path, depth, items, m + 1),
    ensures
        walk_items(dir, path, depth, items, 0).contains(e),
{
    let k = choose|k: int| 0 <= k < here.len() && here[k] == e;
    assert(walk_items(dir, path, depth, items, m)[k] == e);
    lemma_items_find(dir, path, depth, items, 0, m, e);
}

proof fn lemma_walk_down(
    dir: spec_fn(Seq<char>) -> Option<Seq<(Seq<char>, bool)>>,
    ds: Seq<Seq<char>>,
    f: Seq<char>,
    j: int,
)
    requires
        ds.len() <= MAX_WALK_DEPTH,
        0 <= j <= ds.len(),
        directory_chain(dir, ds),
        dir(path_through(ds, ds.len() as int)) matches Some(items) && listed(items, f),
        is_efi_name(f),
    ensures
        walk(dir, path_through(ds, j), j).contains(efi_file_entry(path_through(ds, ds.len() as int), f)),
    decreases ds.len() - j,
{
    let e = efi_file_entry(path_through(ds, ds.len() as int), f);
    let path = path_through(ds, j);
    if j == ds.len() {
        let items = dir(path)->Some_0;
        let m = choose|m: int| 0 <= m < items.len() && #[trigger] items[m].0 == f;
        let here = seq![e];
        assert(here[0] == e);
        lemma_item_here(dir, path, j, items, m, here, e);
    } else {
        lemma_walk_down(dir, ds, f, j + 1);
        assert(dir(path_through(ds, j)) is Some);
        let items = dir(path)->Some_0;
        assert(listed(items, ds[j]));
        let m = choose|m: int| 0 <= m < items.len() && #[trigger] items[m].0 == ds[j];
        let name = ds[j];
        assert forall|i: int| 0 <= i < name.len() implies #[trigger] name[i] != '.' by {}
        assert(!is_efi_name(name)) by {
            if ends_with(name, dot_efi()) {
                assert(name.skip(name.len() - 4)[0] == '.');
                assert(name[name.len() - 4] == '.');
            }
            if ends_with(name, dot_efi_upper()) {
                assert(name.skip(name.len() - 4)[0] == '.');
                assert(name[name.len() - 4] == '.');
            }
        }
        crate::text::lemma_index_of(name, '.');
        assert(index_of(name, '.') is None);
        assert(!is_dot_dir(name)) by {
            if name == seq!['.'] || name == seq!['.', '.'] {
                assert(name[0] == '.');
            }
        }
        assert(sub_path(path, name) == path_through(ds, j + 1));
        let here = walk(dir, path_through(ds, j + 1), j + 1);
        lemma_item_here(dir, path, j, items, m, here, e);
    }
}

/// Every `.efi` file that lies in a directory at most six levels below the
/// root, reached through directories that can be listed and have names
/// without a dot, is offered by the manual boot browser, as the file at
/// that path.
pub proof fn law_walk_finds_deep_files(
    dir: spec_fn(Seq<char>) -> Option<Seq<(Seq<char>, bool)>>,
    ds: Seq<Seq<char>>,
    f: Seq<char>,
)
    requires
        ds.len() <= MAX_WALK_DEPTH,
        directory_chain(dir, ds),
        dir(path_through(ds, ds.len() as int)) matches Some(items) && listed(items, f),
        is_efi_name(f),
    ensures
        all_files(dir).contains(efi_file_entry(path_through(ds, ds.len() as int), f)),
{
    lemma_walk_down(dir, ds, f, 0);
}

} // verus!
