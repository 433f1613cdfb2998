//! The boot menu: which entries it shows and in what order, which one is
//! selected, and how it reacts to keys and to the countdown.
use vstd::prelude::*;
use crate::config::{Config, ConfigView, Entry, EntryView, Keybinds, entries_view, opt_string_view};
use crate::keyboard::KeyEvent;
use crate::text::{ascii_lower, spec_ascii_lower, strings_view};

verus! {

broadcast use vstd::seq_lib::to_multiset_build, vstd::seq_lib::to_multiset_remove,
    vstd::seq_lib::lemma_multiset_commutative;

/// What the menu ends with.
pub enum MenuResult {
    Boot(Entry),
    Manual,
    RestoreBackup,
    Shutdown,
}

/// The boot menu.
pub struct Menu {
    pub entries: Vec<Entry>,
    pub selected: usize,
    pub timeout: u64,
    pub keybinds: Keybinds,
}

// ---------------------------------------------------------------------------
// Which entries, in which order
// ---------------------------------------------------------------------------

/// Some entry already boots this path.
pub open spec fn has_efi_path(m: Seq<EntryView>, path: Seq<char>) -> bool {
    exists|i: int| 0 <= i < m.len() && #[trigger] m[i].efi_path == path
}

/// The detected entries, then each configured entry in turn unless its boot
/// counter is exhausted or an entry already shown boots the same path.
pub open spec fn merge_entries(shown: Seq<EntryView>, configured: Seq<EntryView>) -> Seq<EntryView>
    decreases configured.len(),
{
    if configured.len() == 0 {
        shown
    } else {
        let m = merge_entries(shown, configured.drop_last());
        let e = configured.last();
        if e.boot_counter == Some(0u32) || has_efi_path(m, e.efi_path) {
            m
        } else {
            m.push(e)
        }
    }
}

/// The first entry with this name.
pub open spec fn position_named(s: Seq<EntryView>, name: Seq<char>) -> Option<int>
    decreases s.len(),
{
    if s.len() == 0 {
        None
    } else if s[0].name == name {
        Some(0)
    } else {
        match position_named(s.drop_first(), name) {
            Some(i) => Some(i + 1),
            None => None,
        }
    }
}

pub proof fn lemma_position_named(s: Seq<EntryView>, name: Seq<char>)
    ensures
        match position_named(s, name) {
            Some(i) => 0 <= i < s.len() && s[i].name == name && forall|j: int|
                0 <= j < i ==> s[j].name != name,
            None => forall|j: int| 0 <= j < s.len() ==> s[j].name != name,
        },
    decreases s.len(),
{
    if s.len() > 0 && s[0].name != name {
        lemma_position_named(s.drop_first(), name);
        assert forall|j: int| 0 < j < s.len() implies s[j] == s.drop_first()[j - 1] by {}
    }
}

/// The entries picked out by the names in `order`, in that order, and the
/// entries left over, in the order they came in.
pub open spec fn order_pass(entries: Seq<EntryView>, order: Seq<Seq<char>>) -> (
    Seq<EntryView>,
    Seq<EntryView>,
)
    decreases order.len(),
{
    if order.len() == 0 {
        (Seq::empty(), entries)
    } else {
        let (picked, rest) = order_pass(entries, order.drop_last());
        match position_named(rest, order.last()) {
            Some(i) => (picked.push(rest[i]), rest.remove(i)),
            None => (picked, rest),
        }
    }
}

/// The entries named in `order` first, in that order, then all others.
pub open spec fn apply_order(entries: Seq<EntryView>, order: Option<Seq<Seq<char>>>) -> Seq<
    EntryView,
> {
    match order {
        Some(names) => {
            let (picked, rest) = order_pass(entries, names);
            picked + rest
        },
        None => entries,
    }
}

/// The entries of the menu built from a configuration and the detected entries.
pub open spec fn menu_entries(cfg: ConfigView, detected: Seq<EntryView>) -> Seq<EntryView> {
    apply_order(merge_entries(detected, cfg.entries), cfg.order)
}

/// The position of the `default` entry, or the first entry.
pub open spec fn default_index(entries: Seq<EntryView>, default: Option<Seq<char>>) -> int {
    match default {
        Some(d) => match position_named(entries, d) {
            Some(i) => i,
            None => 0,
        },
        None => 0,
    }
}

// ---------------------------------------------------------------------------
// Building the menu
// ---------------------------------------------------------------------------

/// A copy of a list of strings.
fn copy_strings(v: &Vec<String>) -> (r: Vec<String>)
    ensures
        strings_view(r@) == strings_view(v@),
{
    let mut r: Vec<String> = Vec::new();
    let mut i: usize = 0;
    while i < v.len()
        invariant
            0 <= i <= v@.len(),
            strings_view(r@) == strings_view(v@).take(i as int),
        decreases v@.len() - i,
    {
        let ghost prev = strings_view(r@);
        r.push(v[i].clone());
        assert(strings_view(r@) =~= prev.push(v@[i as int]@));
        assert(strings_view(v@).take(i + 1) =~= strings_view(v@).take(i as int).push(
            v@[i as int]@,
        ));
        i = i + 1;
    }
    assert(strings_view(v@).take(v@.len() as int) =~= strings_view(v@));
    r
}

fn copy_opt_string(o: &Option<String>) -> (r: Option<String>)
    ensures
        opt_string_view(r) == opt_string_view(*o),
{
    match o {
        Some(s) => Some(s.clone()),
        None => None,
    }
}

impl Entry {
    /// A copy of this entry.
    pub fn copy(&self) -> (r: Entry)
        ensures
            r@ == self@,
    {
        Entry {
            name: self.name.clone(),
            title: self.title.clone(),
            efi_path: self.efi_path.clone(),
            options: copy_opt_string(&self.options),
            initrd: copy_strings(&self.initrd),
            boot_counter: self.boot_counter,
            source_path: copy_opt_string(&self.source_path),
        }
    }
}

/// Whether some entry boots this path.
fn shows_efi_path(entries: &Vec<Entry>, path: &String) -> (r: bool)
    ensures
        r == has_efi_path(entries_view(entries@), path@),
{
    let mut j: usize = 0;
    while j < entries.len()
        invariant
            0 <= j <= entries@.len(),
            forall|k: int| 0 <= k < j ==> entries@[k].efi_path@ != path@,
        decreases entries@.len() - j,
    {
        if entries[j].efi_path == *path {
            assert(entries_view(entries@)[j as int].efi_path == path@);
            return true;
        }
        j = j + 1;
    }
    assert forall|i: int| 0 <= i < entries@.len() implies #[trigger] entries_view(entries@)[i].efi_path != path@ by {}
    false
}

/// The first entry with this name.
fn find_named(entries: &Vec<Entry>, name: &String) -> (r: Option<usize>)
    ensures
        match r {
            Some(i) => i < entries@.len() && position_named(entries_view(entries@), name@) == Some(
                i as int,
            ),
            None => position_named(entries_view(entries@), name@) is None,
        },
{
    let ghost ev = entries_view(entries@);
    proof {
        lemma_position_named(ev, name@);
    }
    let mut j: usize = 0;
    while j < entries.len()
        invariant
            0 <= j <= entries@.len(),
            ev == entries_view(entries@),
            forall|k: int| 0 <= k < j ==> ev[k].name != name@,
            match position_named(ev, name@) {
                Some(i) => 0 <= i < ev.len() && ev[i].name == name@ && forall|k: int|
                    0 <= k < i ==> ev[k].name != name@,
                None => forall|k: int| 0 <= k < ev.len() ==> ev[k].name != name@,
            },
        decreases entries@.len() - j,
    {
        assert(ev[j as int] == entries@[j as int]@);
        if entries[j].name == *name {
            return Some(j);
        }
        j = j + 1;
    }
    None
}

impl Menu {
    /// Builds the menu: the detected entries, then the configured entries
    /// that are neither exhausted (boot counter 0) nor duplicates of a shown
    /// path; reordered by `order`; with the `default` entry selected.
    pub fn new(cfg: &Config, detected: Vec<Entry>) -> (r: Self)
        ensures
            entries_view(r.entries@) == menu_entries(cfg@, entries_view(detected@)),
            r.selected == default_index(entries_view(r.entries@), cfg@.default),
            r.timeout == cfg.timeout,
            r.keybinds == cfg.keybinds,
            r.wf(),
    {
        let ghost det = entries_view(detected@);
        let mut entries: Vec<Entry> = detected;
        let mut k: usize = 0;
        while k < cfg.entries.len()
            invariant
                0 <= k <= cfg.entries@.len(),
                entries_view(entries@) == merge_entries(det, entries_view(cfg.entries@).take(k as int)),
            decreases cfg.entries@.len() - k,
        {
            let e = &cfg.entries[k];
            let ghost taken = entries_view(cfg.entries@).take(k + 1);
            assert(taken.drop_last() =~= entries_view(cfg.entries@).take(k as int));
            assert(taken.last() == e@);
            let exhausted = match e.boot_counter {
                Some(c) => c == 0,
                None => false,
            };
            if !exhausted && !shows_efi_path(&entries, &e.efi_path) {
                let ghost prev = entries_view(entries@);
                entries.push(e.copy());
                assert(entries_view(entries@) =~= prev.push(e@));
            }
            k = k + 1;
        }
        assert(entries_view(cfg.entries@).take(cfg.entries@.len() as int) =~= entries_view(cfg.entries@));
        let ghost merged = entries_view(entries@);
        match &cfg.order {
            Some(order) => {
                let mut picked: Vec<Entry> = Vec::new();
                let mut n: usize = 0;
                assert(strings_view(order@).take(0) =~= Seq::<Seq<char>>::empty());
                assert(entries_view(picked@) =~= Seq::<EntryView>::empty());
                while n < order.len()
                    invariant
                        0 <= n <= order@.len(),
                        order_pass(merged, strings_view(order@).take(n as int)) == (
                            entries_view(picked@),
                            entries_view(entries@),
                        ),
                    decreases order@.len() - n,
                {
                    let ghost names = strings_view(order@).take(n + 1);
                    assert(names.drop_last() =~= strings_view(order@).take(n as int));
                    assert(names.last() == order@[n as int]@);
                    match find_named(&entries, &order[n]) {
                        Some(i) => {
                            let ghost prev_p = entries_view(picked@);
                            let ghost prev_e = entries_view(entries@);
                            let e = entries.remove(i);
                            picked.push(e);
                            assert(entries_view(picked@) =~= prev_p.push(prev_e[i as int]));
                            assert(entries_view(entries@) =~= prev_e.remove(i as int));
                        },
                        None => {},
                    }
                    n = n + 1;
                }
                assert(strings_view(order@).take(order@.len() as int) =~= strings_view(order@));
                let ghost p = entries_view(picked@);
                let ghost e = entries_view(entries@);
                picked.append(&mut entries);
                assert(entries_view(picked@) =~= p + e);
                entries = picked;
            },
            None => {},
        }
        let selected = match &cfg.default {
            Some(def) => match find_named(&entries, def) {
                Some(i) => i,
                None => 0,
            },
            None => 0,
        };
        Menu { entries, selected, timeout: cfg.timeout, keybinds: cfg.keybinds }
    }
}


// ---------------------------------------------------------------------------
// Keys
// ---------------------------------------------------------------------------

/// What a key press leads to.
#[derive(Debug, Clone, Copy, PartialEq, Eq)]
pub enum Choice {
    Stay,
    BootSelected,
    Manual,
    RestoreBackup,
    Shutdown,
    Reboot,
}

/// `char::to_digit(10)`.
pub open spec fn spec_decimal_digit(c: char) -> Option<u32> {
    if '0' <= c && c <= '9' {
        Some(((c as u32) - ('0' as u32)) as u32)
    } else {
        None
    }
}

fn decimal_digit(c: char) -> (r: Option<u32>)
    ensures
        r == spec_decimal_digit(c),
{
    if '0' <= c && c <= '9' {
        Some((c as u32) - ('0' as u32))
    } else {
        None
    }
}

/// `len - 1`, or 0 for an empty menu.
pub open spec fn last_index(len: int) -> int {
    if len > 0 {
        len - 1
    } else {
        0
    }
}

/// The effect of a key press on a menu of `len` entries with `sel`
/// selected: the new selection, whether the firmware notice is shown, and
/// what follows. Letters are compared without ASCII case; the bindings are
/// tried in the order manual, backup, reboot, shutdown, firmware; after the
/// firmware notice, or for any other character, a digit `1` to `9` boots the
/// entry at that position.
pub open spec fn key_effect(sel: int, len: int, kb: Keybinds, ev: KeyEvent) -> (int, bool, Choice) {
    match ev {
        KeyEvent::Up => (
            if sel > 0 {
                sel - 1
            } else {
                sel
            },
            false,
            Choice::Stay,
        ),
        KeyEvent::Down => (
            if sel < last_index(len) {
                sel + 1
            } else {
                sel
            },
            false,
            Choice::Stay,
        ),
        KeyEvent::Home => (0, false, Choice::Stay),
        KeyEvent::End => (last_index(len), false, Choice::Stay),
        KeyEvent::Enter => (
            sel,
            false,
            if len > 0 {
                Choice::BootSelected
            } else {
                Choice::Stay
            },
        ),
        KeyEvent::Escape => (sel, false, Choice::Stay),
        KeyEvent::Char(c) => {
            let ch = spec_ascii_lower(c);
            if ch == spec_ascii_lower(kb.manual) {
                (sel, false, Choice::Manual)
            } else if ch == spec_ascii_lower(kb.backup) {
                (sel, false, Choice::RestoreBackup)
            } else if ch == spec_ascii_lower(kb.reboot) {
                (sel, false, Choice::Reboot)
            } else if ch == spec_ascii_lower(kb.shutdown) {
                (sel, false, Choice::Shutdown)
            } else {
                let notice = ch == spec_ascii_lower(kb.firmware);
                match spec_decimal_digit(c) {
                    Some(d) => if 1 <= d && d <= 9 && d - 1 < len {
                        ((d - 1) as int, notice, Choice::BootSelected)
                    } else {
                        (sel, notice, Choice::Stay)
                    },
                    None => (sel, notice, Choice::Stay),
                }
            }
        },
    }
}

/// What the menu loop does after an event.
pub enum MenuAction {
    /// Keep showing the menu.
    Stay,
    /// Leave the menu with this result.
    Finish(MenuResult),
    /// Reset the machine.
    Reboot,
}

/// The response to an event: first, whether to show that firmware setup is
/// not available (and wait for a key), then the action.
pub struct KeyOutcome {
    pub firmware_notice: bool,
    pub action: MenuAction,
}

/// The state of the countdown loop of `Menu::run`.
#[derive(Debug, Clone, Copy, PartialEq, Eq)]
pub struct RunState {
    /// Tenths of a second left before the selected entry boots; 0 when the
    /// countdown is off.
    pub remaining: u64,
    /// The menu must be drawn again.
    pub dirty: bool,
}

/// How the menu loop waits for the next event.
#[derive(Debug, Clone, Copy, PartialEq, Eq)]
pub enum Wait {
    /// No entries: show that nothing was detected, wait for any key, ask again.
    NoEntries,
    /// Draw the menu if `redraw`, then poll the keyboard for a tenth of a second.
    Poll { redraw: bool },
    /// Draw the menu if `redraw`, then wait for a key.
    Block { redraw: bool },
}

impl Menu {
    /// The selection lies within the entries, or is 0 when there are none.
    pub open spec fn wf(&self) -> bool {
        self.entries@.len() == 0 || self.selected < self.entries@.len()
    }

    /// The outcome for a choice, with the entry at the selection copied out.
    fn outcome(&self, notice: bool, choice: Choice) -> (r: KeyOutcome)
        requires
            choice == Choice::BootSelected ==> self.selected < self.entries@.len(),
        ensures
            r.firmware_notice == notice,
            self.action_matches(r.action, choice),
    {
        let action = match choice {
            Choice::Stay => MenuAction::Stay,
            Choice::BootSelected => MenuAction::Finish(MenuResult::Boot(self.entries[self.selected].copy())),
            Choice::Manual => MenuAction::Finish(MenuResult::Manual),
            Choice::RestoreBackup => MenuAction::Finish(MenuResult::RestoreBackup),
            Choice::Shutdown => MenuAction::Finish(MenuResult::Shutdown),
            Choice::Reboot => MenuAction::Reboot,
        };
        KeyOutcome { firmware_notice: notice, action }
    }

    /// The action carries out the choice; a boot carries the selected entry.
    pub open spec fn action_matches(&self, a: MenuAction, choice: Choice) -> bool {
        match choice {
            Choice::Stay => a is Stay,
            Choice::BootSelected => a matches MenuAction::Finish(MenuResult::Boot(e)) && e@
                == self.entries@[self.selected as int]@,
            Choice::Manual => a matches MenuAction::Finish(MenuResult::Manual),
            Choice::RestoreBackup => a matches MenuAction::Finish(MenuResult::RestoreBackup),
            Choice::Shutdown => a matches MenuAction::Finish(MenuResult::Shutdown),
            Choice::Reboot => a is Reboot,
        }
    }

    /// Reacts to a key press, as `key_effect` says.
    pub fn handle_event(&mut self, event: KeyEvent) -> (r: KeyOutcome)
        requires
            old(self).wf(),
        ensures
            final(self).wf(),
            final(self).entries == old(self).entries,
            final(self).timeout == old(self).timeout,
            final(self).keybinds == old(self).keybinds,
            ({
                let (sel, notice, choice) = key_effect(
                    old(self).selected as int,
                    old(self).entries@.len() as int,
                    old(self).keybinds,
                    event,
                );
                &&& final(self).selected == sel
                &&& r.firmware_notice == notice
                &&& final(self).action_matches(r.action, choice)
            }),
    {
        let len = self.entries.len();
        let last = if len > 0 {
            len - 1
        } else {
            0
        };
        match event {
            KeyEvent::Up => {
                if self.selected > 0 {
                    self.selected = self.selected - 1;
                }
                self.outcome(false, Choice::Stay)
            },
            KeyEvent::Down => {
                if self.selected < last {
                    self.selected = self.selected + 1;
                }
                self.outcome(false, Choice::Stay)
            },
            KeyEvent::Home => {
                self.selected = 0;
                self.outcome(false, Choice::Stay)
            },
            KeyEvent::End => {
                self.selected = last;
                self.outcome(false, Choice::Stay)
            },
            KeyEvent::Enter => {
                if len > 0 {
                    self.outcome(false, Choice::BootSelected)
                } else {
                    self.outcome(false, Choice::Stay)
                }
            },
            KeyEvent::Escape => self.outcome(false, Choice::Stay),
            KeyEvent::Char(c) => {
                let kb = self.keybinds;
                let ch = ascii_lower(c);
                if ch == ascii_lower(kb.manual) {
                    return self.outcome(false, Choice::Manual);
                }
                if ch == ascii_lower(kb.backup) {
                    return self.outcome(false, Choice::RestoreBackup);
                }
                if ch == ascii_lower(kb.reboot) {
                    return self.outcome(false, Choice::Reboot);
                }
                if ch == ascii_lower(kb.shutdown) {
                    return self.outcome(false, Choice::Shutdown);
                }
                let notice = ch == ascii_lower(kb.firmware);
                if let Some(digit) = decimal_digit(c) {
                    if digit >= 1 && digit <= 9 {
                        let idx = (digit - 1) as usize;
                        if idx < len {
                            self.selected = idx;
                            return self.outcome(notice, Choice::BootSelected);
                        }
                    }
                }
                self.outcome(notice, Choice::Stay)
            },
        }
    }
}


impl Menu {
    /// The state in which the menu loop starts: a countdown of `timeout`
    /// seconds in tenths, or no countdown for a timeout of 0 (wait for a key).
    pub fn start(&self) -> (st: RunState)
        requires
            self.timeout <= u64::MAX / 10,
        ensures
            st.remaining == self.timeout * 10,
            st.dirty,
    {
        RunState { remaining: self.timeout * 10, dirty: true }
    }

    /// How the loop waits next; the menu counts as drawn from here on.
    pub fn next_wait(&self, st: &mut RunState) -> (w: Wait)
        ensures
            self.entries@.len() == 0 ==> w == Wait::NoEntries && *final(st) == *old(st),
            self.entries@.len() > 0 ==> {
                &&& final(st).remaining == old(st).remaining
                &&& !final(st).dirty
                &&& old(st).remaining > 0 ==> w == (Wait::Poll { redraw: old(st).dirty })
                &&& old(st).remaining == 0 ==> w == (Wait::Block { redraw: old(st).dirty })
            },
    {
        if self.entries.len() == 0 {
            return Wait::NoEntries;
        }
        let redraw = st.dirty;
        st.dirty = false;
        if st.remaining > 0 {
            Wait::Poll { redraw }
        } else {
            Wait::Block { redraw }
        }
    }

    /// One turn of the menu loop, after the wait that `next_wait` asked for:
    /// `event` is the key pressed, or `None` when the poll saw no key.
    ///
    /// During the countdown a key press stops it for good and is handled; a
    /// tenth of a second without a key counts down, and at zero the selected
    /// entry boots. Without a countdown, every key is handled. With no
    /// entries, a key is handled as on the no-entries screen: the manual
    /// boot, backup, reboot, shutdown and firmware keys work, the others do
    /// nothing.
    pub fn run(&mut self, st: &mut RunState, event: Option<KeyEvent>) -> (r: KeyOutcome)
        requires
            old(self).wf(),
            old(self).entries@.len() > 0 || event is Some,
        ensures
            final(self).wf(),
            final(self).entries == old(self).entries,
            final(self).timeout == old(self).timeout,
            final(self).keybinds == old(self).keybinds,
            match event {
                Some(ev) => {
                    let (sel, notice, choice) = key_effect(
                        old(self).selected as int,
                        old(self).entries@.len() as int,
                        old(self).keybinds,
                        ev,
                    );
                    &&& final(self).selected == sel
                    &&& r.firmware_notice == notice
                    &&& final(self).action_matches(r.action, choice)
                    &&& final(st).remaining == 0
                    &&& final(st).dirty == (old(st).remaining > 0 || choice == Choice::Stay
                        || old(st).dirty)
                },
                None => {
                    &&& final(self).selected == old(self).selected
                    &&& !r.firmware_notice
                    &&& if old(st).remaining > 0 {
                        let rem = old(st).remaining - 1;
                        &&& final(st).remaining == rem
                        &&& final(st).dirty == (old(st).dirty || rem / 10 != old(st).remaining
                            / 10 || rem == 0)
                        &&& if rem == 0 {
                            final(self).action_matches(r.action, Choice::BootSelected)
                        } else {
                            r.action is Stay
                        }
                    } else {
                        &&& *final(st) == *old(st)
                        &&& r.action is Stay
                    }
                },
            },
    {
        match event {
            Some(ev) => {
                let counting = st.remaining > 0;
                if counting {
                    st.remaining = 0;
                    st.dirty = true;
                }
                let out = self.handle_event(ev);
                if !counting {
                    if let MenuAction::Stay = out.action {
                        st.dirty = true;
                    }
                }
                out
            },
            None => {
                if st.remaining == 0 {
                    return KeyOutcome { firmware_notice: false, action: MenuAction::Stay };
                }
                let prev = st.remaining / 10;
                st.remaining = st.remaining - 1;
                if st.remaining / 10 != prev || st.remaining == 0 {
                    st.dirty = true;
                }
                if st.remaining == 0 {
                    self.outcome(false, Choice::BootSelected)
                } else {
                    KeyOutcome { firmware_notice: false, action: MenuAction::Stay }
                }
            },
        }
    }
}


// ---------------------------------------------------------------------------
// Laws
// ---------------------------------------------------------------------------

proof fn lemma_order_pass_multiset(entries: Seq<EntryView>, order: Seq<Seq<char>>)
    ensures
        ({
            let (picked, rest) = order_pass(entries, order);
            (picked + rest).to_multiset() == entries.to_multiset()
        }),
    decreases order.len(),
{
    broadcast use vstd::multiset::group_multiset_axioms;

    if order.len() > 0 {
        lemma_order_pass_multiset(entries, order.drop_last());
        let (picked, rest) = order_pass(entries, order.drop_last());
        match position_named(rest, order.last()) {
            Some(i) => {
                lemma_position_named(rest, order.last());
                let x = rest[i];
                assert(rest.to_multiset().count(x) > 0) by {
                    vstd::seq_lib::to_multiset_contains(rest, x);
                }
                assert((picked.push(x) + rest.remove(i)).to_multiset() =~= (picked
                    + rest).to_multiset());
            },
            None => {},
        }
    }
}

/// Reordering by `order` neither adds nor drops entries: the menu holds
/// exactly the merged entries, each as often.
pub proof fn law_menu_is_permutation_of_merge(cfg: ConfigView, detected: Seq<EntryView>)
    ensures
        menu_entries(cfg, detected).to_multiset() == merge_entries(
            detected,
            cfg.entries,
        ).to_multiset(),
{
    match cfg.order {
        Some(names) => lemma_order_pass_multiset(merge_entries(detected, cfg.entries), names),
        None => {},
    }
}

proof fn lemma_merge_members(shown: Seq<EntryView>, configured: Seq<EntryView>)
    ensures
        forall|i: int|
            0 <= i < merge_entries(shown, configured).len() ==> {
                let x = #[trigger] merge_entries(shown, configured)[i];
                shown.contains(x) || (configured.contains(x) && x.boot_counter != Some(0u32))
            },
        forall|j: int|
            0 <= j < configured.len() && configured[j].boot_counter != Some(0u32) ==> has_efi_path(
                merge_entries(shown, configured),
                #[trigger] configured[j].efi_path,
            ),
        forall|i: int|
            0 <= i < shown.len() ==> merge_entries(shown, configured).contains(#[trigger] shown[i]),
    decreases configured.len(),
{
    if configured.len() > 0 {
        let init = configured.drop_last();
        lemma_merge_members(shown, init);
        let m = merge_entries(shown, init);
        let e = configured.last();
        let r = merge_entries(shown, configured);
        assert forall|i: int| 0 <= i < r.len() implies {
            let x = #[trigger] r[i];
            shown.contains(x) || (configured.contains(x) && x.boot_counter != Some(0u32))
        } by {
            if i < m.len() {
                let x = m[i];
                assert(r[i] == x);
                if init.contains(x) {
                    let k = choose|k: int| 0 <= k < init.len() && init[k] == x;
                    assert(configured[k] == x);
                }
            } else {
                assert(configured[configured.len() - 1] == e);
            }
        }
        assert forall|j: int|
            0 <= j < configured.len() && configured[j].boot_counter != Some(
                0u32,
            ) implies has_efi_path(r, #[trigger] configured[j].efi_path) by {
            if j < init.len() {
                assert(init[j] == configured[j]);
                let k = choose|k: int| 0 <= k < m.len() && #[trigger] m[k].efi_path == init[j].efi_path;
                assert(r[k] == m[k]);
            } else {
                if !has_efi_path(m, e.efi_path) {
                    assert(r[m.len() as int] == e);
                } else {
                    let k = choose|k: int| 0 <= k < m.len() && #[trigger] m[k].efi_path == e.efi_path;
                    assert(r[k] == m[k]);
                }
            }
        }
        assert forall|i: int| 0 <= i < shown.len() implies r.contains(#[trigger] shown[i]) by {
            let k = choose|k: int| 0 <= k < m.len() && m[k] == shown[i];
            assert(r[k] == m[k]);
        }
    }
}

proof fn lemma_permutation_contains(a: Seq<EntryView>, b: Seq<EntryView>, x: EntryView)
    requires
        a.to_multiset() == b.to_multiset(),
    ensures
        a.contains(x) == b.contains(x),
{
    vstd::seq_lib::to_multiset_contains(a, x);
    vstd::seq_lib::to_multiset_contains(b, x);
}

/// An entry whose boot counter is exhausted is hidden: every entry of the
/// menu with a boot counter of 0 was detected, not configured.
pub proof fn law_exhausted_entries_hidden(cfg: ConfigView, detected: Seq<EntryView>)
    ensures
        forall|i: int|
            0 <= i < menu_entries(cfg, detected).len() && (#[trigger] menu_entries(
                cfg,
                detected,
            )[i]).boot_counter == Some(0u32) ==> detected.contains(menu_entries(cfg, detected)[i]),
{
    let menu = menu_entries(cfg, detected);
    let merged = merge_entries(detected, cfg.entries);
    law_menu_is_permutation_of_merge(cfg, detected);
    lemma_merge_members(detected, cfg.entries);
    assert forall|i: int|
        0 <= i < menu.len() && (#[trigger] menu[i]).boot_counter == Some(
            0u32,
        ) implies detected.contains(menu[i]) by {
        lemma_permutation_contains(menu, merged, menu[i]);
        assert(menu.contains(menu[i]));
        let k = choose|k: int| 0 <= k < merged.len() && merged[k] == menu[i];
        assert(merged[k] == menu[i]);
    }
}

/// Every detected entry is shown, and every configured entry that is not
/// exhausted can be booted from the menu: it is shown, or an entry that boots
/// the same path is.
pub proof fn law_live_entries_reachable(cfg: ConfigView, detected: Seq<EntryView>)
    ensures
        forall|i: int|
            0 <= i < detected.len() ==> menu_entries(cfg, detected).contains(#[trigger] detected[i]),
        forall|j: int|
            0 <= j < cfg.entries.len() && cfg.entries[j].boot_counter != Some(0u32) ==> has_efi_path(
                menu_entries(cfg, detected),
                #[trigger] cfg.entries[j].efi_path,
            ),
{
    let menu = menu_entries(cfg, detected);
    let merged = merge_entries(detected, cfg.entries);
    law_menu_is_permutation_of_merge(cfg, detected);
    lemma_merge_members(detected, cfg.entries);
    assert forall|i: int| 0 <= i < detected.len() implies menu.contains(#[trigger] detected[i]) by {
        lemma_permutation_contains(menu, merged, detected[i]);
    }
    assert forall|j: int|
        0 <= j < cfg.entries.len() && cfg.entries[j].boot_counter != Some(
            0u32,
        ) implies has_efi_path(menu, #[trigger] cfg.entries[j].efi_path) by {
        let p = cfg.entries[j].efi_path;
        let k = choose|k: int| 0 <= k < merged.len() && #[trigger] merged[k].efi_path == p;
        lemma_permutation_contains(menu, merged, merged[k]);
        assert(merged.contains(merged[k]));
        let q = choose|q: int| 0 <= q < menu.len() && menu[q] == merged[k];
        assert(menu[q].efi_path == p);
    }
}

/// The `default` entry is selected when the menu has an entry of that name
/// (the first one, if several), and the first entry otherwise.
pub proof fn law_default_is_selected(entries: Seq<EntryView>, default: Option<Seq<char>>)
    ensures
        entries.len() > 0 ==> 0 <= default_index(entries, default) < entries.len(),
        forall|i: int|
            0 <= i < entries.len() && default == Some(#[trigger] entries[i].name) ==> {
                let s = default_index(entries, default);
                &&& entries[s].name == entries[i].name
                &&& s <= i
            },
        (forall|i: int| 0 <= i < entries.len() ==> default != Some(#[trigger] entries[i].name))
            ==> default_index(entries, default) == 0,
{
    match default {
        Some(d) => lemma_position_named(entries, d),
        None => {},
    }
}

/// No two entries share a name.
pub open spec fn distinct_names(s: Seq<EntryView>) -> bool {
    forall|i: int, j: int| 0 <= i < j < s.len() ==> s[i].name != s[j].name
}

/// The entries not picked by `order` are none of the named ones, and the
/// picked ones are all named; with distinct names.
proof fn lemma_order_pass_split(entries: Seq<EntryView>, order: Seq<Seq<char>>)
    requires
        distinct_names(entries),
    ensures
        ({
            let (picked, rest) = order_pass(entries, order);
            &&& distinct_names(rest)
            &&& forall|i: int| 0 <= i < picked.len() ==> order.contains(#[trigger] picked[i].name)
            &&& forall|i: int| 0 <= i < rest.len() ==> !order.contains(#[trigger] rest[i].name)
            &&& forall|i: int| 0 <= i < rest.len() ==> entries.contains(#[trigger] rest[i])
        }),
    decreases order.len(),
{
    if order.len() > 0 {
        let init = order.drop_last();
        let n = order.last();
        lemma_order_pass_split(entries, init);
        let (picked, rest) = order_pass(entries, init);
        lemma_position_named(rest, n);
        let (p2, r2) = order_pass(entries, order);
        assert forall|i: int| 0 <= i < p2.len() implies order.contains(#[trigger] p2[i].name) by {
            if i < picked.len() {
                assert(p2[i] == picked[i]);
                let k = choose|k: int| 0 <= k < init.len() && init[k] == picked[i].name;
                assert(order[k] == init[k]);
            } else {
                assert(order[order.len() - 1] == n);
            }
        }
        match position_named(rest, n) {
            Some(p) => {
                rest.remove_ensures(p);
                assert forall|i: int| 0 <= i < r2.len() implies !order.contains(
                    #[trigger] r2[i].name,
                ) by {
                    let x = if i < p {
                        rest[i]
                    } else {
                        rest[i + 1]
                    };
                    assert(r2[i] == x);
                    if order.contains(x.name) {
                        let k = choose|k: int| 0 <= k < order.len() && order[k] == x.name;
                        if k < init.len() {
                            assert(init[k] == order[k]);
                        } else {
                            assert(x.name == n);
                        }
                    }
                }
                assert forall|i: int| 0 <= i < r2.len() implies entries.contains(#[trigger] r2[i]) by {
                    if i < p {
                        assert(r2[i] == rest[i]);
                    } else {
                        assert(r2[i] == rest[i + 1]);
                    }
                }
            },
            None => {
                assert forall|i: int| 0 <= i < r2.len() implies !order.contains(
                    #[trigger] r2[i].name,
                ) by {
                    if order.contains(rest[i].name) {
                        let k = choose|k: int| 0 <= k < order.len() && order[k] == rest[i].name;
                        if k < init.len() {
                            assert(init[k] == order[k]);
                        }
                    }
                }
            },
        }
    }
}

/// With distinct entry names, the menu lists the entries named in `order`
/// first and all other entries after them.
pub proof fn law_ordered_entries_first(cfg: ConfigView, detected: Seq<EntryView>)
    requires
        distinct_names(merge_entries(detected, cfg.entries)),
        cfg.order is Some,
    ensures
        ({
            let menu = menu_entries(cfg, detected);
            let names = cfg.order->0;
            let k = order_pass(merge_entries(detected, cfg.entries), names).0.len();
            &&& k <= menu.len()
            &&& forall|i: int| 0 <= i < k ==> names.contains(#[trigger] menu[i].name)
            &&& forall|i: int| k <= i < menu.len() ==> !names.contains(#[trigger] menu[i].name)
        }),
{
    let merged = merge_entries(detected, cfg.entries);
    let names = cfg.order->0;
    lemma_order_pass_split(merged, names);
    let (picked, rest) = order_pass(merged, names);
    let menu = picked + rest;
    let k = picked.len() as int;
    assert(forall|i: int| 0 <= i < k ==> menu[i] == picked[i]);
    assert(forall|i: int| k <= i < menu.len() ==> menu[i] == rest[i - k]);
    assert(forall|i: int| 0 <= i < k ==> names.contains(#[trigger] menu[i].name));
    assert(forall|i: int| k <= i < menu.len() ==> !names.contains(#[trigger] menu[i].name));
}

/// Moving down and back up returns to the same entry, away from the end.
pub proof fn law_down_then_up(sel: int, len: int, kb: Keybinds)
    requires
        0 <= sel < len - 1,
    ensures
        key_effect(key_effect(sel, len, kb, KeyEvent::Down).0, len, kb, KeyEvent::Up).0 == sel,
{
}

/// The selection never leaves the entries.
pub proof fn law_selection_in_range(sel: int, len: int, kb: Keybinds, ev: KeyEvent)
    requires
        0 <= sel < len,
    ensures
        0 <= key_effect(sel, len, kb, ev).0 < len,
{
}

/// Two characters name the same key: equal once ASCII letters are lower
/// case.
pub open spec fn same_key(a: char, b: char) -> bool {
    spec_ascii_lower(a) == spec_ascii_lower(b)
}

/// What a character does in the menu, whatever the bindings: the manual
/// key (in either case) opens the manual browser; otherwise the backup, the
/// reboot and the shutdown keys, tried in that order, give their choices;
/// otherwise a digit `1` to `9` within the number of entries boots that
/// entry; any other character keeps the menu and its selection, and only
/// the firmware key shows its notice. None of these moves the selection
/// but a digit.
pub proof fn law_keys_follow_bindings(sel: int, len: int, kb: Keybinds, c: char)
    ensures
        ({
            let (s, notice, choice) = key_effect(sel, len, kb, KeyEvent::Char(c));
            let digit = '1' <= c && c <= '9' && (c as u32 - '0' as u32) <= len;
            &&& same_key(c, kb.manual) ==> s == sel && !notice && choice == Choice::Manual
            &&& !same_key(c, kb.manual) && same_key(c, kb.backup) ==> s == sel && !notice && choice
                == Choice::RestoreBackup
            &&& !same_key(c, kb.manual) && !same_key(c, kb.backup) && same_key(c, kb.reboot) ==> s
                == sel && !notice && choice == Choice::Reboot
            &&& !same_key(c, kb.manual) && !same_key(c, kb.backup) && !same_key(c, kb.reboot)
                && same_key(c, kb.shutdown) ==> s == sel && !notice && choice == Choice::Shutdown
            &&& !same_key(c, kb.manual) && !same_key(c, kb.backup) && !same_key(c, kb.reboot)
                && !same_key(c, kb.shutdown) ==> {
                &&& notice == same_key(c, kb.firmware)
                &&& digit ==> s == (c as u32 - '1' as u32) && choice == Choice::BootSelected
                &&& !digit ==> s == sel && choice == Choice::Stay
            }
        }),
{
}

} // verus!
