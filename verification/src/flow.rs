//! The boot manager's main loop as a state machine: what to do next, and
//! where each outcome leads. Greeting, loading the configuration, scanning
//! the partition, running the menu, booting, the file browser, the notices
//! and the reset are carried out outside this library, one action at a time.
use vstd::prelude::*;
use crate::draw::Notice;

verus! {

/// What the menu was left with, without the entry it carries.
#[derive(Debug, Clone, Copy, PartialEq, Eq, Structural)]
pub enum MenuPick {
    Boot,
    Manual,
    Shutdown,
    RestoreBackup,
}

/// Where the main loop stands.
#[derive(Debug, Clone, Copy, PartialEq, Eq, Structural)]
pub enum FlowState {
    Greet,
    WatchRecovery,
    LoadConfig,
    Scan,
    RunMenu,
    MenuShowBooting,
    MenuCountDown,
    MenuBackup,
    MenuBoot,
    MenuBootFailed,
    MenuFailWait,
    Browse,
    ManualShowBooting,
    ManualBackup,
    ManualBoot,
    ManualBootFailed,
    ManualFailWait,
    PowerOff,
    ShutdownNotice,
    ShutdownWait,
    RestoreNotice,
    Restore,
    RestoredNotice,
    NoBackupNotice,
    RestoreWait,
    Reset,
}

/// What the main loop asks for next.
#[derive(Debug, Clone, Copy, PartialEq, Eq, Structural)]
pub enum FlowAction {
    /// Write the greeting in light blue on black.
    Greet,
    /// Ask the user to hold `r` for recovery and watch the keyboard for two
    /// seconds; answer with `Recovery`.
    WatchRecovery,
    /// Load the configuration; answer with `Loaded`.
    LoadConfig,
    /// Scan the partition for entries.
    Scan,
    /// Clear the screen and run the menu; answer with `Picked`.
    RunMenu,
    /// Show that the chosen entry is booting, first clearing the screen and
    /// switching to white on black when `clear` is set.
    ShowBooting { clear: bool },
    /// Count the chosen entry's boot counter down in its file name.
    CountDown,
    /// Back up the entry files.
    Backup,
    /// Load and start the chosen entry; answer with `Booted`.
    Boot,
    /// Clear the screen and run the file browser; answer with `Browsed`.
    Browse,
    /// Show this notice.
    Show(Notice),
    /// Wait for a key.
    WaitKey,
    /// Restore the backed-up entry files; answer with `Restored`.
    Restore,
    /// Power the machine off; answer with `Done` only if it is still running.
    PowerOff,
    /// Reset the machine.
    Reset,
}

/// What came of an action.
#[derive(Debug, Clone, Copy, PartialEq, Eq, Structural)]
pub enum FlowEvent {
    /// The action was carried out.
    Done,
    /// The recovery key was held while it was watched for, or not.
    Recovery(bool),
    /// The configuration was loaded; it turns scanning off or not.
    Loaded { no_scan: bool },
    /// The menu was left with this.
    Picked(MenuPick),
    /// The browser was left with a file to boot, or without one.
    Browsed(bool),
    /// Starting the entry came back, with success or not.
    Booted(bool),
    /// The restore found a backup, or not.
    Restored(bool),
}

/// The action asked for in each state.
pub open spec fn flow_request(s: FlowState) -> FlowAction {
    match s {
        FlowState::Greet => FlowAction::Greet,
        FlowState::WatchRecovery => FlowAction::WatchRecovery,
        FlowState::LoadConfig => FlowAction::LoadConfig,
        FlowState::Scan => FlowAction::Scan,
        FlowState::RunMenu => FlowAction::RunMenu,
        FlowState::MenuShowBooting => FlowAction::ShowBooting { clear: true },
        FlowState::MenuCountDown => FlowAction::CountDown,
        FlowState::MenuBackup => FlowAction::Backup,
        FlowState::MenuBoot => FlowAction::Boot,
        FlowState::MenuBootFailed => FlowAction::Show(Notice::BootFailed),
        FlowState::MenuFailWait => FlowAction::WaitKey,
        FlowState::Browse => FlowAction::Browse,
        FlowState::ManualShowBooting => FlowAction::ShowBooting { clear: false },
        FlowState::ManualBackup => FlowAction::Backup,
        FlowState::ManualBoot => FlowAction::Boot,
        FlowState::ManualBootFailed => FlowAction::Show(Notice::ManualBootFailed),
        FlowState::ManualFailWait => FlowAction::WaitKey,
        FlowState::PowerOff => FlowAction::PowerOff,
        FlowState::ShutdownNotice => FlowAction::Show(Notice::ShutdownFailed),
        FlowState::ShutdownWait => FlowAction::WaitKey,
        FlowState::RestoreNotice => FlowAction::Show(Notice::Restoring),
        FlowState::Restore => FlowAction::Restore,
        FlowState::RestoredNotice => FlowAction::Show(Notice::Restored),
        FlowState::NoBackupNotice => FlowAction::Show(Notice::NoBackup),
        FlowState::RestoreWait => FlowAction::WaitKey,
        FlowState::Reset => FlowAction::Reset,
    }
}

/// The state after an event. An event that does not answer the action
/// asked for changes nothing; so does any event after the reset.
pub open spec fn flow_step(s: FlowState, e: FlowEvent) -> FlowState {
    match (s, e) {
        (FlowState::Greet, FlowEvent::Done) => FlowState::WatchRecovery,
        (FlowState::WatchRecovery, FlowEvent::Recovery(held)) => if held {
            FlowState::RestoreNotice
        } else {
            FlowState::LoadConfig
        },
        (FlowState::LoadConfig, FlowEvent::Loaded { no_scan }) => if no_scan {
            FlowState::RunMenu
        } else {
            FlowState::Scan
        },
        (FlowState::Scan, FlowEvent::Done) => FlowState::RunMenu,
        (FlowState::RunMenu, FlowEvent::Picked(p)) => match p {
            MenuPick::Boot => FlowState::MenuShowBooting,
            MenuPick::Manual => FlowState::Browse,
            MenuPick::Shutdown => FlowState::PowerOff,
            MenuPick::RestoreBackup => FlowState::RestoreNotice,
        },
        (FlowState::MenuShowBooting, FlowEvent::Done) => FlowState::MenuCountDown,
        (FlowState::MenuCountDown, FlowEvent::Done) => FlowState::MenuBackup,
        (FlowState::MenuBackup, FlowEvent::Done) => FlowState::MenuBoot,
        (FlowState::MenuBoot, FlowEvent::Booted(ok)) => if ok {
            FlowState::RunMenu
        } else {
            FlowState::MenuBootFailed
        },
        (FlowState::MenuBootFailed, FlowEvent::Done) => FlowState::MenuFailWait,
        (FlowState::MenuFailWait, FlowEvent::Done) => FlowState::RunMenu,
        (FlowState::Browse, FlowEvent::Browsed(picked)) => if picked {
            FlowState::ManualShowBooting
        } else {
            FlowState::RunMenu
        },
        (FlowState::ManualShowBooting, FlowEvent::Done) => FlowState::ManualBackup,
        (FlowState::ManualBackup, FlowEvent::Done) => FlowState::ManualBoot,
        (FlowState::ManualBoot, FlowEvent::Booted(ok)) => if ok {
            FlowState::RunMenu
        } else {
            FlowState::ManualBootFailed
        },
        (FlowState::ManualBootFailed, FlowEvent::Done) => FlowState::ManualFailWait,
        (FlowState::ManualFailWait, FlowEvent::Done) => FlowState::RunMenu,
        (FlowState::PowerOff, FlowEvent::Done) => FlowState::ShutdownNotice,
        (FlowState::ShutdownNotice, FlowEvent::Done) => FlowState::ShutdownWait,
        (FlowState::ShutdownWait, FlowEvent::Done) => FlowState::Reset,
        (FlowState::RestoreNotice, FlowEvent::Done) => FlowState::Restore,
        (FlowState::Restore, FlowEvent::Restored(found)) => if found {
            FlowState::RestoredNotice
        } else {
            FlowState::NoBackupNotice
        },
        (FlowState::RestoredNotice, FlowEvent::Done) => FlowState::RestoreWait,
        (FlowState::NoBackupNotice, FlowEvent::Done) => FlowState::RestoreWait,
        (FlowState::RestoreWait, FlowEvent::Done) => FlowState::Reset,
        _ => s,
    }
}

/// The main loop of the boot manager.
pub struct BootFlow {
    state: FlowState,
}

impl View for BootFlow {
    type V = FlowState;

    closed spec fn view(&self) -> FlowState {
        self.state
    }
}

impl BootFlow {
    /// The loop as it starts: with the greeting.
    pub fn new() -> (r: Self)
        ensures
            r@ == FlowState::Greet,
    {
        BootFlow { state: FlowState::Greet }
    }

    /// What the loop asks for next.
    pub fn request(&self) -> (r: FlowAction)
        ensures
            r == flow_request(self@),
    {
        match self.state {
            FlowState::Greet => FlowAction::Greet,
            FlowState::WatchRecovery => FlowAction::WatchRecovery,
            FlowState::LoadConfig => FlowAction::LoadConfig,
            FlowState::Scan => FlowAction::Scan,
            FlowState::RunMenu => FlowAction::RunMenu,
            FlowState::MenuShowBooting => FlowAction::ShowBooting { clear: true },
            FlowState::MenuCountDown => FlowAction::CountDown,
            FlowState::MenuBackup => FlowAction::Backup,
            FlowState::MenuBoot => FlowAction::Boot,
            FlowState::MenuBootFailed => FlowAction::Show(Notice::BootFailed),
            FlowState::MenuFailWait => FlowAction::WaitKey,
            FlowState::Browse => FlowAction::Browse,
            FlowState::ManualShowBooting => FlowAction::ShowBooting { clear: false },
            FlowState::ManualBackup => FlowAction::Backup,
            FlowState::ManualBoot => FlowAction::Boot,
            FlowState::ManualBootFailed => FlowAction::Show(Notice::ManualBootFailed),
            FlowState::ManualFailWait => FlowAction::WaitKey,
            FlowState::PowerOff => FlowAction::PowerOff,
            FlowState::ShutdownNotice => FlowAction::Show(Notice::ShutdownFailed),
            FlowState::ShutdownWait => FlowAction::WaitKey,
            FlowState::RestoreNotice => FlowAction::Show(Notice::Restoring),
            FlowState::Restore => FlowAction::Restore,
            FlowState::RestoredNotice => FlowAction::Show(Notice::Restored),
            FlowState::NoBackupNotice => FlowAction::Show(Notice::NoBackup),
            FlowState::RestoreWait => FlowAction::WaitKey,
            FlowState::Reset => FlowAction::Reset,
        }
    }

    /// Takes what came of the action asked for.
    pub fn feed(&mut self, e: FlowEvent)
        ensures
            final(self)@ == flow_step(old(self)@, e),
    {
        let next = match (self.state, e) {
            (FlowState::Greet, FlowEvent::Done) => FlowState::WatchRecovery,
            (FlowState::WatchRecovery, FlowEvent::Recovery(held)) => if held {
                FlowState::RestoreNotice
            } else {
                FlowState::LoadConfig
            },
            (FlowState::LoadConfig, FlowEvent::Loaded { no_scan }) => if no_scan {
                FlowState::RunMenu
            } else {
                FlowState::Scan
            },
            (FlowState::Scan, FlowEvent::Done) => FlowState::RunMenu,
            (FlowState::RunMenu, FlowEvent::Picked(p)) => match p {
                MenuPick::Boot => FlowState::MenuShowBooting,
                MenuPick::Manual => FlowState::Browse,
                MenuPick::Shutdown => FlowState::PowerOff,
                MenuPick::RestoreBackup => FlowState::RestoreNotice,
            },
            (FlowState::MenuShowBooting, FlowEvent::Done) => FlowState::MenuCountDown,
            (FlowState::MenuCountDown, FlowEvent::Done) => FlowState::MenuBackup,
            (FlowState::MenuBackup, FlowEvent::Done) => FlowState::MenuBoot,
            (FlowState::MenuBoot, FlowEvent::Booted(ok)) => if ok {
                FlowState::RunMenu
            } else {
                FlowState::MenuBootFailed
            },
            (FlowState::MenuBootFailed, FlowEvent::Done) => FlowState::MenuFailWait,
            (FlowState::MenuFailWait, FlowEvent::Done) => FlowState::RunMenu,
            (FlowState::Browse, FlowEvent::Browsed(picked)) => if picked {
                FlowState::ManualShowBooting
            } else {
                FlowState::RunMenu
            },
            (FlowState::ManualShowBooting, FlowEvent::Done) => FlowState::ManualBackup,
            (FlowState::ManualBackup, FlowEvent::Done) => FlowState::ManualBoot,
            (FlowState::ManualBoot, FlowEvent::Booted(ok)) => if ok {
                FlowState::RunMenu
            } else {
                FlowState::ManualBootFailed
            },
            (FlowState::ManualBootFailed, FlowEvent::Done) => FlowState::ManualFailWait,
            (FlowState::ManualFailWait, FlowEvent::Done) => FlowState::RunMenu,
            (FlowState::PowerOff, FlowEvent::Done) => FlowState::ShutdownNotice,
            (FlowState::ShutdownNotice, FlowEvent::Done) => FlowState::ShutdownWait,
            (FlowState::ShutdownWait, FlowEvent::Done) => FlowState::Reset,
            (FlowState::RestoreNotice, FlowEvent::Done) => FlowState::Restore,
            (FlowState::Restore, FlowEvent::Restored(found)) => if found {
                FlowState::RestoredNotice
            } else {
                FlowState::NoBackupNotice
            },
            (FlowState::RestoredNotice, FlowEvent::Done) => FlowState::RestoreWait,
            (FlowState::NoBackupNotice, FlowEvent::Done) => FlowState::RestoreWait,
            (FlowState::RestoreWait, FlowEvent::Done) => FlowState::Reset,
            _ => self.state,
        };
        self.state = next;
    }
}

/// The states reached from `s` by answering each action with `Done`, `k`
/// times.
pub open spec fn after_done(s: FlowState, k: nat) -> FlowState
    decreases k,
{
    if k == 0 {
        s
    } else {
        after_done(flow_step(s, FlowEvent::Done), (k - 1) as nat)
    }
}

/// An entry chosen in the menu is announced, its boot counter counted down
/// and the entry files backed up, in that order, before it is booted; a
/// failed boot shows its notice, waits for a key and returns to the menu.
pub proof fn law_menu_boot_counts_down_and_backs_up_first()
    ensures
        flow_step(FlowState::RunMenu, FlowEvent::Picked(MenuPick::Boot)) == FlowState::MenuShowBooting,
        flow_request(FlowState::MenuShowBooting) == (FlowAction::ShowBooting { clear: true }),
        flow_request(after_done(FlowState::MenuShowBooting, 1)) == FlowAction::CountDown,
        flow_request(after_done(FlowState::MenuShowBooting, 2)) == FlowAction::Backup,
        flow_request(after_done(FlowState::MenuShowBooting, 3)) == FlowAction::Boot,
        flow_request(flow_step(after_done(FlowState::MenuShowBooting, 3), FlowEvent::Booted(false)))
            == FlowAction::Show(Notice::BootFailed),
        after_done(
            flow_step(after_done(FlowState::MenuShowBooting, 3), FlowEvent::Booted(false)),
            2,
        ) == FlowState::RunMenu,
{
    reveal_with_fuel(after_done, 4);
}

/// A file picked in the browser is announced, the entry files are backed
/// up, and it is booted, with no count down; a failed boot shows its notice,
/// waits for a key and returns to the menu, as does leaving the browser
/// without a file.
pub proof fn law_manual_boot()
    ensures
        flow_step(FlowState::RunMenu, FlowEvent::Picked(MenuPick::Manual)) == FlowState::Browse,
        flow_step(FlowState::Browse, FlowEvent::Browsed(false)) == FlowState::RunMenu,
        flow_request(flow_step(FlowState::Browse, FlowEvent::Browsed(true))) == (FlowAction::ShowBooting {
            clear: false,
        }),
        flow_request(after_done(flow_step(FlowState::Browse, FlowEvent::Browsed(true)), 1))
            == FlowAction::Backup,
        flow_request(after_done(flow_step(FlowState::Browse, FlowEvent::Browsed(true)), 2))
            == FlowAction::Boot,
        flow_request(
            flow_step(
                after_done(flow_step(FlowState::Browse, FlowEvent::Browsed(true)), 2),
                FlowEvent::Booted(false),
            ),
        ) == FlowAction::Show(Notice::ManualBootFailed),
        after_done(
            flow_step(
                after_done(flow_step(FlowState::Browse, FlowEvent::Browsed(true)), 2),
                FlowEvent::Booted(false),
            ),
            2,
        ) == FlowState::RunMenu,
{
    reveal_with_fuel(after_done, 3);
}

/// Shutdown powers the machine off; should that not take effect, a notice
/// and a key lead to a reset. Restoring the backup ends in a reset, after its
/// notices and a key; the restore tells whether a backup was found.
pub proof fn law_shutdown_and_restore_reset(found: bool)
    ensures
        flow_request(flow_step(FlowState::RunMenu, FlowEvent::Picked(MenuPick::Shutdown)))
            == FlowAction::PowerOff,
        flow_request(after_done(flow_step(FlowState::RunMenu, FlowEvent::Picked(MenuPick::Shutdown)), 1))
            == FlowAction::Show(Notice::ShutdownFailed),
        after_done(flow_step(FlowState::RunMenu, FlowEvent::Picked(MenuPick::Shutdown)), 3)
            == FlowState::Reset,
        flow_request(flow_step(FlowState::RunMenu, FlowEvent::Picked(MenuPick::RestoreBackup)))
            == FlowAction::Show(Notice::Restoring),
        flow_request(after_done(flow_step(FlowState::RunMenu, FlowEvent::Picked(MenuPick::RestoreBackup)), 1))
            == FlowAction::Restore,
        flow_request(
            flow_step(
                after_done(flow_step(FlowState::RunMenu, FlowEvent::Picked(MenuPick::RestoreBackup)), 1),
                FlowEvent::Restored(found),
            ),
        ) == FlowAction::Show(
            if found {
                Notice::Restored
            } else {
                Notice::NoBackup
            },
        ),
        after_done(
            flow_step(
                after_done(flow_step(FlowState::RunMenu, FlowEvent::Picked(MenuPick::RestoreBackup)), 1),
                FlowEvent::Restored(found),
            ),
            2,
        ) == FlowState::Reset,
        forall|e: FlowEvent| flow_step(FlowState::Reset, e) == FlowState::Reset,
{
    reveal_with_fuel(after_done, 4);
}

/// The loop greets and watches for the recovery key; held, it restores the
/// backup as the menu's restore does; otherwise it loads the configuration,
/// scans the partition unless the configuration turns scanning off, then
/// runs the menu.
pub proof fn law_start(no_scan: bool)
    ensures
        flow_request(FlowState::Greet) == FlowAction::Greet,
        flow_request(after_done(FlowState::Greet, 1)) == FlowAction::WatchRecovery,
        flow_step(after_done(FlowState::Greet, 1), FlowEvent::Recovery(true)) == flow_step(
            FlowState::RunMenu,
            FlowEvent::Picked(MenuPick::RestoreBackup),
        ),
        flow_request(flow_step(after_done(FlowState::Greet, 1), FlowEvent::Recovery(false)))
            == FlowAction::LoadConfig,
        no_scan ==> flow_step(
            flow_step(after_done(FlowState::Greet, 1), FlowEvent::Recovery(false)),
            FlowEvent::Loaded { no_scan },
        ) == FlowState::RunMenu,
        !no_scan ==> flow_request(
            flow_step(
                flow_step(after_done(FlowState::Greet, 1), FlowEvent::Recovery(false)),
                FlowEvent::Loaded { no_scan },
            ),
        ) == FlowAction::Scan,
        !no_scan ==> after_done(
            flow_step(
                flow_step(after_done(FlowState::Greet, 1), FlowEvent::Recovery(false)),
                FlowEvent::Loaded { no_scan },
            ),
            1,
        ) == FlowState::RunMenu,
{
    reveal_with_fuel(after_done, 2);
}

// ---------------------------------------------------------------------------
// The recovery key at startup
// ---------------------------------------------------------------------------

/// How long the recovery key is watched for, in polls of a tenth of a
/// second: two seconds.
pub const RECOVERY_POLLS: u32 = 20;

/// The recovery key: `r`, in either case.
pub open spec fn is_recovery_key(ev: Option<crate::keyboard::KeyEvent>) -> bool {
    ev == Some(crate::keyboard::KeyEvent::Char('r')) || ev == Some(crate::keyboard::KeyEvent::Char('R'))
}

/// Watches the keyboard for the recovery key over two seconds of polls; the
/// key counts as held when it is reported during the window (pressed, or
/// repeated while held down).
pub struct RecoveryWatch {
    polls: u32,
    held: bool,
}

impl RecoveryWatch {
    /// How many polls were made.
    pub closed spec fn polls(&self) -> nat {
        self.polls as nat
    }

    /// Whether the key was reported.
    pub closed spec fn seen(&self) -> bool {
        self.held
    }

    /// A watch that has made no poll.
    pub fn new() -> (r: Self)
        ensures
            r.polls() == 0,
            !r.seen(),
    {
        RecoveryWatch { polls: 0, held: false }
    }

    /// Takes what one poll of a tenth of a second saw.
    pub fn poll(&mut self, ev: Option<crate::keyboard::KeyEvent>)
        requires
            old(self).polls() < RECOVERY_POLLS,
        ensures
            final(self).polls() == old(self).polls() + 1,
            final(self).seen() == (old(self).seen() || is_recovery_key(ev)),
    {
        self.polls = self.polls + 1;
        let key = match ev {
            Some(crate::keyboard::KeyEvent::Char(c)) => c == 'r' || c == 'R',
            _ => false,
        };
        self.held = self.held || key;
    }

    /// Whether the two seconds are over.
    pub fn finished(&self) -> (r: bool)
        ensures
            r == (self.polls() >= RECOVERY_POLLS),
    {
        self.polls >= RECOVERY_POLLS
    }

    /// Whether the recovery key was held.
    pub fn held(&self) -> (r: bool)
        ensures
            r == self.seen(),
    {
        self.held
    }
}

} // verus!
