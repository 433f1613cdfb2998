use nexec_lgc::draw::Notice;
use nexec_lgc::flow::{BootFlow, FlowAction, FlowEvent, MenuPick, RecoveryWatch};
use nexec_lgc::keyboard::KeyEvent;

fn answer(flow: &mut BootFlow, e: FlowEvent) -> FlowAction {
    flow.feed(e);
    flow.request()
}

#[test]
fn start_scans_unless_turned_off() {
    let mut f = BootFlow::new();
    assert_eq!(f.request(), FlowAction::Greet);
    assert_eq!(answer(&mut f, FlowEvent::Done), FlowAction::WatchRecovery);
    assert_eq!(answer(&mut f, FlowEvent::Recovery(false)), FlowAction::LoadConfig);
    assert_eq!(answer(&mut f, FlowEvent::Loaded { no_scan: false }), FlowAction::Scan);
    assert_eq!(answer(&mut f, FlowEvent::Done), FlowAction::RunMenu);
    let mut f = BootFlow::new();
    answer(&mut f, FlowEvent::Done);
    answer(&mut f, FlowEvent::Recovery(false));
    assert_eq!(answer(&mut f, FlowEvent::Loaded { no_scan: true }), FlowAction::RunMenu);
}

fn at_menu() -> BootFlow {
    let mut f = BootFlow::new();
    f.feed(FlowEvent::Done);
    f.feed(FlowEvent::Recovery(false));
    f.feed(FlowEvent::Loaded { no_scan: true });
    assert_eq!(f.request(), FlowAction::RunMenu);
    f
}

#[test]
fn menu_boot_counts_down_and_backs_up_first() {
    let mut f = at_menu();
    assert_eq!(answer(&mut f, FlowEvent::Picked(MenuPick::Boot)), FlowAction::ShowBooting { clear: true });
    assert_eq!(answer(&mut f, FlowEvent::Done), FlowAction::CountDown);
    assert_eq!(answer(&mut f, FlowEvent::Done), FlowAction::Backup);
    assert_eq!(answer(&mut f, FlowEvent::Done), FlowAction::Boot);
    assert_eq!(answer(&mut f, FlowEvent::Booted(false)), FlowAction::Show(Notice::BootFailed));
    assert_eq!(answer(&mut f, FlowEvent::Done), FlowAction::WaitKey);
    assert_eq!(answer(&mut f, FlowEvent::Done), FlowAction::RunMenu);
}

#[test]
fn manual_boot_and_leaving_the_browser() {
    let mut f = at_menu();
    assert_eq!(answer(&mut f, FlowEvent::Picked(MenuPick::Manual)), FlowAction::Browse);
    assert_eq!(answer(&mut f, FlowEvent::Browsed(false)), FlowAction::RunMenu);
    assert_eq!(answer(&mut f, FlowEvent::Picked(MenuPick::Manual)), FlowAction::Browse);
    assert_eq!(answer(&mut f, FlowEvent::Browsed(true)), FlowAction::ShowBooting { clear: false });
    assert_eq!(answer(&mut f, FlowEvent::Done), FlowAction::Backup);
    assert_eq!(answer(&mut f, FlowEvent::Done), FlowAction::Boot);
    assert_eq!(answer(&mut f, FlowEvent::Booted(false)), FlowAction::Show(Notice::ManualBootFailed));
    assert_eq!(answer(&mut f, FlowEvent::Done), FlowAction::WaitKey);
    assert_eq!(answer(&mut f, FlowEvent::Done), FlowAction::RunMenu);
}

#[test]
fn shutdown_and_restore_end_in_reset() {
    let mut f = at_menu();
    assert_eq!(answer(&mut f, FlowEvent::Picked(MenuPick::Shutdown)), FlowAction::PowerOff);
    assert_eq!(answer(&mut f, FlowEvent::Done), FlowAction::Show(Notice::ShutdownFailed));
    assert_eq!(answer(&mut f, FlowEvent::Done), FlowAction::WaitKey);
    assert_eq!(answer(&mut f, FlowEvent::Done), FlowAction::Reset);
    assert_eq!(answer(&mut f, FlowEvent::Done), FlowAction::Reset);
    for (found, notice) in [(true, Notice::Restored), (false, Notice::NoBackup)] {
        let mut f = at_menu();
        assert_eq!(answer(&mut f, FlowEvent::Picked(MenuPick::RestoreBackup)), FlowAction::Show(Notice::Restoring));
        assert_eq!(answer(&mut f, FlowEvent::Done), FlowAction::Restore);
        assert_eq!(answer(&mut f, FlowEvent::Restored(found)), FlowAction::Show(notice));
        assert_eq!(answer(&mut f, FlowEvent::Done), FlowAction::WaitKey);
        assert_eq!(answer(&mut f, FlowEvent::Done), FlowAction::Reset);
    }
}

#[test]
fn unexpected_events_change_nothing() {
    let mut f = at_menu();
    assert_eq!(answer(&mut f, FlowEvent::Done), FlowAction::RunMenu);
    assert_eq!(answer(&mut f, FlowEvent::Booted(true)), FlowAction::RunMenu);
}

#[test]
fn holding_r_at_startup_restores_the_backup() {
    let mut f = BootFlow::new();
    answer(&mut f, FlowEvent::Done);
    assert_eq!(answer(&mut f, FlowEvent::Recovery(true)), FlowAction::Show(Notice::Restoring));
    assert_eq!(answer(&mut f, FlowEvent::Done), FlowAction::Restore);
    assert_eq!(answer(&mut f, FlowEvent::Restored(true)), FlowAction::Show(Notice::Restored));
    assert_eq!(answer(&mut f, FlowEvent::Done), FlowAction::WaitKey);
    assert_eq!(answer(&mut f, FlowEvent::Done), FlowAction::Reset);
}

#[test]
fn recovery_watch_lasts_two_seconds() {
    let mut w = RecoveryWatch::new();
    let mut polls = 0;
    while !w.finished() {
        w.poll(if polls == 7 { Some(KeyEvent::Char('R')) } else { None });
        polls += 1;
    }
    assert_eq!(polls, 20);
    assert!(w.held());
    let mut w = RecoveryWatch::new();
    while !w.finished() {
        w.poll(Some(KeyEvent::Char('x')));
    }
    assert!(!w.held());
}
