use store_overlay::session::{Action, Event, Phase, Session};

#[test]
fn stale_mount_is_unmounted_once_before_mount() {
    let mut s = Session::new();
    assert_eq!(s.next_action(), Action::CreateDirectories);
    assert!(s.record(Event::DirectoriesCreated));
    assert_eq!(s.next_action(), Action::QueryMount);
    assert!(s.record(Event::MountQueried(true)));
    assert_eq!(s.next_action(), Action::Unmount);
    assert!(!s.record(Event::Mounted));
    assert_eq!(s.next_action(), Action::Unmount);
    assert!(s.record(Event::Unmounted));
    assert!(!s.record(Event::Unmounted));
    assert_eq!(s.unmounts, 1);
    assert_eq!(s.next_action(), Action::Reconcile);
    assert!(s.record(Event::Reconciled));
    assert_eq!(s.next_action(), Action::Mount);
    assert!(s.record(Event::Mounted));
    assert_eq!(s.phase, Phase::Mounted);
    assert_eq!(s.next_action(), Action::Finish);
    assert!(s.prior_mount);
    assert_eq!(s.unmounts, 1);
}

#[test]
fn no_unmount_without_prior_mount() {
    let mut s = Session::new();
    assert!(s.record(Event::DirectoriesCreated));
    assert!(s.record(Event::MountQueried(false)));
    assert_eq!(s.next_action(), Action::Reconcile);
    assert!(!s.record(Event::Unmounted));
    assert!(s.record(Event::Reconciled));
    assert!(s.record(Event::Mounted));
    assert_eq!(s.phase, Phase::Mounted);
    assert!(!s.prior_mount);
    assert_eq!(s.unmounts, 0);
}
