//! The daemon: labels, waiting, the schedule, the outbox.

use jmapsyncd::daemon::outbox::{
    classify_event, classify_path, expire_pending_renames, handle_event, locate_outbox_message,
    loop_step, scan_basenames, scan_maildir_files, startup_schedule, strip_flags, Debouncer,
    DirEntry, EventAction, LoopAction, LoopEvent, OutboxEvent, OutboxSide, OutboxState,
    RawEventKind, WatchKind, EVENT_DEBOUNCE_NANOS,
};
use jmapsyncd::daemon::resilience::{
    after_network_wait, connected_icon, display_label, icon_candidates, network_verdict, notification_args,
    server_label, FailureNotifier, NetworkWait, RetryBackoff, WaitStep,
};
use jmapsyncd::daemon::retry::{backoff_delay, backoff_delay_at, RetrySchedule};
use jmapsyncd::daemon::sidecar::{RetryState, SidecarState};
use jmapsyncd::daemon::single_instance::{acquire_step, already_running, lock_contents, LockStep};
use jmapsyncd::daemon::span::Span;
use jmapsyncd::keyed::Keyed;

const SEC: u128 = 1_000_000_000;

fn secs(s: &Span) -> f64 {
    s.nanos as f64 / 1e9
}

#[test]
fn notification_labels_come_from_account_and_host() {
    assert_eq!(display_label("personal"), "Personal");
    assert_eq!(server_label("api.fastmail.com"), "Fastmail");
    assert_eq!(server_label("https://jmap.daylite.com/session"), "Daylite");
}

#[test]
fn labels_of_odd_hosts() {
    assert_eq!(server_label("localhost:8080"), "Localhost");
    assert_eq!(server_label("http://..a..b../x"), "A");
    assert_eq!(display_label(""), "");
    assert_eq!(display_label("\u{df}x"), "SSx");
    assert_eq!(display_label("9lives"), "9lives");
}

#[test]
fn retry_backoff_grows_caps_and_resets() {
    let mut backoff = RetryBackoff::new(Span::from_secs(5), Span::from_secs(20));

    assert_eq!(backoff.take_delay(), Span::from_secs(5));
    assert_eq!(backoff.take_delay(), Span::from_secs(10));
    assert_eq!(backoff.take_delay(), Span::from_secs(20));
    assert_eq!(backoff.take_delay(), Span::from_secs(20));

    backoff.reset();
    assert_eq!(backoff.take_delay(), Span::from_secs(5));
}

#[test]
fn backoff_does_not_run_over() {
    let top = Span { nanos: jmapsyncd::daemon::span::LONGEST_NANOS };
    let mut backoff = RetryBackoff::new(top, top);
    assert_eq!(backoff.take_delay(), top);
    assert_eq!(backoff.take_delay(), top);
    assert_eq!(top.as_secs(), u64::MAX);
    assert_eq!(top.subsec_nanos(), 999_999_999);
    assert_eq!(Span::from_millis(1500).as_secs(), 1);
}

#[test]
fn failures_are_told_once() {
    let mut n = FailureNotifier::new("personal", "api.fastmail.com");
    assert!(n.recovered("icon").is_none());
    let down = n.failed().unwrap();
    assert_eq!(down.summary, "Personal eMail Down");
    assert_eq!(down.body, "Fastmail server is unreachable.");
    assert_eq!(down.icon, "network-error-symbolic");
    assert!(n.failed().is_none());
    assert!(n.down());
    let up = n.recovered("icon").unwrap();
    assert_eq!(up.summary, "Personal eMail Up");
    assert_eq!(up.body, "Fastmail server is reachable.");
    assert_eq!(
        notification_args(&up),
        vec!["--app-name=jmapsyncd", "--urgency=normal", "--icon=icon", "Personal eMail Up", "Fastmail server is reachable."]
    );
    assert!(n.recovered("icon").is_none());
    assert!(n.failed().is_some());
}

#[test]
fn waiting_for_the_network() {
    assert_eq!(network_verdict(Some(true)), NetworkWait::Online);
    assert_eq!(network_verdict(Some(false)), NetworkWait::Unavailable);
    assert_eq!(network_verdict(None), NetworkWait::Unavailable);
    let five = Span::from_secs(5);
    assert_eq!(
        after_network_wait(NetworkWait::Cancelled, five, Span::from_secs(0)),
        WaitStep::Stop
    );
    assert_eq!(
        after_network_wait(NetworkWait::Online, five, Span::from_secs(2)),
        WaitStep::Sleep(Span::from_secs(3))
    );
    assert_eq!(after_network_wait(NetworkWait::Online, five, five), WaitStep::Proceed);
    assert_eq!(
        after_network_wait(NetworkWait::Unavailable, five, Span::from_secs(9)),
        WaitStep::Proceed
    );
}

#[test]
fn icons_are_looked_for_at_home_first() {
    let tail = "icons/hicolor/scalable/status/network-connected-symbolic.svg";
    assert_eq!(
        icon_candidates(&None, &Some("/home/a".to_string()), &None),
        vec![
            format!("/home/a/.local/share/{tail}"),
            format!("/usr/local/share/{tail}"),
            format!("/usr/share/{tail}"),
        ]
    );
    assert_eq!(
        icon_candidates(&Some("/d/".to_string()), &Some("/home/a".to_string()), &Some(vec!["/s".to_string()])),
        vec![format!("/d/{tail}"), format!("/s/{tail}")]
    );
    assert_eq!(icon_candidates(&None, &None, &Some(Vec::new())), Vec::<String>::new());
    let two = vec!["a".to_string(), "b".to_string()];
    assert_eq!(connected_icon(&two, &vec![false, true]), "b");
    assert_eq!(connected_icon(&two, &vec![true, true]), "a");
    assert_eq!(connected_icon(&two, &vec![false, false]), "network-connected-symbolic");
}

#[test]
fn second_daemon_is_told_the_pid() {
    let text = already_running(Some(&lock_contents(4711)));
    assert_eq!(
        text,
        "jmapsyncd daemon already running (pid=4711); refusing to start a second instance"
    );
    assert!(already_running(Some(" +12\n")).contains("(pid=12)"));
    for odd in [None, Some(""), Some("pid 7"), Some("4294967296"), Some("-3")] {
        assert!(already_running(odd).contains("(pid=unknown)"), "{odd:?}");
    }
    assert!(already_running(Some("4294967295")).contains("(pid=4294967295)"));
}

#[test]
fn strip_flags_variants() {
    assert_eq!(strip_flags("foo.bar.host"), "foo.bar.host");
    assert_eq!(strip_flags("foo.bar.host:2,"), "foo.bar.host");
    assert_eq!(strip_flags("foo.bar.host:2,S"), "foo.bar.host");
    assert_eq!(strip_flags("foo.bar.host:2,SR"), "foo.bar.host");
}

fn entry(name: &str, is_file: bool) -> DirEntry {
    DirEntry { name: Some(name.to_string()), is_file }
}

#[test]
fn scan_maildir_files_skips_tmp_and_dotfiles() {
    let new = vec![entry("message1", true), entry(".dotfile", true), entry("dir", false)];
    let cur = vec![entry("message2:2,S", true), DirEntry { name: None, is_file: true }];
    let mut found = scan_maildir_files(&new);
    found.extend(scan_maildir_files(&cur));
    assert_eq!(found, vec!["message1", "message2:2,S"]);
    let names = scan_basenames(&found);
    assert!(names.contains("message1") && names.contains("message2"));
    assert_eq!(names.len(), 2);
}

#[test]
fn messages_are_located_with_and_without_flags() {
    let dir = vec![entry("m1:2,S", true), entry("m1", false), entry("m2:2,", true), entry("m2", true)];
    assert_eq!(locate_outbox_message(&dir, "m1").as_deref(), Some("m1:2,S"));
    assert_eq!(locate_outbox_message(&dir, "m2").as_deref(), Some("m2"));
    assert_eq!(locate_outbox_message(&dir, "m3"), None);
}

fn steps(path: &str) -> Vec<Vec<u8>> {
    path.split('/').map(|s| s.as_bytes().to_vec()).collect()
}

#[test]
fn classify_path_recognizes_outbox_and_failed() {
    let outbox = steps("/mail/Outbox");
    let failed = steps("/mail/Failed");
    let (side, subdir) = classify_path(&steps("/mail/Outbox/new/foo"), &outbox, &failed).unwrap();
    assert_eq!(side, OutboxSide::Outbox);
    assert_eq!(subdir, "new");
    let (side, subdir) = classify_path(&steps("/mail/Failed/new/bar"), &outbox, &failed).unwrap();
    assert_eq!(side, OutboxSide::Failed);
    assert_eq!(subdir, "new");
    let (_, subdir) = classify_path(&steps("/mail/Failed/cur/bar:2,S"), &outbox, &failed).unwrap();
    assert_eq!(subdir, "cur");
}

#[test]
fn classify_path_rejects_tmp_events() {
    let outbox = steps("/mail/Outbox");
    let failed = steps("/mail/Failed");
    assert!(classify_path(&steps("/mail/Outbox/tmp/mid-write"), &outbox, &failed).is_none());
    assert!(classify_path(&steps("/mail/Outbox/new"), &outbox, &failed).is_none());
    assert!(classify_path(&steps("/mail/Inbox/new/x"), &outbox, &failed).is_none());
    assert!(classify_path(&steps("/mail/Outbox"), &outbox, &failed).is_none());
}

#[test]
fn only_names_that_change_count() {
    assert_eq!(classify_event(WatchKind::Create), Some(RawEventKind::CreateOrRenameTo));
    assert_eq!(classify_event(WatchKind::RenameTo), Some(RawEventKind::CreateOrRenameTo));
    assert_eq!(classify_event(WatchKind::RenameOther), Some(RawEventKind::CreateOrRenameTo));
    assert_eq!(classify_event(WatchKind::RenameFrom), Some(RawEventKind::RenameFrom));
    assert_eq!(classify_event(WatchKind::Remove), Some(RawEventKind::Remove));
    assert_eq!(classify_event(WatchKind::Change), None);
    assert_eq!(classify_event(WatchKind::Other), None);
}

#[test]
fn retry_schedule_basic() {
    let mut q = RetrySchedule::new();
    let now = 10 * SEC;
    q.schedule("a".into(), now);
    q.schedule("b".into(), now + SEC);
    // Reschedule 'a' further out.
    q.schedule("a".into(), now + 2 * SEC);
    let due = q.drain_due(now);
    assert!(due.is_empty(), "nothing due at t=0 anymore");
    // Fast-forward past b's due time by scheduling something at
    // an earlier instant, then drain.
    q.schedule("c".into(), now - 5 * SEC);
    let due = q.drain_due(now);
    assert!(due.contains(&"c".to_string()));
    assert_eq!(q.next_due(), Some(now + SEC));
    assert_eq!(q.drain_due(now + 2 * SEC), vec!["b", "a"]);
    assert_eq!(q.next_due(), None);
}

#[test]
fn retry_schedule_remove_clears_index_and_bucket() {
    let mut q = RetrySchedule::new();
    let when = 60 * SEC;
    q.schedule("x".into(), when);
    q.remove("x");
    assert!(q.due_at("x").is_none());
    assert!(q.next_due().is_none());
    assert!(q.drain_due(when).is_empty());
}

#[test]
fn backoff_delay_grows_then_caps() {
    let a1 = backoff_delay(1, 30, 7200);
    // ~30s ±20%: 24..=36
    assert!(secs(&a1) >= 24.0 && secs(&a1) <= 36.0);
    let a2 = backoff_delay(2, 30, 7200);
    // ~60s ±20%: 48..=72
    assert!(secs(&a2) >= 48.0 && secs(&a2) <= 72.0);
    let capped = backoff_delay(20, 30, 7200);
    // Cap at 7200; jitter still applies within ±20%.
    assert!(secs(&capped) <= 7200.0 * 1.201);
    assert!(secs(&capped) >= 7200.0 * 0.799);
}

#[test]
fn backoff_delay_is_exact() {
    assert_eq!(backoff_delay_at(1, 30, 7200, 0), Span::from_secs(24));
    assert_eq!(backoff_delay_at(1, 30, 7200, 500_000_000), Span::from_secs(30));
    assert_eq!(backoff_delay_at(3, 30, 7200, 500_000_000), Span::from_secs(120));
    assert_eq!(backoff_delay_at(0, 30, 7200, 500_000_000), Span::from_secs(30));
    assert_eq!(backoff_delay_at(u32::MAX, 1, 7200, 500_000_000), Span::from_secs(7200));
    // Never less than a second.
    assert_eq!(backoff_delay_at(1, 0, 0, 0), Span::from_secs(1));
}

fn event(side: OutboxSide, kind: RawEventKind, name: &str) -> OutboxEvent {
    OutboxEvent { side, filename: Some(name.to_string()), kind }
}

fn state() -> OutboxState {
    OutboxState::new(Keyed::new(), RetrySchedule::new())
}

#[test]
fn drag_back_is_one_move() {
    let mut s = state();
    handle_event(&mut s, &event(OutboxSide::Failed, RawEventKind::CreateOrRenameTo, "m1"), 0);
    assert!(s.known_failures.contains("m1"));
    assert!(s.retry_queue.due_at("m1").is_none());
    handle_event(&mut s, &event(OutboxSide::Failed, RawEventKind::RenameFrom, "m1"), 5);
    expire_pending_renames(&mut s, 7);
    let action =
        handle_event(&mut s, &event(OutboxSide::Outbox, RawEventKind::CreateOrRenameTo, "m1:2,S"), 9);
    assert!(matches!(action, EventAction::DragBack(b) if b == "m1"));
    assert!(!s.known_failures.contains("m1"));
    assert_eq!(s.retry_queue.due_at("m1"), Some(9));
    assert_eq!(s.pending_renames.len(), 0);
}

#[test]
fn message_that_left_the_outbox_is_not_tried() {
    let mut s = state();
    handle_event(&mut s, &event(OutboxSide::Outbox, RawEventKind::CreateOrRenameTo, "m1"), 0);
    handle_event(&mut s, &event(OutboxSide::Outbox, RawEventKind::CreateOrRenameTo, "m2"), 0);
    handle_event(&mut s, &event(OutboxSide::Outbox, RawEventKind::RenameFrom, "m1"), 0);
    expire_pending_renames(&mut s, 500_000_000);
    assert_eq!(s.retry_queue.due_at("m1"), Some(0));
    expire_pending_renames(&mut s, 500_000_001);
    assert_eq!(s.retry_queue.due_at("m1"), None);
    assert_eq!(s.retry_queue.due_at("m2"), Some(0));
    assert_eq!(s.pending_renames.len(), 0);
}

#[test]
fn lock_goes_from_hand_to_hand() {
    let mut contents = String::new();
    match acquire_step(true, 17, Some(&contents)) {
        LockStep::Hold(text) => contents = text,
        other => panic!("unexpected {other:?}"),
    }
    match acquire_step(false, 18, Some(&contents)) {
        LockStep::Refuse(text) => {
            assert!(text.contains("already running") && text.contains("(pid=17)"));
        }
        other => panic!("unexpected {other:?}"),
    }
    match acquire_step(true, 18, Some(&contents)) {
        LockStep::Hold(text) => assert_eq!(text, lock_contents(18)),
        other => panic!("unexpected {other:?}"),
    }
}

#[test]
fn half_a_move_is_given_up() {
    let mut s = state();
    handle_event(&mut s, &event(OutboxSide::Failed, RawEventKind::CreateOrRenameTo, "m1"), 0);
    handle_event(&mut s, &event(OutboxSide::Failed, RawEventKind::RenameFrom, "m1"), 0);
    expire_pending_renames(&mut s, 500_000_000);
    assert_eq!(s.pending_renames.len(), 1);
    expire_pending_renames(&mut s, 500_000_001);
    assert_eq!(s.pending_renames.len(), 0);
    assert!(!s.known_failures.contains("m1"));
    let action =
        handle_event(&mut s, &event(OutboxSide::Outbox, RawEventKind::CreateOrRenameTo, "m1"), 9);
    assert!(matches!(action, EventAction::Done));
}

#[test]
fn other_events() {
    let mut s = state();
    // A move within Outbox is a fresh start.
    handle_event(&mut s, &event(OutboxSide::Outbox, RawEventKind::RenameFrom, "m"), 1);
    let a = handle_event(&mut s, &event(OutboxSide::Outbox, RawEventKind::CreateOrRenameTo, "m"), 2);
    assert!(matches!(a, EventAction::Done));
    assert_eq!(s.retry_queue.due_at("m"), Some(2));
    handle_event(&mut s, &event(OutboxSide::Outbox, RawEventKind::Remove, "m"), 3);
    assert_eq!(s.retry_queue.due_at("m"), None);
    // Hidden files and names that cannot be read do not count.
    handle_event(&mut s, &event(OutboxSide::Outbox, RawEventKind::CreateOrRenameTo, ".h"), 4);
    let odd = OutboxEvent {
        side: OutboxSide::Outbox,
        filename: None,
        kind: RawEventKind::CreateOrRenameTo,
    };
    handle_event(&mut s, &odd, 4);
    assert_eq!(s.retry_queue.next_due(), None);
    handle_event(&mut s, &event(OutboxSide::Failed, RawEventKind::CreateOrRenameTo, "f"), 5);
    handle_event(&mut s, &event(OutboxSide::Failed, RawEventKind::Remove, "f"), 6);
    assert!(!s.known_failures.contains("f"));
}

#[test]
fn repeated_events_are_left_out() {
    let mut d = Debouncer::new();
    let w = EVENT_DEBOUNCE_NANOS;
    assert!(d.let_through(OutboxSide::Outbox, "m", RawEventKind::Remove, 0, w));
    assert!(!d.let_through(OutboxSide::Outbox, "m", RawEventKind::Remove, w - 1, w));
    assert!(d.let_through(OutboxSide::Failed, "m", RawEventKind::Remove, 1, w));
    assert!(d.let_through(OutboxSide::Outbox, "n", RawEventKind::Remove, 1, w));
    assert!(d.let_through(OutboxSide::Outbox, "m", RawEventKind::RenameFrom, 1, w));
    assert!(d.let_through(OutboxSide::Outbox, "m", RawEventKind::Remove, w, w));
    assert!(!d.let_through(OutboxSide::Outbox, "m", RawEventKind::Remove, 5, w));
}

#[test]
fn startup_goes_by_the_records() {
    let later = SidecarState {
        retry: Some(RetryState {
            attempts: 2,
            next_at: Some("1970-01-01T00:01:40Z".to_string()),
            last_error: None,
        }),
        ..SidecarState::default()
    };
    let broken = SidecarState {
        retry: Some(RetryState { attempts: 1, next_at: Some("soon".to_string()), last_error: None }),
        ..SidecarState::default()
    };
    let files = vec![
        ("a:2,S".to_string(), later),
        ("b".to_string(), broken),
        ("c".to_string(), SidecarState::default()),
    ];
    let q = startup_schedule(&files, 70, 5 * SEC);
    assert_eq!(q.due_at("a"), Some(35 * SEC));
    assert_eq!(q.due_at("b"), Some(5 * SEC));
    assert_eq!(q.due_at("c"), Some(5 * SEC));
}

#[test]
fn the_loop_does_one_thing_at_a_time() {
    let mut s = state();
    s.retry_queue.schedule("a".to_string(), 5);
    s.retry_queue.schedule("b".to_string(), 4);
    s.retry_queue.schedule("c".to_string(), 9);
    match loop_step(&mut s, LoopEvent::Due, 6) {
        LoopAction::Attempt(names) => assert_eq!(names, vec!["b", "a"]),
        other => panic!("unexpected {other:?}"),
    }
    assert_eq!(s.retry_queue.next_due(), Some(9));
    let ev = event(OutboxSide::Outbox, RawEventKind::CreateOrRenameTo, "d");
    assert!(matches!(
        loop_step(&mut s, LoopEvent::Changed(ev), 7),
        LoopAction::React(EventAction::Done)
    ));
    assert_eq!(s.retry_queue.next_due(), Some(7));
    assert!(matches!(loop_step(&mut s, LoopEvent::WatcherClosed, 8), LoopAction::Exit));
    assert!(matches!(loop_step(&mut s, LoopEvent::Cancelled, 8), LoopAction::Exit));
}
