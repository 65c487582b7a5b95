//! Listening to the server, and the accounts that do.

use jmapsyncd::config::{Account, Config, MailConfig, TokenSource};
use jmapsyncd::daemon::accounts::{
    daemon_verdict, database_name, selected_accounts, sync_verdict, RunError,
};
use jmapsyncd::daemon::listening::{
    is_local_change, poll_interval, watched_tree, Link, SseAction, SseEvent, SseState,
};
use jmapsyncd::daemon::outbox::WatchKind;
use jmapsyncd::daemon::span::Span;
use jmapsyncd::sync::email::EmailSyncStats;
use jmapsyncd::sync::{hook_after_sync, mail_root};

fn account(name: &str, enabled: bool, mail: bool) -> Account {
    Account {
        name: name.to_string(),
        enabled,
        jmap_host: "api.example.com".to_string(),
        token: TokenSource::Inline { jmap_token: String::new() },
        timeout_secs: 30,
        poll_interval_secs: 300,
        mail: if mail {
            Some(MailConfig {
                path: "/mail".to_string(),
                subscribed_only: true,
                box_filter: None,
                box_mapping: Vec::new(),
                post_sync_hook: Some("notmuch new".to_string()),
                watch_maildir: true,
            })
        } else {
            None
        },
        submit: None,
    }
}

fn delay(a: SseAction) -> (bool, Span) {
    match a {
        SseAction::BackOff { notice, delay } => (notice.is_some(), delay),
        other => panic!("unexpected {other:?}"),
    }
}

#[test]
fn loop_syncs_connects_and_resumes() {
    let mut s = SseState::new("personal", "api.example.com");
    assert!(matches!(
        s.step(SseEvent::Begin),
        SseAction::SyncAndConnect { resume_from: None }
    ));
    assert!(matches!(
        s.step(SseEvent::Connected { icon: "i".to_string() }),
        SseAction::Listen { notice: None }
    ));
    assert!(matches!(s.step(SseEvent::PollTick), SseAction::Sync));
    assert!(matches!(s.step(SseEvent::MaildirChanged), SseAction::Sync));
    assert!(matches!(
        s.step(SseEvent::StateChange { id: Some("7".to_string()) }),
        SseAction::Sync
    ));
    assert!(matches!(s.step(SseEvent::StateChange { id: None }), SseAction::Sync));
    assert!(matches!(s.step(SseEvent::Unrelated), SseAction::KeepListening));
    match s.step(SseEvent::StreamEnded) {
        SseAction::Pause(d) => assert_eq!(d, Span::from_secs(1)),
        other => panic!("unexpected {other:?}"),
    }
    match s.step(SseEvent::Begin) {
        SseAction::SyncAndConnect { resume_from } => assert_eq!(resume_from.as_deref(), Some("7")),
        other => panic!("unexpected {other:?}"),
    }
    assert!(matches!(s.step(SseEvent::Cancelled), SseAction::Exit));
}

#[test]
fn outage_is_told_once_and_waited_out() {
    let mut s = SseState::new("personal", "api.example.com");
    assert_eq!(delay(s.step(SseEvent::ConnectFailed)), (true, Span::from_secs(5)));
    assert!(s.is_down());
    assert_eq!(delay(s.step(SseEvent::ConnectFailed)), (false, Span::from_secs(10)));
    match s.step(SseEvent::Connected { icon: "i".to_string() }) {
        SseAction::Listen { notice } => {
            let n = notice.unwrap();
            assert_eq!(n.summary, "Personal eMail Up");
            assert_eq!(n.body, "Example server is reachable.");
            assert_eq!(n.icon, "i");
        }
        other => panic!("unexpected {other:?}"),
    }
    assert!(!s.is_down());
    assert_eq!(delay(s.step(SseEvent::StreamFailed)), (true, Span::from_secs(5)));
}

#[test]
fn link_waits_no_longer_than_five_minutes() {
    let mut l = Link::new("personal", "api.example.com");
    let waits: Vec<u64> = (0..8).map(|_| l.failed().1.as_secs()).collect();
    assert_eq!(waits, vec![5, 10, 20, 40, 80, 160, 300, 300]);
    assert!(l.is_down());
    assert!(l.recovered("i").is_some());
    assert!(l.recovered("i").is_none());
    assert_eq!(l.failed().1, Span::from_secs(5));
}

#[test]
fn timers_and_trees_are_optional() {
    let mut a = account("a", true, true);
    assert_eq!(poll_interval(&a), Some(Span::from_secs(300)));
    assert_eq!(watched_tree(&a).map(|s| s.as_str()), Some("/mail"));
    a.poll_interval_secs = 0;
    a.mail.as_mut().unwrap().watch_maildir = false;
    assert_eq!(poll_interval(&a), None);
    assert_eq!(watched_tree(&a), None);
    assert_eq!(watched_tree(&account("b", true, false)), None);
    assert!(is_local_change(WatchKind::Change));
    assert!(is_local_change(WatchKind::RenameOther));
    assert!(!is_local_change(WatchKind::Other));
}

#[test]
fn accounts_are_selected_by_name_and_switch() {
    let config = Config {
        accounts: vec![
            account("a", false, true),
            account("b", true, true),
            account("c", true, false),
            account("b", true, true),
        ],
    };
    assert_eq!(selected_accounts(&config, None), vec![1, 2, 3]);
    assert_eq!(selected_accounts(&config, Some("b")), vec![1, 3]);
    assert!(selected_accounts(&config, Some("a")).is_empty());
    assert_eq!(database_name("a"), "a.sqlite");
}

#[test]
fn runs_end_with_a_verdict() {
    let text = |r: Result<(), RunError>| r.unwrap_err().message();
    assert!(daemon_verdict(1).is_ok());
    assert_eq!(text(daemon_verdict(0)), "no accounts to run; enable at least one account in config");
    assert!(sync_verdict(None, 2, 0).is_ok());
    assert_eq!(text(sync_verdict(None, 0, 0)), "no enabled accounts to sync");
    assert_eq!(text(sync_verdict(Some("x"), 0, 3)), "no enabled account named \"x\"");
    assert_eq!(text(sync_verdict(Some("x"), 1, 1)), "1 account sync(s) failed");
    assert_eq!(text(sync_verdict(None, 30, 12)), "12 account sync(s) failed");
}

#[test]
fn hook_runs_after_a_change() {
    let a = account("a", true, true);
    let mut stats = EmailSyncStats::default();
    assert_eq!(hook_after_sync(&a, &stats, false), None);
    stats.moved = 1;
    assert_eq!(hook_after_sync(&a, &stats, false).map(|s| s.as_str()), Some("notmuch new"));
    assert_eq!(hook_after_sync(&a, &stats, true), None);
    assert_eq!(hook_after_sync(&account("b", true, false), &stats, false), None);
    assert_eq!(mail_root(&a).unwrap(), "/mail");
    assert_eq!(
        mail_root(&account("b", true, false)).unwrap_err(),
        "account \"b\" has no [accounts.mail] section; nothing to sync"
    );
}
