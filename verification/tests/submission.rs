//! Handing messages to the server.

use jmapsyncd::config::{ScheduledFolder, SubmitConfig};
use jmapsyncd::daemon::retry::{raw_delay_secs, RetrySchedule};
use jmapsyncd::daemon::sidecar::{
    envelope_validation_error, is_cut_off, reset_sidecar_for_retry, sidecar_basename,
    sidecar_file_name, stale_in_flight, Envelope, RetryState, SidecarState,
};
use jmapsyncd::daemon::submission::{
    check_schedule, find_mailbox_id_by_name, handle_submit_attempt, interpret_replies,
    prepare_submission, reconcile, reconcile_action, resubmit_outcome, AttemptStep, ContextError,
    Existing, Identity, JmapError, MethodError, MethodErrorType, ReconcileAction, ReconcileStep,
    Reply, SubmitContext, SubmitOutcome, Timestamp, Verdict,
};
use jmapsyncd::queue::message_id;
use jmapsyncd::sync::target::{Role, ServerMailbox};
use jmapsyncd::text::debug_strings;

fn method_error(kind: MethodErrorType) -> MethodError {
    MethodError { kind, text: "as it reads".to_string() }
}

#[test]
fn method_error_server_unavailable_is_transient() {
    let me = method_error(MethodErrorType::ServerUnavailable);
    assert!(matches!(
        SubmitOutcome::from_method_error(&me),
        SubmitOutcome::Transient(_)
    ));
}

#[test]
fn method_error_forbidden_is_permanent() {
    let me = method_error(MethodErrorType::Forbidden);
    assert!(matches!(
        SubmitOutcome::from_method_error(&me),
        SubmitOutcome::Permanent(_)
    ));
}

#[test]
fn method_error_account_read_only_is_permanent() {
    let me = method_error(MethodErrorType::AccountReadOnly);
    assert!(matches!(
        SubmitOutcome::from_method_error(&me),
        SubmitOutcome::Permanent(_)
    ));
}

fn transient(o: SubmitOutcome) -> String {
    match o {
        SubmitOutcome::Transient(s) => s,
        other => panic!("unexpected {other:?}"),
    }
}

fn permanent(o: SubmitOutcome) -> String {
    match o {
        SubmitOutcome::Permanent(s) => s,
        other => panic!("unexpected {other:?}"),
    }
}

#[test]
fn request_errors_are_told_apart() {
    let of = |e: JmapError| SubmitOutcome::from_jmap_error(&e);
    let transport = |code| JmapError::Transport { text: "oh".to_string(), code };
    assert_eq!(transient(of(transport(None))), "transport: oh");
    assert_eq!(transient(of(transport(Some(429)))), "transport: oh");
    assert_eq!(transient(of(transport(Some(500)))), "transport: oh");
    assert_eq!(permanent(of(transport(Some(404)))), "http 404: oh");
    let problem = |status, title: Option<&str>| JmapError::Problem {
        status,
        title: title.map(String::from),
    };
    assert_eq!(permanent(of(problem(Some(400), Some("a \"b\"")))), "problem status=400 title=\"a \\\"b\\\"\"");
    assert_eq!(permanent(of(problem(None, None))), "problem status=0 title=\"\"");
    assert_eq!(transient(of(problem(Some(503), None))), "problem status=503 title=\"\"");
    assert_eq!(transient(of(problem(Some(429), None))), "problem status=429 title=\"\"");
    assert_eq!(permanent(of(problem(Some(408), None))), "problem status=408 title=\"\"");
    assert_eq!(transient(of(JmapError::Server("x".to_string()))), "server: x");
    assert_eq!(permanent(of(JmapError::SetItem("x".to_string()))), "set: x");
    assert_eq!(transient(of(JmapError::Parse("x".to_string()))), "parse: x");
    assert_eq!(transient(of(JmapError::Internal("x".to_string()))), "internal: x");
    assert_eq!(transient(of(JmapError::WebSocket("x".to_string()))), "websocket: x");
    assert_eq!(
        transient(of(JmapError::Method(method_error(MethodErrorType::ServerPartialFail)))),
        "method as it reads"
    );
}

#[test]
fn envelope_valid_returns_none() {
    let env = Envelope {
        from: "a@b".to_string(),
        to: vec!["c@d".to_string()],
    };
    assert!(envelope_validation_error(&env).is_none());
}

#[test]
fn envelope_empty_from_returns_reason() {
    let env = Envelope {
        from: "".to_string(),
        to: vec!["c@d".to_string()],
    };
    let reason = envelope_validation_error(&env).expect("must reject");
    assert!(reason.contains("from"), "reason should name `from`: {reason}");
}

#[test]
fn envelope_whitespace_from_returns_reason() {
    let env = Envelope {
        from: "   \t\n".to_string(),
        to: vec!["c@d".to_string()],
    };
    let reason = envelope_validation_error(&env).expect("must reject");
    assert!(reason.contains("from"));
}

#[test]
fn envelope_empty_to_returns_reason() {
    let env = Envelope {
        from: "a@b".to_string(),
        to: vec![],
    };
    let reason = envelope_validation_error(&env).expect("must reject");
    assert!(reason.contains("to"), "reason should name `to`: {reason}");
}

#[test]
fn envelope_all_whitespace_to_returns_reason() {
    // A list of blank recipients is as good as empty.
    let env = Envelope {
        from: "a@b".to_string(),
        to: vec!["".to_string(), "  ".to_string(), "\t".to_string()],
    };
    let reason = envelope_validation_error(&env).expect("must reject");
    assert!(reason.contains("to"));
}

#[test]
fn envelope_partial_whitespace_to_passes() {
    let env = Envelope {
        from: "a@b".to_string(),
        to: vec!["".to_string(), "c@d".to_string()],
    };
    assert!(envelope_validation_error(&env).is_none());
}

#[test]
fn envelope_default_construction_is_rejected() {
    let env = Envelope::default();
    assert!(envelope_validation_error(&env).is_some());
}

fn sent() -> String {
    "MSENT01".to_string()
}

fn drafts() -> String {
    "MDRFT01".to_string()
}

fn at(secs: i64) -> Option<Timestamp> {
    chrono::DateTime::<chrono::Utc>::from_timestamp(secs, 0).map(|t| Timestamp {
        secs: t.timestamp(),
        nanos: t.timestamp_subsec_nanos(),
    })
}

#[test]
fn reconcile_email_in_sent_is_already_done() {
    let action = reconcile_action(&[sent()], &["ES-pending".into()], &sent(), None);
    assert_eq!(action, ReconcileAction::AlreadyDone);
}

#[test]
fn reconcile_email_in_both_sent_and_drafts_still_already_done() {
    let action = reconcile_action(&[drafts(), sent()], &[], &sent(), None);
    assert_eq!(action, ReconcileAction::AlreadyDone);
}

#[test]
fn reconcile_drafts_with_pending_cancels_and_resubmits() {
    let ts = at(1_800_000_000);
    let action = reconcile_action(
        &[drafts()],
        &["ES-old-1".into(), "ES-old-2".into()],
        &sent(),
        ts,
    );
    assert_eq!(
        action,
        ReconcileAction::CancelAndResubmit {
            destroy_ids: vec!["ES-old-1".into(), "ES-old-2".into()],
            send_at: ts,
        }
    );
}

#[test]
fn reconcile_drafts_no_pending_creates_new_submission() {
    let action = reconcile_action(&[drafts()], &[], &sent(), None);
    assert_eq!(action, ReconcileAction::CreateSubmission { send_at: None });
}

#[test]
fn reconcile_passes_send_at_through_unchanged() {
    let ts = at(1_900_000_000);
    let action = reconcile_action(&[drafts()], &[], &sent(), ts);
    assert_eq!(action, ReconcileAction::CreateSubmission { send_at: ts });
}

#[test]
fn reconcile_no_mailbox_membership_still_creates_submission() {
    let action = reconcile_action(&[], &[], &sent(), None);
    assert_eq!(action, ReconcileAction::CreateSubmission { send_at: None });
}

fn mailbox(id: Option<&str>, name: &str, role: Role) -> ServerMailbox {
    ServerMailbox {
        id: id.map(String::from),
        name: Some(name.to_string()),
        parent_id: None,
        role,
        sort_order: 0,
        is_subscribed: true,
    }
}

fn mailboxes() -> Vec<ServerMailbox> {
    vec![
        mailbox(Some("m-in"), "Inbox", Role::Inbox),
        mailbox(Some("m-dr"), "Drafts", Role::Drafts),
        mailbox(Some("m-se"), "Sent", Role::Sent),
        mailbox(Some("m-sc"), "SCHEDULED", Role::Unset),
        mailbox(Some("m-la"), "Later", Role::Unset),
    ]
}

fn config(scheduled_folder: ScheduledFolder) -> SubmitConfig {
    SubmitConfig {
        from_address: "Me@Example.com".to_string(),
        identity_id: None,
        scheduled_folder,
        retry_base_secs: 30,
        retry_cap_secs: 7200,
    }
}

fn identity(id: &str, email: Option<&str>) -> Identity {
    Identity { id: Some(id.to_string()), email: email.map(String::from) }
}

fn identities() -> Vec<Identity> {
    vec![
        identity("i-0", None),
        identity("i-1", Some("other@example.com")),
        identity("i-2", Some("me@example.com")),
        identity("i-3", Some("me@example.com")),
    ]
}

fn context(folder: ScheduledFolder) -> SubmitContext {
    SubmitContext::resolve("acc".to_string(), &config(folder), &identities(), &mailboxes()).unwrap()
}

#[test]
fn context_is_resolved_once() {
    let c = context(ScheduledFolder::Auto);
    assert_eq!(c.account_id, "acc");
    assert_eq!(c.identity_id, "i-2");
    assert_eq!(c.drafts_id, "m-dr");
    assert_eq!(c.sent_id, "m-se");
    assert_eq!(c.scheduled_file_target_id.as_deref(), Some("m-sc"));
    assert_eq!(c.file_target_id(true), "m-sc");
    assert_eq!(c.file_target_id(false), "m-se");
    let c = context(ScheduledFolder::Sent);
    assert_eq!(c.file_target_id(true), "m-se");
    let c = context(ScheduledFolder::Named("later".to_string()));
    assert_eq!(c.file_target_id(true), "m-la");
    let c = context(ScheduledFolder::Named("nowhere".to_string()));
    assert_eq!(c.file_target_id(true), "m-se");
    let mut cfg = config(ScheduledFolder::Sent);
    cfg.identity_id = Some("mine".to_string());
    let c = SubmitContext::resolve(String::new(), &cfg, &Vec::new(), &mailboxes()).unwrap();
    assert_eq!(c.identity_id, "mine");
}

#[test]
fn context_may_be_missing_something() {
    let cfg = config(ScheduledFolder::Auto);
    let text = |identities: Vec<Identity>, mailboxes: Vec<ServerMailbox>| {
        SubmitContext::resolve(String::new(), &cfg, &identities, &mailboxes).unwrap_err()
    };
    let err = text(Vec::new(), Vec::new());
    assert!(matches!(err, ContextError::NoIdentity(_)));
    assert_eq!(
        err.message(),
        "no JMAP Identity matches from_address \"Me@Example.com\" — check `pass show` picks up the right account, and that the identity exists in Fastmail's Settings → Sending identities"
    );
    assert_eq!(
        text(identities(), Vec::new()).message(),
        "no Drafts mailbox (role=drafts) on the account — send path cannot start"
    );
    assert_eq!(
        text(identities(), vec![mailbox(Some("d"), "D", Role::Drafts)]).message(),
        "no Sent mailbox (role=sent) on the account — send path cannot start"
    );
    // The first match counts, even without an identifier.
    let odd = vec![mailbox(None, "x", Role::Unset), mailbox(Some("y"), "X", Role::Unset)];
    assert_eq!(find_mailbox_id_by_name(&odd, "X"), None);
}

fn queued(send_at: Option<&str>) -> SidecarState {
    SidecarState {
        envelope: Envelope { from: "a@b".to_string(), to: vec!["c@d".to_string()] },
        send_at: send_at.map(String::from),
        submitted_at: "2026-08-01T08:59:00Z".to_string(),
        account: "personal".to_string(),
        retry: None,
        in_flight: Some("2026-08-01T09:05:00Z".to_string()),
    }
}

#[test]
fn submission_files_the_message() {
    let ctx = context(ScheduledFolder::Auto);
    let s = prepare_submission(&ctx, &queued(None)).unwrap();
    assert_eq!(s.import_mailboxes, vec!["m-dr"]);
    assert_eq!(s.import_keywords, vec!["$draft"]);
    assert_eq!(s.identity_id, "i-2");
    assert_eq!(s.from, "a@b");
    assert_eq!(s.to, vec!["c@d"]);
    assert_eq!(s.send_at, None);
    assert_eq!(
        s.mailbox_changes,
        vec![("m-dr".to_string(), false), ("m-se".to_string(), true)]
    );
    assert_eq!(
        s.keyword_changes,
        vec![("$draft".to_string(), false), ("$seen".to_string(), true)]
    );
    let s = prepare_submission(&ctx, &queued(Some("2027-01-15T08:00:00.5Z"))).unwrap();
    assert_eq!(s.send_at, Some(Timestamp { secs: 1_800_000_000, nanos: 500_000_000 }));
    assert_eq!(s.mailbox_changes[1], ("m-sc".to_string(), true));
}

#[test]
fn submission_is_refused_before_the_wire() {
    let ctx = context(ScheduledFolder::Auto);
    let reason = permanent(prepare_submission(&ctx, &SidecarState::default()).unwrap_err());
    assert_eq!(reason, "sidecar envelope missing `from`");
    let reason = permanent(prepare_submission(&ctx, &queued(Some("soon"))).unwrap_err());
    assert!(
        reason.starts_with("sidecar send_at \"soon\" not a valid RFC3339 timestamp: "),
        "{reason}"
    );
    let reason = permanent(check_schedule("s", Err("why".to_string())).unwrap_err());
    assert_eq!(reason, "sidecar send_at \"s\" not a valid RFC3339 timestamp: why");
    assert_eq!(check_schedule("s", Ok((3, 4))).unwrap(), Timestamp { secs: 3, nanos: 4 });
}

fn imported() -> Reply {
    Reply::Import {
        not_created: vec![],
        fault: None,
        exists: false,
        created: vec!["i0".to_string()],
    }
}

fn submitted() -> Reply {
    Reply::Submission { fault: None, has_created: true }
}

fn outcome(replies: &Vec<Reply>) -> SubmitOutcome {
    match interpret_replies(replies) {
        Verdict::Ended(o) => o,
        other => panic!("unexpected {other:?}"),
    }
}

#[test]
fn first_bad_answer_decides() {
    assert!(matches!(
        outcome(&vec![imported(), submitted(), Reply::Other]),
        SubmitOutcome::Success
    ));
    assert!(matches!(outcome(&vec![]), SubmitOutcome::Success));
    let refused = |fault: Option<&str>| Reply::Import {
        not_created: vec!["i0".to_string()],
        fault: fault.map(String::from),
        exists: false,
        created: vec!["i1".to_string()],
    };
    assert_eq!(
        permanent(outcome(&vec![refused(Some("tooLarge")), submitted()])),
        "Email/import: tooLarge"
    );
    assert_eq!(
        permanent(outcome(&vec![refused(None)])),
        "Email/import not_created: [\"i0\"]"
    );
    let nothing = Reply::Import { not_created: vec![], fault: None, exists: false, created: vec![] };
    assert_eq!(
        permanent(outcome(&vec![nothing])),
        "Email/import returned no created entry"
    );
    let fault = Reply::Submission { fault: Some("forbiddenFrom".to_string()), has_created: true };
    assert_eq!(
        permanent(outcome(&vec![imported(), fault])),
        "EmailSubmission/set: forbiddenFrom"
    );
    let none = Reply::Submission { fault: None, has_created: false };
    assert_eq!(
        permanent(outcome(&vec![imported(), none])),
        "EmailSubmission/set returned no created entry"
    );
    assert_eq!(
        transient(outcome(&vec![
            Reply::Error(method_error(MethodErrorType::ServerFail)),
            Reply::Error(method_error(MethodErrorType::Forbidden)),
        ])),
        "method as it reads"
    );
}

fn there_already() -> Reply {
    Reply::Import {
        not_created: vec!["i0".to_string()],
        fault: Some("alreadyExists".to_string()),
        exists: true,
        created: vec![],
    }
}

fn existing(mailboxes: &[&str], pending: &[&str]) -> Option<Existing> {
    Some(Existing {
        email_id: "M1".to_string(),
        mailbox_ids: mailboxes.iter().map(|s| s.to_string()).collect(),
        pending_ids: pending.iter().map(|s| s.to_string()).collect(),
    })
}

#[test]
fn message_that_is_there_is_looked_into() {
    // What the server says of sending it does not matter then.
    let lost = Reply::Submission { fault: Some("emailNotFound".to_string()), has_created: false };
    let reason = match interpret_replies(&vec![there_already(), lost]) {
        Verdict::Exists(reason) => reason,
        other => panic!("unexpected {other:?}"),
    };
    assert_eq!(reason, "Email/import: alreadyExists");

    let ctx = context(ScheduledFolder::Auto);
    let mut sc = queued(None);
    sc.send_at = Some("2030-01-01T00:00:00Z".to_string());
    let plan = prepare_submission(&ctx, &sc).unwrap();
    let step = |found| reconcile(reason.clone(), found, &ctx, &plan);
    assert!(matches!(
        step(existing(&["m-dr", "m-se"], &["S1"])),
        ReconcileStep::Done(SubmitOutcome::Success)
    ));
    match step(existing(&["m-dr"], &["S1", "S2"])) {
        ReconcileStep::Resubmit { email_id, cancel_ids, send_at } => {
            assert_eq!(email_id, "M1");
            assert_eq!(cancel_ids, vec!["S1", "S2"]);
            assert_eq!(send_at, plan.send_at);
            assert!(send_at.is_some());
        }
        other => panic!("unexpected {other:?}"),
    }
    match step(existing(&["m-dr"], &[])) {
        ReconcileStep::Resubmit { cancel_ids, .. } => assert!(cancel_ids.is_empty()),
        other => panic!("unexpected {other:?}"),
    }
    match step(None) {
        ReconcileStep::Done(o) => assert_eq!(permanent(o), reason),
        other => panic!("unexpected {other:?}"),
    }
}

#[test]
fn second_request_ends_the_attempt() {
    let taken_back = Reply::Cancelled { fault: None };
    let sent = interpret_replies(&vec![taken_back, submitted()]);
    assert!(matches!(resubmit_outcome(sent), SubmitOutcome::Success));
    let stuck = Reply::Cancelled { fault: Some("cannotUnsend".to_string()) };
    let verdict = interpret_replies(&vec![stuck, submitted()]);
    assert_eq!(permanent(resubmit_outcome(verdict)), "EmailSubmission/set: cannotUnsend");
    let verdict = interpret_replies(&vec![there_already()]);
    assert_eq!(permanent(resubmit_outcome(verdict)), "Email/import: alreadyExists");
}

#[test]
fn message_id_is_read() {
    assert_eq!(
        message_id(b"From: a@b\r\nMESSAGE-ID: <1@x>\r\n\r\nMessage-ID: <2@x>"),
        Some("<1@x>".to_string())
    );
    assert_eq!(message_id(b"From: a@b\r\n\r\nMessage-ID: <2@x>"), None);
}

#[test]
fn failures_that_may_pass_are_repeated() {
    let mut queue = RetrySchedule::new();
    let cfg = config(ScheduledFolder::Auto);
    let mut sc = queued(None);
    sc.retry = Some(RetryState { attempts: 1, next_at: None, last_error: None });
    let step = handle_submit_attempt(
        &mut queue,
        "m1",
        SubmitOutcome::Transient("oh".to_string()),
        sc,
        &cfg,
        1_800_000_000,
        500_000_000,
        7,
    );
    assert_eq!(queue.due_at("m1"), Some(60_000_000_007));
    match step {
        AttemptStep::Keep(sc) => {
            let r = sc.retry.unwrap();
            assert_eq!(r.attempts, 2);
            assert_eq!(r.next_at_epoch_secs(), Some(1_800_000_060));
            assert_eq!(r.next_at.as_deref(), Some("2027-01-15T08:01:00Z"));
            assert_eq!(r.last_error.as_deref(), Some("oh"));
            assert!(sc.in_flight.is_none());
            assert_eq!(sc.envelope.from, "a@b");
        }
        other => panic!("unexpected {other:?}"),
    }
}

#[test]
fn attempts_do_not_run_over() {
    let mut queue = RetrySchedule::new();
    let cfg = config(ScheduledFolder::Auto);
    let mut sc = queued(None);
    sc.retry = Some(RetryState { attempts: u32::MAX, next_at: None, last_error: None });
    let step = handle_submit_attempt(
        &mut queue,
        "m1",
        SubmitOutcome::Transient("oh".to_string()),
        sc,
        &cfg,
        u64::MAX,
        500_000_000,
        0,
    );
    assert_eq!(queue.due_at("m1"), Some(7_200_000_000_000));
    match step {
        AttemptStep::Keep(sc) => assert_eq!(sc.retry.unwrap().attempts, u32::MAX),
        other => panic!("unexpected {other:?}"),
    }
    assert_eq!(raw_delay_secs(u32::MAX, u64::MAX, 7200), 7200);
    assert_eq!(raw_delay_secs(3, 30, 7200), 120);
}

#[test]
fn other_ends_leave_the_schedule_alone() {
    let mut queue = RetrySchedule::new();
    let cfg = config(ScheduledFolder::Auto);
    let end = |queue: &mut RetrySchedule, outcome| {
        handle_submit_attempt(queue, "m1", outcome, queued(None), &cfg, 0, 0, 0)
    };
    assert!(matches!(end(&mut queue, SubmitOutcome::Success), AttemptStep::Forget));
    assert_eq!(queue.next_due(), None);
    match end(&mut queue, SubmitOutcome::Permanent("no".to_string())) {
        AttemptStep::GiveUp { reason, ulid } => {
            assert_eq!(reason, "no");
            assert_eq!(ulid.len(), 26);
        }
        other => panic!("unexpected {other:?}"),
    }
    assert_eq!(queue.next_due(), None);
}

#[test]
fn records_are_marked_and_reset() {
    let mut sc = queued(Some("2026-08-01T09:00:00Z"));
    sc.mark_in_flight("now".to_string());
    assert_eq!(sc.in_flight.as_deref(), Some("now"));
    assert_eq!(
        sc.format_log(),
        "from=a@b to=[\"c@d\"] send_at=2026-08-01T09:00:00Z in_flight=now"
    );
    sc.retry = Some(RetryState { attempts: 3, next_at: None, last_error: None });
    assert!(sc.format_log().contains(" retry attempts=3 next_at=<unset>"));
    reset_sidecar_for_retry(&mut sc);
    assert!(sc.retry.is_none() && sc.in_flight.is_none());
    assert_eq!(sc.format_log(), "from=a@b to=[\"c@d\"] send_at=2026-08-01T09:00:00Z");
}

#[test]
fn attempts_that_were_cut_off_are_seen() {
    let sc = queued(None);
    let began = 1_785_575_100;
    assert!(!stale_in_flight(&sc, Some(began + 59)));
    assert!(stale_in_flight(&sc, Some(began + 60)));
    assert!(stale_in_flight(&sc, Some(began - 1)));
    assert!(stale_in_flight(&sc, None));
    let mut odd = queued(None);
    odd.in_flight = Some("?".to_string());
    assert!(stale_in_flight(&odd, Some(began)));
    assert!(!stale_in_flight(&SidecarState::default(), None));
    assert!(is_cut_off(None, Some(1)));
}

#[test]
fn record_names_lead_back() {
    assert_eq!(sidecar_basename(&sidecar_file_name("m1")).as_deref(), Some("m1"));
    assert_eq!(sidecar_basename("m1.json.json").as_deref(), Some("m1"));
    assert_eq!(sidecar_basename(".m1.json"), None);
    assert_eq!(sidecar_basename("m1.txt"), None);
}

#[test]
fn lists_are_shown_as_rust_shows_them() {
    for list in [vec![], vec!["a"], vec!["a", "b \"c\"", "\n"]] {
        let list: Vec<String> = list.iter().map(|s| s.to_string()).collect();
        assert_eq!(debug_strings(&list), format!("{list:?}"));
    }
}
