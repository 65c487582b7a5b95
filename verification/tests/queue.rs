//! Queueing: the header, the account, the sending time, and what goes out.

use jmapsyncd::config::{Account, Config, MailConfig, ScheduledFolder, SubmitConfig, TokenSource};
use jmapsyncd::queue::{
    bare_address, check_message, check_send_at, extract_headers, fresh_maildir_filename,
    line_starts_with_header, maildir_filename, normalize_send_at, pick_account, prepare,
    strip_header_case_insensitive, QueueArgs, QueueError,
};

fn account(name: &str, submit: Option<&str>, mail: Option<&str>) -> Account {
    Account {
        name: name.to_string(),
        enabled: true,
        jmap_host: "api.example.com".to_string(),
        token: TokenSource::Inline { jmap_token: "SECRET-REDACTED".to_string() },
        timeout_secs: 30,
        poll_interval_secs: 300,
        mail: mail.map(|path| MailConfig {
            path: path.to_string(),
            subscribed_only: true,
            box_filter: None,
            box_mapping: Vec::new(),
            post_sync_hook: None,
            watch_maildir: false,
        }),
        submit: submit.map(|address| SubmitConfig {
            from_address: address.to_string(),
            identity_id: None,
            scheduled_folder: ScheduledFolder::Auto,
            retry_base_secs: 30,
            retry_cap_secs: 7200,
        }),
    }
}

fn config() -> Config {
    Config {
        accounts: vec![
            account("reader", None, Some("/mail/reader")),
            account("personal", Some("Alice@Example.com"), Some("/mail/personal")),
            account("nowhere", Some("bob@example.com"), None),
        ],
    }
}

fn args() -> QueueArgs {
    QueueArgs {
        from: None,
        send_at: None,
        account: None,
        recipients: vec!["carol@example.com".to_string()],
    }
}

#[test]
fn bare_address_display_name() {
    assert_eq!(
        bare_address("\"Alice Example\" <alice@example.com>"),
        "alice@example.com"
    );
}

#[test]
fn bare_address_no_display_name() {
    assert_eq!(bare_address("bob@example.com"), "bob@example.com");
}

#[test]
fn bare_address_trims_whitespace() {
    assert_eq!(bare_address("  bob@example.com  "), "bob@example.com");
}

#[test]
fn bare_address_multiple_angles_uses_last_close() {
    // A display name with '>' in it: the last close bracket counts.
    assert_eq!(bare_address("\"a > b\" <c@d>"), "c@d");
}

#[test]
fn bare_address_with_brackets_the_wrong_way_round() {
    assert_eq!(bare_address(" > x < "), "> x <");
}

#[test]
fn normalize_send_at_none_forms() {
    assert!(matches!(normalize_send_at("").unwrap(), None));
    assert!(matches!(normalize_send_at("send-now").unwrap(), None));
    assert!(matches!(normalize_send_at("SEND-NOW").unwrap(), None));
    assert!(matches!(normalize_send_at("  send-now  ").unwrap(), None));
}

#[test]
fn normalize_send_at_rfc3339() {
    assert_eq!(
        normalize_send_at("2026-08-01T09:00:00-07:00").unwrap().as_deref(),
        Some("2026-08-01T09:00:00-07:00")
    );
    assert_eq!(
        normalize_send_at("2026-08-01T09:00:00Z").unwrap().as_deref(),
        Some("2026-08-01T09:00:00Z")
    );
}

#[test]
fn normalize_send_at_rejects_garbage() {
    assert!(normalize_send_at("not-a-date").is_err());
    assert!(normalize_send_at("2026-08-01").is_err()); // date-only, no time
}

#[test]
fn bad_send_at_names_the_value() {
    let err = normalize_send_at("  tomorrow ").unwrap_err();
    let text = err.message();
    assert!(text.starts_with("invalid --send-at / X-JMAP-Send-At value \"tomorrow\""), "{text}");
    match err {
        QueueError::BadSendAt { value, .. } => assert_eq!(value, "tomorrow"),
        other => panic!("unexpected {other:?}"),
    }
}

#[test]
fn check_send_at_follows_the_parser() {
    let ok = check_send_at("x".to_string(), Ok((5, 0))).unwrap();
    assert_eq!(ok.as_deref(), Some("x"));
    let err = check_send_at("x".to_string(), Err("why".to_string())).unwrap_err();
    assert!(err.message().ends_with(": why"));
}

#[test]
fn line_starts_with_header_exact_case_insensitive() {
    assert!(line_starts_with_header(b"X-JMAP-Send-At: 2026-01-01\n", "x-jmap-send-at"));
    assert!(line_starts_with_header(b"x-jmap-send-at:foo\n", "x-jmap-send-at"));
    assert!(line_starts_with_header(b"X-JMAP-SEND-AT:foo\n", "x-jmap-send-at"));
}

#[test]
fn line_starts_with_header_rejects_prefix_match() {
    // "X-JMAP-Send-At-Extra:" must NOT match "x-jmap-send-at".
    assert!(!line_starts_with_header(
        b"X-JMAP-Send-At-Extra: v\n",
        "x-jmap-send-at"
    ));
}

#[test]
fn line_starts_with_header_no_colon_no_match() {
    assert!(!line_starts_with_header(b"body line\n", "x-jmap-send-at"));
}

#[test]
fn strip_header_drops_target_line() {
    let raw = b"From: a@b\nSubject: hi\nX-JMAP-Send-At: send-now\n\nbody\n";
    let out = strip_header_case_insensitive(raw, "x-jmap-send-at");
    let s = std::str::from_utf8(&out).unwrap();
    assert!(!s.contains("X-JMAP-Send-At"));
    assert!(s.contains("From: a@b"));
    assert!(s.contains("Subject: hi"));
    assert!(s.contains("body"));
}

#[test]
fn strip_header_drops_folded_continuation_lines() {
    let raw = b"From: a@b\nX-JMAP-Send-At: 2026-08-01\n T09:00:00Z\n\tstill folded\nSubject: hi\n\nbody\n";
    let out = strip_header_case_insensitive(raw, "x-jmap-send-at");
    let s = std::str::from_utf8(&out).unwrap();
    assert!(!s.contains("X-JMAP-Send-At"));
    assert!(!s.contains("T09:00:00Z"));
    assert!(!s.contains("still folded"));
    assert!(s.contains("From: a@b"));
    assert!(s.contains("Subject: hi"));
    assert!(s.contains("body"));
}

#[test]
fn strip_header_preserves_crlf_line_endings() {
    let raw = b"From: a@b\r\nX-JMAP-Send-At: send-now\r\nSubject: hi\r\n\r\nbody\r\n";
    let out = strip_header_case_insensitive(raw, "x-jmap-send-at");
    let s = std::str::from_utf8(&out).unwrap();
    assert!(!s.contains("X-JMAP-Send-At"));
    assert!(s.contains("From: a@b\r\n"));
    assert!(s.contains("Subject: hi\r\n"));
}

#[test]
fn strip_header_no_match_returns_input_verbatim() {
    let raw = b"From: a@b\nSubject: hi\n\nbody\n";
    let out = strip_header_case_insensitive(raw, "x-jmap-send-at");
    assert_eq!(out, raw);
}

#[test]
fn strip_header_only_first_matching_line() {
    // If someone sends TWO X-JMAP-Send-At headers, both go.
    let raw = b"From: a@b\nX-JMAP-Send-At: 1\nX-JMAP-Send-At: 2\nSubject: hi\n\nbody\n";
    let out = strip_header_case_insensitive(raw, "x-jmap-send-at");
    let s = std::str::from_utf8(&out).unwrap();
    assert!(!s.contains("X-JMAP-Send-At"));
    assert!(s.contains("Subject: hi"));
}

#[test]
fn strip_header_leaves_the_body_alone() {
    let raw = b"From: a@b\n\nX-JMAP-Send-At: in the body\n";
    assert_eq!(strip_header_case_insensitive(raw, "x-jmap-send-at"), raw);
}

#[test]
fn maildir_filename_shape() {
    let name = maildir_filename(1_700_000_000, 4242, "01H0000000000000000000000000", Some("host"));
    // <epoch>.jmq<pid>_<ulid>.<host>
    assert!(name.contains(".jmq"));
    assert!(name.contains("_01H0000000000000000000000000."));
    // Rough shape check: at least 2 dots.
    assert!(name.matches('.').count() >= 2);
    assert_eq!(name, "1700000000.jmq4242_01H0000000000000000000000000.host");
}

#[test]
fn maildir_filename_without_a_host() {
    assert_eq!(maildir_filename(0, 7, "U", None), "0.jmq7_U.localhost");
}

#[test]
fn fresh_names_differ() {
    let a = fresh_maildir_filename(5, 6, Some("h"));
    let b = fresh_maildir_filename(5, 6, Some("h"));
    assert_ne!(a, b);
    assert!(a.starts_with("5.jmq6_"));
    assert!(a.ends_with(".h"));
    assert_eq!(a.len(), "5.jmq6_".len() + 26 + ".h".len());
}

#[test]
fn extract_headers_finds_from_and_send_at() {
    let raw = b"From: \"Alice\" <alice@example.com>\r\nX-JMAP-Send-At: send-now\r\nSubject: hi\r\n\r\nbody\r\n";
    let (from, send_at) = extract_headers(raw).unwrap();
    assert_eq!(from.as_deref(), Some("alice@example.com"));
    assert_eq!(send_at.as_deref(), Some("send-now"));
}

#[test]
fn extract_headers_missing_from_returns_none() {
    let raw = b"Subject: hi\r\n\r\nbody\r\n";
    let (from, send_at) = extract_headers(raw).unwrap();
    assert!(from.is_none());
    assert!(send_at.is_none());
}

#[test]
fn extract_headers_decodes_the_value() {
    let raw = b"From: =?utf-8?q?Zo=C3=AB?= <zoe@example.com>\r\n\r\n";
    assert_eq!(extract_headers(raw).unwrap().0.as_deref(), Some("zoe@example.com"));
}

#[test]
fn broken_header_is_an_error() {
    let err = extract_headers(b"From: a@b\n\rSubject: x\n\n").unwrap_err();
    assert!(matches!(err, QueueError::BadHeaders(_)), "{err:?}");
    assert!(err.message().starts_with("parsing message headers: "));
}

#[test]
fn account_follows_the_sender_whatever_the_case() {
    let cfg = config();
    assert_eq!(pick_account(&cfg, None, "alice@example.com").unwrap().name, "personal");
    assert_eq!(pick_account(&cfg, Some("reader"), "alice@example.com").unwrap().name, "reader");
}

#[test]
fn unknown_accounts_are_errors() {
    let cfg = config();
    let err = pick_account(&cfg, Some("ghost"), "alice@example.com").unwrap_err();
    assert_eq!(err.message(), "--account \"ghost\" not found in config");
    let err = pick_account(&cfg, None, "eve@example.com").unwrap_err();
    assert_eq!(
        err.message(),
        "no account whose [accounts.submit].from_address matches From: \"eve@example.com\" (use --account to override)"
    );
}

#[test]
fn nothing_to_queue_is_an_error() {
    let none: Vec<String> = Vec::new();
    assert_eq!(
        check_message(&none, b"x").unwrap_err().message(),
        "no recipient(s) on the command line"
    );
    assert_eq!(
        check_message(&args().recipients, b"").unwrap_err().message(),
        "empty message on stdin"
    );
    assert!(check_message(&args().recipients, b"x").is_ok());
}

#[test]
fn prepared_message_is_routed_and_stripped() {
    let raw = b"From: Alice <alice@example.com>\nX-JMAP-Send-At: 2026-08-01T09:00:00Z\nSubject: hi\n\nbody\n";
    let p = prepare(&args(), raw, &config(), "2026-07-01T00:00:00Z").unwrap();
    assert_eq!(p.mail_root, "/mail/personal");
    assert_eq!(p.outbound, b"From: Alice <alice@example.com>\nSubject: hi\n\nbody\n");
    assert_eq!(p.sidecar.envelope.from, "alice@example.com");
    assert_eq!(p.sidecar.envelope.to, vec!["carol@example.com".to_string()]);
    assert_eq!(p.sidecar.send_at.as_deref(), Some("2026-08-01T09:00:00Z"));
    assert_eq!(p.sidecar.submitted_at, "2026-07-01T00:00:00Z");
    assert_eq!(p.sidecar.account, "personal");
    assert_eq!(p.sidecar.retry.unwrap().attempts, 0);
    assert!(p.sidecar.in_flight.is_none());
}

#[test]
fn options_come_before_the_header() {
    let raw = b"From: eve@example.com\nX-JMAP-Send-At: garbage\n\nbody\n";
    let mut a = args();
    a.from = Some("alice@example.com".to_string());
    a.send_at = Some("send-now".to_string());
    let p = prepare(&a, raw, &config(), "now").unwrap();
    assert_eq!(p.sidecar.envelope.from, "alice@example.com");
    assert!(p.sidecar.send_at.is_none());
}

#[test]
fn every_refusal_says_why() {
    let cfg = config();
    let no_from = prepare(&args(), b"Subject: x\n\nb", &cfg, "now").unwrap_err();
    assert_eq!(no_from.message(), "no From: header in message and no -f override provided");
    let mut a = args();
    a.account = Some("reader".to_string());
    let no_submit = prepare(&a, b"From: a@b\n\nb", &cfg, "now").unwrap_err();
    assert_eq!(
        no_submit.message(),
        "account \"reader\" has no [accounts.submit] block; jmapqueue refuses to route mail through a receive-only account"
    );
    let no_mail = prepare(&args(), b"From: bob@example.com\n\nb", &cfg, "now").unwrap_err();
    assert_eq!(
        no_mail.message(),
        "account \"nowhere\" has no [accounts.mail] block; nowhere to write Outbox"
    );
    let bad = prepare(
        &args(),
        b"From: alice@example.com\nX-JMAP-Send-At: soon\n\nb",
        &cfg,
        "now",
    );
    assert!(matches!(bad.unwrap_err(), QueueError::BadSendAt { .. }));
}
