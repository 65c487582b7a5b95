//! Syncing: mailboxes and messages.

use jmapsyncd::config::{BoxMapping, MailConfig};
use jmapsyncd::keyed::Keyed;
use jmapsyncd::sync::effects::{create_mailbox_effects, Effect};
use jmapsyncd::sync::email::{
    apply_email, collect_ids, hydration_chunks, hydration_order, insert_memberships,
    memberships_differ, move_email, next_page, pick_primary_mailbox, reconcile_memberships,
    role_rank, serialize_keywords, update_email_in_place, vanished_emails, EmailAction,
    EmailSyncStats, Placement, ServerEmail,
};
use jmapsyncd::sync::mailbox::{
    apply_diff, by_jmap_id, create_mailbox, diff_and_build_update, topo_sort_creates_and_updates,
    update_mailbox, DiffStep, DirectoryStep, MailboxSyncStats,
};
use jmapsyncd::sync::maildir::{
    build_message_path, current_flags_from_path, extract_uuid, keywords_to_flag_string,
    message_basename, new_uuid_string, rebuild_path_with_flags,
};
use jmapsyncd::sync::rows::{EmailMailboxRow, EmailRow, MailboxRow};
use jmapsyncd::sync::target::{
    build_target_set, resolve_path, role_to_str, sanitize_segment, Role, ServerMailbox,
    TargetError, TargetMailbox,
};
use jmapsyncd::sync::SyncStats;

fn strings(v: &[&str]) -> Vec<String> {
    v.iter().map(|s| s.to_string()).collect()
}

fn mb(id: &str, role: Option<&str>, sort_order: i64, name: &str) -> MailboxRow {
    MailboxRow {
        id: id.to_string(),
        jmap_id: Some(format!("j-{id}")),
        name: name.to_string(),
        parent_id: None,
        role: role.map(String::from),
        sort_order: Some(sort_order),
        path: name.to_string(),
        jmap_state: None,
    }
}

fn build_map(mbs: &Vec<MailboxRow>) -> Keyed<MailboxRow> {
    by_jmap_id(mbs)
}

fn email_row(id: &str, path: &str, primary: &str, keywords: &str) -> EmailRow {
    EmailRow {
        id: id.to_string(),
        jmap_id: Some(format!("j-{id}")),
        message_id: None,
        file_path: path.to_string(),
        primary_mailbox: primary.to_string(),
        keywords: Some(keywords.to_string()),
        jmap_state: None,
        size: Some(4),
        last_sync: None,
        is_dirty: false,
    }
}

fn server_email(id: &str, mailboxes: &[&str], keywords: &[&str]) -> ServerEmail {
    ServerEmail {
        id: Some(id.to_string()),
        blob_id: Some(format!("b-{id}")),
        mailbox_ids: strings(mailboxes),
        keywords: strings(keywords),
        size: 512,
        received_at: Some(1_768_473_000),
        message_ids: strings(&["<m@example.com>"]),
    }
}

fn target(id: &str, name: &str, parent: Option<&str>, path: &str) -> TargetMailbox {
    TargetMailbox {
        jmap_id: id.to_string(),
        name: name.to_string(),
        parent_jmap_id: parent.map(String::from),
        role: None,
        sort_order: Some(0),
        path: path.to_string(),
    }
}

fn server_mailbox(id: &str, name: &str, parent: Option<&str>, subscribed: bool) -> ServerMailbox {
    ServerMailbox {
        id: Some(id.to_string()),
        name: Some(name.to_string()),
        parent_id: parent.map(String::from),
        role: Role::Unset,
        sort_order: 7,
        is_subscribed: subscribed,
    }
}

fn mail_cfg() -> MailConfig {
    MailConfig {
        path: "/mail".to_string(),
        subscribed_only: true,
        box_filter: None,
        box_mapping: Vec::new(),
        post_sync_hook: None,
        watch_maildir: false,
    }
}

// ---------------------------------------------------------------------------
// Flags and file names
// ---------------------------------------------------------------------------

#[test]
fn keywords_to_flags_alphabetical_and_dedup() {
    assert_eq!(keywords_to_flag_string(&strings(&["$flagged", "$seen"])), "FS");
    assert_eq!(keywords_to_flag_string(&strings(&["$draft"])), "D");
    // Unknown keywords ignored.
    assert_eq!(keywords_to_flag_string(&strings(&["$muted", "$seen", "custom"])), "S");
    // Duplicates collapse (defensive; server shouldn't return dups).
    assert_eq!(keywords_to_flag_string(&strings(&["$seen", "$seen"])), "S");
    // Empty in, empty out.
    assert_eq!(keywords_to_flag_string(&strings(&[])), "");
}

#[test]
fn all_four_flags_in_order() {
    assert_eq!(
        keywords_to_flag_string(&strings(&["$seen", "$answered", "$flagged", "$draft"])),
        "DFRS"
    );
}

#[test]
fn serialize_keywords_is_sorted_json() {
    let json = serialize_keywords(&strings(&["$seen", "$flagged"]));
    // Keys land alphabetical: $flagged then $seen.
    assert_eq!(json, r#"{"$flagged":true,"$seen":true}"#);
    assert_eq!(serialize_keywords(&strings(&[])), "{}");
}

#[test]
fn serialize_keywords_is_stable() {
    assert_eq!(
        serialize_keywords(&strings(&["b", "a", "b", "a\"c"])),
        serialize_keywords(&strings(&["a\"c", "a", "b"]))
    );
    assert_eq!(serialize_keywords(&strings(&["a\"c"])), r#"{"a\"c":true}"#);
}

#[test]
fn current_flags_from_path_parses() {
    assert_eq!(current_flags_from_path("INBOX/cur/12345.abc:2,FRS"), "FRS");
    assert_eq!(current_flags_from_path("no-flags"), "");
}

#[test]
fn rebuild_path_swaps_flags() {
    assert_eq!(
        rebuild_path_with_flags("INBOX/cur/12345.abc:2,FRS", "S"),
        "INBOX/cur/12345.abc:2,S"
    );
    // No existing suffix -> append.
    assert_eq!(
        rebuild_path_with_flags("INBOX/cur/12345.abc", "S"),
        "INBOX/cur/12345.abc:2,S"
    );
}

#[test]
fn flags_read_back() {
    let p = rebuild_path_with_flags("a:2,b/cur/1.x:2,F", "DS");
    assert_eq!(p, "a:2,b/cur/1.x:2,DS");
    assert_eq!(current_flags_from_path(&p), "DS");
}

#[test]
fn extract_uuid_from_maildir_path() {
    assert_eq!(
        extract_uuid("INBOX/cur/12345.abc-def-123:2,S"),
        Some("abc-def-123".to_string())
    );
    assert_eq!(extract_uuid("no-dot"), None);
}

#[test]
fn uuid_read_back() {
    let uuid = new_uuid_string();
    assert_eq!(uuid.len(), 36);
    assert_ne!(uuid, new_uuid_string());
    for (i, c) in uuid.chars().enumerate() {
        assert_eq!(c == '-', [8, 13, 18, 23].contains(&i));
    }
    assert_eq!(&uuid[14..15], "4");
    assert!("89ab".contains(&uuid[19..20]));
    let path = build_message_path("A.b/C", -5, &uuid, "FS");
    assert_eq!(path, format!("A.b/C/cur/-5.{uuid}:2,FS"));
    assert_eq!(extract_uuid(&path), Some(uuid.clone()));
    assert_eq!(message_basename(17, &uuid), format!("17.{uuid}"));
}

// ---------------------------------------------------------------------------
// The primary mailbox
// ---------------------------------------------------------------------------

#[test]
fn primary_mailbox_by_role_priority() {
    let mbs = vec![
        mb("archive", Some("archive"), 10, "Archive"),
        mb("inbox", Some("inbox"), 20, "INBOX"),
        mb("sent", Some("sent"), 5, "Sent"),
    ];
    let map = build_map(&mbs);
    let ids = strings(&["j-archive", "j-inbox", "j-sent"]);
    let winner = pick_primary_mailbox(&ids, &map).unwrap();
    assert_eq!(winner.id, "inbox"); // inbox wins over sent + archive
}

#[test]
fn primary_mailbox_sort_order_fallback_when_no_role() {
    let mbs = vec![mb("a", None, 10, "AAA"), mb("b", None, 5, "BBB")];
    let map = build_map(&mbs);
    let ids = strings(&["j-a", "j-b"]);
    let winner = pick_primary_mailbox(&ids, &map).unwrap();
    // Neither has a role → lowest sort_order wins.
    assert_eq!(winner.id, "b");
}

#[test]
fn primary_mailbox_alphabetical_tiebreak() {
    let mbs = vec![mb("a", None, 5, "BBB"), mb("b", None, 5, "AAA")];
    let map = build_map(&mbs);
    let ids = strings(&["j-a", "j-b"]);
    let winner = pick_primary_mailbox(&ids, &map).unwrap();
    assert_eq!(winner.name, "AAA"); // alphabetical on tied sort_order
}

#[test]
fn primary_mailbox_returns_none_when_all_filtered_out() {
    let mbs: Vec<MailboxRow> = Vec::new();
    let map = build_map(&mbs);
    let ids = strings(&["j-notsynced"]);
    assert!(pick_primary_mailbox(&ids, &map).is_none());
}

#[test]
fn primary_mailbox_skips_unsynced_and_picks_from_synced_only() {
    let mbs = vec![mb("archive", Some("archive"), 10, "Archive")];
    let map = build_map(&mbs);
    // Email is in one synced + one unsynced mailbox → picks the synced one.
    let ids = strings(&["j-archive", "j-hidden"]);
    let winner = pick_primary_mailbox(&ids, &map).unwrap();
    assert_eq!(winner.id, "archive");
}

#[test]
fn primary_mailbox_without_a_place_comes_last() {
    let mut late = mb("late", None, 0, "AAA");
    late.sort_order = None;
    let map = build_map(&vec![late, mb("early", None, 900, "ZZZ")]);
    assert_eq!(pick_primary_mailbox(&strings(&["j-late", "j-early"]), &map).unwrap().id, "early");
}

#[test]
fn role_rank_orders_correctly() {
    assert!(role_rank(Some("inbox")) < role_rank(Some("sent")));
    assert!(role_rank(Some("junk")) < role_rank(None));
    assert!(role_rank(Some("unknown-role")) == role_rank(None));
}

// ---------------------------------------------------------------------------
// Messages
// ---------------------------------------------------------------------------

#[test]
fn new_message_is_inserted() {
    let map = build_map(&vec![mb("inbox", Some("inbox"), 1, "Inbox")]);
    let e = server_email("e1", &["j-inbox"], &["$seen"]);
    match apply_email(&e, &map, None, &strings(&[]), 9).unwrap() {
        EmailAction::Insert { jmap_id, blob_id, placement } => {
            assert_eq!(jmap_id, "e1");
            assert_eq!(blob_id, "b-e1");
            assert_eq!(placement.primary_id, "inbox");
            assert_eq!(placement.dir, "Inbox");
            assert_eq!(placement.flags, "S");
            assert_eq!(placement.keywords, r#"{"$seen":true}"#);
            assert_eq!(placement.received_ts, 1_768_473_000);
        }
        other => panic!("unexpected {other:?}"),
    }
}

#[test]
fn new_message_without_a_blob_is_an_error() {
    let map = build_map(&vec![mb("inbox", Some("inbox"), 1, "Inbox")]);
    let mut e = server_email("e1", &["j-inbox"], &[]);
    e.blob_id = None;
    let err = apply_email(&e, &map, None, &strings(&[]), 9).unwrap_err();
    assert_eq!(err.message(), "email e1 has no blobId");
}

#[test]
fn message_out_of_scope_goes() {
    let map = build_map(&vec![mb("inbox", Some("inbox"), 1, "Inbox")]);
    let e = server_email("e1", &["j-gone"], &[]);
    let row = email_row("e1", "Inbox/cur/1.u:2,", "inbox", "{}");
    assert!(matches!(
        apply_email(&e, &map, Some(&row), &strings(&["inbox"]), 9).unwrap(),
        EmailAction::Delete
    ));
    assert!(matches!(
        apply_email(&e, &map, None, &strings(&[]), 9).unwrap(),
        EmailAction::Ignore
    ));
}

#[test]
fn message_without_an_id_is_ignored() {
    let map = build_map(&vec![mb("inbox", Some("inbox"), 1, "Inbox")]);
    let mut e = server_email("e1", &["j-inbox"], &[]);
    e.id = None;
    assert!(matches!(
        apply_email(&e, &map, None, &strings(&[]), 9).unwrap(),
        EmailAction::Ignore
    ));
}

#[test]
fn message_is_updated_moved_or_left_alone() {
    let map = build_map(&vec![
        mb("inbox", Some("inbox"), 1, "Inbox"),
        mb("archive", Some("archive"), 2, "Archive"),
    ]);
    let e = server_email("e1", &["j-inbox", "j-archive"], &["$seen"]);
    let json = r#"{"$seen":true}"#;
    let both = strings(&["archive", "inbox"]);
    let same = email_row("e1", "Inbox/cur/1.u:2,S", "inbox", json);
    assert!(matches!(apply_email(&e, &map, Some(&same), &both, 9).unwrap(), EmailAction::Keep));
    let flags = email_row("e1", "Inbox/cur/1.u:2,", "inbox", json);
    assert!(matches!(apply_email(&e, &map, Some(&flags), &both, 9).unwrap(), EmailAction::Update(_)));
    let keywords = email_row("e1", "Inbox/cur/1.u:2,S", "inbox", "{}");
    assert!(matches!(
        apply_email(&e, &map, Some(&keywords), &both, 9).unwrap(),
        EmailAction::Update(_)
    ));
    assert!(matches!(
        apply_email(&e, &map, Some(&same), &strings(&["inbox"]), 9).unwrap(),
        EmailAction::Update(_)
    ));
    let elsewhere = email_row("e1", "Archive/cur/1.u:2,S", "archive", json);
    assert!(matches!(
        apply_email(&e, &map, Some(&elsewhere), &both, 9).unwrap(),
        EmailAction::Move(_)
    ));
}

#[test]
fn moving_keeps_the_identifier_and_settles() {
    let map = build_map(&vec![mb("inbox", Some("inbox"), 1, "Inbox")]);
    let e = server_email("e1", &["j-inbox"], &["$flagged"]);
    let row = email_row("e1", "Archive/cur/1.abc-def:2,S", "archive", "{}");
    let placement = match apply_email(&e, &map, Some(&row), &strings(&["archive"]), 9).unwrap() {
        EmailAction::Move(p) => p,
        other => panic!("unexpected {other:?}"),
    };
    let moved = move_email(&row, &placement, 77);
    assert_eq!(moved.file_path, "Inbox/cur/1768473000.abc-def:2,F");
    assert_eq!(moved.primary_mailbox, "inbox");
    assert_eq!(moved.last_sync, Some(77));
    assert_eq!(moved.size, Some(4));
    assert!(matches!(
        apply_email(&e, &map, Some(&moved), &strings(&["inbox"]), 9).unwrap(),
        EmailAction::Keep
    ));
    let nameless = email_row("e2", "oddly-named", "archive", "{}");
    let renamed = move_email(&nameless, &placement, 77);
    assert_eq!(extract_uuid(&renamed.file_path).unwrap().len(), 36);
}

#[test]
fn updating_settles() {
    let placement = Placement {
        primary_id: "inbox".to_string(),
        dir: "Inbox".to_string(),
        flags: "FS".to_string(),
        keywords: "{}".to_string(),
        received_ts: 3,
    };
    let row = email_row("e1", "Inbox/cur/1.u:2,", "inbox", "old");
    let updated = update_email_in_place(&row, &placement, 8);
    assert_eq!(updated.file_path, "Inbox/cur/1.u:2,FS");
    assert_eq!(updated.keywords.as_deref(), Some("{}"));
    assert_eq!(updated.last_sync, Some(8));
}

#[test]
fn memberships_follow_the_synced_mailboxes() {
    let map = build_map(&vec![mb("inbox", None, 1, "Inbox"), mb("archive", None, 2, "Archive")]);
    let ids = strings(&["j-archive", "j-hidden", "j-inbox"]);
    let rows = insert_memberships("e1", "inbox", &ids, &map);
    let seen: Vec<(&str, &str, bool)> = rows
        .iter()
        .map(|r| (r.email_id.as_str(), r.mailbox_id.as_str(), r.is_primary))
        .collect();
    assert_eq!(seen, vec![("e1", "archive", false), ("e1", "inbox", true)]);
    let old = vec![EmailMailboxRow {
        email_id: "e1".to_string(),
        mailbox_id: "gone".to_string(),
        is_primary: true,
    }];
    let plan = reconcile_memberships(&old, "e1", "inbox", &ids, &map);
    assert_eq!(plan.deletes, vec![("e1".to_string(), "gone".to_string())]);
    assert_eq!(plan.inserts.len(), 2);
}

#[test]
fn memberships_differ_as_sets() {
    let map = build_map(&vec![mb("inbox", None, 1, "Inbox"), mb("archive", None, 2, "Archive")]);
    let ids = strings(&["j-archive", "j-hidden", "j-inbox"]);
    assert!(!memberships_differ(&strings(&["inbox", "archive", "inbox"]), &ids, &map));
    assert!(memberships_differ(&strings(&["inbox"]), &ids, &map));
    assert!(memberships_differ(&strings(&["inbox", "archive", "junk"]), &ids, &map));
}

#[test]
fn vanished_messages_and_hydration_order() {
    let mut server: Keyed<()> = Keyed::new();
    collect_ids(&mut server, &strings(&["c", "a"]));
    collect_ids(&mut server, &strings(&["b", "a"]));
    let mut local: Keyed<EmailRow> = Keyed::new();
    local.insert("a".to_string(), email_row("1", "x", "m", "{}"));
    local.insert("z".to_string(), email_row("2", "y", "m", "{}"));
    assert_eq!(vanished_emails(&local, &server), strings(&["z"]));
    assert_eq!(hydration_order(&server), strings(&["a", "b", "c"]));
}

#[test]
fn hydration_goes_in_hundreds() {
    let order: Vec<String> = (0..250).map(|i| format!("{i:03}")).collect();
    let chunks = hydration_chunks(&order);
    assert_eq!(chunks.iter().map(|c| c.len()).collect::<Vec<_>>(), vec![100, 100, 50]);
    assert_eq!(chunks.concat(), order);
    assert!(hydration_chunks(&Vec::new()).is_empty());
}

#[test]
fn pages_end_with_one_that_is_not_full() {
    assert_eq!(next_page(0, 256), Some(256));
    assert_eq!(next_page(256, 255), None);
    assert_eq!(next_page(512, 0), None);
}

#[test]
fn stats_count_what_was_done() {
    let mut stats = EmailSyncStats::default();
    assert!(!stats.changed());
    stats.record(&EmailAction::Keep, 0);
    assert!(!stats.changed());
    stats.record(&EmailAction::Delete, 0);
    let e = EmailAction::Insert {
        jmap_id: String::new(),
        blob_id: String::new(),
        placement: Placement {
            primary_id: String::new(),
            dir: String::new(),
            flags: String::new(),
            keywords: String::new(),
            received_ts: 0,
        },
    };
    stats.record(&e, 512);
    assert_eq!(
        stats,
        EmailSyncStats { created: 1, updated: 0, moved: 0, deleted: 1, bytes_downloaded: 512 }
    );
    assert!(stats.changed());
    assert_eq!(SyncStats::default().email, EmailSyncStats::default());
}

// ---------------------------------------------------------------------------
// Mailboxes
// ---------------------------------------------------------------------------

#[test]
fn sanitize_replaces_slashes() {
    assert_eq!(sanitize_segment("foo/bar"), "foo_bar");
    assert_eq!(sanitize_segment("plain"), "plain");
}

#[test]
fn topo_sort_parents_before_children() {
    let mut targets: Keyed<TargetMailbox> = Keyed::new();
    targets.insert("child".to_string(), target("child", "Child", Some("parent"), "Parent/Child"));
    targets.insert("parent".to_string(), target("parent", "Parent", None, "Parent"));
    let order = topo_sort_creates_and_updates(&targets, &Keyed::new());
    assert_eq!(order.len(), 2);
    let parent_pos = order.iter().position(|s| s == "parent").unwrap();
    let child_pos = order.iter().position(|s| s == "child").unwrap();
    assert!(parent_pos < child_pos, "parent must be emitted before child");
}

#[test]
fn topo_sort_keeps_what_can_never_be_ready() {
    let mut targets: Keyed<TargetMailbox> = Keyed::new();
    targets.insert("a".to_string(), target("a", "A", Some("b"), "x"));
    targets.insert("b".to_string(), target("b", "B", Some("a"), "y"));
    targets.insert("c".to_string(), target("c", "C", None, "z"));
    let order = topo_sort_creates_and_updates(&targets, &Keyed::new());
    assert_eq!(order.len(), 3);
    assert_eq!(order[0], "c");
}

#[test]
fn diff_no_change_returns_none() {
    let existing = MailboxRow {
        id: "local".to_string(),
        jmap_id: Some("j".to_string()),
        name: "INBOX".to_string(),
        parent_id: None,
        role: Some("inbox".to_string()),
        sort_order: Some(0),
        path: "INBOX".to_string(),
        jmap_state: None,
    };
    let tgt = TargetMailbox {
        jmap_id: "j".to_string(),
        name: "INBOX".to_string(),
        parent_jmap_id: None,
        role: Some("inbox".to_string()),
        sort_order: Some(0),
        path: "INBOX".to_string(),
    };
    assert!(diff_and_build_update(&existing, &tgt, &Keyed::new()).is_none());
}

#[test]
fn diff_name_change_returns_updated_row() {
    let existing = MailboxRow {
        id: "local".to_string(),
        jmap_id: Some("j".to_string()),
        name: "old".to_string(),
        parent_id: None,
        role: None,
        sort_order: Some(0),
        path: "old".to_string(),
        jmap_state: Some("state".to_string()),
    };
    let tgt = TargetMailbox {
        jmap_id: "j".to_string(),
        name: "new".to_string(),
        parent_jmap_id: None,
        role: None,
        sort_order: Some(0),
        path: "new".to_string(),
    };
    let updated = diff_and_build_update(&existing, &tgt, &Keyed::new()).unwrap();
    assert_eq!(updated.id, "local");
    assert_eq!(updated.name, "new");
    assert_eq!(updated.path, "new");
    // jmap_state preserved across renames (per-mailbox Email/query cursor).
    assert_eq!(updated.jmap_state, Some("state".to_string()));
    // An updated row needs no further update.
    assert!(diff_and_build_update(&updated, &tgt, &Keyed::new()).is_none());
}

#[test]
fn create_mailbox_inserts_row_and_creates_dir() {
    let tgt = TargetMailbox {
        jmap_id: "j1".to_string(),
        name: "INBOX".to_string(),
        parent_jmap_id: None,
        role: Some("inbox".to_string()),
        sort_order: Some(0),
        path: "INBOX".to_string(),
    };
    let row = create_mailbox("id".to_string(), &tgt, &Keyed::new(), None);
    assert_eq!(row.jmap_id.as_deref(), Some("j1"));
    assert_eq!(row.name, "INBOX");
    assert_eq!(row.role, Some("inbox".to_string()));
    assert_eq!(row.path, "INBOX");
    // The directories are made, and the row is stored.
    let mut dirs = Vec::new();
    let mut stored = Vec::new();
    for e in create_mailbox_effects(row, false) {
        match e {
            Effect::MakeDirectory(d) => dirs.push(d),
            Effect::InsertMailbox(r) => stored.push(r),
            other => panic!("not asked for: {other:?}"),
        }
    }
    assert!(dirs.contains(&"INBOX/cur".to_string()));
    assert_eq!(stored.len(), 1);
    assert_eq!(stored[0].jmap_id.as_deref(), Some("j1"));
    assert_eq!(stored[0].name, "INBOX");
    assert_eq!(stored[0].role, Some("inbox".to_string()));
}

#[test]
fn create_mailbox_resolves_parent_from_local_map() {
    let mut parent = mb("P", None, 0, "Parent");
    parent.jmap_id = Some("jparent".to_string());
    let local = by_jmap_id(&vec![parent]);
    let child = target("jchild", "Child", Some("jparent"), "Parent/Child");
    let row = create_mailbox("C".to_string(), &child, &local, Some("wrong".to_string()));
    assert_eq!(row.parent_id, Some("P".to_string()));
    let fresh = create_mailbox("C".to_string(), &child, &Keyed::new(), Some("new".to_string()));
    assert_eq!(fresh.parent_id, Some("new".to_string()));
}

#[test]
fn update_renames_dir_on_path_change() {
    let existing = mb("m", None, 0, "old");
    let mut new_row = existing.clone();
    new_row.path = "renamed".to_string();
    new_row.name = "renamed".to_string();
    assert_eq!(update_mailbox(&existing, &new_row, true), DirectoryStep::Rename);
    assert_eq!(update_mailbox(&existing, &new_row, false), DirectoryStep::Create);
    assert_eq!(update_mailbox(&existing, &existing.clone(), true), DirectoryStep::Stay);
}

#[test]
fn diff_plan_deletes_deep_first_then_creates_and_updates() {
    let mut targets: Keyed<TargetMailbox> = Keyed::new();
    targets.insert("j-a".to_string(), target("j-a", "A2", None, "A2"));
    targets.insert("j-n".to_string(), target("j-n", "N", Some("j-a"), "A2/N"));
    let mut rows = vec![mb("a", None, 0, "A"), mb("p", None, 0, "P"), mb("q", None, 0, "P/Q")];
    rows[0].sort_order = Some(0);
    let local = by_jmap_id(&rows);
    let plan = apply_diff(&targets, &local);
    assert_eq!(plan.deletes, strings(&["j-q", "j-p"]));
    assert_eq!(
        plan.stats,
        MailboxSyncStats { created: 1, updated: 1, deleted: 2, orphaned_emails: 0 }
    );
    assert!(plan.steps.iter().any(|s| matches!(s, DiffStep::Create(id) if id == "j-n")));
    assert!(plan
        .steps
        .iter()
        .any(|s| matches!(s, DiffStep::Update { jmap_id, row } if jmap_id == "j-a" && row.path == "A2")));
}

#[test]
fn box_filter_glob_used_when_set() {
    let mut cfg = mail_cfg();
    cfg.box_filter = Some(vec!["INBOX*".to_string()]);
    cfg.subscribed_only = false;
    let server = vec![
        server_mailbox("1", "INBOX", None, false),
        server_mailbox("2", "INBOXfoo", None, false),
        server_mailbox("3", "Sent", None, true),
    ];
    let t = build_target_set(&server, &cfg).unwrap();
    assert!(t.contains("1"));
    assert!(t.contains("2"));
    assert!(!t.contains("3"));
}

#[test]
fn without_a_filter_subscriptions_count() {
    let mut cfg = mail_cfg();
    let server = vec![
        server_mailbox("1", "Inbox", None, true),
        server_mailbox("2", "Quiet", Some("1"), false),
    ];
    let t = build_target_set(&server, &cfg).unwrap();
    assert!(t.contains("1") && !t.contains("2"));
    cfg.subscribed_only = false;
    cfg.box_mapping = vec![BoxMapping { remote: "Inbox".to_string(), local: "In/Box".to_string() }];
    let t = build_target_set(&server, &cfg).unwrap();
    let quiet = t.get("2").unwrap();
    assert_eq!(quiet.path, "In_Box/Quiet");
    assert_eq!(quiet.parent_jmap_id.as_deref(), Some("1"));
    assert_eq!(quiet.sort_order, Some(7));
    assert_eq!(t.get("1").unwrap().name, "In/Box");
}

#[test]
fn trees_that_cannot_be_laid_out_are_errors() {
    let cfg = mail_cfg();
    let text = |server: Vec<ServerMailbox>| build_target_set(&server, &cfg).err().unwrap().message();
    assert_eq!(
        text(vec![server_mailbox("a", "A", Some("b"), true), server_mailbox("b", "B", Some("a"), true)]),
        "mailbox parent cycle detected at \"a\""
    );
    assert_eq!(
        text(vec![server_mailbox("a", "A", Some("x"), true)]),
        "mailbox \"a\" references unknown parent \"x\""
    );
    let mut nameless = server_mailbox("a", "A", None, true);
    nameless.name = None;
    assert_eq!(text(vec![nameless]), "mailbox \"a\" has no name");
    let mut anonymous = server_mailbox("a", "A", None, true);
    anonymous.id = None;
    assert!(matches!(
        resolve_path(&vec![anonymous], &Vec::new(), 0),
        Err(TargetError::NoId)
    ));
}

#[test]
fn bad_filter_is_an_error() {
    let mut cfg = mail_cfg();
    cfg.box_filter = Some(vec!["ok".to_string(), "[".to_string()]);
    let err = build_target_set(&Vec::new(), &cfg).err().unwrap();
    assert!(err.message().starts_with("compiling box_filter glob \"[\": "), "{}", err.message());
}

#[test]
fn roles_are_stored_by_name() {
    assert_eq!(role_to_str(&Role::Unset), None);
    assert_eq!(role_to_str(&Role::Inbox).as_deref(), Some("inbox"));
    assert_eq!(role_to_str(&Role::Important).as_deref(), Some("important"));
    assert_eq!(role_to_str(&Role::Other("x".to_string())).as_deref(), Some("x"));
}
