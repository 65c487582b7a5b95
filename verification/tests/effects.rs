//! What a sync does to the disk and to the database.

use jmapsyncd::keyed::Keyed;
use jmapsyncd::sync::effects::{
    create_mailbox_effects, delete_effects, delete_mailbox_effects, email_effects,
    orphaned_emails, update_mailbox_effects, Effect,
};
use jmapsyncd::sync::email::{apply_email, emails_by_jmap_id, EmailAction, ServerEmail};
use jmapsyncd::sync::mailbox::by_jmap_id;
use jmapsyncd::sync::rows::{EmailMailboxRow, EmailRow, MailboxRow};

fn mailbox(id: &str, role: Option<&str>, path: &str) -> MailboxRow {
    MailboxRow {
        id: id.to_string(),
        jmap_id: Some(format!("j-{id}")),
        name: path.to_string(),
        parent_id: None,
        role: role.map(String::from),
        sort_order: Some(0),
        path: path.to_string(),
        jmap_state: None,
    }
}

fn boxes() -> Keyed<MailboxRow> {
    by_jmap_id(&vec![
        mailbox("inbox", Some("inbox"), "Inbox"),
        mailbox("archive", Some("archive"), "Archive"),
    ])
}

fn message(mailboxes: &[&str], keywords: &[&str]) -> ServerEmail {
    ServerEmail {
        id: Some("e1".to_string()),
        blob_id: Some("b1".to_string()),
        mailbox_ids: mailboxes.iter().map(|s| s.to_string()).collect(),
        keywords: keywords.iter().map(|s| s.to_string()).collect(),
        size: 9,
        received_at: Some(100),
        message_ids: Vec::new(),
    }
}

fn row(path: &str, primary: &str, keywords: &str) -> EmailRow {
    EmailRow {
        id: "r1".to_string(),
        jmap_id: Some("e1".to_string()),
        message_id: None,
        file_path: path.to_string(),
        primary_mailbox: primary.to_string(),
        keywords: Some(keywords.to_string()),
        jmap_state: None,
        size: None,
        last_sync: None,
        is_dirty: false,
    }
}

fn member(email: &str, mailbox: &str) -> EmailMailboxRow {
    EmailMailboxRow {
        email_id: email.to_string(),
        mailbox_id: mailbox.to_string(),
        is_primary: false,
    }
}

fn show(effects: &[Effect]) -> Vec<String> {
    effects
        .iter()
        .map(|e| match e {
            Effect::MakeDirectory(p) => format!("mkdir {p}"),
            Effect::StoreMessage { tmp, path } => format!("store {tmp} {path}"),
            Effect::MoveFile { from, to } => format!("mv {from} {to}"),
            Effect::RemoveFile(p) => format!("rm {p}"),
            Effect::MoveTree { from, to } => format!("mvdir {from} {to}"),
            Effect::RemoveTree(p) => format!("rmdir {p}"),
            Effect::InsertEmail(r) => format!("insert {} {}", r.id, r.file_path),
            Effect::UpdateEmail(r) => format!("update {} {}", r.id, r.file_path),
            Effect::DeleteEmail(id) => format!("delete {id}"),
            Effect::InsertMembership(m) => format!("in {} {} {}", m.email_id, m.mailbox_id, m.is_primary),
            Effect::DeleteMembership { email_id, mailbox_id } => format!("out {email_id} {mailbox_id}"),
            Effect::InsertMailbox(r) => format!("box {} {}", r.id, r.path),
            Effect::UpdateMailbox(r) => format!("rebox {} {}", r.id, r.path),
            Effect::DeleteMailbox(id) => format!("unbox {id}"),
        })
        .collect()
}

fn effects(
    e: &ServerEmail,
    existing: Option<&EmailRow>,
    held: &Vec<EmailMailboxRow>,
    dry_run: bool,
) -> (EmailAction, Vec<String>) {
    let ids: Vec<String> = held.iter().map(|m| m.mailbox_id.clone()).collect();
    let action = apply_email(e, &boxes(), existing, &ids, 7).unwrap();
    let list = email_effects(&action, e, existing, held, &boxes(), "new-id", "new-uuid", 7, dry_run);
    (action, show(&list))
}

#[test]
fn new_message_is_stored_before_its_row() {
    let e = message(&["j-inbox", "j-archive"], &["$seen"]);
    let (action, list) = effects(&e, None, &vec![], false);
    assert!(matches!(action, EmailAction::Insert { .. }));
    assert_eq!(
        list,
        vec![
            "mkdir Inbox/tmp",
            "mkdir Inbox/cur",
            "store Inbox/tmp/100.new-uuid Inbox/cur/100.new-uuid:2,S",
            "insert new-id Inbox/cur/100.new-uuid:2,S",
            "in new-id inbox true",
            "in new-id archive false",
        ]
    );
}

#[test]
fn moved_message_takes_its_memberships_along() {
    let e = message(&["j-inbox"], &[]);
    let old = row("Archive/cur/5.uu:2,S", "archive", "{}");
    let (action, list) = effects(&e, Some(&old), &vec![member("r1", "archive")], false);
    assert!(matches!(action, EmailAction::Move(_)));
    assert_eq!(
        list,
        vec![
            "mkdir Inbox/cur",
            "mv Archive/cur/5.uu:2,S Inbox/cur/100.uu:2,",
            "update r1 Inbox/cur/100.uu:2,",
            "out r1 archive",
            "in r1 inbox true",
        ]
    );
}

#[test]
fn updated_message_is_renamed_only_if_need_be() {
    let e = message(&["j-inbox"], &["$seen"]);
    let held = vec![member("r1", "inbox")];
    let old = row("Inbox/cur/5.uu:2,", "inbox", "{}");
    let (_, list) = effects(&e, Some(&old), &held, false);
    assert_eq!(list[0], "mv Inbox/cur/5.uu:2, Inbox/cur/5.uu:2,S");
    let old = row("Inbox/cur/5.uu:2,S", "inbox", "{}");
    let (action, list) = effects(&e, Some(&old), &held, false);
    assert!(matches!(action, EmailAction::Update(_)));
    assert_eq!(list, vec!["update r1 Inbox/cur/5.uu:2,S", "out r1 inbox", "in r1 inbox true"]);
}

#[test]
fn message_out_of_scope_is_removed() {
    let e = message(&["j-gone"], &[]);
    let old = row("Inbox/cur/5.uu:2,", "inbox", "{}");
    let (_, list) = effects(&e, Some(&old), &vec![], false);
    assert_eq!(list, vec!["rm Inbox/cur/5.uu:2,", "delete r1"]);
    assert_eq!(show(&delete_effects("i", "p", false)), vec!["rm p", "delete i"]);
}

#[test]
fn dry_run_does_nothing() {
    let old = row("Archive/cur/5.uu:2,S", "archive", "{}");
    for e in [message(&["j-inbox"], &[]), message(&["j-gone"], &[])] {
        assert!(effects(&e, Some(&old), &vec![], true).1.is_empty());
        assert!(effects(&e, None, &vec![], true).1.is_empty());
    }
    assert!(delete_effects("i", "p", true).is_empty());
    let m = mailbox("m", None, "M");
    assert!(create_mailbox_effects(m.clone(), true).is_empty());
    assert!(update_mailbox_effects(&m, mailbox("m", None, "N"), true, true).is_empty());
    assert!(delete_mailbox_effects(&m, true).is_empty());
}

#[test]
fn create_maildir_makes_three_subdirs() {
    assert_eq!(
        show(&create_mailbox_effects(mailbox("m", None, "INBOX"), false)),
        vec!["mkdir INBOX/cur", "mkdir INBOX/new", "mkdir INBOX/tmp", "box m INBOX"]
    );
}

#[test]
fn delete_mailbox_removes_dir_and_row() {
    assert_eq!(
        show(&delete_mailbox_effects(&mailbox("m", None, "INBOX"), false)),
        vec!["rmdir INBOX", "unbox m"]
    );
}

#[test]
fn mailbox_moves_before_its_row() {
    let old = mailbox("m", None, "old");
    let list = |path: &str, there: bool| {
        show(&update_mailbox_effects(&old, mailbox("m", None, path), there, false))
    };
    assert_eq!(list("renamed", true), vec!["mvdir old renamed", "rebox m renamed"]);
    assert_eq!(list("renamed", false), vec!["mkdir renamed/cur", "mkdir renamed/new", "mkdir renamed/tmp", "rebox m renamed"]);
    assert_eq!(list("old", true), vec!["rebox m old"]);
}

#[test]
fn orphaned_email_gets_cleaned() {
    let mut orphan = row("INBOX/cur/orphan:2,", "mb1", "{}");
    orphan.id = "e-orphan".to_string();
    let found = orphaned_emails(&vec![orphan], &vec![]);
    assert_eq!(found.len(), 1);
    assert_eq!(
        show(&delete_effects(&found[0].0, &found[0].1, false)),
        vec!["rm INBOX/cur/orphan:2,", "delete e-orphan"]
    );
}

#[test]
fn cleanup_leaves_non_orphans_alone() {
    let kept = row("INBOX/cur/kept:2,", "mb1", "{}");
    let found = orphaned_emails(&vec![kept], &vec![member("r1", "mb1")]);
    assert_eq!(found.len(), 0);
}

#[test]
fn rows_are_found_by_the_servers_id() {
    let mut local = row("a", "m", "{}");
    local.jmap_id = None;
    let mut later = row("c", "m", "{}");
    later.id = "r2".to_string();
    let found = emails_by_jmap_id(&vec![local, row("b", "m", "{}"), later]);
    assert_eq!(found.len(), 1);
    assert_eq!(found.get("e1").unwrap().id, "r2");
}
