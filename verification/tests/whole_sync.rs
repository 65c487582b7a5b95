//! A whole sync, against a server and a disk that are plain values.

use std::collections::{BTreeMap, BTreeSet};

use jmapsyncd::config::MailConfig;
use jmapsyncd::keyed::Keyed;
use jmapsyncd::sync::effects::{
    create_mailbox_effects, delete_effects, delete_mailbox_effects, email_effects,
    orphaned_emails, update_mailbox_effects, Effect,
};
use jmapsyncd::sync::email::{
    apply_email, collect_ids, emails_by_jmap_id, hydration_chunks, hydration_order,
    vanished_emails, EmailAction, EmailSyncStats, ServerEmail,
};
use jmapsyncd::sync::mailbox::{apply_diff, by_jmap_id, create_mailbox, DiffStep, MailboxSyncStats};
use jmapsyncd::sync::maildir::new_uuid_string;
use jmapsyncd::sync::rows::{EmailMailboxRow, EmailRow, MailboxRow};
use jmapsyncd::sync::target::{build_target_set, Role, ServerMailbox};

/// What the server has.
struct Server {
    mailboxes: Vec<ServerMailbox>,
    emails: Vec<ServerEmail>,
    blobs: BTreeMap<String, String>,
}

/// What stands on disk and in the database.
#[derive(Default)]
struct Local {
    dirs: BTreeSet<String>,
    files: BTreeMap<String, String>,
    mailboxes: BTreeMap<String, MailboxRow>,
    emails: BTreeMap<String, EmailRow>,
    members: BTreeMap<(String, String), bool>,
}

impl Local {
    fn perform(&mut self, effects: Vec<Effect>, download: &str) {
        for e in effects {
            match e {
                Effect::MakeDirectory(p) => {
                    self.dirs.insert(p);
                }
                Effect::StoreMessage { path, .. } => {
                    assert!(self.files.insert(path, download.to_string()).is_none());
                }
                Effect::MoveFile { from, to } => {
                    if let Some(text) = self.files.remove(&from) {
                        self.files.insert(to, text);
                    }
                }
                Effect::RemoveFile(p) => {
                    self.files.remove(&p);
                }
                Effect::MoveTree { from, to } => {
                    let moved = |p: &String| p.replacen(&format!("{from}/"), &format!("{to}/"), 1);
                    self.dirs = self.dirs.iter().map(moved).collect();
                    self.files = self.files.iter().map(|(p, t)| (moved(p), t.clone())).collect();
                }
                Effect::RemoveTree(p) => {
                    let below = format!("{p}/");
                    self.dirs.retain(|d| !d.starts_with(&below));
                    self.files.retain(|f, _| !f.starts_with(&below));
                }
                Effect::InsertEmail(r) | Effect::UpdateEmail(r) => {
                    self.emails.insert(r.id.clone(), r);
                }
                Effect::DeleteEmail(id) => {
                    self.emails.remove(&id);
                    self.members.retain(|m, _| m.0 != id);
                }
                Effect::InsertMembership(m) => {
                    self.members.insert((m.email_id, m.mailbox_id), m.is_primary);
                }
                Effect::DeleteMembership { email_id, mailbox_id } => {
                    self.members.remove(&(email_id, mailbox_id));
                }
                Effect::InsertMailbox(r) | Effect::UpdateMailbox(r) => {
                    self.mailboxes.insert(r.id.clone(), r);
                }
                Effect::DeleteMailbox(id) => {
                    self.mailboxes.remove(&id);
                    self.members.retain(|m, _| m.1 != id);
                }
            }
        }
    }

    fn members_of(&self, id: &str) -> Vec<EmailMailboxRow> {
        self.members
            .iter()
            .filter(|(m, _)| m.0 == id)
            .map(|(m, primary)| EmailMailboxRow {
                email_id: m.0.clone(),
                mailbox_id: m.1.clone(),
                is_primary: *primary,
            })
            .collect()
    }

    fn email(&self, jmap_id: &str) -> &EmailRow {
        self.emails.values().find(|e| e.jmap_id.as_deref() == Some(jmap_id)).unwrap()
    }

    fn mailbox(&self, name: &str) -> &MailboxRow {
        self.mailboxes.values().find(|m| m.name == name).unwrap()
    }
}

fn sync_mailboxes(server: &Server, local: &mut Local, cfg: &MailConfig) -> MailboxSyncStats {
    let target = build_target_set(&server.mailboxes, cfg).unwrap();
    let rows: Vec<MailboxRow> = local.mailboxes.values().cloned().collect();
    let known = by_jmap_id(&rows);
    let plan = apply_diff(&target, &known);
    for id in &plan.deletes {
        let effects = delete_mailbox_effects(known.get(id).unwrap(), false);
        local.perform(effects, "");
    }
    for step in plan.steps {
        match step {
            DiffStep::Create(id) => {
                let tgt = target.get(&id).unwrap();
                let parent = tgt.parent_jmap_id.as_ref().and_then(|pid| {
                    local
                        .mailboxes
                        .values()
                        .find(|m| m.jmap_id.as_ref() == Some(pid))
                        .map(|m| m.id.clone())
                });
                let row = create_mailbox(new_uuid_string(), tgt, &known, parent);
                local.perform(create_mailbox_effects(row, false), "");
            }
            DiffStep::Update { jmap_id, row } => {
                let existing = known.get(&jmap_id).unwrap();
                let there = local.dirs.contains(&format!("{}/cur", existing.path));
                local.perform(update_mailbox_effects(existing, row, there, false), "");
            }
        }
    }
    let emails: Vec<EmailRow> = local.emails.values().cloned().collect();
    let members: Vec<EmailMailboxRow> =
        emails.iter().flat_map(|e| local.members_of(&e.id)).collect();
    let orphans = orphaned_emails(&emails, &members);
    for (id, path) in &orphans {
        local.perform(delete_effects(id, path, false), "");
    }
    let mut stats = plan.stats;
    stats.orphaned_emails = orphans.len();
    stats
}

fn sync_emails(server: &Server, local: &mut Local) -> EmailSyncStats {
    let rows: Vec<MailboxRow> = local.mailboxes.values().cloned().collect();
    let boxes = by_jmap_id(&rows);
    let mut ids: Keyed<()> = Keyed::new();
    for mailbox in boxes.key_list() {
        let page: Vec<String> = server
            .emails
            .iter()
            .filter(|e| e.mailbox_ids.contains(&mailbox))
            .filter_map(|e| e.id.clone())
            .collect();
        collect_ids(&mut ids, &page);
    }
    let emails: Vec<EmailRow> = local.emails.values().cloned().collect();
    let known = emails_by_jmap_id(&emails);
    let mut stats = EmailSyncStats::default();
    for id in vanished_emails(&known, &ids) {
        let row = known.get(&id).unwrap();
        local.perform(delete_effects(&row.id, &row.file_path, false), "");
        stats.record(&EmailAction::Delete, 0);
    }
    for chunk in hydration_chunks(&hydration_order(&ids)) {
        for id in chunk {
            let email = server.emails.iter().find(|e| e.id.as_ref() == Some(&id)).unwrap();
            let existing = known.get(&id);
            let held = existing.map(|r| local.members_of(&r.id)).unwrap_or_default();
            let held_ids: Vec<String> = held.iter().map(|m| m.mailbox_id.clone()).collect();
            let action = apply_email(email, &boxes, existing, &held_ids, 1).unwrap();
            let text = match &action {
                EmailAction::Insert { blob_id, .. } => server.blobs[blob_id].clone(),
                _ => String::new(),
            };
            let effects = email_effects(
                &action,
                email,
                existing,
                &held,
                &boxes,
                &new_uuid_string(),
                &new_uuid_string(),
                1,
                false,
            );
            local.perform(effects, &text);
            stats.record(&action, text.len() as u64);
        }
    }
    stats
}

fn mailbox(id: &str, name: &str, role: Role, sort_order: u32) -> ServerMailbox {
    ServerMailbox {
        id: Some(id.to_string()),
        name: Some(name.to_string()),
        parent_id: None,
        role,
        sort_order,
        is_subscribed: true,
    }
}

fn email(id: &str, blob: &str, mailboxes: &[&str], keywords: &[&str], size: u64, at: &str) -> ServerEmail {
    let received = chrono::DateTime::parse_from_rfc3339(at).unwrap();
    ServerEmail {
        id: Some(id.to_string()),
        blob_id: Some(blob.to_string()),
        mailbox_ids: mailboxes.iter().map(|s| s.to_string()).collect(),
        keywords: keywords.iter().map(|s| s.to_string()).collect(),
        size,
        received_at: Some(received.timestamp()),
        message_ids: vec![format!("<{id}@example.com>")],
    }
}

fn server() -> Server {
    Server {
        mailboxes: vec![
            mailbox("mb-inbox", "Inbox", Role::Inbox, 10),
            mailbox("mb-sent", "Sent", Role::Sent, 20),
            mailbox("mb-archive", "Archive", Role::Archive, 30),
        ],
        emails: vec![
            email("e-inbox", "b-inbox", &["mb-inbox"], &["$seen"], 512, "2026-01-15T10:30:00Z"),
            email(
                "e-cross",
                "b-cross",
                &["mb-inbox", "mb-archive"],
                &["$seen", "$flagged"],
                1024,
                "2026-01-16T11:00:00Z",
            ),
            email("e-sent", "b-sent", &["mb-sent"], &[], 256, "2026-01-17T09:00:00Z"),
        ],
        blobs: [
            ("b-inbox", "From: a@x\r\nSubject: Hello from INBOX\r\n\r\nbody-inbox"),
            ("b-cross", "From: b@x\r\nSubject: Cross-filed\r\n\r\nbody-cross"),
            ("b-sent", "From: c@x\r\nSubject: Sent item\r\n\r\nbody-sent"),
        ]
        .iter()
        .map(|(k, v)| (k.to_string(), v.to_string()))
        .collect(),
    }
}

fn cfg() -> MailConfig {
    MailConfig {
        path: "/mail".to_string(),
        subscribed_only: true,
        box_filter: None,
        box_mapping: Vec::new(),
        post_sync_hook: None,
        watch_maildir: false,
    }
}

#[test]
fn fresh_initial_sync_end_to_end() {
    let server = server();
    let mut local = Local::default();
    sync_mailboxes(&server, &mut local, &cfg());
    let stats = sync_emails(&server, &mut local);

    assert_eq!(local.mailboxes.len(), 3, "3 mailboxes should be persisted");
    assert_eq!(local.emails.len(), 3, "3 unique emails should be persisted");
    for mb_name in ["Inbox", "Sent", "Archive"] {
        for sub in ["cur", "new", "tmp"] {
            assert!(
                local.dirs.contains(&format!("{mb_name}/{sub}")),
                "{mb_name}/{sub}/ should exist"
            );
        }
    }

    let inbox_row = local.mailbox("Inbox");
    let archive_row = local.mailbox("Archive");
    let e_cross = local.email("e-cross");
    assert_eq!(
        e_cross.primary_mailbox, inbox_row.id,
        "e-cross primary should be Inbox (role priority beats Archive)"
    );
    assert!(
        e_cross.file_path.starts_with("Inbox/cur/"),
        "e-cross file must be under Inbox/cur/, got {}",
        e_cross.file_path
    );
    assert!(
        e_cross.file_path.ends_with(":2,FS"),
        "e-cross should have :2,FS suffix, got {}",
        e_cross.file_path
    );
    assert!(local.files[&e_cross.file_path].contains("body-cross"));

    let e_inbox = local.email("e-inbox");
    assert!(e_inbox.file_path.ends_with(":2,S"));
    assert!(e_inbox.file_path.starts_with("Inbox/cur/"));
    let e_sent = local.email("e-sent");
    assert!(
        e_sent.file_path.ends_with(":2,"),
        "e-sent should have :2, (empty flags), got {}",
        e_sent.file_path
    );
    assert!(e_sent.file_path.starts_with("Sent/cur/"));

    let cross_memberships = local.members_of(&e_cross.id);
    assert_eq!(cross_memberships.len(), 2);
    let inbox_membership =
        cross_memberships.iter().find(|m| m.mailbox_id == inbox_row.id).unwrap();
    let archive_membership =
        cross_memberships.iter().find(|m| m.mailbox_id == archive_row.id).unwrap();
    assert!(inbox_membership.is_primary);
    assert!(!archive_membership.is_primary);

    let total: usize = server.blobs.values().map(|b| b.len()).sum();
    assert_eq!(
        stats,
        EmailSyncStats {
            created: 3,
            updated: 0,
            moved: 0,
            deleted: 0,
            bytes_downloaded: total as u64,
        }
    );
}

#[test]
fn second_sync_is_idle() {
    let server = server();
    let mut local = Local::default();
    sync_mailboxes(&server, &mut local, &cfg());
    sync_emails(&server, &mut local);
    let files = local.files.clone();
    assert_eq!(sync_mailboxes(&server, &mut local, &cfg()), MailboxSyncStats::default());
    assert_eq!(sync_emails(&server, &mut local), EmailSyncStats::default());
    assert_eq!(local.files, files);
}

#[test]
fn changes_on_the_server_are_mirrored() {
    let mut server = server();
    let mut local = Local::default();
    sync_mailboxes(&server, &mut local, &cfg());
    sync_emails(&server, &mut local);
    let id = local.email("e-cross").id.clone();
    server.emails[0].keywords.clear();
    server.emails[1].mailbox_ids = vec!["mb-archive".to_string()];
    server.emails.remove(2);
    let stats = sync_emails(&server, &mut local);
    assert_eq!((stats.updated, stats.moved, stats.deleted, stats.created), (1, 1, 1, 0));
    assert_eq!(local.files.len(), 2);
    assert_eq!(local.email("e-cross").id, id);
    assert!(local.email("e-cross").file_path.starts_with("Archive/cur/"));
    assert!(local.email("e-inbox").file_path.ends_with(":2,"));
    for row in local.emails.values() {
        assert!(local.files.contains_key(&row.file_path));
    }
    // The mailbox goes, and what was in it alone goes along.
    server.mailboxes.remove(2);
    let stats = sync_mailboxes(&server, &mut local, &cfg());
    assert_eq!((stats.deleted, stats.orphaned_emails), (1, 1));
    assert_eq!(local.emails.len(), 1);
    assert_eq!(local.files.len(), 1);
}
