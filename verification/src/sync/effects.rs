//! What a sync does to the disk and to the database.
//!
//! A sync decides first and acts afterwards: what it has decided is a list of effects,
//! to be performed in order. A dry run has none.

use vstd::prelude::*;
use vstd::string::*;

use crate::keyed::Keyed;
use crate::numbers::signed_decimal;
use crate::outside::pair_views;
use crate::sync::email::{insert_email, inserted_row, insert_memberships, is_expected, lemma_memberships, membership_views, memberships_of, move_email_as, moved_email, opt_email_view, place_message, placed_path, update_email_in_place, updated_email, EmailAction, Placement, ServerEmail};
use crate::sync::mailbox::{row_views, update_mailbox, DirectoryStep};
use crate::sync::maildir::{extract_uuid, message_basename, uuid_in};
use crate::sync::rows::{EmailMailboxRow, EmailRow, MailboxRow};
use crate::text::{has_prefix, str_eq, views};

verus! {

/// One thing to do. Paths are below the mail root. `T` is a text, and `E`, `B` and `M`
/// are the rows of a message, of a mailbox and of a membership.
#[derive(Debug)]
#[verifier::ext_equal]
pub enum Effect<T = String, E = EmailRow, B = MailboxRow, M = EmailMailboxRow> {
    /// Make a directory, with those that it is in.
    MakeDirectory(T),
    /// Write what was downloaded to `tmp`, and give it the name `path` once it is
    /// complete.
    StoreMessage { tmp: T, path: T },
    /// Rename a file, if it is there.
    MoveFile { from: T, to: T },
    /// Remove a file, if it is there.
    RemoveFile(T),
    /// Rename a mailbox's directory, once the directory that it moves to is there.
    MoveTree { from: T, to: T },
    /// Remove a mailbox's directory with all that is in it, if it is there.
    RemoveTree(T),
    InsertEmail(E),
    /// Replace the row of the same id.
    UpdateEmail(E),
    /// Delete a message's row and its memberships.
    DeleteEmail(T),
    InsertMembership(M),
    DeleteMembership { email_id: T, mailbox_id: T },
    InsertMailbox(B),
    /// Replace the row of the same id.
    UpdateMailbox(B),
    /// Delete a mailbox's row and its memberships.
    DeleteMailbox(T),
}

/// An effect over texts as they are.
pub type EffectModel = Effect<
    Seq<char>,
    EmailRow<Seq<char>>,
    MailboxRow<Seq<char>>,
    EmailMailboxRow<Seq<char>>,
>;

impl View for Effect<String, EmailRow, MailboxRow, EmailMailboxRow> {
    type V = EffectModel;

    open spec fn view(&self) -> EffectModel {
        match *self {
            Effect::MakeDirectory(p) => Effect::MakeDirectory(p@),
            Effect::StoreMessage { tmp, path } => Effect::StoreMessage { tmp: tmp@, path: path@ },
            Effect::MoveFile { from, to } => Effect::MoveFile { from: from@, to: to@ },
            Effect::RemoveFile(p) => Effect::RemoveFile(p@),
            Effect::MoveTree { from, to } => Effect::MoveTree { from: from@, to: to@ },
            Effect::RemoveTree(p) => Effect::RemoveTree(p@),
            Effect::InsertEmail(r) => Effect::InsertEmail(r@),
            Effect::UpdateEmail(r) => Effect::UpdateEmail(r@),
            Effect::DeleteEmail(id) => Effect::DeleteEmail(id@),
            Effect::InsertMembership(m) => Effect::InsertMembership(m@),
            Effect::DeleteMembership { email_id, mailbox_id } => Effect::DeleteMembership {
                email_id: email_id@,
                mailbox_id: mailbox_id@,
            },
            Effect::InsertMailbox(r) => Effect::InsertMailbox(r@),
            Effect::UpdateMailbox(r) => Effect::UpdateMailbox(r@),
            Effect::DeleteMailbox(id) => Effect::DeleteMailbox(id@),
        }
    }
}

/// The views of a list of effects.
pub open spec fn effect_views(v: Seq<Effect>) -> Seq<EffectModel> {
    v.map_values(|e: Effect| e@)
}

proof fn lemma_pushed(v: Seq<Effect>, e: Effect)
    ensures
        effect_views(v.push(e)) == effect_views(v).push(e@),
{
    assert(effect_views(v.push(e)) =~= effect_views(v).push(e@));
}

// ---------------------------------------------------------------------------
// Memberships
// ---------------------------------------------------------------------------

/// The memberships that are there go.
pub open spec fn membership_deletes(held: Seq<EmailMailboxRow<Seq<char>>>) -> Seq<EffectModel> {
    held.map_values(
        |m: EmailMailboxRow<Seq<char>>|
            EffectModel::DeleteMembership { email_id: m.email_id, mailbox_id: m.mailbox_id },
    )
}

/// Memberships come.
pub open spec fn membership_inserts(rows: Seq<EmailMailboxRow<Seq<char>>>) -> Seq<EffectModel> {
    rows.map_values(
        |m: EmailMailboxRow<Seq<char>>|
            EffectModel::InsertMembership(m),
    )
}

fn push_membership_deletes(out: &mut Vec<Effect>, held: &Vec<EmailMailboxRow>)
    ensures
        effect_views(final(out)@) == effect_views(old(out)@) + membership_deletes(
            membership_views(held@),
        ),
{
    let ghost before = effect_views(out@);
    let ghost all = membership_deletes(membership_views(held@));
    let mut i: usize = 0;
    assert(before + all.take(0) =~= before);
    while i < held.len()
        invariant
            i <= held@.len(),
            all == membership_deletes(membership_views(held@)),
            effect_views(out@) == before + all.take(i as int),
        decreases held@.len() - i,
    {
        let e = Effect::DeleteMembership {
            email_id: held[i].email_id.clone(),
            mailbox_id: held[i].mailbox_id.clone(),
        };
        proof {
            lemma_pushed(out@, e);
            assert(membership_views(held@)[i as int] == held@[i as int]@);
            assert(e@ == all[i as int]);
        }
        out.push(e);
        i += 1;
        assert(effect_views(out@) =~= before + all.take(i as int));
    }
    assert(all.take(i as int) =~= all);
}

fn push_membership_inserts(out: &mut Vec<Effect>, rows: &Vec<EmailMailboxRow>)
    ensures
        effect_views(final(out)@) == effect_views(old(out)@) + membership_inserts(
            membership_views(rows@),
        ),
{
    let ghost before = effect_views(out@);
    let ghost all = membership_inserts(membership_views(rows@));
    let mut i: usize = 0;
    assert(before + all.take(0) =~= before);
    while i < rows.len()
        invariant
            i <= rows@.len(),
            all == membership_inserts(membership_views(rows@)),
            effect_views(out@) == before + all.take(i as int),
        decreases rows@.len() - i,
    {
        let e = Effect::InsertMembership(
            EmailMailboxRow {
                email_id: rows[i].email_id.clone(),
                mailbox_id: rows[i].mailbox_id.clone(),
                is_primary: rows[i].is_primary,
            },
        );
        proof {
            lemma_pushed(out@, e);
            assert(membership_views(rows@)[i as int] == rows@[i as int]@);
            assert(e@ == all[i as int]);
        }
        out.push(e);
        i += 1;
        assert(effect_views(out@) =~= before + all.take(i as int));
    }
    assert(all.take(i as int) =~= all);
}

// ---------------------------------------------------------------------------
// One message
// ---------------------------------------------------------------------------

/// Where a message is written before it is complete.
pub open spec fn tmp_path(placement: Placement<Seq<char>>, uuid: Seq<char>) -> Seq<char> {
    placement.dir + "/tmp/"@ + (signed_decimal(placement.received_ts as int) + "."@ + uuid)
}

/// A new message is stored, in directories that are made where they are missing, then
/// its row and its memberships are written.
pub open spec fn insert_steps(
    row: EmailRow<Seq<char>>,
    dir: Seq<char>,
    tmp: Seq<char>,
    members: Seq<EmailMailboxRow<Seq<char>>>,
) -> Seq<EffectModel> {
    insert_front(row, dir, tmp) + membership_inserts(members)
}

/// What comes before the memberships of a new message.
pub open spec fn insert_front(row: EmailRow<Seq<char>>, dir: Seq<char>, tmp: Seq<char>) -> Seq<
    EffectModel,
> {
    seq![
        EffectModel::MakeDirectory(dir + "/tmp"@),
        Effect::MakeDirectory(dir + "/cur"@),
        Effect::StoreMessage { tmp, path: row.file_path },
        Effect::InsertEmail(row),
    ]
}

/// A message moves to another mailbox: its file first, then its row, then its
/// memberships.
pub open spec fn move_steps(
    from: Seq<char>,
    dir: Seq<char>,
    row: EmailRow<Seq<char>>,
    held: Seq<EmailMailboxRow<Seq<char>>>,
    members: Seq<EmailMailboxRow<Seq<char>>>,
) -> Seq<EffectModel> {
    seq![
        EffectModel::MakeDirectory(dir + "/cur"@),
        Effect::MoveFile { from, to: row.file_path },
        Effect::UpdateEmail(row),
    ] + membership_deletes(held) + membership_inserts(members)
}

/// A message stays in its mailbox: its file gets its new name, if that differs, then
/// its row is written, then its memberships.
pub open spec fn update_steps(
    from: Seq<char>,
    row: EmailRow<Seq<char>>,
    held: Seq<EmailMailboxRow<Seq<char>>>,
    members: Seq<EmailMailboxRow<Seq<char>>>,
) -> Seq<EffectModel> {
    (if from == row.file_path {
        seq![
            EffectModel::UpdateEmail(row),
        ]
    } else {
        seq![Effect::MoveFile { from, to: row.file_path }, Effect::UpdateEmail(row)]
    }) + membership_deletes(held) + membership_inserts(members)
}

/// A message goes: its file first, then its row.
pub open spec fn delete_steps(id: Seq<char>, path: Seq<char>) -> Seq<EffectModel> {
    seq![
        EffectModel::RemoveFile(path),
        Effect::DeleteEmail(id),
    ]
}

/// The identifier in the name that a message's file has after moving.
pub open spec fn kept_uuid(path: Seq<char>, fresh: Seq<char>) -> Seq<char> {
    match uuid_in(path) {
        Some(u) => u,
        None => fresh,
    }
}

/// What is done about one message. `held` are the memberships that it has, and `id` and
/// `uuid` are new identifiers for what gets one.
pub open spec fn email_steps(
    action: EmailAction<Seq<char>>,
    email: ServerEmail<Seq<char>, Seq<Seq<char>>>,
    existing: Option<EmailRow<Seq<char>>>,
    held: Seq<EmailMailboxRow<Seq<char>>>,
    mailboxes: Map<Seq<char>, MailboxRow<Seq<char>>>,
    id: Seq<char>,
    uuid: Seq<char>,
    now: i64,
) -> Seq<EffectModel> {
    match (action, existing) {
        (EmailAction::Insert { jmap_id, placement, .. }, _) => insert_steps(
            inserted_row(id, jmap_id, email, placement, placed_path(placement, uuid), now),
            placement.dir,
            tmp_path(placement, uuid),
            memberships_of(id, placement.primary_id, email.mailbox_ids, mailboxes),
        ),
        (EmailAction::Move(placement), Some(row)) => move_steps(
            row.file_path,
            placement.dir,
            moved_email(row, placement, kept_uuid(row.file_path, uuid), now),
            held,
            memberships_of(row.id, placement.primary_id, email.mailbox_ids, mailboxes),
        ),
        (EmailAction::Update(placement), Some(row)) => update_steps(
            row.file_path,
            updated_email(row, placement, now),
            held,
            memberships_of(row.id, placement.primary_id, email.mailbox_ids, mailboxes),
        ),
        (EmailAction::Delete, Some(row)) => delete_steps(row.id, row.file_path),
        _ => Seq::empty(),
    }
}

/// What is done about a message that goes.
pub fn delete_effects(id: &str, file_path: &str, dry_run: bool) -> (r: Vec<Effect>)
    ensures
        effect_views(r@) == (if dry_run {
            Seq::empty()
        } else {
            delete_steps(id@, file_path@)
        }),
{
    let mut out: Vec<Effect> = Vec::new();
    if !dry_run {
        out.push(Effect::RemoveFile(file_path.to_owned()));
        out.push(Effect::DeleteEmail(id.to_owned()));
        assert(effect_views(out@) =~= delete_steps(id@, file_path@));
    } else {
        assert(effect_views(out@) =~= Seq::empty());
    }
    out
}

fn insert_effects(
    jmap_id: &str,
    placement: &Placement,
    email: &ServerEmail,
    mailboxes: &Keyed<MailboxRow>,
    id: &str,
    uuid: &str,
    now: i64,
) -> (r: Vec<Effect>)
    requires
        mailboxes.wf(),
    ensures
        effect_views(r@) == insert_steps(
            inserted_row(
                id@,
                jmap_id@,
                email@,
                placement@,
                placed_path(placement@, uuid@),
                now,
            ),
            placement@.dir,
            tmp_path(placement@, uuid@),
            memberships_of(
                id@,
                placement@.primary_id,
                email@.mailbox_ids,
                row_views(mailboxes@),
            ),
        ),
{
    let path = place_message(placement, uuid);
    let row = insert_email(id.to_owned(), jmap_id, email, placement, path.as_str(), now);
    let members = insert_memberships(
        id,
        placement.primary_id.as_str(),
        &email.mailbox_ids,
        mailboxes,
    );
    let mut tmp: String = placement.dir.clone();
    tmp.append("/tmp/");
    let base = message_basename(placement.received_ts, uuid);
    tmp.append(base.as_str());
    let mut tmp_dir: String = placement.dir.clone();
    tmp_dir.append("/tmp");
    let mut cur_dir: String = placement.dir.clone();
    cur_dir.append("/cur");
    let ghost want = insert_front(row@, placement@.dir, tmp@);
    let mut out: Vec<Effect> = Vec::new();
    out.push(Effect::MakeDirectory(tmp_dir));
    out.push(Effect::MakeDirectory(cur_dir));
    out.push(Effect::StoreMessage { tmp, path });
    out.push(Effect::InsertEmail(row));
    assert(effect_views(out@) =~= want);
    push_membership_inserts(&mut out, &members);
    out
}

fn move_effects(
    row: &EmailRow,
    placement: &Placement,
    email: &ServerEmail,
    held: &Vec<EmailMailboxRow>,
    mailboxes: &Keyed<MailboxRow>,
    uuid: &str,
    now: i64,
) -> (r: Vec<Effect>)
    requires
        mailboxes.wf(),
    ensures
        effect_views(r@) == move_steps(
            row@.file_path,
            placement@.dir,
            moved_email(row@, placement@, kept_uuid(row@.file_path, uuid@), now),
            membership_views(held@),
            memberships_of(
                row@.id,
                placement@.primary_id,
                email@.mailbox_ids,
                row_views(mailboxes@),
            ),
        ),
{
    let kept = match extract_uuid(row.file_path.as_str()) {
        Some(u) => u,
        None => uuid.to_owned(),
    };
    let moved = move_email_as(row, placement, kept.as_str(), now);
    let members = insert_memberships(
        row.id.as_str(),
        placement.primary_id.as_str(),
        &email.mailbox_ids,
        mailboxes,
    );
    let mut dir: String = placement.dir.clone();
    dir.append("/cur");
    let ghost want = seq![
        Effect::MakeDirectory(placement@.dir + "/cur"@),
        Effect::MoveFile { from: row@.file_path, to: moved@.file_path },
        Effect::UpdateEmail(moved@),
    ];
    let mut out: Vec<Effect> = Vec::new();
    out.push(Effect::MakeDirectory(dir));
    out.push(Effect::MoveFile { from: row.file_path.clone(), to: moved.file_path.clone() });
    out.push(Effect::UpdateEmail(moved));
    assert(effect_views(out@) =~= want);
    push_membership_deletes(&mut out, held);
    push_membership_inserts(&mut out, &members);
    out
}

fn update_effects(
    row: &EmailRow,
    placement: &Placement,
    email: &ServerEmail,
    held: &Vec<EmailMailboxRow>,
    mailboxes: &Keyed<MailboxRow>,
    now: i64,
) -> (r: Vec<Effect>)
    requires
        mailboxes.wf(),
    ensures
        effect_views(r@) == update_steps(
            row@.file_path,
            updated_email(row@, placement@, now),
            membership_views(held@),
            memberships_of(
                row@.id,
                placement@.primary_id,
                email@.mailbox_ids,
                row_views(mailboxes@),
            ),
        ),
{
    let updated = update_email_in_place(row, placement, now);
    let members = insert_memberships(
        row.id.as_str(),
        placement.primary_id.as_str(),
        &email.mailbox_ids,
        mailboxes,
    );
    let ghost model = updated@;
    let mut out: Vec<Effect> = Vec::new();
    if !str_eq(row.file_path.as_str(), updated.file_path.as_str()) {
        out.push(Effect::MoveFile { from: row.file_path.clone(), to: updated.file_path.clone() });
        out.push(Effect::UpdateEmail(updated));
        assert(effect_views(out@) =~= seq![
            Effect::MoveFile { from: row@.file_path, to: model.file_path },
            Effect::UpdateEmail(model),
        ]);
    } else {
        out.push(Effect::UpdateEmail(updated));
        assert(effect_views(out@) =~= seq![Effect::UpdateEmail(model)]);
    }
    push_membership_deletes(&mut out, held);
    push_membership_inserts(&mut out, &members);
    out
}

/// What is done about one message. `held` are the memberships that it has, and `id` and
/// `uuid` are new identifiers for what gets one. A dry run does nothing.
pub fn email_effects(
    action: &EmailAction,
    email: &ServerEmail,
    existing: Option<&EmailRow>,
    held: &Vec<EmailMailboxRow>,
    mailboxes: &Keyed<MailboxRow>,
    id: &str,
    uuid: &str,
    now: i64,
    dry_run: bool,
) -> (r: Vec<Effect>)
    requires
        mailboxes.wf(),
    ensures
        effect_views(r@) == (if dry_run {
            Seq::empty()
        } else {
            email_steps(
                action@,
                email@,
                opt_email_view(existing),
                membership_views(held@),
                row_views(mailboxes@),
                id@,
                uuid@,
                now,
            )
        }),
{
    let nothing: Vec<Effect> = Vec::new();
    assert(effect_views(nothing@) =~= Seq::empty());
    if dry_run {
        return nothing;
    }
    match (action, existing) {
        (EmailAction::Insert { jmap_id, placement, .. }, _) => insert_effects(
            jmap_id.as_str(),
            placement,
            email,
            mailboxes,
            id,
            uuid,
            now,
        ),
        (EmailAction::Move(placement), Some(row)) => move_effects(
            row,
            placement,
            email,
            held,
            mailboxes,
            uuid,
            now,
        ),
        (EmailAction::Update(placement), Some(row)) => update_effects(
            row,
            placement,
            email,
            held,
            mailboxes,
            now,
        ),
        (EmailAction::Delete, Some(row)) => delete_effects(
            row.id.as_str(),
            row.file_path.as_str(),
            false,
        ),
        _ => nothing,
    }
}

// ---------------------------------------------------------------------------
// Messages without a mailbox
// ---------------------------------------------------------------------------

/// The message has a membership.
pub open spec fn has_membership(
    id: Seq<char>,
    members: Seq<EmailMailboxRow<Seq<char>>>,
) -> bool {
    exists|i: int| 0 <= i < members.len() && (#[trigger] members[i]).email_id == id
}

/// The messages that have lost their last membership, by id and file.
pub open spec fn orphans(
    emails: Seq<EmailRow<Seq<char>>>,
    members: Seq<EmailMailboxRow<Seq<char>>>,
) -> Seq<(Seq<char>, Seq<char>)>
    decreases emails.len(),
{
    if emails.len() == 0 {
        Seq::empty()
    } else {
        let before = orphans(emails.drop_last(), members);
        if has_membership(emails.last().id, members) {
            before
        } else {
            before.push((emails.last().id, emails.last().file_path))
        }
    }
}

/// The views of rows.
pub open spec fn email_views(v: Seq<EmailRow>) -> Seq<EmailRow<Seq<char>>> {
    v.map_values(|r: EmailRow| r@)
}

fn is_member(id: &str, members: &Vec<EmailMailboxRow>) -> (r: bool)
    ensures
        r == has_membership(id@, membership_views(members@)),
{
    let ghost mv = membership_views(members@);
    let mut i: usize = 0;
    while i < members.len()
        invariant
            i <= members@.len(),
            mv == membership_views(members@),
            forall|j: int| 0 <= j < i ==> (#[trigger] mv[j]).email_id != id@,
        decreases members@.len() - i,
    {
        assert(mv[i as int] == members@[i as int]@);
        if str_eq(members[i].email_id.as_str(), id) {
            assert(mv[i as int].email_id == id@);
            return true;
        }
        i += 1;
    }
    false
}

/// The messages that have lost their last membership, by id and file.
pub fn orphaned_emails(emails: &Vec<EmailRow>, members: &Vec<EmailMailboxRow>) -> (r: Vec<
    (String, String),
>)
    ensures
        pair_views(r@) == orphans(email_views(emails@), membership_views(members@)),
{
    let ghost ev = email_views(emails@);
    let ghost mv = membership_views(members@);
    let mut out: Vec<(String, String)> = Vec::new();
    let mut i: usize = 0;
    assert(ev.take(0) =~= Seq::empty());
    assert(pair_views(out@) =~= Seq::empty());
    while i < emails.len()
        invariant
            i <= emails@.len(),
            ev == email_views(emails@),
            mv == membership_views(members@),
            pair_views(out@) == orphans(ev.take(i as int), mv),
        decreases emails@.len() - i,
    {
        let ghost before = pair_views(out@);
        assert(ev.take(i + 1).drop_last() =~= ev.take(i as int));
        assert(ev.take(i + 1).last() == emails@[i as int]@);
        if !is_member(emails[i].id.as_str(), members) {
            out.push((emails[i].id.clone(), emails[i].file_path.clone()));
            assert(pair_views(out@) =~= before.push((ev[i as int].id, ev[i as int].file_path)));
        }
        i += 1;
    }
    assert(ev.take(i as int) =~= ev);
    out
}

// ---------------------------------------------------------------------------
// One mailbox
// ---------------------------------------------------------------------------

/// The three directories of a mailbox are made.
pub open spec fn maildir_steps(path: Seq<char>) -> Seq<EffectModel> {
    seq![
        EffectModel::MakeDirectory(path + "/cur"@),
        Effect::MakeDirectory(path + "/new"@),
        Effect::MakeDirectory(path + "/tmp"@),
    ]
}

fn below(path: &str, name: &str) -> (r: Effect)
    ensures
        r@ == EffectModel::MakeDirectory(path@ + name@),
{
    let mut dir: String = path.to_owned();
    dir.append(name);
    Effect::MakeDirectory(dir)
}

fn push_maildir(out: &mut Vec<Effect>, path: &str)
    ensures
        effect_views(final(out)@) == effect_views(old(out)@) + maildir_steps(path@),
{
    let ghost before = effect_views(out@);
    out.push(below(path, "/cur"));
    out.push(below(path, "/new"));
    out.push(below(path, "/tmp"));
    assert(effect_views(out@) =~= before + maildir_steps(path@));
}

/// What is done about a mailbox that is new: its directories first, then its row.
pub fn create_mailbox_effects(row: MailboxRow, dry_run: bool) -> (r: Vec<Effect>)
    ensures
        effect_views(r@) == (if dry_run {
            Seq::empty()
        } else {
            maildir_steps(row@.path).push(EffectModel::InsertMailbox(row@))
        }),
{
    let mut out: Vec<Effect> = Vec::new();
    if !dry_run {
        let ghost want = maildir_steps(row@.path).push(EffectModel::InsertMailbox(row@));
        assert(effect_views(out@) =~= Seq::empty());
        push_maildir(&mut out, row.path.as_str());
        out.push(Effect::InsertMailbox(row));
        assert(effect_views(out@) =~= want);
    } else {
        assert(effect_views(out@) =~= Seq::empty());
    }
    out
}

/// What replacing a mailbox's row by another takes: its directory first, then the row.
pub open spec fn replace_steps(
    old_path: Seq<char>,
    row: MailboxRow<Seq<char>>,
    old_exists: bool,
) -> Seq<EffectModel> {
    if old_path == row.path {
        seq![EffectModel::UpdateMailbox(row)]
    } else if old_exists {
        seq![
            EffectModel::MoveTree { from: old_path, to: row.path },
            EffectModel::UpdateMailbox(row),
        ]
    } else {
        maildir_steps(row.path).push(EffectModel::UpdateMailbox(row))
    }
}

/// What replacing a mailbox's row by another takes, by whether the old directory is
/// there.
pub fn update_mailbox_effects(
    existing: &MailboxRow,
    new_row: MailboxRow,
    old_exists: bool,
    dry_run: bool,
) -> (r: Vec<Effect>)
    ensures
        effect_views(r@) == (if dry_run {
            Seq::empty()
        } else {
            replace_steps(existing@.path, new_row@, old_exists)
        }),
{
    let mut out: Vec<Effect> = Vec::new();
    if dry_run {
        assert(effect_views(out@) =~= Seq::empty());
        return out;
    }
    let ghost want = replace_steps(existing@.path, new_row@, old_exists);
    assert(effect_views(out@) =~= Seq::empty());
    match update_mailbox(existing, &new_row, old_exists) {
        DirectoryStep::Stay => {},
        DirectoryStep::Rename => {
            out.push(Effect::MoveTree { from: existing.path.clone(), to: new_row.path.clone() });
        },
        DirectoryStep::Create => {
            push_maildir(&mut out, new_row.path.as_str());
        },
    }
    out.push(Effect::UpdateMailbox(new_row));
    assert(effect_views(out@) =~= want);
    out
}

/// What is done about a mailbox that goes: its directory first, then its row.
pub fn delete_mailbox_effects(row: &MailboxRow, dry_run: bool) -> (r: Vec<Effect>)
    ensures
        effect_views(r@) == (if dry_run {
            Seq::empty()
        } else {
            seq![EffectModel::RemoveTree(row@.path), EffectModel::DeleteMailbox(row@.id)]
        }),
{
    let mut out: Vec<Effect> = Vec::new();
    if !dry_run {
        out.push(Effect::RemoveTree(row.path.clone()));
        out.push(Effect::DeleteMailbox(row.id.clone()));
        assert(effect_views(out@) =~= seq![
            EffectModel::RemoveTree(row@.path),
            EffectModel::DeleteMailbox(row@.id),
        ]);
    } else {
        assert(effect_views(out@) =~= Seq::empty());
    }
    out
}

// ---------------------------------------------------------------------------
// What becomes of the local messages
// ---------------------------------------------------------------------------

/// The local messages: the files that are there, the rows by their ids, and the
/// memberships by the ids of the message and of the mailbox, with whether the mailbox is
/// the message's primary one.
#[verifier::ext_equal]
pub struct Store {
    pub files: Set<Seq<char>>,
    pub emails: Map<Seq<char>, EmailRow<Seq<char>>>,
    pub members: Map<(Seq<char>, Seq<char>), bool>,
}

/// The file stands in the directory, however far down.
pub open spec fn is_below(path: Seq<char>, dir: Seq<char>) -> bool {
    has_prefix(path, dir + "/"@)
}

/// The local messages after an effect. A directory that goes takes along what is in it,
/// one that moves takes it to its new place, and a mailbox's row takes along the
/// memberships. Directories that are made and other rows of mailboxes leave the messages
/// as they are.
pub open spec fn performed(s: Store, e: EffectModel) -> Store {
    match e {
        Effect::StoreMessage { tmp, path } => Store { files: s.files.insert(path), ..s },
        Effect::MoveFile { from, to } => if s.files.contains(from) {
            Store { files: s.files.remove(from).insert(to), ..s }
        } else {
            s
        },
        Effect::RemoveFile(path) => Store { files: s.files.remove(path), ..s },
        Effect::InsertEmail(row) => Store { emails: s.emails.insert(row.id, row), ..s },
        Effect::UpdateEmail(row) => Store { emails: s.emails.insert(row.id, row), ..s },
        Effect::DeleteEmail(id) => Store {
            emails: s.emails.remove(id),
            members: s.members.remove_keys(Set::new(|m: (Seq<char>, Seq<char>)| m.0 == id)),
            ..s
        },
        Effect::InsertMembership(m) => Store {
            members: s.members.insert((m.email_id, m.mailbox_id), m.is_primary),
            ..s
        },
        Effect::DeleteMembership { email_id, mailbox_id } => Store {
            members: s.members.remove((email_id, mailbox_id)),
            ..s
        },
        Effect::MoveTree { from, to } => Store {
            files: Set::new(
                |path: Seq<char>|
                    s.files.contains(path) && !is_below(path, from) || is_below(path, to)
                        && s.files.contains(from + path.skip(to.len() as int)),
            ),
            ..s
        },
        Effect::RemoveTree(dir) => Store {
            files: s.files.filter(|path: Seq<char>| !is_below(path, dir)),
            ..s
        },
        Effect::DeleteMailbox(id) => Store {
            members: s.members.remove_keys(Set::new(|m: (Seq<char>, Seq<char>)| m.1 == id)),
            ..s
        },
        Effect::MakeDirectory(_) => s,
        Effect::InsertMailbox(_) => s,
        Effect::UpdateMailbox(_) => s,
    }
}

/// The local messages after a list of effects.
pub open spec fn all_performed(s: Store, effects: Seq<EffectModel>) -> Store
    decreases effects.len(),
{
    if effects.len() == 0 {
        s
    } else {
        performed(all_performed(s, effects.drop_last()), effects.last())
    }
}

/// Every row has its file, and no two rows have the same.
pub open spec fn is_sound(s: Store) -> bool {
    &&& forall|id: Seq<char>| #[trigger]
        s.emails.contains_key(id) ==> s.emails[id].id == id && s.files.contains(
            s.emails[id].file_path,
        )
    &&& forall|a: Seq<char>, b: Seq<char>|
        #[trigger] s.emails.contains_key(a) && #[trigger] s.emails.contains_key(b) && a != b
            ==> s.emails[a].file_path != s.emails[b].file_path
}

/// The file belongs to no message but this one.
pub open spec fn is_free_for(s: Store, path: Seq<char>, id: Seq<char>) -> bool {
    forall|other: Seq<char>| #[trigger]
        s.emails.contains_key(other) && other != id ==> s.emails[other].file_path != path
}

proof fn lemma_performed_concat(s: Store, a: Seq<EffectModel>, b: Seq<EffectModel>)
    ensures
        all_performed(s, a + b) == all_performed(all_performed(s, a), b),
    decreases b.len(),
{
    if b.len() == 0 {
        assert(a + b =~= a);
    } else {
        assert((a + b).drop_last() =~= a + b.drop_last());
        lemma_performed_concat(s, a, b.drop_last());
    }
}

/// One of the rows is the membership.
pub open spec fn is_listed(rows: Seq<EmailMailboxRow<Seq<char>>>, m: (Seq<char>, Seq<char>)) -> bool {
    exists|i: int|
        0 <= i < rows.len() && (#[trigger] rows[i]).email_id == m.0 && rows[i].mailbox_id == m.1
}

proof fn lemma_listed_last(rows: Seq<EmailMailboxRow<Seq<char>>>, m: (Seq<char>, Seq<char>))
    requires
        rows.len() > 0,
    ensures
        is_listed(rows, m) <==> is_listed(rows.drop_last(), m) || rows.last().email_id == m.0
            && rows.last().mailbox_id == m.1,
{
    let d = rows.drop_last();
    if is_listed(d, m) {
        let i = choose|i: int|
            0 <= i < d.len() && (#[trigger] d[i]).email_id == m.0 && d[i].mailbox_id == m.1;
        assert(rows[i] == d[i]);
    }
    if is_listed(rows, m) {
        let i = choose|i: int|
            0 <= i < rows.len() && (#[trigger] rows[i]).email_id == m.0 && rows[i].mailbox_id
                == m.1;
        if i < d.len() {
            assert(d[i] == rows[i]);
        }
    }
    assert(rows[rows.len() - 1] == rows.last());
}

/// Memberships that go leave files, rows and the others alone.
proof fn lemma_deletes(s: Store, held: Seq<EmailMailboxRow<Seq<char>>>)
    ensures
        ({
            let t = all_performed(s, membership_deletes(held));
            &&& t.files == s.files
            &&& t.emails == s.emails
            &&& forall|m: (Seq<char>, Seq<char>)| #[trigger]
                t.members.contains_key(m) <==> s.members.contains_key(m) && !is_listed(held, m)
            &&& forall|m: (Seq<char>, Seq<char>)|
                #![trigger t.members[m]]
                t.members.contains_key(m) ==> t.members[m] == s.members[m]
        }),
    decreases held.len(),
{
    let steps = membership_deletes(held);
    if held.len() > 0 {
        let d = held.drop_last();
        lemma_deletes(s, d);
        assert(steps.drop_last() =~= membership_deletes(d));
        let prior = all_performed(s, membership_deletes(d)).members;
        let last = held.last();
        assert(all_performed(s, steps).members == prior.remove((last.email_id, last.mailbox_id)));
        assert forall|m: (Seq<char>, Seq<char>)| #[trigger]
            all_performed(s, steps).members.contains_key(m) <==> s.members.contains_key(m)
                && !is_listed(held, m) by {
            lemma_listed_last(held, m);
            assert(prior.contains_key(m) <==> s.members.contains_key(m) && !is_listed(d, m));
        }
    }
}

/// Memberships that come leave files, rows and the others alone.
proof fn lemma_inserts(s: Store, rows: Seq<EmailMailboxRow<Seq<char>>>, primary_id: Seq<char>)
    requires
        forall|i: int|
            0 <= i < rows.len() ==> (#[trigger] rows[i]).is_primary == (rows[i].mailbox_id
                == primary_id),
    ensures
        ({
            let t = all_performed(s, membership_inserts(rows));
            &&& t.files == s.files
            &&& t.emails == s.emails
            &&& forall|m: (Seq<char>, Seq<char>)| #[trigger]
                t.members.contains_key(m) <==> s.members.contains_key(m) || is_listed(rows, m)
            &&& forall|m: (Seq<char>, Seq<char>)|
                #![trigger t.members[m]]
                t.members.contains_key(m) ==> t.members[m] == (if is_listed(rows, m) {
                    m.1 == primary_id
                } else {
                    s.members[m]
                })
        }),
    decreases rows.len(),
{
    let steps = membership_inserts(rows);
    if rows.len() > 0 {
        let d = rows.drop_last();
        assert forall|i: int| 0 <= i < d.len() implies (#[trigger] d[i]).is_primary == (
        d[i].mailbox_id == primary_id) by {
            assert(d[i] == rows[i]);
        }
        lemma_inserts(s, d, primary_id);
        assert(steps.drop_last() =~= membership_inserts(d));
        let prior = all_performed(s, membership_inserts(d)).members;
        let last = rows.last();
        assert(rows[rows.len() - 1] == last);
        let t = all_performed(s, steps);
        assert(t.members == prior.insert((last.email_id, last.mailbox_id), last.is_primary));
        assert forall|m: (Seq<char>, Seq<char>)| #[trigger] t.members.contains_key(m)
            <==> s.members.contains_key(m) || is_listed(rows, m) by {
            lemma_listed_last(rows, m);
            assert(prior.contains_key(m) <==> s.members.contains_key(m) || is_listed(d, m));
        }
        assert forall|m: (Seq<char>, Seq<char>)|
            #![trigger t.members[m]]
            t.members.contains_key(m) implies t.members[m] == (if is_listed(rows, m) {
            m.1 == primary_id
        } else {
            s.members[m]
        }) by {
            lemma_listed_last(rows, m);
            if m != (last.email_id, last.mailbox_id) {
                assert(t.members[m] == prior[m]);
            }
        }
    }
}

/// Files and rows are as they are before the memberships.
proof fn lemma_files_after(
    s: Store,
    front: Seq<EffectModel>,
    held: Seq<EmailMailboxRow<Seq<char>>>,
    members: Seq<EmailMailboxRow<Seq<char>>>,
    primary_id: Seq<char>,
)
    requires
        forall|i: int|
            0 <= i < members.len() ==> (#[trigger] members[i]).is_primary == (members[i].mailbox_id
                == primary_id),
    ensures
        ({
            let t = all_performed(
                s,
                front + membership_deletes(held) + membership_inserts(members),
            );
            t.files == all_performed(s, front).files && t.emails == all_performed(s, front).emails
        }),
{
    lemma_performed_concat(s, front + membership_deletes(held), membership_inserts(members));
    lemma_performed_concat(s, front, membership_deletes(held));
    let mid = all_performed(s, front);
    lemma_deletes(mid, held);
    lemma_inserts(all_performed(mid, membership_deletes(held)), members, primary_id);
}

/// The row of the message that an action leaves behind, if it leaves one.
pub open spec fn row_after(
    action: EmailAction<Seq<char>>,
    email: ServerEmail<Seq<char>, Seq<Seq<char>>>,
    existing: Option<EmailRow<Seq<char>>>,
    id: Seq<char>,
    uuid: Seq<char>,
    now: i64,
) -> Option<EmailRow<Seq<char>>> {
    match (action, existing) {
        (EmailAction::Insert { jmap_id, placement, .. }, _) => Some(
            inserted_row(id, jmap_id, email, placement, placed_path(placement, uuid), now),
        ),
        (EmailAction::Move(placement), Some(row)) => Some(
            moved_email(row, placement, kept_uuid(row.file_path, uuid), now),
        ),
        (EmailAction::Update(placement), Some(row)) => Some(updated_email(row, placement, now)),
        (EmailAction::Delete, _) => None,
        (_, row) => row,
    }
}

/// The store knows the message as `existing` says, and a new one not at all.
pub open spec fn is_known(
    s: Store,
    action: EmailAction<Seq<char>>,
    existing: Option<EmailRow<Seq<char>>>,
    id: Seq<char>,
) -> bool {
    match existing {
        Some(row) => s.emails.contains_key(row.id) && s.emails[row.id] == row && !(action is Insert),
        None => action is Insert ==> !s.emails.contains_key(id),
    }
}

/// What is done about a message leaves every row with a file of its own, if it was so
/// before and the name that the message's file gets is not that of another. The
/// message has the row and the file that it is to have, and no other file; the others
/// have theirs.
pub proof fn law_rows_keep_their_files(
    s: Store,
    action: EmailAction<Seq<char>>,
    email: ServerEmail<Seq<char>, Seq<Seq<char>>>,
    existing: Option<EmailRow<Seq<char>>>,
    held: Seq<EmailMailboxRow<Seq<char>>>,
    mailboxes: Map<Seq<char>, MailboxRow<Seq<char>>>,
    id: Seq<char>,
    uuid: Seq<char>,
    now: i64,
)
    requires
        is_sound(s),
        is_known(s, action, existing, id),
        match row_after(action, email, existing, id, uuid, now) {
            Some(row) => is_free_for(s, row.file_path, row.id),
            None => true,
        },
    ensures
        ({
            let t = all_performed(
                s,
                email_steps(action, email, existing, held, mailboxes, id, uuid, now),
            );
            &&& is_sound(t)
            &&& match (existing, row_after(action, email, existing, id, uuid, now)) {
                (Some(old), Some(row)) => t.emails == s.emails.insert(row.id, row) && t.files
                    == s.files.remove(old.file_path).insert(row.file_path),
                (None, Some(row)) => t.emails == s.emails.insert(row.id, row) && t.files
                    == s.files.insert(row.file_path),
                (Some(old), None) => t.emails == s.emails.remove(old.id) && t.files
                    == s.files.remove(old.file_path),
                (None, None) => t.emails == s.emails && t.files == s.files,
            }
        }),
{
    let steps = email_steps(action, email, existing, held, mailboxes, id, uuid, now);
    match (action, existing) {
        (EmailAction::Insert { jmap_id, placement, .. }, _) => {
            let row = inserted_row(id, jmap_id, email, placement, placed_path(placement, uuid), now);
            let members = memberships_of(id, placement.primary_id, email.mailbox_ids, mailboxes);
            lemma_members_of_one(id, placement.primary_id, email.mailbox_ids, mailboxes);
            let front = insert_front(row, placement.dir, tmp_path(placement, uuid));
            lemma_performed_concat(s, front, membership_inserts(members));
            lemma_stored(s, row, placement.dir, tmp_path(placement, uuid));
            lemma_inserts(all_performed(s, front), members, placement.primary_id);
        },
        (EmailAction::Move(placement), Some(old)) => {
            let row = moved_email(old, placement, kept_uuid(old.file_path, uuid), now);
            let members = memberships_of(
                old.id,
                placement.primary_id,
                email.mailbox_ids,
                mailboxes,
            );
            lemma_members_of_one(old.id, placement.primary_id, email.mailbox_ids, mailboxes);
            let front = seq![
                EffectModel::MakeDirectory(placement.dir + "/cur"@),
                EffectModel::MoveFile { from: old.file_path, to: row.file_path },
                EffectModel::UpdateEmail(row),
            ];
            assert(front.drop_last() =~= seq![front[0], front[1]]);
            lemma_two(s, front[0], front[1]);
            lemma_files_after(s, front, held, members, placement.primary_id);
        },
        (EmailAction::Update(placement), Some(old)) => {
            let row = updated_email(old, placement, now);
            let members = memberships_of(
                old.id,
                placement.primary_id,
                email.mailbox_ids,
                mailboxes,
            );
            lemma_members_of_one(old.id, placement.primary_id, email.mailbox_ids, mailboxes);
            if old.file_path == row.file_path {
                let front = seq![EffectModel::UpdateEmail(row)];
                assert(front.drop_last() =~= Seq::empty());
                assert(all_performed(s, front.drop_last()) == s);
                lemma_files_after(s, front, held, members, placement.primary_id);
            } else {
                let front = seq![
                    EffectModel::MoveFile { from: old.file_path, to: row.file_path },
                    EffectModel::UpdateEmail(row),
                ];
                lemma_two(s, front[0], front[1]);
                lemma_files_after(s, front, held, members, placement.primary_id);
            }
        },
        (EmailAction::Delete, Some(old)) => {
            lemma_two(
                s,
                EffectModel::RemoveFile(old.file_path),
                EffectModel::DeleteEmail(old.id),
            );
        },
        (_, Some(old)) => {
            assert(s.emails.insert(old.id, old) =~= s.emails);
            assert(s.files.remove(old.file_path).insert(old.file_path) =~= s.files);
        },
        _ => {},
    }
}

proof fn lemma_two(s: Store, a: EffectModel, b: EffectModel)
    ensures
        all_performed(s, seq![a, b]) == performed(performed(s, a), b),
{
    let two = seq![a, b];
    assert(two.drop_last() =~= seq![a]);
    assert(seq![a].drop_last() =~= Seq::empty());
    assert(all_performed(s, seq![a].drop_last()) == s);
    assert(all_performed(s, seq![a]) == performed(s, a));
}

/// What a new message's file and row come to.
proof fn lemma_stored(s: Store, row: EmailRow<Seq<char>>, dir: Seq<char>, tmp: Seq<char>)
    ensures
        all_performed(s, insert_front(row, dir, tmp)) == (Store {
            files: s.files.insert(row.file_path),
            emails: s.emails.insert(row.id, row),
            members: s.members,
        }),
{
    let front = insert_front(row, dir, tmp);
    let made = seq![front[0], front[1]];
    let kept = seq![front[2], front[3]];
    assert(front =~= made + kept);
    lemma_performed_concat(s, made, kept);
    lemma_two(s, front[0], front[1]);
    lemma_two(s, front[2], front[3]);
}

proof fn lemma_members_of_one(
    email_id: Seq<char>,
    primary_id: Seq<char>,
    ids: Seq<Seq<char>>,
    mailboxes: Map<Seq<char>, MailboxRow<Seq<char>>>,
)
    ensures
        ({
            let ms = memberships_of(email_id, primary_id, ids, mailboxes);
            forall|i: int|
                0 <= i < ms.len() ==> (#[trigger] ms[i]).email_id == email_id && ms[i].is_primary
                    == (ms[i].mailbox_id == primary_id)
        }),
    decreases ids.len(),
{
    if ids.len() > 0 {
        let before = memberships_of(email_id, primary_id, ids.drop_last(), mailboxes);
        let ms = memberships_of(email_id, primary_id, ids, mailboxes);
        lemma_members_of_one(email_id, primary_id, ids.drop_last(), mailboxes);
        assert forall|i: int| 0 <= i < ms.len() implies (#[trigger] ms[i]).email_id == email_id
            && ms[i].is_primary == (ms[i].mailbox_id == primary_id) by {
            if i < before.len() {
                assert(ms[i] == before[i]);
            }
        }
    }
}

/// `held` are the memberships that the store has for the message.
pub open spec fn are_held(
    s: Store,
    email_id: Seq<char>,
    held: Seq<EmailMailboxRow<Seq<char>>>,
) -> bool {
    &&& forall|i: int| 0 <= i < held.len() ==> (#[trigger] held[i]).email_id == email_id
    &&& forall|mailbox_id: Seq<char>| #[trigger]
        s.members.contains_key((email_id, mailbox_id)) ==> exists|i: int|
            0 <= i < held.len() && (#[trigger] held[i]).mailbox_id == mailbox_id
}

proof fn lemma_reconciled(
    s: Store,
    email_id: Seq<char>,
    primary_id: Seq<char>,
    ids: Seq<Seq<char>>,
    held: Seq<EmailMailboxRow<Seq<char>>>,
    mailboxes: Map<Seq<char>, MailboxRow<Seq<char>>>,
)
    requires
        are_held(s, email_id, held),
    ensures
        is_reconciled(
            s,
            all_performed(
                all_performed(s, membership_deletes(held)),
                membership_inserts(memberships_of(email_id, primary_id, ids, mailboxes)),
            ),
            email_id,
            primary_id,
            ids,
            mailboxes,
        ),
{
    let ms = memberships_of(email_id, primary_id, ids, mailboxes);
    let mid = all_performed(s, membership_deletes(held));
    let t = all_performed(mid, membership_inserts(ms));
    lemma_members_of_one(email_id, primary_id, ids, mailboxes);
    lemma_deletes(s, held);
    lemma_inserts(mid, ms, primary_id);
    assert forall|mailbox_id: Seq<char>| #[trigger]
        t.members.contains_key((email_id, mailbox_id)) <==> is_expected(
            mailbox_id,
            ids,
            mailboxes,
        ) by {
        lemma_memberships(email_id, primary_id, ids, mailboxes, mailbox_id);
        let m = (email_id, mailbox_id);
        if mid.members.contains_key(m) {
            assert(s.members.contains_key((email_id, mailbox_id)));
            let i = choose|i: int|
                0 <= i < held.len() && (#[trigger] held[i]).mailbox_id == mailbox_id;
            assert(held[i].email_id == m.0 && held[i].mailbox_id == m.1);
        }
        if exists|i: int| 0 <= i < ms.len() && (#[trigger] ms[i]).mailbox_id == mailbox_id {
            let i = choose|i: int| 0 <= i < ms.len() && (#[trigger] ms[i]).mailbox_id == mailbox_id;
            assert(ms[i].email_id == m.0 && ms[i].mailbox_id == m.1);
        }
    }
    assert forall|mailbox_id: Seq<char>|
        #![trigger t.members[(email_id, mailbox_id)]]
        t.members.contains_key((email_id, mailbox_id)) implies t.members[(email_id, mailbox_id)]
        == (mailbox_id == primary_id) by {
        let m = (email_id, mailbox_id);
        if !is_listed(ms, m) {
            assert(mid.members.contains_key(m));
            assert(s.members.contains_key((email_id, mailbox_id)));
            let i = choose|i: int|
                0 <= i < held.len() && (#[trigger] held[i]).mailbox_id == mailbox_id;
            assert(held[i].email_id == m.0 && held[i].mailbox_id == m.1);
        }
    }
    assert forall|m: (Seq<char>, Seq<char>)| m.0 != email_id implies !is_listed(ms, m) && !(
    #[trigger] is_listed(held, m)) by {}
    assert forall|m: (Seq<char>, Seq<char>)| m.0 != email_id implies (
    #[trigger] t.members.contains_key(m) <==> s.members.contains_key(m)) by {
        assert(!is_listed(held, m));
    }
    assert forall|m: (Seq<char>, Seq<char>)|
        #![trigger t.members[m]]
        m.0 != email_id && s.members.contains_key(m) implies t.members[m] == s.members[m] by {
        assert(!is_listed(held, m));
        assert(mid.members.contains_key(m));
        assert(t.members.contains_key(m));
        assert(mid.members[m] == s.members[m]);
    }
}

/// The message is in the mailboxes that it is to be in, with the right one marked as
/// primary, and the others are where they were.
pub open spec fn is_reconciled(
    s: Store,
    t: Store,
    email_id: Seq<char>,
    primary_id: Seq<char>,
    ids: Seq<Seq<char>>,
    mailboxes: Map<Seq<char>, MailboxRow<Seq<char>>>,
) -> bool {
    &&& forall|mailbox_id: Seq<char>| #[trigger]
        t.members.contains_key((email_id, mailbox_id)) <==> is_expected(mailbox_id, ids, mailboxes)
    &&& forall|mailbox_id: Seq<char>|
        #![trigger t.members[(email_id, mailbox_id)]]
        t.members.contains_key((email_id, mailbox_id)) ==> t.members[(email_id, mailbox_id)] == (
        mailbox_id == primary_id)
    &&& forall|m: (Seq<char>, Seq<char>)|
        m.0 != email_id ==> (#[trigger] t.members.contains_key(m) <==> s.members.contains_key(m))
    &&& forall|m: (Seq<char>, Seq<char>)|
        #![trigger t.members[m]]
        m.0 != email_id && s.members.contains_key(m) ==> t.members[m] == s.members[m]
}

/// What comes before the memberships does not matter to them.
proof fn lemma_reconciled_after(
    s: Store,
    front: Seq<EffectModel>,
    email_id: Seq<char>,
    primary_id: Seq<char>,
    ids: Seq<Seq<char>>,
    held: Seq<EmailMailboxRow<Seq<char>>>,
    mailboxes: Map<Seq<char>, MailboxRow<Seq<char>>>,
)
    requires
        are_held(s, email_id, held),
        all_performed(s, front).members == s.members,
    ensures
        is_reconciled(
            s,
            all_performed(
                s,
                front + membership_deletes(held) + membership_inserts(
                    memberships_of(email_id, primary_id, ids, mailboxes),
                ),
            ),
            email_id,
            primary_id,
            ids,
            mailboxes,
        ),
{
    let ms = memberships_of(email_id, primary_id, ids, mailboxes);
    lemma_performed_concat(s, front + membership_deletes(held), membership_inserts(ms));
    lemma_performed_concat(s, front, membership_deletes(held));
    let mid = all_performed(s, front);
    assert(are_held(mid, email_id, held));
    lemma_reconciled(mid, email_id, primary_id, ids, held, mailboxes);
}

/// The primary mailbox of a message that comes or changes.
pub open spec fn primary_in(action: EmailAction<Seq<char>>) -> Seq<char> {
    match action {
        EmailAction::Insert { placement, .. } => placement.primary_id,
        EmailAction::Move(placement) => placement.primary_id,
        EmailAction::Update(placement) => placement.primary_id,
        _ => Seq::empty(),
    }
}

/// After what is done about a message that comes or stays, it is in the mailboxes that
/// the server has it in, as far as these are synced, and in no others, and its primary
/// one is marked. The others stay where they are.
pub proof fn law_memberships_follow_the_server(
    s: Store,
    action: EmailAction<Seq<char>>,
    email: ServerEmail<Seq<char>, Seq<Seq<char>>>,
    existing: Option<EmailRow<Seq<char>>>,
    held: Seq<EmailMailboxRow<Seq<char>>>,
    mailboxes: Map<Seq<char>, MailboxRow<Seq<char>>>,
    id: Seq<char>,
    uuid: Seq<char>,
    now: i64,
)
    requires
        match existing {
            Some(row) => are_held(s, row.id, held) && (action is Move || action is Update),
            None => are_held(s, id, Seq::empty()) && action is Insert,
        },
    ensures
        is_reconciled(
            s,
            all_performed(
                s,
                email_steps(action, email, existing, held, mailboxes, id, uuid, now),
            ),
            match existing {
                Some(row) => row.id,
                None => id,
            },
            primary_in(action),
            email.mailbox_ids,
            mailboxes,
        ),
{
    match (action, existing) {
        (EmailAction::Insert { jmap_id, placement, .. }, _) => {
            let row = inserted_row(id, jmap_id, email, placement, placed_path(placement, uuid), now);
            let front = insert_front(row, placement.dir, tmp_path(placement, uuid));
            lemma_stored(s, row, placement.dir, tmp_path(placement, uuid));
            let none = Seq::<EmailMailboxRow<Seq<char>>>::empty();
            assert(front + membership_deletes(none) =~= front);
            lemma_reconciled_after(
                s,
                front,
                id,
                placement.primary_id,
                email.mailbox_ids,
                none,
                mailboxes,
            );
        },
        (EmailAction::Move(placement), Some(old)) => {
            let row = moved_email(old, placement, kept_uuid(old.file_path, uuid), now);
            let front = seq![
                EffectModel::MakeDirectory(placement.dir + "/cur"@),
                EffectModel::MoveFile { from: old.file_path, to: row.file_path },
                EffectModel::UpdateEmail(row),
            ];
            assert(front.drop_last() =~= seq![front[0], front[1]]);
            lemma_two(s, front[0], front[1]);
            lemma_reconciled_after(
                s,
                front,
                old.id,
                placement.primary_id,
                email.mailbox_ids,
                held,
                mailboxes,
            );
        },
        (EmailAction::Update(placement), Some(old)) => {
            let row = updated_email(old, placement, now);
            if old.file_path == row.file_path {
                let front = seq![EffectModel::UpdateEmail(row)];
                assert(front.drop_last() =~= Seq::empty());
                assert(all_performed(s, front.drop_last()) == s);
                lemma_reconciled_after(
                    s,
                    front,
                    old.id,
                    placement.primary_id,
                    email.mailbox_ids,
                    held,
                    mailboxes,
                );
            } else {
                let front = seq![
                    EffectModel::MoveFile { from: old.file_path, to: row.file_path },
                    EffectModel::UpdateEmail(row),
                ];
                lemma_two(s, front[0], front[1]);
                lemma_reconciled_after(
                    s,
                    front,
                    old.id,
                    placement.primary_id,
                    email.mailbox_ids,
                    held,
                    mailboxes,
                );
            }
        },
        _ => {},
    }
}

/// A message that goes leaves nothing behind: no file, no row and no membership. The
/// others stay as they are.
pub proof fn law_deleted_message_is_gone(s: Store, id: Seq<char>, path: Seq<char>)
    ensures
        ({
            let t = all_performed(s, delete_steps(id, path));
            &&& t.files == s.files.remove(path)
            &&& t.emails == s.emails.remove(id)
            &&& t.members == s.members.remove_keys(
                Set::new(|m: (Seq<char>, Seq<char>)| m.0 == id),
            )
        }),
{
    lemma_two(s, EffectModel::RemoveFile(path), EffectModel::DeleteEmail(id));
}

// ---------------------------------------------------------------------------
// Messages that go with their mailbox
// ---------------------------------------------------------------------------

/// The local messages once those of the list are removed.
pub open spec fn cleaned(s: Store, gone: Seq<(Seq<char>, Seq<char>)>) -> Store
    decreases gone.len(),
{
    if gone.len() == 0 {
        s
    } else {
        all_performed(
            cleaned(s, gone.drop_last()),
            delete_steps(gone.last().0, gone.last().1),
        )
    }
}

/// The message is on the list.
pub open spec fn is_among(gone: Seq<(Seq<char>, Seq<char>)>, id: Seq<char>) -> bool {
    exists|i: int| 0 <= i < gone.len() && (#[trigger] gone[i]).0 == id
}

proof fn lemma_cleaned(s: Store, gone: Seq<(Seq<char>, Seq<char>)>)
    ensures
        ({
            let t = cleaned(s, gone);
            &&& forall|id: Seq<char>| #[trigger]
                t.emails.contains_key(id) <==> s.emails.contains_key(id) && !is_among(gone, id)
            &&& forall|id: Seq<char>|
                #![trigger t.emails[id]]
                t.emails.contains_key(id) ==> t.emails[id] == s.emails[id]
            &&& forall|m: (Seq<char>, Seq<char>)| #[trigger]
                t.members.contains_key(m) <==> s.members.contains_key(m) && !is_among(gone, m.0)
            &&& forall|m: (Seq<char>, Seq<char>)|
                #![trigger t.members[m]]
                t.members.contains_key(m) ==> t.members[m] == s.members[m]
            &&& forall|path: Seq<char>| #[trigger]
                t.files.contains(path) <==> s.files.contains(path) && !(exists|i: int|
                    0 <= i < gone.len() && (#[trigger] gone[i]).1 == path)
        }),
    decreases gone.len(),
{
    if gone.len() > 0 {
        let d = gone.drop_last();
        let last = gone.last();
        lemma_cleaned(s, d);
        let mid = cleaned(s, d);
        law_deleted_message_is_gone(mid, last.0, last.1);
        let t = cleaned(s, gone);
        assert(gone[gone.len() - 1] == last);
        assert forall|id: Seq<char>| #[trigger] is_among(gone, id) <==> is_among(d, id) || id
            == last.0 by {
            if is_among(gone, id) {
                let i = choose|i: int| 0 <= i < gone.len() && (#[trigger] gone[i]).0 == id;
                if i < d.len() {
                    assert(d[i] == gone[i]);
                }
            }
            if is_among(d, id) {
                let i = choose|i: int| 0 <= i < d.len() && (#[trigger] d[i]).0 == id;
                assert(gone[i] == d[i]);
            }
        }
        assert forall|path: Seq<char>| #[trigger]
            t.files.contains(path) <==> s.files.contains(path) && !(exists|i: int|
                0 <= i < gone.len() && (#[trigger] gone[i]).1 == path) by {
            if exists|i: int| 0 <= i < d.len() && (#[trigger] d[i]).1 == path {
                let i = choose|i: int| 0 <= i < d.len() && (#[trigger] d[i]).1 == path;
                assert(gone[i] == d[i]);
            }
            if exists|i: int| 0 <= i < gone.len() && (#[trigger] gone[i]).1 == path {
                let i = choose|i: int| 0 <= i < gone.len() && (#[trigger] gone[i]).1 == path;
                if i < d.len() {
                    assert(d[i] == gone[i]);
                }
            }
            assert(mid.files.contains(path) <==> s.files.contains(path) && !(exists|i: int|
                0 <= i < d.len() && (#[trigger] d[i]).1 == path));
        }
        assert forall|m: (Seq<char>, Seq<char>)| #[trigger] t.members.contains_key(m)
            <==> s.members.contains_key(m) && !is_among(gone, m.0) by {
            assert(mid.members.contains_key(m) <==> s.members.contains_key(m) && !is_among(d, m.0));
        }
        assert forall|id: Seq<char>| #[trigger] t.emails.contains_key(id)
            <==> s.emails.contains_key(id) && !is_among(gone, id) by {
            assert(mid.emails.contains_key(id) <==> s.emails.contains_key(id) && !is_among(d, id));
        }
        assert forall|m: (Seq<char>, Seq<char>)|
            #![trigger t.members[m]]
            t.members.contains_key(m) implies t.members[m] == s.members[m] by {
            assert(mid.members.contains_key(m));
            assert(mid.members[m] == s.members[m]);
        }
        assert forall|id: Seq<char>|
            #![trigger t.emails[id]]
            t.emails.contains_key(id) implies t.emails[id] == s.emails[id] by {
            assert(mid.emails.contains_key(id));
            assert(mid.emails[id] == s.emails[id]);
        }
    }
}

/// The orphans are the listed messages without a membership, by id and file.
proof fn lemma_orphans(
    emails: Seq<EmailRow<Seq<char>>>,
    members: Seq<EmailMailboxRow<Seq<char>>>,
    row: EmailRow<Seq<char>>,
)
    ensures
        emails.contains(row) && !has_membership(row.id, members) ==> orphans(
            emails,
            members,
        ).contains((row.id, row.file_path)),
        forall|i: int|
            0 <= i < orphans(emails, members).len() ==> exists|j: int|
                0 <= j < emails.len() && (#[trigger] emails[j]).id == (#[trigger] orphans(
                    emails,
                    members,
                )[i]).0 && emails[j].file_path == orphans(emails, members)[i].1 && !has_membership(
                    emails[j].id,
                    members,
                ),
    decreases emails.len(),
{
    if emails.len() > 0 {
        let d = emails.drop_last();
        let before = orphans(d, members);
        let all = orphans(emails, members);
        lemma_orphans(d, members, row);
        assert(emails[emails.len() - 1] == emails.last());
        if emails.contains(row) && !has_membership(row.id, members) {
            let k = choose|k: int| 0 <= k < emails.len() && emails[k] == row;
            if k < d.len() {
                assert(d[k] == row);
                assert(d.contains(row));
                let i = choose|i: int|
                    0 <= i < before.len() && before[i] == (row.id, row.file_path);
                assert(all[i] == before[i]);
            } else {
                assert(all[all.len() - 1] == (row.id, row.file_path));
            }
        }
        assert forall|i: int| 0 <= i < all.len() implies exists|j: int|
            0 <= j < emails.len() && (#[trigger] emails[j]).id == (#[trigger] all[i]).0
                && emails[j].file_path == all[i].1 && !has_membership(emails[j].id, members) by {
            if i < before.len() {
                assert(all[i] == before[i]);
                let j = choose|j: int|
                    0 <= j < d.len() && (#[trigger] d[j]).id == before[i].0 && d[j].file_path
                        == before[i].1 && !has_membership(d[j].id, members);
                assert(emails[j] == d[j]);
            } else {
                assert(emails[emails.len() - 1].id == all[i].0);
            }
        }
    }
}

/// The rows and the memberships are those of the store.
pub open spec fn are_listed(
    s: Store,
    emails: Seq<EmailRow<Seq<char>>>,
    members: Seq<EmailMailboxRow<Seq<char>>>,
) -> bool {
    &&& forall|id: Seq<char>| #[trigger]
        s.emails.contains_key(id) ==> s.emails[id].id == id && emails.contains(s.emails[id])
    &&& forall|i: int|
        0 <= i < emails.len() ==> s.emails.contains_key((#[trigger] emails[i]).id)
            && s.emails[emails[i].id] == emails[i]
    &&& forall|m: (Seq<char>, Seq<char>)| #[trigger]
        s.members.contains_key(m) <==> is_listed(members, m)
}

/// The message is in a mailbox other than this one.
pub open spec fn is_elsewhere(s: Store, id: Seq<char>, mailbox_id: Seq<char>) -> bool {
    exists|other: Seq<char>| #[trigger]
        s.members.contains_key((id, other)) && other != mailbox_id
}

/// A mailbox that goes takes along the messages that stood in it alone: once its
/// directory and its row are gone and the messages without a mailbox are removed, a
/// message is left exactly if it was in another mailbox, and then it is still there. Of
/// a message that went, no file and no membership is left.
pub proof fn law_mailbox_takes_its_messages_along(
    s: Store,
    mailbox: MailboxRow<Seq<char>>,
    emails: Seq<EmailRow<Seq<char>>>,
    members: Seq<EmailMailboxRow<Seq<char>>>,
)
    requires
        are_listed(
            all_performed(
                s,
                seq![EffectModel::RemoveTree(mailbox.path), EffectModel::DeleteMailbox(mailbox.id)],
            ),
            emails,
            members,
        ),
    ensures
        ({
            let mid = all_performed(
                s,
                seq![EffectModel::RemoveTree(mailbox.path), EffectModel::DeleteMailbox(mailbox.id)],
            );
            let t = cleaned(mid, orphans(emails, members));
            &&& forall|id: Seq<char>| #[trigger]
                t.emails.contains_key(id) <==> s.emails.contains_key(id) && is_elsewhere(
                    s,
                    id,
                    mailbox.id,
                )
            &&& forall|id: Seq<char>|
                #![trigger t.emails[id]]
                t.emails.contains_key(id) ==> t.emails[id] == s.emails[id]
            &&& forall|m: (Seq<char>, Seq<char>)| #[trigger]
                t.members.contains_key(m) <==> s.members.contains_key(m) && m.1 != mailbox.id
            &&& forall|id: Seq<char>| #[trigger]
                s.emails.contains_key(id) && !t.emails.contains_key(id) ==> !t.files.contains(
                    s.emails[id].file_path,
                )
            &&& forall|path: Seq<char>| #[trigger]
                t.files.contains(path) ==> s.files.contains(path) && !is_below(path, mailbox.path)
        }),
{
    let a = EffectModel::RemoveTree(mailbox.path);
    let b = EffectModel::DeleteMailbox(mailbox.id);
    lemma_two(s, a, b);
    let mid = all_performed(s, seq![a, b]);
    let gone = orphans(emails, members);
    lemma_cleaned(mid, gone);
    let t = cleaned(mid, gone);
    assert forall|m: (Seq<char>, Seq<char>)| #[trigger] mid.members.contains_key(m)
        <==> s.members.contains_key(m) && m.1 != mailbox.id by {}
    assert forall|id: Seq<char>| #[trigger] has_membership(id, members) <==> is_elsewhere(
        s,
        id,
        mailbox.id,
    ) by {
        if has_membership(id, members) {
            let i = choose|i: int| 0 <= i < members.len() && (#[trigger] members[i]).email_id == id;
            let m = (id, members[i].mailbox_id);
            assert(is_listed(members, m));
            assert(mid.members.contains_key(m));
            assert(s.members.contains_key((id, members[i].mailbox_id)));
        }
        if is_elsewhere(s, id, mailbox.id) {
            let other = choose|other: Seq<char>| #[trigger]
                s.members.contains_key((id, other)) && other != mailbox.id;
            let m = (id, other);
            assert(mid.members.contains_key(m));
            assert(is_listed(members, m));
            let i = choose|i: int|
                0 <= i < members.len() && (#[trigger] members[i]).email_id == m.0
                    && members[i].mailbox_id == m.1;
            assert(members[i].email_id == id);
        }
    }
    assert forall|id: Seq<char>| s.emails.contains_key(id) implies (#[trigger] is_among(gone, id)
        <==> !is_elsewhere(s, id, mailbox.id)) && (is_among(gone, id) ==> !t.files.contains(
        s.emails[id].file_path,
    )) by {
        let row = s.emails[id];
        assert(mid.emails.contains_key(id));
        lemma_orphans(emails, members, row);
        assert(has_membership(id, members) <==> is_elsewhere(s, id, mailbox.id));
        if !is_elsewhere(s, id, mailbox.id) {
            let i = choose|i: int| 0 <= i < gone.len() && gone[i] == (row.id, row.file_path);
            assert(gone[i].0 == id);
            assert(gone[i].1 == row.file_path);
        }
        if is_among(gone, id) {
            let i = choose|i: int| 0 <= i < gone.len() && (#[trigger] gone[i]).0 == id;
            let j = choose|j: int|
                0 <= j < emails.len() && (#[trigger] emails[j]).id == gone[i].0
                    && emails[j].file_path == gone[i].1 && !has_membership(emails[j].id, members);
            assert(emails[j].id == id);
        }
    }
    assert forall|m: (Seq<char>, Seq<char>)| #[trigger] t.members.contains_key(m)
        <==> s.members.contains_key(m) && m.1 != mailbox.id by {
        if mid.members.contains_key(m) && is_among(gone, m.0) {
            let i = choose|i: int| 0 <= i < gone.len() && (#[trigger] gone[i]).0 == m.0;
            lemma_orphans(emails, members, emails[0]);
            let j = choose|j: int|
                0 <= j < emails.len() && (#[trigger] emails[j]).id == gone[i].0
                    && emails[j].file_path == gone[i].1 && !has_membership(emails[j].id, members);
            assert(is_listed(members, m));
            let k = choose|k: int|
                0 <= k < members.len() && (#[trigger] members[k]).email_id == m.0
                    && members[k].mailbox_id == m.1;
            assert(has_membership(m.0, members));
        }
    }
    assert forall|id: Seq<char>| #[trigger] t.emails.contains_key(id) <==> s.emails.contains_key(id)
        && is_elsewhere(s, id, mailbox.id) by {
        if s.emails.contains_key(id) {
            assert(is_among(gone, id) <==> !is_elsewhere(s, id, mailbox.id));
        }
    }
    assert forall|id: Seq<char>| #[trigger] s.emails.contains_key(id)
        && !t.emails.contains_key(id) implies !t.files.contains(s.emails[id].file_path) by {
        assert(is_among(gone, id));
    }
}

// ---------------------------------------------------------------------------
// The order of what is done
// ---------------------------------------------------------------------------

/// A dry run does nothing, whatever was decided.
pub proof fn law_dry_run_does_nothing(
    action: &EmailAction,
    email: &ServerEmail,
    existing: Option<&EmailRow>,
    held: &Vec<EmailMailboxRow>,
    mailboxes: &Keyed<MailboxRow>,
    id: &str,
    uuid: &str,
    now: i64,
    row: MailboxRow,
    other: &MailboxRow,
    old_exists: bool,
    a: Vec<Effect>,
    b: Vec<Effect>,
    c: Vec<Effect>,
    d: Vec<Effect>,
    e: Vec<Effect>,
)
    requires
        call_ensures(
            email_effects,
            (action, email, existing, held, mailboxes, id, uuid, now, true),
            a,
        ),
        call_ensures(create_mailbox_effects, (row, true), b),
        call_ensures(update_mailbox_effects, (other, row, old_exists, true), c),
        call_ensures(delete_mailbox_effects, (other, true), d),
        call_ensures(delete_effects, (id, uuid, true), e),
    ensures
        a@.len() == 0,
        b@.len() == 0,
        c@.len() == 0,
        d@.len() == 0,
        e@.len() == 0,
{
    assert(effect_views(a@).len() == a@.len());
    assert(effect_views(b@).len() == b@.len());
    assert(effect_views(c@).len() == c@.len());
    assert(effect_views(d@).len() == d@.len());
    assert(effect_views(e@).len() == e@.len());
}

/// A message that is as it should be, or that is none of ours, is not touched.
pub proof fn law_nothing_is_done_without_need(
    action: EmailAction<Seq<char>>,
    email: ServerEmail<Seq<char>, Seq<Seq<char>>>,
    existing: Option<EmailRow<Seq<char>>>,
    held: Seq<EmailMailboxRow<Seq<char>>>,
    mailboxes: Map<Seq<char>, MailboxRow<Seq<char>>>,
    id: Seq<char>,
    uuid: Seq<char>,
    now: i64,
)
    ensures
        email_steps(action, email, existing, held, mailboxes, id, uuid, now).len() == 0
            <==> action is Keep || action is Ignore || existing is None && action !is Insert,
{
}

/// The file comes before the row: when a row of a message is written, its file has its name
/// already, and a row goes only after its file. What is written of a message is one row.
pub proof fn law_file_comes_before_its_row(
    action: EmailAction<Seq<char>>,
    email: ServerEmail<Seq<char>, Seq<Seq<char>>>,
    existing: Option<EmailRow<Seq<char>>>,
    held: Seq<EmailMailboxRow<Seq<char>>>,
    mailboxes: Map<Seq<char>, MailboxRow<Seq<char>>>,
    id: Seq<char>,
    uuid: Seq<char>,
    now: i64,
    j: int,
)
    requires
        0 <= j < email_steps(action, email, existing, held, mailboxes, id, uuid, now).len(),
    ensures
        ({
            let steps = email_steps(action, email, existing, held, mailboxes, id, uuid, now);
            &&& steps[j] is InsertEmail ==> action is Insert && exists|i: int|
                0 <= i < j && (#[trigger] steps[i]) is StoreMessage && steps[i]->path
                    == steps[j]->InsertEmail_0.file_path
            &&& steps[j] is UpdateEmail ==> existing is Some && (steps[j]->UpdateEmail_0.file_path
                == existing->0.file_path && action is Update || exists|i: int|
                0 <= i < j && (#[trigger] steps[i]) is MoveFile && steps[i]->MoveFile_from
                    == existing->0.file_path && steps[i]->MoveFile_to
                    == steps[j]->UpdateEmail_0.file_path)
            &&& steps[j] is DeleteEmail ==> existing is Some && action is Delete && exists|i: int|
                0 <= i < j && #[trigger] steps[i] == EffectModel::RemoveFile(existing->0.file_path)
            &&& steps[j] is RemoveFile ==> action is Delete
            &&& steps[j] is StoreMessage ==> action is Insert
            &&& steps[j] is MoveFile ==> action is Move || action is Update
                && steps[j]->MoveFile_from != steps[j]->MoveFile_to
            &&& steps[j] !is RemoveTree && steps[j] !is MoveTree
            &&& steps[j] !is InsertMailbox && steps[j] !is UpdateMailbox
            &&& steps[j] !is DeleteMailbox
        }),
{
    let steps = email_steps(action, email, existing, held, mailboxes, id, uuid, now);
    match (action, existing) {
        (EmailAction::Insert { jmap_id, placement, .. }, _) => {
            let row = inserted_row(id, jmap_id, email, placement, placed_path(placement, uuid), now);
            let members = memberships_of(id, placement.primary_id, email.mailbox_ids, mailboxes);
            let tmp = tmp_path(placement, uuid);
            assert(steps[2] == (EffectModel::StoreMessage { tmp, path: row.file_path }));
            if j >= 4 {
                assert(steps[j] == membership_inserts(members)[j - 4]);
            }
        },
        (EmailAction::Move(placement), Some(row)) => {
            let moved = moved_email(row, placement, kept_uuid(row.file_path, uuid), now);
            let members = memberships_of(row.id, placement.primary_id, email.mailbox_ids, mailboxes);
            assert(steps[1] == (EffectModel::MoveFile { from: row.file_path, to: moved.file_path }));
            if j >= 3 + held.len() {
                assert(steps[j] == membership_inserts(members)[j - 3 - held.len()]);
            } else if j >= 3 {
                assert(steps[j] == membership_deletes(held)[j - 3]);
            }
        },
        (EmailAction::Update(placement), Some(row)) => {
            let updated = updated_email(row, placement, now);
            let members = memberships_of(row.id, placement.primary_id, email.mailbox_ids, mailboxes);
            let n: int = if row.file_path == updated.file_path {
                1
            } else {
                2
            };
            if n == 2 {
                assert(steps[0] == (EffectModel::MoveFile {
                    from: row.file_path,
                    to: updated.file_path,
                }));
            }
            if j >= n + held.len() {
                assert(steps[j] == membership_inserts(members)[j - n - held.len()]);
            } else if j >= n {
                assert(steps[j] == membership_deletes(held)[j - n]);
            }
        },
        (EmailAction::Delete, Some(row)) => {
            assert(steps[0] == EffectModel::RemoveFile(row.file_path));
        },
        _ => {},
    }
}

/// Every directory that a message's file is put into is made before, and a message is
/// written to the temporary directory of its own mailbox, under the name that it is to have
/// but for the flags.
pub proof fn law_directories_are_there_in_time(
    jmap_id: Seq<char>,
    blob_id: Seq<char>,
    placement: Placement<Seq<char>>,
    email: ServerEmail<Seq<char>, Seq<Seq<char>>>,
    held: Seq<EmailMailboxRow<Seq<char>>>,
    mailboxes: Map<Seq<char>, MailboxRow<Seq<char>>>,
    row: EmailRow<Seq<char>>,
    id: Seq<char>,
    uuid: Seq<char>,
    now: i64,
)
    ensures
        ({
            let steps = email_steps(
                EmailAction::Insert { jmap_id, blob_id, placement },
                email,
                None,
                held,
                mailboxes,
                id,
                uuid,
                now,
            );
            exists|a: int, b: int, c: int|
                {
                    &&& 0 <= a < c && 0 <= b < c < steps.len()
                    &&& #[trigger] steps[a] == EffectModel::MakeDirectory(placement.dir + "/tmp"@)
                    &&& #[trigger] steps[b] == EffectModel::MakeDirectory(placement.dir + "/cur"@)
                    &&& #[trigger] steps[c] == (EffectModel::StoreMessage {
                        tmp: placement.dir + "/tmp/"@ + (signed_decimal(
                            placement.received_ts as int,
                        ) + "."@ + uuid),
                        path: placed_path(placement, uuid),
                    })
                }
        }),
        ({
            let steps = email_steps(
                EmailAction::Move(placement),
                email,
                Some(row),
                held,
                mailboxes,
                id,
                uuid,
                now,
            );
            exists|a: int, c: int|
                {
                    &&& 0 <= a < c < steps.len()
                    &&& #[trigger] steps[a] == EffectModel::MakeDirectory(placement.dir + "/cur"@)
                    &&& (#[trigger] steps[c]) is MoveFile
                }
        }),
        placed_path(placement, uuid) == placement.dir + "/cur/"@ + (signed_decimal(
            placement.received_ts as int,
        ) + "."@ + uuid) + ":2,"@ + placement.flags,
{
    let one = email_steps(
        EmailAction::Insert { jmap_id, blob_id, placement },
        email,
        None,
        held,
        mailboxes,
        id,
        uuid,
        now,
    );
    assert(one[0] == EffectModel::MakeDirectory(placement.dir + "/tmp"@));
    assert(one[1] == EffectModel::MakeDirectory(placement.dir + "/cur"@));
    assert(one[2] is StoreMessage);
    let two = email_steps(
        EmailAction::Move(placement),
        email,
        Some(row),
        held,
        mailboxes,
        id,
        uuid,
        now,
    );
    assert(two[0] == EffectModel::MakeDirectory(placement.dir + "/cur"@));
    assert(two[1] is MoveFile);
    assert(placed_path(placement, uuid) =~= placement.dir + "/cur/"@ + (signed_decimal(
        placement.received_ts as int,
    ) + "."@ + uuid) + ":2,"@ + placement.flags);
}

/// The messages that are removed for want of a mailbox are those that have none, each with
/// its own file, in the order in which they are listed.
pub proof fn law_orphans_are_those_without_a_mailbox(
    emails: Seq<EmailRow<Seq<char>>>,
    members: Seq<EmailMailboxRow<Seq<char>>>,
)
    ensures
        ({
            let left = emails.filter(
                |e: EmailRow<Seq<char>>|
                    forall|i: int| 0 <= i < members.len() ==> (#[trigger] members[i]).email_id != e.id,
            );
            &&& orphans(emails, members).len() == left.len()
            &&& forall|k: int|
                0 <= k < left.len() ==> (#[trigger] orphans(emails, members)[k]).0 == left[k].id
                    && orphans(emails, members)[k].1 == left[k].file_path
        }),
    decreases emails.len(),
{
    reveal(Seq::filter);
    if emails.len() > 0 {
        law_orphans_are_those_without_a_mailbox(emails.drop_last(), members);
    }
}

/// A new mailbox has its three directories before it has its row, and nothing else is done
/// for it.
pub proof fn law_mailbox_has_its_directories(row: MailboxRow, r: Vec<Effect>)
    requires
        call_ensures(create_mailbox_effects, (row, false), r),
    ensures
        r@.len() == 4,
        r@[3]@ == EffectModel::InsertMailbox(row@),
        effect_views(r@).contains(EffectModel::MakeDirectory(row.path@ + "/cur"@)),
        effect_views(r@).contains(EffectModel::MakeDirectory(row.path@ + "/new"@)),
        effect_views(r@).contains(EffectModel::MakeDirectory(row.path@ + "/tmp"@)),
{
    let v = effect_views(r@);
    assert(v.len() == r@.len());
    assert(v[0] == EffectModel::MakeDirectory(row.path@ + "/cur"@));
    assert(v[1] == EffectModel::MakeDirectory(row.path@ + "/new"@));
    assert(v[2] == EffectModel::MakeDirectory(row.path@ + "/tmp"@));
    assert(v[3] == r@[3]@);
}

/// A mailbox's row is replaced last. Its directory moves exactly if its path changes and the
/// directory is there; if it is not there, the three are made at the new place; if the path
/// stays, the disk is left alone.
pub proof fn law_directory_moves_before_the_row(
    existing: &MailboxRow,
    row: MailboxRow,
    old_exists: bool,
    r: Vec<Effect>,
)
    requires
        call_ensures(update_mailbox_effects, (existing, row, old_exists, false), r),
    ensures
        r@.len() > 0,
        r@.last()@ == EffectModel::UpdateMailbox(row@),
        existing.path@ == row.path@ ==> r@.len() == 1,
        existing.path@ != row.path@ && old_exists ==> r@.len() == 2 && r@[0]@ == (
        EffectModel::MoveTree { from: existing.path@, to: row.path@ }),
        existing.path@ != row.path@ && !old_exists ==> r@.len() == 4 && effect_views(r@).contains(
            EffectModel::MakeDirectory(row.path@ + "/cur"@),
        ) && effect_views(r@).contains(EffectModel::MakeDirectory(row.path@ + "/new"@))
            && effect_views(r@).contains(EffectModel::MakeDirectory(row.path@ + "/tmp"@)),
{
    let v = effect_views(r@);
    assert(v.len() == r@.len());
    assert(v[0] == r@[0]@);
    assert(v[v.len() - 1] == r@[r@.len() - 1]@);
    if existing.path@ != row.path@ && !old_exists {
        assert(v[0] == EffectModel::MakeDirectory(row.path@ + "/cur"@));
        assert(v[1] == EffectModel::MakeDirectory(row.path@ + "/new"@));
        assert(v[2] == EffectModel::MakeDirectory(row.path@ + "/tmp"@));
    }
}

/// A mailbox that goes takes its own directory and its own row, in this order, and no
/// other.
pub proof fn law_mailbox_goes_with_its_directory(row: &MailboxRow, r: Vec<Effect>)
    requires
        call_ensures(delete_mailbox_effects, (row, false), r),
    ensures
        r@.len() == 2,
        r@[0]@ == EffectModel::RemoveTree(row.path@),
        r@[1]@ == EffectModel::DeleteMailbox(row.id@),
{
    let v = effect_views(r@);
    assert(v.len() == r@.len());
    assert(v[0] == r@[0]@);
    assert(v[1] == r@[1]@);
}

/// A message that moves to another mailbox keeps the identifier in its file's name, and is
/// given a new one only if it has none.
pub proof fn law_identifier_is_kept(path: Seq<char>, fresh: Seq<char>)
    ensures
        uuid_in(path) is Some ==> Some(kept_uuid(path, fresh)) == uuid_in(path),
        uuid_in(path) is None ==> kept_uuid(path, fresh) == fresh,
{
}

} // verus!
