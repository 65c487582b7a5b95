//! What a whole sync of the messages comes to.
//!
//! A sync reads the local rows, removes the messages that the server no longer has, and
//! takes the server's messages in turn. Afterwards there is one row and one file for
//! every message that stands in a mailbox that is synced, and nothing else but rows that
//! the server never knew.

use vstd::prelude::*;

use crate::numbers::signed_decimal;
use crate::search::occurs;
use crate::sync::effects::{all_performed, are_held, delete_steps, email_steps, is_free_for, is_known, is_sound, kept_uuid, primary_in, law_deleted_message_is_gone, law_memberships_follow_the_server, law_rows_keep_their_files, row_after, Store};
use crate::sync::email::{has_drifted, held_mailboxes, is_expected, keywords_text, law_primary_is_preferred, placed_path, placement_of, planned, primary_of, EmailAction, NoBlob, Placement, ServerEmail};
use crate::sync::maildir::{flags_in, flags_of, is_file_id, law_keyword_flags_are_plain, law_uuid_read_back, lemma_flags_at_end, message_path, uuid_in, with_flags};
use crate::sync::rows::{EmailMailboxRow, EmailRow, MailboxRow};

verus! {

// ---------------------------------------------------------------------------
// Local messages in good order
// ---------------------------------------------------------------------------

/// The file has the name of a message, with this identifier in it.
pub open spec fn is_named(path: Seq<char>, uuid: Seq<char>) -> bool {
    &&& is_file_id(uuid)
    &&& exists|dir: Seq<char>, ts: int, flags: Seq<char>|
        !occurs(flags, ":2,"@) && !flags.contains('/') && path == #[trigger] message_path(
            dir,
            ts,
            uuid,
            flags,
        )
}

/// The row stands under its own id and has a file whose name holds an identifier.
pub open spec fn is_in_place(s: Store, id: Seq<char>) -> bool {
    let row = s.emails[id];
    &&& row.id == id
    &&& s.files.contains(row.file_path)
    &&& uuid_in(row.file_path) is Some
    &&& is_named(row.file_path, uuid_in(row.file_path)->0)
}

/// The rows are no one message of the server, and have two files.
pub open spec fn are_apart(a: EmailRow<Seq<char>>, b: EmailRow<Seq<char>>) -> bool {
    (a.jmap_id is Some ==> a.jmap_id != b.jmap_id) && uuid_in(a.file_path) != uuid_in(b.file_path)
}

/// Some row has the file.
pub open spec fn is_owned(s: Store, path: Seq<char>) -> bool {
    exists|id: Seq<char>| #[trigger]
        s.emails.contains_key(id) && s.emails[id].file_path == path
}

/// Every row is in place and apart from the others, every file is that of a row, and
/// every membership is that of a row, and marked if it is in the row's primary mailbox.
/// A row may have no id of the server's.
pub open spec fn is_orderly(s: Store) -> bool {
    &&& forall|id: Seq<char>| #[trigger] s.emails.contains_key(id) ==> is_in_place(s, id)
    &&& forall|a: Seq<char>, b: Seq<char>|
        #[trigger] s.emails.contains_key(a) && #[trigger] s.emails.contains_key(b) && a != b
            ==> are_apart(s.emails[a], s.emails[b])
    &&& forall|path: Seq<char>| #[trigger] s.files.contains(path) ==> is_owned(s, path)
    &&& forall|m: (Seq<char>, Seq<char>)| #[trigger]
        s.members.contains_key(m) ==> s.emails.contains_key(m.0)
    &&& forall|m: (Seq<char>, Seq<char>)|
        #![trigger s.members[m]]
        s.members.contains_key(m) ==> s.members[m] == (m.1 == s.emails[m.0].primary_mailbox)
}

/// The file stands among the messages of the directory.
pub open spec fn is_in(path: Seq<char>, dir: Seq<char>) -> bool {
    exists|ts: int, uuid: Seq<char>, flags: Seq<char>|
        !occurs(flags, ":2,"@) && path == #[trigger] message_path(dir, ts, uuid, flags)
}

/// The message's file stands in the directory of its primary mailbox, if that is synced.
pub open spec fn is_at_home(
    row: EmailRow<Seq<char>>,
    mailboxes: Map<Seq<char>, MailboxRow<Seq<char>>>,
) -> bool {
    forall|k: Seq<char>| #[trigger]
        mailboxes.contains_key(k) && mailboxes[k].id == row.primary_mailbox ==> is_in(
            row.file_path,
            mailboxes[k].path,
        )
}

/// No two mailboxes have one local id.
pub open spec fn are_distinct(mailboxes: Map<Seq<char>, MailboxRow<Seq<char>>>) -> bool {
    forall|j: Seq<char>, k: Seq<char>|
        #[trigger] mailboxes.contains_key(j) && #[trigger] mailboxes.contains_key(k)
            && mailboxes[j].id == mailboxes[k].id ==> j == k
}

/// The row `id` of `t` is at home if it is new, if its primary mailbox has changed, or if
/// it was at home before.
pub open spec fn comes_home(
    s: Store,
    t: Store,
    mailboxes: Map<Seq<char>, MailboxRow<Seq<char>>>,
    id: Seq<char>,
) -> bool {
    (s.emails.contains_key(id) && s.emails[id].primary_mailbox == t.emails[id].primary_mailbox
        ==> is_at_home(s.emails[id], mailboxes)) ==> is_at_home(t.emails[id], mailboxes)
}

/// Every row comes home.
pub open spec fn all_come_home(
    s: Store,
    t: Store,
    mailboxes: Map<Seq<char>, MailboxRow<Seq<char>>>,
) -> bool {
    forall|id: Seq<char>| #[trigger]
        t.emails.contains_key(id) ==> comes_home(s, t, mailboxes, id)
}

proof fn lemma_home_in_two_steps(
    s: Store,
    mid: Store,
    t: Store,
    mailboxes: Map<Seq<char>, MailboxRow<Seq<char>>>,
)
    requires
        all_come_home(s, mid, mailboxes),
        all_come_home(mid, t, mailboxes),
    ensures
        all_come_home(s, t, mailboxes),
{
    assert forall|id: Seq<char>| #[trigger] t.emails.contains_key(id) implies comes_home(
        s,
        t,
        mailboxes,
        id,
    ) by {
        assert(comes_home(mid, t, mailboxes, id));
        if mid.emails.contains_key(id) {
            assert(comes_home(s, mid, mailboxes, id));
        }
    }
}

// ---------------------------------------------------------------------------
// One message's turn
// ---------------------------------------------------------------------------

/// What one message's turn goes by: what the server says of it, the memberships that
/// are read, new identifiers, and the time.
pub struct Turn {
    pub email: ServerEmail<Seq<char>, Seq<Seq<char>>>,
    pub held: Seq<EmailMailboxRow<Seq<char>>>,
    pub id: Seq<char>,
    pub uuid: Seq<char>,
    pub now: i64,
}

/// The row that was read for the message.
pub open spec fn row_read(
    local: Map<Seq<char>, EmailRow<Seq<char>>>,
    email: ServerEmail<Seq<char>, Seq<Seq<char>>>,
) -> Option<EmailRow<Seq<char>>> {
    match email.id {
        Some(k) => if local.contains_key(k) {
            Some(local[k])
        } else {
            None
        },
        None => None,
    }
}

/// What is decided in the turn.
pub open spec fn turn_plan(
    local: Map<Seq<char>, EmailRow<Seq<char>>>,
    mailboxes: Map<Seq<char>, MailboxRow<Seq<char>>>,
    turn: Turn,
) -> Result<EmailAction<Seq<char>>, NoBlob<Seq<char>>> {
    planned(
        turn.email,
        mailboxes,
        row_read(local, turn.email),
        held_mailboxes(turn.held),
        turn.now,
    )
}

/// The local messages after the turn; nothing if the sync ends in it, for a new
/// message that cannot be downloaded.
pub open spec fn turn_taken(
    s: Store,
    local: Map<Seq<char>, EmailRow<Seq<char>>>,
    mailboxes: Map<Seq<char>, MailboxRow<Seq<char>>>,
    turn: Turn,
) -> Option<Store> {
    match turn_plan(local, mailboxes, turn) {
        Ok(action) => Some(
            all_performed(
                s,
                email_steps(
                    action,
                    turn.email,
                    row_read(local, turn.email),
                    turn.held,
                    mailboxes,
                    turn.id,
                    turn.uuid,
                    turn.now,
                ),
            ),
        ),
        Err(_) => None,
    }
}

/// `held` are the memberships that the message has, each once or more often.
pub open spec fn are_read(
    s: Store,
    email_id: Seq<char>,
    held: Seq<EmailMailboxRow<Seq<char>>>,
) -> bool {
    &&& are_held(s, email_id, held)
    &&& forall|i: int|
        0 <= i < held.len() ==> s.members.contains_key((email_id, (#[trigger] held[i]).mailbox_id))
}

/// What the turn goes by is what there is: the memberships are those that are there, and
/// the new identifiers are new.
pub open spec fn is_fair(
    s: Store,
    local: Map<Seq<char>, EmailRow<Seq<char>>>,
    turn: Turn,
) -> bool {
    &&& match row_read(local, turn.email) {
        Some(row) => are_read(s, row.id, turn.held),
        None => true,
    }
    &&& !s.emails.contains_key(turn.id)
    &&& is_file_id(turn.uuid)
    &&& forall|id: Seq<char>| #[trigger]
        s.emails.contains_key(id) ==> uuid_in(s.emails[id].file_path) != Some(turn.uuid)
}

/// The message stands in a mailbox that is synced.
pub open spec fn is_in_scope(
    email: ServerEmail<Seq<char>, Seq<Seq<char>>>,
    mailboxes: Map<Seq<char>, MailboxRow<Seq<char>>>,
) -> bool {
    primary_of(email.mailbox_ids, mailboxes) is Some
}

/// The row is what it should be: that of the message, in the mailbox that is preferred,
/// with its flags, its keywords and its memberships, of which that in the preferred
/// mailbox is marked as primary.
pub open spec fn is_settled(
    s: Store,
    email: ServerEmail<Seq<char>, Seq<Seq<char>>>,
    mailboxes: Map<Seq<char>, MailboxRow<Seq<char>>>,
    id: Seq<char>,
) -> bool {
    let row = s.emails[id];
    &&& s.emails.contains_key(id)
    &&& row.jmap_id == email.id
    &&& row.primary_mailbox == primary_of(email.mailbox_ids, mailboxes)->0.id
    &&& flags_in(row.file_path) == flags_of(email.keywords)
    &&& row.keywords == Some(keywords_text(email.keywords))
    &&& forall|mailbox_id: Seq<char>| #[trigger]
        s.members.contains_key((id, mailbox_id)) <==> is_expected(
            mailbox_id,
            email.mailbox_ids,
            mailboxes,
        )
    &&& forall|mailbox_id: Seq<char>|
        #![trigger s.members[(id, mailbox_id)]]
        s.members.contains_key((id, mailbox_id)) ==> s.members[(id, mailbox_id)] == (mailbox_id
            == row.primary_mailbox)
}

/// The store knows the message by what was read of it.
pub open spec fn is_read_right(
    s: Store,
    existing: Option<EmailRow<Seq<char>>>,
    jmap_id: Seq<char>,
) -> bool {
    match existing {
        Some(row) => s.emails.contains_key(row.id) && s.emails[row.id] == row && row.jmap_id
            == Some(jmap_id),
        None => forall|id: Seq<char>| #[trigger]
            s.emails.contains_key(id) ==> s.emails[id].jmap_id != Some(jmap_id),
    }
}

/// The local id of the message's row.
pub open spec fn row_id(existing: Option<EmailRow<Seq<char>>>, turn: Turn) -> Seq<char> {
    match existing {
        Some(row) => row.id,
        None => turn.id,
    }
}

/// The name that a placement gives to a file holds the identifier.
proof fn lemma_placed_name(
    email: ServerEmail<Seq<char>, Seq<Seq<char>>>,
    placement: Placement<Seq<char>>,
    uuid: Seq<char>,
)
    requires
        is_file_id(uuid),
        placement.flags == flags_of(email.keywords),
    ensures
        uuid_in(placed_path(placement, uuid)) == Some(uuid),
        is_named(placed_path(placement, uuid), uuid),
        flags_in(placed_path(placement, uuid)) == placement.flags,
{
    law_keyword_flags_are_plain(email.keywords);
    let ts = placement.received_ts as int;
    law_uuid_read_back(placement.dir, ts, uuid, placement.flags);
    assert(placed_path(placement, uuid) == message_path(
        placement.dir,
        ts,
        uuid,
        placement.flags,
    ));
    lemma_flags_at_end(
        placement.dir + "/cur/"@ + signed_decimal(ts) + "."@ + uuid,
        placement.flags,
    );
}

/// A file that gets other flags keeps its identifier.
proof fn lemma_reflagged_name(path: Seq<char>, uuid: Seq<char>, flags: Seq<char>)
    requires
        is_named(path, uuid),
        !occurs(flags, ":2,"@),
        !flags.contains('/'),
    ensures
        uuid_in(with_flags(path, flags)) == Some(uuid),
        is_named(with_flags(path, flags), uuid),
        flags_in(with_flags(path, flags)) == flags,
{
    let (dir, ts, had) = choose|dir: Seq<char>, ts: int, had: Seq<char>|
        !occurs(had, ":2,"@) && !had.contains('/') && path == #[trigger] message_path(
            dir,
            ts,
            uuid,
            had,
        );
    let base = dir + "/cur/"@ + signed_decimal(ts) + "."@ + uuid;
    lemma_flags_at_end(base, had);
    lemma_flags_at_end(base, flags);
    assert(with_flags(path, flags) == message_path(dir, ts, uuid, flags));
    law_uuid_read_back(dir, ts, uuid, flags);
}

/// Rows that are apart have two files.
proof fn lemma_orderly_is_sound(s: Store)
    requires
        is_orderly(s),
    ensures
        is_sound(s),
{
    assert forall|id: Seq<char>| #[trigger] s.emails.contains_key(id) implies s.emails[id].id == id
        && s.files.contains(s.emails[id].file_path) by {
        assert(is_in_place(s, id));
    }
    assert forall|a: Seq<char>, b: Seq<char>|
        #[trigger] s.emails.contains_key(a) && #[trigger] s.emails.contains_key(b) && a
            != b implies s.emails[a].file_path != s.emails[b].file_path by {
        assert(are_apart(s.emails[a], s.emails[b]));
    }
}

/// A file that is named after a placement stands in the directory of the mailbox that the
/// placement is for.
proof fn lemma_row_home(
    email: ServerEmail<Seq<char>, Seq<Seq<char>>>,
    mailboxes: Map<Seq<char>, MailboxRow<Seq<char>>>,
    placement: Placement<Seq<char>>,
    row: EmailRow<Seq<char>>,
)
    requires
        are_distinct(mailboxes),
        is_in_scope(email, mailboxes),
        placement.primary_id == primary_of(email.mailbox_ids, mailboxes)->0.id,
        placement.dir == primary_of(email.mailbox_ids, mailboxes)->0.path,
        placement.flags == flags_of(email.keywords),
        row.primary_mailbox == placement.primary_id,
    ensures
        (exists|uuid: Seq<char>| row.file_path == #[trigger] placed_path(placement, uuid))
            ==> is_at_home(row, mailboxes),
{
    law_keyword_flags_are_plain(email.keywords);
    law_primary_is_preferred(email.mailbox_ids, mailboxes);
    let primary = primary_of(email.mailbox_ids, mailboxes)->0;
    if exists|uuid: Seq<char>| row.file_path == #[trigger] placed_path(placement, uuid) {
        let uuid = choose|uuid: Seq<char>| row.file_path == #[trigger] placed_path(placement, uuid);
        assert(row.file_path == message_path(
            placement.dir,
            placement.received_ts as int,
            uuid,
            placement.flags,
        ));
        assert(is_in(row.file_path, primary.path));
    }
}

/// A file that gets other flags stays where it is.
proof fn lemma_reflagged_stays(path: Seq<char>, dir: Seq<char>, flags: Seq<char>)
    requires
        is_in(path, dir),
        !occurs(flags, ":2,"@),
    ensures
        is_in(with_flags(path, flags), dir),
{
    let (ts, uuid, had) = choose|ts: int, uuid: Seq<char>, had: Seq<char>|
        !occurs(had, ":2,"@) && path == #[trigger] message_path(dir, ts, uuid, had);
    let base = dir + "/cur/"@ + signed_decimal(ts) + "."@ + uuid;
    lemma_flags_at_end(base, had);
    assert(with_flags(path, flags) == message_path(dir, ts, uuid, flags));
}

/// The row that a turn leaves behind is the message's, and its file has a name that no
/// other row's file has.
proof fn lemma_row_left(
    s: Store,
    local: Map<Seq<char>, EmailRow<Seq<char>>>,
    mailboxes: Map<Seq<char>, MailboxRow<Seq<char>>>,
    turn: Turn,
)
    requires
        is_orderly(s),
        turn.email.id is Some,
        is_read_right(s, row_read(local, turn.email), turn.email.id->0),
        is_fair(s, local, turn),
        turn_plan(local, mailboxes, turn) is Ok,
        is_in_scope(turn.email, mailboxes),
        are_distinct(mailboxes),
    ensures
        ({
            let existing = row_read(local, turn.email);
            let left = row_after(
                turn_plan(local, mailboxes, turn)->Ok_0,
                turn.email,
                existing,
                turn.id,
                turn.uuid,
                turn.now,
            );
            let row = left->0;
            let rid = row_id(existing, turn);
            &&& left is Some
            &&& row.id == rid
            &&& row.jmap_id == turn.email.id
            &&& row.primary_mailbox == primary_of(turn.email.mailbox_ids, mailboxes)->0.id
            &&& flags_in(row.file_path) == flags_of(turn.email.keywords)
            &&& row.keywords == Some(keywords_text(turn.email.keywords))
            &&& uuid_in(row.file_path) is Some
            &&& is_named(row.file_path, uuid_in(row.file_path)->0)
            &&& forall|id: Seq<char>| #[trigger]
                s.emails.contains_key(id) && id != rid ==> are_apart(s.emails[id], row)
            &&& (existing is Some && existing->0.primary_mailbox == row.primary_mailbox
                ==> is_at_home(existing->0, mailboxes)) ==> is_at_home(row, mailboxes)
        }),
{
    let existing = row_read(local, turn.email);
    let action = turn_plan(local, mailboxes, turn)->Ok_0;
    let placement = placement_of(
        turn.email,
        primary_of(turn.email.mailbox_ids, mailboxes)->0,
        turn.now,
    );
    law_keyword_flags_are_plain(turn.email.keywords);
    let row = row_after(action, turn.email, existing, turn.id, turn.uuid, turn.now)->0;
    lemma_row_home(turn.email, mailboxes, placement, row);
    match existing {
        None => {
            lemma_placed_name(turn.email, placement, turn.uuid);
            assert forall|id: Seq<char>| #[trigger]
                s.emails.contains_key(id) && id != turn.id implies are_apart(s.emails[id], row) by {
                assert(uuid_in(s.emails[id].file_path) != Some(turn.uuid));
            }
        },
        Some(old) => {
            assert(is_in_place(s, old.id));
            let uuid = uuid_in(old.file_path)->0;
            assert(kept_uuid(old.file_path, turn.uuid) == uuid);
            lemma_placed_name(turn.email, placement, uuid);
            lemma_reflagged_name(old.file_path, uuid, placement.flags);
            assert(uuid_in(row.file_path) == Some(uuid));
            if action is Update && is_at_home(old, mailboxes) {
                assert forall|k: Seq<char>| #[trigger]
                    mailboxes.contains_key(k) && mailboxes[k].id == row.primary_mailbox implies is_in(
                    row.file_path,
                    mailboxes[k].path,
                ) by {
                    lemma_reflagged_stays(old.file_path, mailboxes[k].path, placement.flags);
                }
            }
            assert forall|id: Seq<char>| #[trigger]
                s.emails.contains_key(id) && id != old.id implies are_apart(s.emails[id], row) by {
                assert(s.emails.contains_key(old.id));
                assert(are_apart(s.emails[id], s.emails[old.id]));
            }
        },
    }
}

/// Nothing but the row `rid` and its memberships differs.
pub open spec fn differs_at(s: Store, t: Store, rid: Seq<char>) -> bool {
    &&& forall|id: Seq<char>|
        id != rid ==> (#[trigger] t.emails.contains_key(id) <==> s.emails.contains_key(id))
    &&& forall|id: Seq<char>|
        #![trigger t.emails[id]]
        #![trigger s.emails[id]]
        id != rid && s.emails.contains_key(id) ==> t.emails[id] == s.emails[id]
    &&& forall|m: (Seq<char>, Seq<char>)|
        m.0 != rid ==> (#[trigger] t.members.contains_key(m) <==> s.members.contains_key(m))
    &&& forall|m: (Seq<char>, Seq<char>)|
        #![trigger t.members[m]]
        m.0 != rid && s.members.contains_key(m) ==> t.members[m] == s.members[m]
}

/// Replacing a row by one that is apart from the others keeps the order.
proof fn lemma_order_with_row(
    s: Store,
    t: Store,
    old: Option<EmailRow<Seq<char>>>,
    row: EmailRow<Seq<char>>,
)
    requires
        is_orderly(s),
        uuid_in(row.file_path) is Some,
        is_named(row.file_path, uuid_in(row.file_path)->0),
        forall|id: Seq<char>| #[trigger]
            s.emails.contains_key(id) && id != row.id ==> are_apart(s.emails[id], row),
        t.emails == s.emails.insert(row.id, row),
        match old {
            Some(o) => s.emails.contains_key(row.id) && s.emails[row.id] == o && t.files
                == s.files.remove(o.file_path).insert(row.file_path),
            None => !s.emails.contains_key(row.id) && t.files == s.files.insert(row.file_path),
        },
        forall|m: (Seq<char>, Seq<char>)|
            m.0 != row.id ==> (#[trigger] t.members.contains_key(m) <==> s.members.contains_key(m)),
        forall|m: (Seq<char>, Seq<char>)|
            #![trigger t.members[m]]
            m.0 != row.id && s.members.contains_key(m) ==> t.members[m] == s.members[m],
        forall|m: (Seq<char>, Seq<char>)|
            #![trigger t.members[m]]
            m.0 == row.id && t.members.contains_key(m) ==> t.members[m] == (m.1
                == row.primary_mailbox),
    ensures
        is_orderly(t),
{
    assert forall|id: Seq<char>| #[trigger] t.emails.contains_key(id) implies is_in_place(t, id) by {
        if id != row.id {
            assert(s.emails.contains_key(id));
            assert(is_in_place(s, id));
            assert(t.emails[id] == s.emails[id]);
            if old is Some {
                assert(s.emails.contains_key(row.id));
                assert(are_apart(s.emails[id], s.emails[row.id]));
            }
        }
    }
    assert forall|a: Seq<char>, b: Seq<char>|
        #[trigger] t.emails.contains_key(a) && #[trigger] t.emails.contains_key(b) && a
            != b implies are_apart(t.emails[a], t.emails[b]) by {
        if a != row.id {
            assert(s.emails.contains_key(a));
        }
        if b != row.id {
            assert(s.emails.contains_key(b));
        }
    }
    assert forall|path: Seq<char>| #[trigger] t.files.contains(path) implies is_owned(t, path) by {
        if path == row.file_path {
            assert(t.emails.contains_key(row.id) && t.emails[row.id].file_path == path);
        } else {
            assert(s.files.contains(path));
            let id = choose|id: Seq<char>| #[trigger]
                s.emails.contains_key(id) && s.emails[id].file_path == path;
            assert(id != row.id);
            assert(t.emails.contains_key(id) && t.emails[id].file_path == path);
        }
    }
    assert forall|m: (Seq<char>, Seq<char>)| #[trigger]
        t.members.contains_key(m) implies t.emails.contains_key(m.0) by {
        if m.0 != row.id {
            assert(s.members.contains_key(m));
        }
    }
    assert forall|m: (Seq<char>, Seq<char>)|
        #![trigger t.members[m]]
        t.members.contains_key(m) implies t.members[m] == (m.1 == t.emails[m.0].primary_mailbox) by {
        if m.0 != row.id {
            assert(s.members.contains_key(m));
            assert(s.members[m] == t.members[m]);
            assert(s.emails.contains_key(m.0));
        }
    }
}

/// Taking a row away with its file and its memberships keeps the order.
proof fn lemma_order_without_row(s: Store, row: EmailRow<Seq<char>>)
    requires
        is_orderly(s),
        s.emails.contains_key(row.id),
        s.emails[row.id] == row,
    ensures
        ({
            let t = all_performed(s, delete_steps(row.id, row.file_path));
            &&& is_orderly(t)
            &&& t.emails == s.emails.remove(row.id)
            &&& differs_at(s, t, row.id)
        }),
{
    law_deleted_message_is_gone(s, row.id, row.file_path);
    let t = all_performed(s, delete_steps(row.id, row.file_path));
    assert forall|id: Seq<char>| #[trigger] t.emails.contains_key(id) implies is_in_place(t, id) by {
        assert(s.emails.contains_key(id));
        assert(is_in_place(s, id));
        assert(s.emails.contains_key(row.id));
        assert(are_apart(s.emails[id], s.emails[row.id]));
    }
    assert forall|a: Seq<char>, b: Seq<char>|
        #[trigger] t.emails.contains_key(a) && #[trigger] t.emails.contains_key(b) && a
            != b implies are_apart(t.emails[a], t.emails[b]) by {
        assert(s.emails.contains_key(a) && s.emails.contains_key(b));
    }
    assert forall|path: Seq<char>| #[trigger] t.files.contains(path) implies is_owned(t, path) by {
        assert(s.files.contains(path));
        let id = choose|id: Seq<char>| #[trigger]
            s.emails.contains_key(id) && s.emails[id].file_path == path;
        assert(id != row.id);
        assert(t.emails.contains_key(id) && t.emails[id].file_path == path);
    }
    assert forall|m: (Seq<char>, Seq<char>)| #[trigger] t.members.contains_key(m)
        <==> s.members.contains_key(m) && m.0 != row.id by {}
    assert forall|m: (Seq<char>, Seq<char>)|
        #![trigger t.members[m]]
        t.members.contains_key(m) implies t.members[m] == (m.1 == t.emails[m.0].primary_mailbox) by {
        assert(s.members.contains_key(m));
        assert(s.members[m] == t.members[m]);
        assert(s.emails.contains_key(m.0));
    }
}

/// What was read of the memberships of a message that has not drifted is what it is to
/// have.
proof fn lemma_not_drifted(
    s: Store,
    email_id: Seq<char>,
    held: Seq<EmailMailboxRow<Seq<char>>>,
    ids: Seq<Seq<char>>,
    mailboxes: Map<Seq<char>, MailboxRow<Seq<char>>>,
)
    requires
        are_read(s, email_id, held),
        !has_drifted(held_mailboxes(held), ids, mailboxes),
    ensures
        forall|m: Seq<char>| #[trigger]
            s.members.contains_key((email_id, m)) <==> is_expected(m, ids, mailboxes),
{
    let hm = held_mailboxes(held);
    assert forall|m: Seq<char>| #[trigger] s.members.contains_key((email_id, m)) <==> is_expected(
        m,
        ids,
        mailboxes,
    ) by {
        assert(hm.contains(m) == is_expected(m, ids, mailboxes));
        if hm.contains(m) {
            let i = choose|i: int| 0 <= i < hm.len() && hm[i] == m;
            assert(held[i].mailbox_id == m);
        }
        if s.members.contains_key((email_id, m)) {
            let i = choose|i: int| 0 <= i < held.len() && (#[trigger] held[i]).mailbox_id == m;
            assert(hm[i] == m);
        }
    }
}

/// A turn settles its message and leaves the others alone.
proof fn lemma_turn(
    s: Store,
    local: Map<Seq<char>, EmailRow<Seq<char>>>,
    mailboxes: Map<Seq<char>, MailboxRow<Seq<char>>>,
    turn: Turn,
)
    requires
        is_orderly(s),
        turn.email.id is Some,
        is_read_right(s, row_read(local, turn.email), turn.email.id->0),
        is_fair(s, local, turn),
        turn_plan(local, mailboxes, turn) is Ok,
        are_distinct(mailboxes),
    ensures
        ({
            let t = turn_taken(s, local, mailboxes, turn)->0;
            let rid = row_id(row_read(local, turn.email), turn);
            &&& is_orderly(t)
            &&& differs_at(s, t, rid)
            &&& all_come_home(s, t, mailboxes)
            &&& if is_in_scope(turn.email, mailboxes) {
                is_settled(t, turn.email, mailboxes, rid)
            } else {
                !t.emails.contains_key(rid)
            }
        }),
{
    let email = turn.email;
    let existing = row_read(local, email);
    let action = turn_plan(local, mailboxes, turn)->Ok_0;
    let rid = row_id(existing, turn);
    let steps = email_steps(
        action,
        email,
        existing,
        turn.held,
        mailboxes,
        turn.id,
        turn.uuid,
        turn.now,
    );
    let t = all_performed(s, steps);
    lemma_orderly_is_sound(s);
    if is_in_scope(email, mailboxes) {
        lemma_row_left(s, local, mailboxes, turn);
        let row = row_after(action, email, existing, turn.id, turn.uuid, turn.now)->0;
        assert(is_free_for(s, row.file_path, row.id)) by {
            assert forall|other: Seq<char>| #[trigger]
                s.emails.contains_key(other) && other != row.id implies s.emails[other].file_path
                != row.file_path by {
                assert(are_apart(s.emails[other], row));
            }
        }
        assert(is_known(s, action, existing, turn.id));
        law_rows_keep_their_files(
            s,
            action,
            email,
            existing,
            turn.held,
            mailboxes,
            turn.id,
            turn.uuid,
            turn.now,
        );
        if action is Keep {
            assert(steps =~= Seq::empty());
            assert(t == s);
            lemma_not_drifted(s, rid, turn.held, email.mailbox_ids, mailboxes);
        } else {
            if existing is None {
                assert(are_held(s, turn.id, Seq::empty())) by {
                    assert forall|m: Seq<char>| !(#[trigger] s.members.contains_key((turn.id, m))) by {
                        if s.members.contains_key((turn.id, m)) {
                            assert(s.emails.contains_key((turn.id, m).0));
                        }
                    }
                }
            }
            law_memberships_follow_the_server(
                s,
                action,
                email,
                existing,
                turn.held,
                mailboxes,
                turn.id,
                turn.uuid,
                turn.now,
            );
        }
        if action is Keep {
            assert forall|m: (Seq<char>, Seq<char>)|
                #![trigger t.members[m]]
                m.0 == row.id && t.members.contains_key(m) implies t.members[m] == (m.1
                == row.primary_mailbox) by {
                assert(s.members[m] == (m.1 == s.emails[m.0].primary_mailbox));
            }
        } else {
            assert(primary_in(action) == row.primary_mailbox);
            assert forall|m: (Seq<char>, Seq<char>)|
                #![trigger t.members[m]]
                m.0 == row.id && t.members.contains_key(m) implies t.members[m] == (m.1
                == row.primary_mailbox) by {
                assert(m == (rid, m.1));
                assert(t.members[(rid, m.1)] == (m.1 == primary_in(action)));
            }
        }
        lemma_order_with_row(s, t, existing, row);
        assert(all_come_home(s, t, mailboxes)) by {
            assert forall|id: Seq<char>| #[trigger] t.emails.contains_key(id) implies comes_home(
                s,
                t,
                mailboxes,
                id,
            ) by {
                if id != rid {
                    assert(t.emails[id] == s.emails[id]);
                }
            }
        }
    } else {
        match existing {
            Some(row) => {
                lemma_order_without_row(s, row);
            },
            None => {
                assert(steps =~= Seq::empty());
                assert(t == s);
            },
        }
    }
}

// ---------------------------------------------------------------------------
// All messages
// ---------------------------------------------------------------------------

/// The rows that have an id of the server's, by that id.
pub open spec fn is_index(s: Store, local: Map<Seq<char>, EmailRow<Seq<char>>>) -> bool {
    &&& forall|id: Seq<char>| #[trigger]
        s.emails.contains_key(id) && s.emails[id].jmap_id is Some ==> local.contains_key(
            s.emails[id].jmap_id->0,
        ) && local[s.emails[id].jmap_id->0] == s.emails[id]
    &&& forall|k: Seq<char>| #[trigger]
        local.contains_key(k) ==> s.emails.contains_key(local[k].id) && s.emails[local[k].id]
            == local[k] && local[k].jmap_id == Some(k)
}

/// The local messages once those that are gone from the server are removed.
pub open spec fn swept(
    s: Store,
    local: Map<Seq<char>, EmailRow<Seq<char>>>,
    gone: Seq<Seq<char>>,
) -> Store
    decreases gone.len(),
{
    if gone.len() == 0 {
        s
    } else {
        let row = local[gone.last()];
        all_performed(swept(s, local, gone.drop_last()), delete_steps(row.id, row.file_path))
    }
}

/// The local messages after all turns; nothing if the sync ends in one of them.
pub open spec fn turns_taken(
    s: Store,
    local: Map<Seq<char>, EmailRow<Seq<char>>>,
    mailboxes: Map<Seq<char>, MailboxRow<Seq<char>>>,
    turns: Seq<Turn>,
) -> Option<Store>
    decreases turns.len(),
{
    if turns.len() == 0 {
        Some(s)
    } else {
        match turns_taken(s, local, mailboxes, turns.drop_last()) {
            Some(t) => turn_taken(t, local, mailboxes, turns.last()),
            None => None,
        }
    }
}

/// Every turn goes by what there is when it comes.
pub open spec fn are_fair(
    s: Store,
    local: Map<Seq<char>, EmailRow<Seq<char>>>,
    mailboxes: Map<Seq<char>, MailboxRow<Seq<char>>>,
    turns: Seq<Turn>,
) -> bool
    decreases turns.len(),
{
    turns.len() == 0 || {
        &&& are_fair(s, local, mailboxes, turns.drop_last())
        &&& match turns_taken(s, local, mailboxes, turns.drop_last()) {
            Some(t) => is_fair(t, local, turns.last()),
            None => true,
        }
    }
}

/// Every turn is that of a message with an id, and no two are that of the same.
pub open spec fn are_single(turns: Seq<Turn>) -> bool {
    &&& forall|i: int| 0 <= i < turns.len() ==> (#[trigger] turns[i]).email.id is Some
    &&& forall|i: int, j: int|
        0 <= i < j < turns.len() ==> (#[trigger] turns[i]).email.id != (
        #[trigger] turns[j]).email.id
}

/// Some turn is that of the message with this id.
pub open spec fn has_turn(turns: Seq<Turn>, jmap_id: Option<Seq<char>>) -> bool {
    exists|i: int| 0 <= i < turns.len() && (#[trigger] turns[i]).email.id == jmap_id
}

/// The row is settled for one of the turns.
pub open spec fn is_settled_in(
    t: Store,
    mailboxes: Map<Seq<char>, MailboxRow<Seq<char>>>,
    turns: Seq<Turn>,
    id: Seq<char>,
) -> bool {
    exists|i: int|
        0 <= i < turns.len() && is_in_scope((#[trigger] turns[i]).email, mailboxes) && is_settled(
            t,
            turns[i].email,
            mailboxes,
            id,
        )
}

/// The message has a row that is settled.
pub open spec fn has_settled_row(
    t: Store,
    email: ServerEmail<Seq<char>, Seq<Seq<char>>>,
    mailboxes: Map<Seq<char>, MailboxRow<Seq<char>>>,
) -> bool {
    exists|id: Seq<char>| #[trigger] is_settled(t, email, mailboxes, id)
}

/// A row stays settled while another changes.
proof fn lemma_stays_settled(
    s: Store,
    t: Store,
    rid: Seq<char>,
    email: ServerEmail<Seq<char>, Seq<Seq<char>>>,
    mailboxes: Map<Seq<char>, MailboxRow<Seq<char>>>,
    id: Seq<char>,
)
    requires
        differs_at(s, t, rid),
        is_settled(s, email, mailboxes, id),
        id != rid,
    ensures
        is_settled(t, email, mailboxes, id),
{
    assert(t.emails.contains_key(id));
    assert(t.emails[id] == s.emails[id]);
    assert forall|m: Seq<char>| #[trigger] t.members.contains_key((id, m)) <==> is_expected(
        m,
        email.mailbox_ids,
        mailboxes,
    ) by {
        assert((id, m).0 != rid);
        assert(t.members.contains_key((id, m)) <==> s.members.contains_key((id, m)));
    }
    assert forall|m: Seq<char>|
        #![trigger t.members[(id, m)]]
        t.members.contains_key((id, m)) implies t.members[(id, m)] == (m
        == t.emails[id].primary_mailbox) by {
        assert((id, m).0 != rid);
        assert(s.members.contains_key((id, m)));
        assert(t.members[(id, m)] == s.members[(id, m)]);
    }
}

/// The turns settle their messages one after the other.
proof fn lemma_turns(
    s: Store,
    local: Map<Seq<char>, EmailRow<Seq<char>>>,
    mailboxes: Map<Seq<char>, MailboxRow<Seq<char>>>,
    turns: Seq<Turn>,
)
    requires
        is_orderly(s),
        are_distinct(mailboxes),
        are_single(turns),
        forall|i: int|
            0 <= i < turns.len() ==> turn_plan(local, mailboxes, #[trigger] turns[i]) is Ok,
        forall|i: int|
            0 <= i < turns.len() ==> is_read_right(
                s,
                row_read(local, (#[trigger] turns[i]).email),
                turns[i].email.id->0,
            ),
        are_fair(s, local, mailboxes, turns),
    ensures
        ({
            let after = turns_taken(s, local, mailboxes, turns);
            let t = after->0;
            &&& after is Some
            &&& is_orderly(t)
            &&& all_come_home(s, t, mailboxes)
            &&& forall|i: int|
                0 <= i < turns.len() && is_in_scope((#[trigger] turns[i]).email, mailboxes)
                    ==> has_settled_row(t, turns[i].email, mailboxes)
            &&& forall|id: Seq<char>| #[trigger]
                t.emails.contains_key(id) ==> is_settled_in(t, mailboxes, turns, id) || (
                s.emails.contains_key(id) && t.emails[id] == s.emails[id] && !has_turn(
                    turns,
                    s.emails[id].jmap_id,
                ))
            &&& forall|id: Seq<char>|
                #![trigger s.emails.contains_key(id)]
                s.emails.contains_key(id) && !has_turn(turns, s.emails[id].jmap_id)
                    ==> t.emails.contains_key(id) && t.emails[id] == s.emails[id]
        }),
    decreases turns.len(),
{
    if turns.len() > 0 {
        let n = turns.len() - 1;
        let d = turns.drop_last();
        let turn = turns[n];
        let k = turn.email.id;
        assert forall|i: int| 0 <= i < d.len() implies #[trigger] d[i] == turns[i] by {}
        assert(are_single(d)) by {
            assert forall|i: int, j: int| 0 <= i < j < d.len() implies (
            #[trigger] d[i]).email.id != (#[trigger] d[j]).email.id by {
                assert(turns[i].email.id != turns[j].email.id);
            }
        }
        lemma_turns(s, local, mailboxes, d);
        let mid = turns_taken(s, local, mailboxes, d)->0;
        let existing = row_read(local, turn.email);
        let rid = row_id(existing, turn);
        assert(!has_turn(d, k)) by {
            if has_turn(d, k) {
                let i = choose|i: int| 0 <= i < d.len() && (#[trigger] d[i]).email.id == k;
                assert(turns[i].email.id != turns[n].email.id);
            }
        }
        assert(is_read_right(s, existing, k->0));
        assert(is_read_right(mid, existing, k->0)) by {
            match existing {
                Some(row) => {
                    assert(s.emails.contains_key(row.id));
                },
                None => {
                    assert forall|id: Seq<char>| #[trigger]
                        mid.emails.contains_key(id) implies mid.emails[id].jmap_id != Some(k->0) by {
                        if is_settled_in(mid, mailboxes, d, id) {
                            let i = choose|i: int|
                                0 <= i < d.len() && is_in_scope(
                                    (#[trigger] d[i]).email,
                                    mailboxes,
                                ) && is_settled(mid, d[i].email, mailboxes, id);
                            assert(d[i].email.id != k);
                        }
                    }
                },
            }
        }
        lemma_turn(mid, local, mailboxes, turn);
        let t = turn_taken(mid, local, mailboxes, turn)->0;
        assert(turns_taken(s, local, mailboxes, turns) == Some(t));
        lemma_home_in_two_steps(s, mid, t, mailboxes);
        // A row that is settled for an earlier turn is not the one that changes.
        assert forall|i: int, id: Seq<char>|
            #![trigger is_settled(mid, d[i].email, mailboxes, id)]
            0 <= i < d.len() && is_settled(mid, d[i].email, mailboxes, id) implies is_settled(
            t,
            turns[i].email,
            mailboxes,
            id,
        ) by {
            assert(d[i].email.id != k);
            assert(id != rid);
            lemma_stays_settled(mid, t, rid, d[i].email, mailboxes, id);
        }
        assert forall|i: int|
            0 <= i < turns.len() && is_in_scope(
                (#[trigger] turns[i]).email,
                mailboxes,
            ) implies has_settled_row(t, turns[i].email, mailboxes) by {
            if i < n {
                assert(is_in_scope(d[i].email, mailboxes));
                let id = choose|id: Seq<char>| #[trigger]
                    is_settled(mid, d[i].email, mailboxes, id);
                assert(is_settled(t, turns[i].email, mailboxes, id));
            } else {
                assert(is_settled(t, turn.email, mailboxes, rid));
            }
        }
        assert forall|id: Seq<char>| #[trigger] t.emails.contains_key(id) implies is_settled_in(
            t,
            mailboxes,
            turns,
            id,
        ) || (s.emails.contains_key(id) && t.emails[id] == s.emails[id] && !has_turn(
            turns,
            s.emails[id].jmap_id,
        )) by {
            if id == rid {
                assert(is_in_scope(turns[n].email, mailboxes));
            } else {
                assert(mid.emails.contains_key(id));
                assert(t.emails[id] == mid.emails[id]);
                if is_settled_in(mid, mailboxes, d, id) {
                    let i = choose|i: int|
                        0 <= i < d.len() && is_in_scope((#[trigger] d[i]).email, mailboxes)
                            && is_settled(mid, d[i].email, mailboxes, id);
                    assert(is_settled(t, turns[i].email, mailboxes, id));
                    assert(is_in_scope(turns[i].email, mailboxes));
                } else {
                    assert(s.emails[id].jmap_id != k) by {
                        assert(s.emails.contains_key(id));
                        if existing is Some {
                            assert(s.emails.contains_key(rid));
                            assert(are_apart(s.emails[id], s.emails[rid]));
                        }
                    }
                    if has_turn(turns, s.emails[id].jmap_id) {
                        let i = choose|i: int|
                            0 <= i < turns.len() && (#[trigger] turns[i]).email.id
                                == s.emails[id].jmap_id;
                        assert(d[i].email.id == s.emails[id].jmap_id);
                        assert(has_turn(d, s.emails[id].jmap_id));
                    }
                }
            }
        }
        assert forall|id: Seq<char>|
            #![trigger s.emails.contains_key(id)]
            s.emails.contains_key(id) && !has_turn(
                turns,
                s.emails[id].jmap_id,
            ) implies t.emails.contains_key(id) && t.emails[id] == s.emails[id] by {
            assert(!has_turn(d, s.emails[id].jmap_id)) by {
                if has_turn(d, s.emails[id].jmap_id) {
                    let i = choose|i: int|
                        0 <= i < d.len() && (#[trigger] d[i]).email.id == s.emails[id].jmap_id;
                    assert(turns[i].email.id == s.emails[id].jmap_id);
                }
            }
            assert(mid.emails.contains_key(id));
            assert(turns[n].email.id != s.emails[id].jmap_id);
            assert(id != rid);
        }
    }
}

/// Sweeping removes the rows that are gone, with all that is theirs, and no others.
proof fn lemma_swept(
    s: Store,
    local: Map<Seq<char>, EmailRow<Seq<char>>>,
    gone: Seq<Seq<char>>,
)
    requires
        is_orderly(s),
        is_index(s, local),
        gone.no_duplicates(),
        forall|k: Seq<char>| #[trigger] gone.contains(k) ==> local.contains_key(k),
    ensures
        is_orderly(swept(s, local, gone)),
        forall|id: Seq<char>| #[trigger]
            swept(s, local, gone).emails.contains_key(id) <==> s.emails.contains_key(id) && !(
            s.emails[id].jmap_id is Some && gone.contains(s.emails[id].jmap_id->0)),
        forall|id: Seq<char>|
            #![trigger swept(s, local, gone).emails[id]]
            swept(s, local, gone).emails.contains_key(id) ==> swept(s, local, gone).emails[id]
                == s.emails[id],
    decreases gone.len(),
{
    if gone.len() > 0 {
        let d = gone.drop_last();
        let k = gone.last();
        assert(d.no_duplicates());
        assert forall|x: Seq<char>| #[trigger] gone.contains(x) <==> d.contains(x) || x == k by {
            if gone.contains(x) {
                let i = choose|i: int| 0 <= i < gone.len() && gone[i] == x;
                if i < d.len() {
                    assert(d[i] == x);
                }
            }
            if d.contains(x) {
                let i = choose|i: int| 0 <= i < d.len() && d[i] == x;
                assert(gone[i] == x);
            }
            if x == k {
                assert(gone[gone.len() - 1] == x);
            }
        }
        assert(!d.contains(k)) by {
            if d.contains(k) {
                let i = choose|i: int| 0 <= i < d.len() && d[i] == k;
                assert(gone[i] == gone[gone.len() - 1]);
            }
        }
        assert forall|x: Seq<char>| #[trigger] d.contains(x) implies local.contains_key(x) by {
            assert(gone.contains(x));
        }
        lemma_swept(s, local, d);
        let mid = swept(s, local, d);
        assert(gone.contains(k));
        let row = local[k];
        assert(s.emails.contains_key(row.id));
        assert(mid.emails.contains_key(row.id));
        assert(mid.emails[row.id] == row);
        lemma_order_without_row(mid, row);
        let t = swept(s, local, gone);
        assert forall|id: Seq<char>| #[trigger]
            t.emails.contains_key(id) <==> s.emails.contains_key(id) && !(
            s.emails[id].jmap_id is Some && gone.contains(s.emails[id].jmap_id->0)) by {
            if s.emails.contains_key(id) && id != row.id {
                assert(are_apart(s.emails[id], s.emails[row.id]));
                assert(s.emails[id].jmap_id != Some(k));
            }
        }
    }
}

/// After a sync, the local messages mirror the server's: every message that stands in
/// a mailbox that is synced has its row, in the mailbox that is preferred, with its
/// flags, its keywords and its memberships, the primary one marked; there is no other
/// row, but for those that have no id of the server's, which stay; and there is one file
/// for every row, and no other file. A file stands in the directory of the row's primary
/// mailbox if the message is new, if that mailbox has changed, or if it stood there
/// before.
///
/// This holds for every state in good order, if the server gives every message that it
/// lists, with something to download for those that are new.
pub proof fn law_sync_mirrors_the_server(
    s: Store,
    local: Map<Seq<char>, EmailRow<Seq<char>>>,
    mailboxes: Map<Seq<char>, MailboxRow<Seq<char>>>,
    server_ids: Set<Seq<char>>,
    gone: Seq<Seq<char>>,
    turns: Seq<Turn>,
)
    requires
        is_orderly(s),
        are_distinct(mailboxes),
        is_index(s, local),
        gone.no_duplicates(),
        forall|k: Seq<char>| #[trigger]
            gone.contains(k) <==> local.contains_key(k) && !server_ids.contains(k),
        are_single(turns),
        forall|k: Seq<char>| #[trigger] server_ids.contains(k) <==> has_turn(turns, Some(k)),
        forall|i: int|
            0 <= i < turns.len() ==> turn_plan(local, mailboxes, #[trigger] turns[i]) is Ok,
        are_fair(swept(s, local, gone), local, mailboxes, turns),
    ensures
        ({
            let after = turns_taken(swept(s, local, gone), local, mailboxes, turns);
            let t = after->0;
            &&& after is Some
            &&& is_orderly(t)
            &&& forall|i: int|
                0 <= i < turns.len() && is_in_scope((#[trigger] turns[i]).email, mailboxes)
                    ==> has_settled_row(t, turns[i].email, mailboxes)
            &&& forall|id: Seq<char>| #[trigger]
                t.emails.contains_key(id) ==> is_settled_in(t, mailboxes, turns, id)
                    || s.emails.contains_key(id) && s.emails[id].jmap_id is None
            &&& forall|id: Seq<char>|
                #![trigger s.emails.contains_key(id)]
                s.emails.contains_key(id) && s.emails[id].jmap_id is None
                    ==> t.emails.contains_key(id) && t.emails[id] == s.emails[id]
            &&& all_come_home(s, t, mailboxes)
        }),
{
    lemma_swept(s, local, gone);
    let left = swept(s, local, gone);
    assert(all_come_home(s, left, mailboxes)) by {
        assert forall|id: Seq<char>| #[trigger] left.emails.contains_key(id) implies comes_home(
            s,
            left,
            mailboxes,
            id,
        ) by {
            assert(left.emails[id] == s.emails[id]);
        }
    }
    assert forall|i: int| 0 <= i < turns.len() implies is_read_right(
        left,
        row_read(local, (#[trigger] turns[i]).email),
        turns[i].email.id->0,
    ) by {
        let k = turns[i].email.id->0;
        assert(has_turn(turns, Some(k)));
        assert(server_ids.contains(k));
        assert(!gone.contains(k));
        match row_read(local, turns[i].email) {
            Some(row) => {
                assert(s.emails.contains_key(row.id));
                assert(left.emails.contains_key(row.id));
                assert(left.emails[row.id] == s.emails[row.id]);
            },
            None => {
                assert forall|id: Seq<char>| #[trigger]
                    left.emails.contains_key(id) implies left.emails[id].jmap_id != Some(k) by {
                    assert(s.emails.contains_key(id));
                    assert(left.emails[id] == s.emails[id]);
                }
            },
        }
    }
    lemma_turns(left, local, mailboxes, turns);
    let t = turns_taken(left, local, mailboxes, turns)->0;
    lemma_home_in_two_steps(s, left, t, mailboxes);
    assert forall|id: Seq<char>|
        #![trigger s.emails.contains_key(id)]
        s.emails.contains_key(id) && s.emails[id].jmap_id is None implies t.emails.contains_key(id)
        && t.emails[id] == s.emails[id] by {
        assert(left.emails.contains_key(id));
        assert(left.emails[id] == s.emails[id]);
        assert(!has_turn(turns, None));
    }
    assert forall|id: Seq<char>| #[trigger] t.emails.contains_key(id) implies is_settled_in(
        t,
        mailboxes,
        turns,
        id,
    ) || s.emails.contains_key(id) && s.emails[id].jmap_id is None by {
        if !is_settled_in(t, mailboxes, turns, id) && !(s.emails.contains_key(id)
            && s.emails[id].jmap_id is None) {
            assert(left.emails.contains_key(id));
            assert(left.emails[id] == s.emails[id]);
            assert(s.emails.contains_key(id));
            let k = s.emails[id].jmap_id->0;
            assert(local.contains_key(k));
            assert(!gone.contains(k));
            assert(server_ids.contains(k));
            assert(has_turn(turns, Some(k)));
        }
    }
}

/// A message whose row is settled is left alone by the next sync, as long as the server
/// says the same of it.
pub proof fn law_settled_message_is_left_alone(
    s: Store,
    email: ServerEmail<Seq<char>, Seq<Seq<char>>>,
    mailboxes: Map<Seq<char>, MailboxRow<Seq<char>>>,
    id: Seq<char>,
    held: Seq<EmailMailboxRow<Seq<char>>>,
    later: i64,
)
    requires
        email.id is Some,
        is_in_scope(email, mailboxes),
        is_settled(s, email, mailboxes, id),
        are_read(s, id, held),
    ensures
        planned(email, mailboxes, Some(s.emails[id]), held_mailboxes(held), later) == Ok::<
            EmailAction<Seq<char>>,
            NoBlob<Seq<char>>,
        >(EmailAction::Keep),
{
    let hm = held_mailboxes(held);
    assert forall|m: Seq<char>| #[trigger] hm.contains(m) == is_expected(
        m,
        email.mailbox_ids,
        mailboxes,
    ) by {
        if hm.contains(m) {
            let i = choose|i: int| 0 <= i < hm.len() && hm[i] == m;
            assert(held[i].mailbox_id == m);
            assert(s.members.contains_key((id, m)));
        }
        if s.members.contains_key((id, m)) {
            let i = choose|i: int| 0 <= i < held.len() && (#[trigger] held[i]).mailbox_id == m;
            assert(hm[i] == m);
        }
    }
}

} // verus!
