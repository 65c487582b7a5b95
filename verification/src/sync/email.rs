//! Bringing the local messages in line with the server's.

use vstd::prelude::*;
use vstd::string::*;

use crate::keyed::Keyed;
use crate::outside::{json_object, to_json_object};
use crate::search::{lemma_push_contains, lemma_rfind_is, occurs, occurs_at};
use crate::sorting::{dedup_sorted, sort_texts, strictly_in_order};
use crate::sync::mailbox::row_views;
use crate::sync::maildir::{build_message_path, current_flags_from_path, extract_uuid, file_name, flagless, flags_in, flags_of, is_drawn, is_file_id, keywords_to_flag_string, law_flags_read_back, law_keyword_flags_are_plain, law_found_uuid_is_file_id, law_message_path_tells_its_parts, law_uuid_read_back, message_path, new_uuid_string, rebuild_path_with_flags, uuid_in, with_flags};
use crate::sync::rows::{EmailMailboxRow, EmailRow, MailboxRow};
use crate::sync::target::{role_name, Role};
use crate::text::{clone_strings, lemma_text_lt_irreflexive, lemma_text_lt_total, lemma_text_lt_transitive, list_contains, opt_view, str_eq, text_le, text_less, text_lt, views};

verus! {

/// How many ids one Email/query asks for.
pub const EMAIL_QUERY_PAGE_SIZE: usize = 256;

/// How many messages one Email/get asks for.
pub const EMAIL_GET_CHUNK_SIZE: usize = 100;

/// What an email sync did.
#[derive(Debug, PartialEq, Eq, Structural)]
pub struct EmailSyncStats {
    pub created: usize,
    pub updated: usize,
    pub moved: usize,
    pub deleted: usize,
    pub bytes_downloaded: u64,
}

impl Default for EmailSyncStats {
    fn default() -> (r: Self)
        ensures
            r.created == 0,
            r.updated == 0,
            r.moved == 0,
            r.deleted == 0,
            r.bytes_downloaded == 0,
    {
        EmailSyncStats { created: 0, updated: 0, moved: 0, deleted: 0, bytes_downloaded: 0 }
    }
}

impl EmailSyncStats {
    /// Counts what was done about one message. `bytes` is what was downloaded for it.
    pub fn record(&mut self, action: &EmailAction, bytes: u64)
        requires
            old(self).created < usize::MAX,
            old(self).updated < usize::MAX,
            old(self).moved < usize::MAX,
            old(self).deleted < usize::MAX,
            old(self).bytes_downloaded + bytes <= u64::MAX,
        ensures
            *final(self) == (match *action {
                EmailAction::Insert { jmap_id, blob_id, placement } => EmailSyncStats {
                    created: (old(self).created + 1) as usize,
                    bytes_downloaded: (old(self).bytes_downloaded + bytes) as u64,
                    ..*old(self)
                },
                EmailAction::Move(_) => EmailSyncStats {
                    moved: (old(self).moved + 1) as usize,
                    ..*old(self)
                },
                EmailAction::Update(_) => EmailSyncStats {
                    updated: (old(self).updated + 1) as usize,
                    ..*old(self)
                },
                EmailAction::Delete => EmailSyncStats {
                    deleted: (old(self).deleted + 1) as usize,
                    ..*old(self)
                },
                EmailAction::Ignore => *old(self),
                EmailAction::Keep => *old(self),
            }),
    {
        match action {
            EmailAction::Insert { .. } => {
                self.created = self.created + 1;
                self.bytes_downloaded = self.bytes_downloaded + bytes;
            },
            EmailAction::Move(_) => {
                self.moved = self.moved + 1;
            },
            EmailAction::Update(_) => {
                self.updated = self.updated + 1;
            },
            EmailAction::Delete => {
                self.deleted = self.deleted + 1;
            },
            EmailAction::Ignore => {},
            EmailAction::Keep => {},
        }
    }

    /// Whether anything was changed.
    pub fn changed(&self) -> (r: bool)
        ensures
            r == (self.created + self.updated + self.moved + self.deleted > 0),
    {
        self.created > 0 || self.updated > 0 || self.moved > 0 || self.deleted > 0
    }
}

/// A message as the server describes it. `T` is a text and `L` a list of texts.
#[derive(Debug)]
#[verifier::ext_equal]
pub struct ServerEmail<T = String, L = Vec<String>> {
    pub id: Option<T>,
    pub blob_id: Option<T>,
    pub mailbox_ids: L,
    pub keywords: L,
    pub size: u64,
    pub received_at: Option<i64>,
    pub message_ids: L,
}

impl View for ServerEmail<String, Vec<String>> {
    type V = ServerEmail<Seq<char>, Seq<Seq<char>>>;

    open spec fn view(&self) -> Self::V {
        ServerEmail {
            id: opt_view(self.id),
            blob_id: opt_view(self.blob_id),
            mailbox_ids: views(self.mailbox_ids@),
            keywords: views(self.keywords@),
            size: self.size,
            received_at: self.received_at,
            message_ids: views(self.message_ids@),
        }
    }
}

// ---------------------------------------------------------------------------
// Which mailbox a message's file stands in
// ---------------------------------------------------------------------------

/// The place of a role among the roles: inbox, sent, drafts, archive, trash, junk,
/// and after these every other and none.
pub open spec fn rank_of(role: Option<Seq<char>>) -> int {
    match role {
        Some(r) => if r == "inbox"@ {
            0
        } else if r == "sent"@ {
            1
        } else if r == "drafts"@ {
            2
        } else if r == "archive"@ {
            3
        } else if r == "trash"@ {
            4
        } else if r == "junk"@ {
            5
        } else {
            6
        },
        None => 6,
    }
}

/// The place of a role among the roles.
pub fn role_rank(role: Option<&str>) -> (r: usize)
    ensures
        r == rank_of(match role {
            Some(s) => Some(s@),
            None => None,
        }),
{
    match role {
        Some(s) => if str_eq(s, "inbox") {
            0
        } else if str_eq(s, "sent") {
            1
        } else if str_eq(s, "drafts") {
            2
        } else if str_eq(s, "archive") {
            3
        } else if str_eq(s, "trash") {
            4
        } else if str_eq(s, "junk") {
            5
        } else {
            6
        },
        None => 6,
    }
}

/// The place that the server gives a mailbox, after all others if it gives none.
pub open spec fn sort_place(row: MailboxRow<Seq<char>>) -> i64 {
    match row.sort_order {
        Some(n) => n,
        None => i64::MAX,
    }
}

/// The mailbox is preferred to the other: by its role, then by the place that the
/// server gives it, then by its name.
pub open spec fn is_preferred(a: MailboxRow<Seq<char>>, b: MailboxRow<Seq<char>>) -> bool {
    ||| rank_of(a.role) < rank_of(b.role)
    ||| rank_of(a.role) == rank_of(b.role) && (sort_place(a) < sort_place(b) || sort_place(a)
        == sort_place(b) && text_lt(a.name, b.name))
}

/// Where in the list the preferred one of the first `n` mailboxes stands. Mailboxes
/// that are not synced do not count; of two with nothing between them the first
/// counts.
pub open spec fn primary_among(
    ids: Seq<Seq<char>>,
    mailboxes: Map<Seq<char>, MailboxRow<Seq<char>>>,
    n: int,
) -> Option<int>
    decreases n,
{
    if n <= 0 {
        None
    } else {
        let before = primary_among(ids, mailboxes, n - 1);
        if !mailboxes.contains_key(ids[n - 1]) {
            before
        } else {
            match before {
                Some(k) => if is_preferred(mailboxes[ids[n - 1]], mailboxes[ids[k]]) {
                    Some(n - 1)
                } else {
                    before
                },
                None => Some(n - 1),
            }
        }
    }
}

/// The mailbox that a message's file stands in.
pub open spec fn primary_of(
    ids: Seq<Seq<char>>,
    mailboxes: Map<Seq<char>, MailboxRow<Seq<char>>>,
) -> Option<MailboxRow<Seq<char>>> {
    match primary_among(ids, mailboxes, ids.len() as int) {
        Some(k) => Some(mailboxes[ids[k]]),
        None => None,
    }
}

fn preferred(a: &MailboxRow, b: &MailboxRow) -> (r: bool)
    ensures
        r == is_preferred(a@, b@),
{
    let ra = role_rank(
        match &a.role {
            Some(s) => Some(s.as_str()),
            None => None,
        },
    );
    let rb = role_rank(
        match &b.role {
            Some(s) => Some(s.as_str()),
            None => None,
        },
    );
    let sa: i64 = match a.sort_order {
        Some(n) => n,
        None => i64::MAX,
    };
    let sb: i64 = match b.sort_order {
        Some(n) => n,
        None => i64::MAX,
    };
    ra < rb || (ra == rb && (sa < sb || (sa == sb && text_less(a.name.as_str(), b.name.as_str()))))
}

/// The mailbox that a message's file stands in; nothing where none of its mailboxes
/// is synced.
pub fn pick_primary_mailbox<'a>(
    mailbox_jmap_ids: &Vec<String>,
    mailbox_by_jmap: &'a Keyed<MailboxRow>,
) -> (r: Option<&'a MailboxRow>)
    requires
        mailbox_by_jmap.wf(),
    ensures
        match r {
            Some(row) => primary_of(views(mailbox_jmap_ids@), row_views(mailbox_by_jmap@)) == Some(
                row@,
            ),
            None => primary_of(views(mailbox_jmap_ids@), row_views(mailbox_by_jmap@)) is None,
        },
{
    let ghost ids = views(mailbox_jmap_ids@);
    let ghost boxes = row_views(mailbox_by_jmap@);
    let mut best: Option<&MailboxRow> = None;
    let mut i: usize = 0;
    while i < mailbox_jmap_ids.len()
        invariant
            mailbox_by_jmap.wf(),
            ids == views(mailbox_jmap_ids@),
            boxes == row_views(mailbox_by_jmap@),
            i <= mailbox_jmap_ids@.len(),
            match primary_among(ids, boxes, i as int) {
                Some(k) => best matches Some(row) && 0 <= k < i && boxes[ids[k]] == row@,
                None => best is None,
            },
        decreases mailbox_jmap_ids@.len() - i,
    {
        assert(ids[i as int] == mailbox_jmap_ids@[i as int]@);
        match mailbox_by_jmap.get(mailbox_jmap_ids[i].as_str()) {
            Some(row) => {
                let better = match best {
                    Some(b) => preferred(row, b),
                    None => true,
                };
                if better {
                    best = Some(row);
                }
            },
            None => {},
        }
        i += 1;
    }
    best
}

/// The mailbox that is picked is synced, and no synced mailbox of the message is
/// preferred to it.
pub proof fn law_primary_is_preferred(
    ids: Seq<Seq<char>>,
    mailboxes: Map<Seq<char>, MailboxRow<Seq<char>>>,
)
    ensures
        match primary_of(ids, mailboxes) {
            Some(row) => (exists|k: int|
                0 <= k < ids.len() && mailboxes.contains_key(#[trigger] ids[k])
                    && mailboxes[ids[k]] == row) && (forall|j: int|
                0 <= j < ids.len() && mailboxes.contains_key(#[trigger] ids[j]) ==> !is_preferred(
                    mailboxes[ids[j]],
                    row,
                )),
            None => forall|j: int|
                0 <= j < ids.len() ==> !mailboxes.contains_key(#[trigger] ids[j]),
        },
{
    lemma_primary(ids, mailboxes, ids.len() as int);
}

proof fn lemma_primary(
    ids: Seq<Seq<char>>,
    mailboxes: Map<Seq<char>, MailboxRow<Seq<char>>>,
    n: int,
)
    requires
        0 <= n <= ids.len(),
    ensures
        match primary_among(ids, mailboxes, n) {
            Some(k) => 0 <= k < n && mailboxes.contains_key(ids[k]) && (forall|j: int|
                0 <= j < n && mailboxes.contains_key(#[trigger] ids[j]) ==> !is_preferred(
                    mailboxes[ids[j]],
                    mailboxes[ids[k]],
                )),
            None => forall|j: int| 0 <= j < n ==> !mailboxes.contains_key(#[trigger] ids[j]),
        },
    decreases n,
{
    if n > 0 {
        lemma_primary(ids, mailboxes, n - 1);
        match primary_among(ids, mailboxes, n) {
            Some(k) => {
                assert forall|j: int|
                    0 <= j < n && mailboxes.contains_key(#[trigger] ids[j]) implies !is_preferred(
                    mailboxes[ids[j]],
                    mailboxes[ids[k]],
                ) by {
                    let a = mailboxes[ids[j]];
                    let c = mailboxes[ids[k]];
                    if j == k {
                        lemma_text_lt_irreflexive(a.name);
                    } else if k == n - 1 {
                        match primary_among(ids, mailboxes, n - 1) {
                            Some(b) => {
                                lemma_preferred_over(a, mailboxes[ids[b]], c);
                            },
                            None => {},
                        }
                    } else if j == n - 1 {
                    }
                }
            },
            None => {},
        }
    }
}

/// What is not preferred to one is not preferred to what is preferred to that one.
proof fn lemma_preferred_over(
    a: MailboxRow<Seq<char>>,
    b: MailboxRow<Seq<char>>,
    c: MailboxRow<Seq<char>>,
)
    requires
        !is_preferred(a, b),
        is_preferred(c, b),
    ensures
        !is_preferred(a, c),
{
    if is_preferred(a, c) {
        if rank_of(a.role) == rank_of(c.role) && rank_of(c.role) == rank_of(b.role) && sort_place(a)
            == sort_place(c) && sort_place(c) == sort_place(b) {
            lemma_text_lt_transitive(a.name, c.name, b.name);
        }
    }
}

// ---------------------------------------------------------------------------
// Keywords
// ---------------------------------------------------------------------------

/// The texts of a set in order.
pub open spec fn ordered(s: Set<Seq<char>>) -> Seq<Seq<char>> {
    choose|k: Seq<Seq<char>>| strictly_in_order(k) && #[trigger] k.to_set() == s
}

/// The keywords as they are stored: a JSON object, in alphabetical order.
pub open spec fn keywords_text(keywords: Seq<Seq<char>>) -> Seq<char> {
    match json_object(ordered(keywords.to_set()), true) {
        Some(t) => t,
        None => "{}"@,
    }
}

/// There is only one order of a set.
proof fn lemma_one_order(a: Seq<Seq<char>>, b: Seq<Seq<char>>)
    requires
        strictly_in_order(a),
        strictly_in_order(b),
        a.to_set() == b.to_set(),
    ensures
        a == b,
    decreases a.len(),
{
    if a.len() == 0 {
        if b.len() > 0 {
            assert(b.to_set().contains(b[0]));
            assert(a.to_set().contains(b[0]));
        }
        assert(a =~= b);
    } else {
        assert(a.to_set().contains(a[0]));
        assert(b.to_set().contains(a[0]));
        let j = choose|j: int| 0 <= j < b.len() && b[j] == a[0];
        assert(b.to_set().contains(b[0]));
        assert(a.to_set().contains(b[0]));
        let i = choose|i: int| 0 <= i < a.len() && a[i] == b[0];
        if j > 0 {
            assert(text_lt(b[0], b[j]));
            if i > 0 {
                assert(text_lt(a[0], a[i]));
                lemma_text_lt_transitive(a[0], b[0], a[0]);
            }
            lemma_text_lt_irreflexive(a[0]);
        }
        let x = a.skip(1);
        let y = b.skip(1);
        assert(x.to_set() =~= y.to_set()) by {
            lemma_tail_set(a);
            lemma_tail_set(b);
        }
        assert(strictly_in_order(x)) by {
            assert forall|p: int, q: int| 0 <= p < q < x.len() implies text_lt(
                #[trigger] x[p],
                #[trigger] x[q],
            ) by {
                assert(text_lt(a[p + 1], a[q + 1]));
            }
        }
        assert(strictly_in_order(y)) by {
            assert forall|p: int, q: int| 0 <= p < q < y.len() implies text_lt(
                #[trigger] y[p],
                #[trigger] y[q],
            ) by {
                assert(text_lt(b[p + 1], b[q + 1]));
            }
        }
        lemma_one_order(x, y);
        assert(a =~= seq![a[0]] + x);
        assert(b =~= seq![b[0]] + y);
    }
}

proof fn lemma_tail_set(a: Seq<Seq<char>>)
    requires
        strictly_in_order(a),
        a.len() > 0,
    ensures
        a.skip(1).to_set() == a.to_set().remove(a[0]),
{
    let x = a.skip(1);
    assert forall|t: Seq<char>| #[trigger] x.to_set().contains(t) <==> a.to_set().remove(a[0]).contains(
        t,
    ) by {
        if x.contains(t) {
            let i = choose|i: int| 0 <= i < x.len() && x[i] == t;
            assert(a[i + 1] == t);
            assert(text_lt(a[0], a[i + 1]));
            lemma_text_lt_irreflexive(a[0]);
        }
        if a.contains(t) && t != a[0] {
            let i = choose|i: int| 0 <= i < a.len() && a[i] == t;
            assert(x[i - 1] == t);
        }
    }
    assert(x.to_set() =~= a.to_set().remove(a[0]));
}

/// The keywords as they are stored, given in order.
pub fn keywords_json(sorted: &Vec<String>) -> (r: String)
    requires
        strictly_in_order(views(sorted@)),
    ensures
        r@ == keywords_text(views(sorted@)),
{
    proof {
        let k = ordered(views(sorted@).to_set());
        assert(views(sorted@).to_set() == views(sorted@).to_set());
        lemma_one_order(k, views(sorted@));
    }
    match to_json_object(sorted, true) {
        Some(t) => t,
        None => "{}".to_owned(),
    }
}

/// The keywords as they are stored.
pub fn serialize_keywords(keywords: &Vec<String>) -> (r: String)
    ensures
        r@ == keywords_text(views(keywords@)),
        exists|k: Seq<Seq<char>>|
            {
                &&& strictly_in_order(k)
                &&& #[trigger] k.to_set() == views(keywords@).to_set()
                &&& json_object(k, true) is Some ==> r@ == json_object(k, true)->0
            },
{
    let sorted = sort_texts(clone_strings(keywords));
    let distinct = dedup_sorted(&sorted);
    proof {
        lemma_multiset_set(views(sorted@), views(keywords@));
        let k = ordered(views(distinct@).to_set());
        assert(views(distinct@).to_set() == views(distinct@).to_set());
        lemma_one_order(k, views(distinct@));
    }
    keywords_json(&distinct)
}

proof fn lemma_multiset_set(a: Seq<Seq<char>>, b: Seq<Seq<char>>)
    requires
        a.to_multiset() == b.to_multiset(),
    ensures
        a.to_set() == b.to_set(),
{
    broadcast use vstd::seq_lib::group_to_multiset_ensures;

    assert forall|x: Seq<char>| #[trigger] a.to_set().contains(x) <==> b.to_set().contains(x) by {
        assert(a.contains(x) <==> a.to_multiset().count(x) > 0);
        assert(b.contains(x) <==> b.to_multiset().count(x) > 0);
    }
    assert(a.to_set() =~= b.to_set());
}

/// How the keywords are listed, and whether some are listed twice, does not show.
pub proof fn law_keywords_text_is_stable(a: Seq<Seq<char>>, b: Seq<Seq<char>>)
    requires
        a.to_set() == b.to_set(),
    ensures
        keywords_text(a) == keywords_text(b),
        flags_of(a) == flags_of(b),
{
    assert forall|k: Seq<char>| a.contains(k) == b.contains(k) by {
        assert(a.to_set().contains(k) == a.contains(k));
        assert(b.to_set().contains(k) == b.contains(k));
    }
}

// ---------------------------------------------------------------------------
// Memberships
// ---------------------------------------------------------------------------

/// The views of a list of membership rows.
pub open spec fn membership_views(v: Seq<EmailMailboxRow>) -> Seq<EmailMailboxRow<Seq<char>>> {
    v.map_values(|m: EmailMailboxRow| m@)
}

/// The memberships of a message: one for each of its mailboxes that is synced.
pub open spec fn memberships_of(
    email_id: Seq<char>,
    primary_id: Seq<char>,
    ids: Seq<Seq<char>>,
    mailboxes: Map<Seq<char>, MailboxRow<Seq<char>>>,
) -> Seq<EmailMailboxRow<Seq<char>>>
    decreases ids.len(),
{
    if ids.len() == 0 {
        Seq::empty()
    } else {
        let before = memberships_of(email_id, primary_id, ids.drop_last(), mailboxes);
        if mailboxes.contains_key(ids.last()) {
            let mailbox_id = mailboxes[ids.last()].id;
            before.push(
                EmailMailboxRow { email_id, mailbox_id, is_primary: mailbox_id == primary_id },
            )
        } else {
            before
        }
    }
}

/// The memberships of a message.
pub fn insert_memberships(
    email_id: &str,
    primary_local_id: &str,
    mailbox_jmap_ids: &Vec<String>,
    mailbox_by_jmap: &Keyed<MailboxRow>,
) -> (r: Vec<EmailMailboxRow>)
    requires
        mailbox_by_jmap.wf(),
    ensures
        membership_views(r@) == memberships_of(
            email_id@,
            primary_local_id@,
            views(mailbox_jmap_ids@),
            row_views(mailbox_by_jmap@),
        ),
{
    let ghost ids = views(mailbox_jmap_ids@);
    let ghost boxes = row_views(mailbox_by_jmap@);
    let mut out: Vec<EmailMailboxRow> = Vec::new();
    let mut i: usize = 0;
    assert(ids.take(0) =~= Seq::empty());
    assert(membership_views(out@) =~= Seq::empty());
    while i < mailbox_jmap_ids.len()
        invariant
            mailbox_by_jmap.wf(),
            ids == views(mailbox_jmap_ids@),
            boxes == row_views(mailbox_by_jmap@),
            i <= mailbox_jmap_ids@.len(),
            membership_views(out@) == memberships_of(
                email_id@,
                primary_local_id@,
                ids.take(i as int),
                boxes,
            ),
        decreases mailbox_jmap_ids@.len() - i,
    {
        let ghost before = membership_views(out@);
        assert(ids.take(i + 1).drop_last() =~= ids.take(i as int));
        assert(ids.take(i + 1).last() == mailbox_jmap_ids@[i as int]@);
        match mailbox_by_jmap.get(mailbox_jmap_ids[i].as_str()) {
            Some(row) => {
                let m = EmailMailboxRow {
                    email_id: email_id.to_owned(),
                    mailbox_id: row.id.clone(),
                    is_primary: str_eq(row.id.as_str(), primary_local_id),
                };
                out.push(m);
                assert(membership_views(out@) =~= before.push(m@));
            },
            None => {},
        }
        i += 1;
    }
    assert(ids.take(i as int) =~= ids);
    out
}

/// What brings a message's memberships in line: those that are there go, by the id
/// of the message and of the mailbox, and those that are to be there come.
#[derive(Debug)]
pub struct MembershipPlan {
    pub deletes: Vec<(String, String)>,
    pub inserts: Vec<EmailMailboxRow>,
}

/// What brings a message's memberships in line with its mailboxes.
pub fn reconcile_memberships(
    existing: &Vec<EmailMailboxRow>,
    email_id: &str,
    primary_local_id: &str,
    mailbox_jmap_ids: &Vec<String>,
    mailbox_by_jmap: &Keyed<MailboxRow>,
) -> (r: MembershipPlan)
    requires
        mailbox_by_jmap.wf(),
    ensures
        r.deletes@.len() == existing@.len(),
        forall|i: int|
            0 <= i < existing@.len() ==> (#[trigger] r.deletes@[i]).0@ == existing@[i].email_id@
                && r.deletes@[i].1@ == existing@[i].mailbox_id@,
        membership_views(r.inserts@) == memberships_of(
            email_id@,
            primary_local_id@,
            views(mailbox_jmap_ids@),
            row_views(mailbox_by_jmap@),
        ),
{
    let mut deletes: Vec<(String, String)> = Vec::new();
    let mut i: usize = 0;
    while i < existing.len()
        invariant
            i <= existing@.len(),
            deletes@.len() == i,
            forall|j: int|
                0 <= j < i ==> (#[trigger] deletes@[j]).0@ == existing@[j].email_id@
                    && deletes@[j].1@ == existing@[j].mailbox_id@,
        decreases existing@.len() - i,
    {
        deletes.push((existing[i].email_id.clone(), existing[i].mailbox_id.clone()));
        i += 1;
    }
    MembershipPlan {
        deletes,
        inserts: insert_memberships(email_id, primary_local_id, mailbox_jmap_ids, mailbox_by_jmap),
    }
}

/// The mailbox is one of those that a message is to be in.
pub open spec fn is_expected(
    mailbox_id: Seq<char>,
    ids: Seq<Seq<char>>,
    mailboxes: Map<Seq<char>, MailboxRow<Seq<char>>>,
) -> bool {
    exists|k: int|
        0 <= k < ids.len() && mailboxes.contains_key(#[trigger] ids[k]) && mailboxes[ids[k]].id
            == mailbox_id
}

/// The message is in other mailboxes than it is to be in.
pub open spec fn has_drifted(
    existing: Seq<Seq<char>>,
    ids: Seq<Seq<char>>,
    mailboxes: Map<Seq<char>, MailboxRow<Seq<char>>>,
) -> bool {
    exists|m: Seq<char>| #[trigger] existing.contains(m) != is_expected(m, ids, mailboxes)
}

/// Whether a message is in other mailboxes than it is to be in. `existing` holds the
/// local ids of the mailboxes that it is in.
pub fn memberships_differ(
    existing: &Vec<String>,
    server_mailbox_jmap_ids: &Vec<String>,
    mailbox_by_jmap: &Keyed<MailboxRow>,
) -> (r: bool)
    requires
        mailbox_by_jmap.wf(),
    ensures
        r == has_drifted(
            views(existing@),
            views(server_mailbox_jmap_ids@),
            row_views(mailbox_by_jmap@),
        ),
{
    let ghost ids = views(server_mailbox_jmap_ids@);
    let ghost boxes = row_views(mailbox_by_jmap@);
    let ghost ex = views(existing@);
    let mut expected: Vec<String> = Vec::new();
    let mut i: usize = 0;
    while i < server_mailbox_jmap_ids.len()
        invariant
            mailbox_by_jmap.wf(),
            ids == views(server_mailbox_jmap_ids@),
            boxes == row_views(mailbox_by_jmap@),
            ex == views(existing@),
            i <= server_mailbox_jmap_ids@.len(),
            forall|k: int|
                0 <= k < i && boxes.contains_key(#[trigger] ids[k]) ==> views(expected@).contains(
                    boxes[ids[k]].id,
                ),
            forall|j: int|
                0 <= j < expected@.len() ==> is_expected(#[trigger] views(expected@)[j], ids, boxes),
            forall|k: int|
                0 <= k < i && boxes.contains_key(#[trigger] ids[k]) ==> ex.contains(
                    boxes[ids[k]].id,
                ),
        decreases server_mailbox_jmap_ids@.len() - i,
    {
        let ghost before = views(expected@);
        assert(ids[i as int] == server_mailbox_jmap_ids@[i as int]@);
        match mailbox_by_jmap.get(server_mailbox_jmap_ids[i].as_str()) {
            Some(row) => {
                proof {
                    assert(boxes.contains_key(ids[i as int]) && boxes[ids[i as int]].id == row.id@);
                    assert(is_expected(row.id@, ids, boxes));
                }
                if !list_contains(existing, row.id.as_str()) {
                    assert(ex.contains(row.id@) != is_expected(row.id@, ids, boxes));
                    return true;
                }
                expected.push(row.id.clone());
                assert(views(expected@) =~= before.push(row.id@));
                assert forall|k: int|
                    0 <= k < i + 1 && boxes.contains_key(#[trigger] ids[k]) implies views(
                    expected@,
                ).contains(boxes[ids[k]].id) by {
                    if k < i {
                        let x = choose|x: int|
                            0 <= x < before.len() && before[x] == boxes[ids[k]].id;
                        assert(before.contains(boxes[ids[k]].id));
                        assert(views(expected@)[x] == boxes[ids[k]].id);
                    } else {
                        assert(views(expected@)[before.len() as int] == row.id@);
                    }
                }
                assert forall|j: int| 0 <= j < expected@.len() implies is_expected(
                    #[trigger] views(expected@)[j],
                    ids,
                    boxes,
                ) by {
                    if j < before.len() {
                        assert(views(expected@)[j] == before[j]);
                    }
                }
            },
            None => {},
        }
        i += 1;
    }
    let mut j: usize = 0;
    while j < existing.len()
        invariant
            ids == views(server_mailbox_jmap_ids@),
            boxes == row_views(mailbox_by_jmap@),
            ex == views(existing@),
            j <= existing@.len(),
            forall|k: int|
                0 <= k < ids.len() && boxes.contains_key(#[trigger] ids[k]) ==> views(
                    expected@,
                ).contains(boxes[ids[k]].id),
            forall|x: int|
                0 <= x < expected@.len() ==> is_expected(#[trigger] views(expected@)[x], ids, boxes),
            forall|x: int| 0 <= x < j ==> views(expected@).contains(#[trigger] ex[x]),
        decreases existing@.len() - j,
    {
        assert(ex[j as int] == existing@[j as int]@);
        if !list_contains(&expected, existing[j].as_str()) {
            proof {
                assert(ex.contains(ex[j as int]));
                if is_expected(ex[j as int], ids, boxes) {
                    let k = choose|k: int|
                        0 <= k < ids.len() && boxes.contains_key(#[trigger] ids[k])
                            && boxes[ids[k]].id == ex[j as int];
                    assert(views(expected@).contains(boxes[ids[k]].id));
                }
            }
            return true;
        }
        j += 1;
    }
    proof {
        assert forall|m: Seq<char>| #[trigger] ex.contains(m) == is_expected(m, ids, boxes) by {
            if ex.contains(m) {
                let x = choose|x: int| 0 <= x < ex.len() && ex[x] == m;
                assert(views(expected@).contains(ex[x]));
                let y = choose|y: int| 0 <= y < expected@.len() && views(expected@)[y] == m;
                assert(is_expected(views(expected@)[y], ids, boxes));
            }
            if is_expected(m, ids, boxes) {
                let k = choose|k: int|
                    0 <= k < ids.len() && boxes.contains_key(#[trigger] ids[k]) && boxes[ids[k]].id
                        == m;
                assert(ex.contains(boxes[ids[k]].id));
            }
        }
    }
    false
}

/// The mailboxes that a message has been given.
pub open spec fn held_mailboxes(rows: Seq<EmailMailboxRow<Seq<char>>>) -> Seq<Seq<char>> {
    rows.map_values(|m: EmailMailboxRow<Seq<char>>| m.mailbox_id)
}

/// A message that has been given its memberships is in the mailboxes that it is to
/// be in.
pub proof fn law_memberships_settle(
    email_id: Seq<char>,
    primary_id: Seq<char>,
    ids: Seq<Seq<char>>,
    mailboxes: Map<Seq<char>, MailboxRow<Seq<char>>>,
)
    ensures
        !has_drifted(
            held_mailboxes(memberships_of(email_id, primary_id, ids, mailboxes)),
            ids,
            mailboxes,
        ),
{
    let ms = memberships_of(email_id, primary_id, ids, mailboxes);
    let held = held_mailboxes(ms);
    assert forall|m: Seq<char>| #[trigger] held.contains(m) == is_expected(m, ids, mailboxes) by {
        lemma_memberships(email_id, primary_id, ids, mailboxes, m);
        if held.contains(m) {
            let i = choose|i: int| 0 <= i < held.len() && held[i] == m;
            assert(ms[i].mailbox_id == m);
        }
        if exists|i: int| 0 <= i < ms.len() && (#[trigger] ms[i]).mailbox_id == m {
            let i = choose|i: int| 0 <= i < ms.len() && (#[trigger] ms[i]).mailbox_id == m;
            assert(held[i] == m);
        }
    }
}

pub proof fn lemma_memberships(
    email_id: Seq<char>,
    primary_id: Seq<char>,
    ids: Seq<Seq<char>>,
    mailboxes: Map<Seq<char>, MailboxRow<Seq<char>>>,
    m: Seq<char>,
)
    ensures
        (exists|i: int|
            0 <= i < memberships_of(email_id, primary_id, ids, mailboxes).len() && (
            #[trigger] memberships_of(email_id, primary_id, ids, mailboxes)[i]).mailbox_id == m)
            <==> is_expected(m, ids, mailboxes),
    decreases ids.len(),
{
    let ms = memberships_of(email_id, primary_id, ids, mailboxes);
    if ids.len() > 0 {
        let d = ids.drop_last();
        let before = memberships_of(email_id, primary_id, d, mailboxes);
        lemma_memberships(email_id, primary_id, d, mailboxes, m);
        if exists|i: int| 0 <= i < ms.len() && (#[trigger] ms[i]).mailbox_id == m {
            let i = choose|i: int| 0 <= i < ms.len() && (#[trigger] ms[i]).mailbox_id == m;
            if i < before.len() {
                assert(before[i].mailbox_id == m);
                let k = choose|k: int|
                    0 <= k < d.len() && mailboxes.contains_key(#[trigger] d[k])
                        && mailboxes[d[k]].id == m;
                assert(ids[k] == d[k]);
            } else {
                assert(mailboxes.contains_key(ids[ids.len() - 1]));
            }
        }
        if is_expected(m, ids, mailboxes) {
            let k = choose|k: int|
                0 <= k < ids.len() && mailboxes.contains_key(#[trigger] ids[k])
                    && mailboxes[ids[k]].id == m;
            if k < d.len() {
                assert(d[k] == ids[k]);
                assert(is_expected(m, d, mailboxes));
                let i = choose|i: int|
                    0 <= i < before.len() && (#[trigger] before[i]).mailbox_id == m;
                assert(ms[i].mailbox_id == m);
            } else {
                assert(ms[before.len() as int].mailbox_id == m);
            }
        }
    }
}

// ---------------------------------------------------------------------------
// One message
// ---------------------------------------------------------------------------

/// Where a message is to stand and what is to be known of it. `T` is a text.
#[derive(Debug)]
#[verifier::ext_equal]
pub struct Placement<T = String> {
    /// The local id of the mailbox that the file stands in.
    pub primary_id: T,
    /// The directory of that mailbox.
    pub dir: T,
    pub flags: T,
    /// The keywords as they are stored.
    pub keywords: T,
    pub received_ts: i64,
}

impl View for Placement<String> {
    type V = Placement<Seq<char>>;

    open spec fn view(&self) -> Self::V {
        Placement {
            primary_id: self.primary_id@,
            dir: self.dir@,
            flags: self.flags@,
            keywords: self.keywords@,
            received_ts: self.received_ts,
        }
    }
}

/// What is to be done about one message of the server. `T` is a text.
#[derive(Debug)]
#[verifier::ext_equal]
pub enum EmailAction<T = String> {
    /// Nothing: the message has no id, or is neither synced nor here.
    Ignore,
    /// The message is here, but none of its mailboxes is synced any more: it goes.
    Delete,
    /// The message is new: it is downloaded.
    Insert { jmap_id: T, blob_id: T, placement: Placement<T> },
    /// The file goes to another mailbox.
    Move(Placement<T>),
    /// The flags, the keywords or the memberships are no longer right.
    Update(Placement<T>),
    /// Everything is as it should be.
    Keep,
}

impl View for EmailAction<String> {
    type V = EmailAction<Seq<char>>;

    open spec fn view(&self) -> Self::V {
        match *self {
            EmailAction::Ignore => EmailAction::Ignore,
            EmailAction::Delete => EmailAction::Delete,
            EmailAction::Insert { jmap_id, blob_id, placement } => EmailAction::Insert {
                jmap_id: jmap_id@,
                blob_id: blob_id@,
                placement: placement@,
            },
            EmailAction::Move(p) => EmailAction::Move(p@),
            EmailAction::Update(p) => EmailAction::Update(p@),
            EmailAction::Keep => EmailAction::Keep,
        }
    }
}

/// A new message that has nothing to download.
#[derive(Debug)]
#[verifier::ext_equal]
pub struct NoBlob<T = String> {
    pub jmap_id: T,
}

/// The view of an action or an error.
pub open spec fn action_view(r: Result<EmailAction, NoBlob>) -> Result<
    EmailAction<Seq<char>>,
    NoBlob<Seq<char>>,
> {
    match r {
        Ok(a) => Ok(a@),
        Err(e) => Err(NoBlob { jmap_id: e.jmap_id@ }),
    }
}

impl NoBlob<String> {
    /// What the user reads.
    pub fn message(&self) -> (r: String)
        ensures
            r@ == "email "@ + self.jmap_id@ + " has no blobId"@,
    {
        let mut out: String = "email ".to_owned();
        out.append(self.jmap_id.as_str());
        out.append(" has no blobId");
        out
    }
}

/// What a message that is here asks for, by how it differs from its placement: to
/// move comes before everything else.
pub open spec fn change_of(
    existing: EmailRow<Seq<char>>,
    placement: Placement<Seq<char>>,
    drifted: bool,
) -> EmailAction<Seq<char>> {
    if existing.primary_mailbox != placement.primary_id {
        EmailAction::Move(placement)
    } else if flags_in(existing.file_path) != placement.flags || existing.keywords != Some(
        placement.keywords,
    ) || drifted {
        EmailAction::Update(placement)
    } else {
        EmailAction::Keep
    }
}

/// What a message asks for, given where it is to stand.
pub open spec fn action_for(
    jmap_id: Seq<char>,
    blob_id: Option<Seq<char>>,
    placement: Placement<Seq<char>>,
    existing: Option<EmailRow<Seq<char>>>,
    drifted: bool,
) -> Result<EmailAction<Seq<char>>, NoBlob<Seq<char>>> {
    match existing {
        None => match blob_id {
            Some(blob_id) => Ok(EmailAction::Insert { jmap_id, blob_id, placement }),
            None => Err(NoBlob { jmap_id }),
        },
        Some(row) => Ok(change_of(row, placement, drifted)),
    }
}

/// The view of an optional reference to a row.
pub open spec fn opt_email_view(o: Option<&EmailRow>) -> Option<EmailRow<Seq<char>>> {
    match o {
        Some(r) => Some(r@),
        None => None,
    }
}

/// What a message asks for, given where it is to stand.
pub fn decide_email(
    jmap_id: &str,
    blob_id: &Option<String>,
    placement: Placement,
    existing: Option<&EmailRow>,
    drifted: bool,
) -> (r: Result<EmailAction, NoBlob>)
    ensures
        action_view(r) == action_for(
            jmap_id@,
            opt_view(*blob_id),
            placement@,
            opt_email_view(existing),
            drifted,
        ),
{
    match existing {
        None => match blob_id {
            Some(b) => Ok(
                EmailAction::Insert { jmap_id: jmap_id.to_owned(), blob_id: b.clone(), placement },
            ),
            None => Err(NoBlob { jmap_id: jmap_id.to_owned() }),
        },
        Some(row) => {
            if row.primary_mailbox != placement.primary_id {
                return Ok(EmailAction::Move(placement));
            }
            let flags = current_flags_from_path(row.file_path.as_str());
            let same_keywords = match &row.keywords {
                Some(k) => *k == placement.keywords,
                None => false,
            };
            if flags != placement.flags || !same_keywords || drifted {
                Ok(EmailAction::Update(placement))
            } else {
                Ok(EmailAction::Keep)
            }
        },
    }
}

/// Where a message is to stand: in the directory of its primary mailbox, with the
/// flags of its keywords. A message without a time counts as received `now`.
pub open spec fn placement_of(
    email: ServerEmail<Seq<char>, Seq<Seq<char>>>,
    primary: MailboxRow<Seq<char>>,
    now: i64,
) -> Placement<Seq<char>> {
    Placement {
        primary_id: primary.id,
        dir: primary.path,
        flags: flags_of(email.keywords),
        keywords: keywords_text(email.keywords),
        received_ts: match email.received_at {
            Some(t) => t,
            None => now,
        },
    }
}

/// What is to be done about one message of the server.
pub open spec fn planned(
    email: ServerEmail<Seq<char>, Seq<Seq<char>>>,
    mailboxes: Map<Seq<char>, MailboxRow<Seq<char>>>,
    existing: Option<EmailRow<Seq<char>>>,
    memberships: Seq<Seq<char>>,
    now: i64,
) -> Result<EmailAction<Seq<char>>, NoBlob<Seq<char>>> {
    match email.id {
        None => Ok(EmailAction::Ignore),
        Some(jmap_id) => match primary_of(email.mailbox_ids, mailboxes) {
            None => Ok(
                if existing is Some {
                    EmailAction::Delete
                } else {
                    EmailAction::Ignore
                },
            ),
            Some(primary) => action_for(
                jmap_id,
                email.blob_id,
                placement_of(email, primary, now),
                existing,
                has_drifted(memberships, email.mailbox_ids, mailboxes),
            ),
        },
    }
}

/// What is to be done about one message of the server. `existing` is its local row,
/// if it has one, and `memberships` are the local ids of the mailboxes that it is
/// in.
pub fn apply_email(
    email: &ServerEmail,
    mailbox_by_jmap: &Keyed<MailboxRow>,
    existing: Option<&EmailRow>,
    memberships: &Vec<String>,
    now: i64,
) -> (r: Result<EmailAction, NoBlob>)
    requires
        mailbox_by_jmap.wf(),
    ensures
        action_view(r) == planned(
            email@,
            row_views(mailbox_by_jmap@),
            opt_email_view(existing),
            views(memberships@),
            now,
        ),
{
    let jmap_id = match &email.id {
        Some(id) => id,
        None => return Ok(EmailAction::Ignore),
    };
    let primary = match pick_primary_mailbox(&email.mailbox_ids, mailbox_by_jmap) {
        Some(row) => row,
        None => {
            return Ok(
                match existing {
                    Some(_) => EmailAction::Delete,
                    None => EmailAction::Ignore,
                },
            );
        },
    };
    let placement = Placement {
        primary_id: primary.id.clone(),
        dir: primary.path.clone(),
        flags: keywords_to_flag_string(&email.keywords),
        keywords: serialize_keywords(&email.keywords),
        received_ts: match email.received_at {
            Some(t) => t,
            None => now,
        },
    };
    let drifted = memberships_differ(memberships, &email.mailbox_ids, mailbox_by_jmap);
    decide_email(jmap_id.as_str(), &email.blob_id, placement, existing, drifted)
}

// ---------------------------------------------------------------------------
// Rows
// ---------------------------------------------------------------------------

/// The row of a message that has just been downloaded to `file_path`.
pub open spec fn inserted_row(
    id: Seq<char>,
    jmap_id: Seq<char>,
    email: ServerEmail<Seq<char>, Seq<Seq<char>>>,
    placement: Placement<Seq<char>>,
    file_path: Seq<char>,
    now: i64,
) -> EmailRow<Seq<char>> {
    EmailRow {
        id,
        jmap_id: Some(jmap_id),
        message_id: if email.message_ids.len() > 0 {
            Some(email.message_ids[0])
        } else {
            None
        },
        file_path,
        primary_mailbox: placement.primary_id,
        keywords: Some(placement.keywords),
        jmap_state: None,
        size: Some(email.size as i64),
        last_sync: Some(now),
        is_dirty: false,
    }
}

/// The row of a message that has just been downloaded to `file_path`.
pub fn insert_email(
    id: String,
    jmap_id: &str,
    email: &ServerEmail,
    placement: &Placement,
    file_path: &str,
    now: i64,
) -> (r: EmailRow)
    ensures
        r@ == inserted_row(id@, jmap_id@, email@, placement@, file_path@, now),
{
    let message_id = if email.message_ids.len() > 0 {
        Some(email.message_ids[0].clone())
    } else {
        None
    };
    EmailRow {
        id,
        jmap_id: Some(jmap_id.to_owned()),
        message_id,
        file_path: file_path.to_owned(),
        primary_mailbox: placement.primary_id.clone(),
        keywords: Some(placement.keywords.clone()),
        jmap_state: None,
        size: Some(#[verifier::truncate] (email.size as i64)),
        last_sync: Some(now),
        is_dirty: false,
    }
}

/// The path of a message's file under a placement.
pub open spec fn placed_path(placement: Placement<Seq<char>>, uuid: Seq<char>) -> Seq<char> {
    message_path(placement.dir, placement.received_ts as int, uuid, placement.flags)
}

/// The path of a message's file under a placement.
pub fn place_message(placement: &Placement, uuid: &str) -> (r: String)
    ensures
        r@ == placed_path(placement@, uuid@),
{
    build_message_path(
        placement.dir.as_str(),
        placement.received_ts,
        uuid,
        placement.flags.as_str(),
    )
}

/// The row of a message whose flags, keywords or memberships have changed. The file
/// keeps its name but for the flags.
pub open spec fn updated_email(
    existing: EmailRow<Seq<char>>,
    placement: Placement<Seq<char>>,
    now: i64,
) -> EmailRow<Seq<char>> {
    EmailRow {
        file_path: with_flags(existing.file_path, placement.flags),
        keywords: Some(placement.keywords),
        last_sync: Some(now),
        ..existing
    }
}

/// The row of a message whose flags, keywords or memberships have changed.
pub fn update_email_in_place(existing: &EmailRow, placement: &Placement, now: i64) -> (r: EmailRow)
    ensures
        r@ == updated_email(existing@, placement@, now),
{
    let mut row = existing.clone();
    row.file_path = rebuild_path_with_flags(existing.file_path.as_str(), placement.flags.as_str());
    row.keywords = Some(placement.keywords.clone());
    row.last_sync = Some(now);
    row
}

/// The row of a message that has moved to another mailbox, with the identifier
/// `uuid` in its file's name.
pub open spec fn moved_email(
    existing: EmailRow<Seq<char>>,
    placement: Placement<Seq<char>>,
    uuid: Seq<char>,
    now: i64,
) -> EmailRow<Seq<char>> {
    EmailRow {
        file_path: placed_path(placement, uuid),
        primary_mailbox: placement.primary_id,
        keywords: Some(placement.keywords),
        last_sync: Some(now),
        ..existing
    }
}

/// The row of a message that has moved to another mailbox, under the identifier
/// `uuid`.
pub fn move_email_as(existing: &EmailRow, placement: &Placement, uuid: &str, now: i64) -> (r:
    EmailRow)
    ensures
        r@ == moved_email(existing@, placement@, uuid@, now),
{
    let mut row = existing.clone();
    row.file_path = place_message(placement, uuid);
    row.primary_mailbox = placement.primary_id.clone();
    row.keywords = Some(placement.keywords.clone());
    row.last_sync = Some(now);
    row
}

/// The row of a message that moves to another mailbox. Its file keeps the identifier
/// that it has, and gets a new one if it has none.
pub fn move_email(existing: &EmailRow, placement: &Placement, now: i64) -> (r: EmailRow)
    ensures
        match uuid_in(existing@.file_path) {
            Some(uuid) => r@ == moved_email(existing@, placement@, uuid, now),
            None => exists|uuid: Seq<char>|
                is_file_id(uuid) && is_drawn(uuid) && r@ == #[trigger] moved_email(
                    existing@,
                    placement@,
                    uuid,
                    now,
                ),
        },
{
    match extract_uuid(existing.file_path.as_str()) {
        Some(uuid) => move_email_as(existing, placement, uuid.as_str(), now),
        None => {
            let uuid = new_uuid_string();
            move_email_as(existing, placement, uuid.as_str(), now)
        },
    }
}

// ---------------------------------------------------------------------------
// Laws on one message
// ---------------------------------------------------------------------------

/// A message that moves keeps the identifier in its file's name.
pub proof fn law_move_keeps_identifier(
    existing: EmailRow<Seq<char>>,
    placement: Placement<Seq<char>>,
    now: i64,
)
    requires
        uuid_in(existing.file_path) is Some,
        !placement.flags.contains('/'),
    ensures
        uuid_in(
            moved_email(existing, placement, uuid_in(existing.file_path)->0, now).file_path,
        ) == uuid_in(existing.file_path),
{
    let uuid = uuid_in(existing.file_path)->0;
    law_found_uuid_is_file_id(existing.file_path);
    law_uuid_read_back(placement.dir, placement.received_ts as int, uuid, placement.flags);
}

/// The flags in a file's name are those of the placement.
proof fn lemma_placed_flags(placement: Placement<Seq<char>>, uuid: Seq<char>)
    requires
        !occurs(placement.flags, ":2,"@),
    ensures
        flags_in(placed_path(placement, uuid)) == placement.flags,
{
    reveal_strlit(":2,");
    let head = placement.dir + "/cur/"@ + crate::numbers::signed_decimal(
        placement.received_ts as int,
    ) + "."@ + uuid;
    let s = placed_path(placement, uuid);
    let n = head.len() as int;
    assert(s =~= head + ":2,"@ + placement.flags);
    assert(s.subrange(n, n + 3) =~= ":2,"@);
    assert forall|j: int| n < j implies !occurs_at(s, ":2,"@, j) by {
        if occurs_at(s, ":2,"@, j) {
            let w = s.subrange(j, j + 3);
            assert(w[0] == ':' && w[1] == '2' && w[2] == ',');
            assert(s[j] == ':' && s[j + 1] == '2' && s[j + 2] == ',');
            assert(s[n] == ':' && s[n + 1] == '2' && s[n + 2] == ',');
            assert(placement.flags.subrange(j - n - 3, j - n) =~= w);
            assert(occurs_at(placement.flags, ":2,"@, j - n - 3));
        }
    }
    lemma_rfind_is(s, ":2,"@, n);
    assert(s.skip(n + 3) =~= placement.flags);
}

/// Doing what a message asks for settles it: if the server says the same again, there
/// is nothing left to do.
pub proof fn law_sync_settles(
    existing: EmailRow<Seq<char>>,
    placement: Placement<Seq<char>>,
    uuid: Seq<char>,
    now: i64,
)
    requires
        !occurs(placement.flags, ":2,"@),
    ensures
        existing.primary_mailbox == placement.primary_id ==> change_of(
            updated_email(existing, placement, now),
            placement,
            false,
        ) == EmailAction::<Seq<char>>::Keep,
        change_of(moved_email(existing, placement, uuid, now), placement, false)
            == EmailAction::<Seq<char>>::Keep,
{
    law_flags_read_back(existing.file_path, placement.flags);
    lemma_placed_flags(placement, uuid);
}

/// A message that has just been downloaded is as it should be.
pub proof fn law_insert_settles(
    id: Seq<char>,
    jmap_id: Seq<char>,
    email: ServerEmail<Seq<char>, Seq<Seq<char>>>,
    placement: Placement<Seq<char>>,
    uuid: Seq<char>,
    now: i64,
)
    requires
        !occurs(placement.flags, ":2,"@),
    ensures
        change_of(
            inserted_row(id, jmap_id, email, placement, placed_path(placement, uuid), now),
            placement,
            false,
        ) == EmailAction::<Seq<char>>::Keep,
{
    lemma_placed_flags(placement, uuid);
}

/// A second sync finds nothing to do: whatever a message asked for the first time, once
/// that is done and the server still says the same, it is left alone. `now` is when it
/// was done and `later` when the server says so again.
pub proof fn law_second_sync_is_idle(
    email: ServerEmail<Seq<char>, Seq<Seq<char>>>,
    mailboxes: Map<Seq<char>, MailboxRow<Seq<char>>>,
    existing: EmailRow<Seq<char>>,
    id: Seq<char>,
    uuid: Seq<char>,
    now: i64,
    later: i64,
)
    requires
        email.id is Some,
        primary_of(email.mailbox_ids, mailboxes) is Some,
    ensures
        ({
            let jmap_id = email.id->0;
            let placement = placement_of(
                email,
                primary_of(email.mailbox_ids, mailboxes)->0,
                now,
            );
            let inserted = inserted_row(
                id,
                jmap_id,
                email,
                placement,
                placed_path(placement, uuid),
                now,
            );
            let moved = moved_email(existing, placement, uuid, now);
            let updated = updated_email(existing, placement, now);
            let idle = Ok::<EmailAction<Seq<char>>, NoBlob<Seq<char>>>(EmailAction::Keep);
            let held = |row: EmailRow<Seq<char>>|
                held_mailboxes(
                    memberships_of(row.id, placement.primary_id, email.mailbox_ids, mailboxes),
                );
            &&& planned(email, mailboxes, Some(inserted), held(inserted), later) == idle
            &&& planned(email, mailboxes, Some(moved), held(moved), later) == idle
            &&& existing.primary_mailbox == placement.primary_id ==> planned(
                email,
                mailboxes,
                Some(updated),
                held(updated),
                later,
            ) == idle
        }),
{
    let primary = primary_of(email.mailbox_ids, mailboxes)->0;
    let placement = placement_of(email, primary, now);
    let again = placement_of(email, primary, later);
    law_keyword_flags_are_plain(email.keywords);
    law_sync_settles(existing, placement, uuid, now);
    law_insert_settles(id, email.id->0, email, placement, uuid, now);
    law_memberships_settle(id, placement.primary_id, email.mailbox_ids, mailboxes);
    law_memberships_settle(existing.id, placement.primary_id, email.mailbox_ids, mailboxes);
}

// ---------------------------------------------------------------------------
// All messages
// ---------------------------------------------------------------------------

/// Where the next page of an Email/query begins, if there is one: a page that is not
/// full is the last.
pub fn next_page(position: i32, page_len: usize) -> (r: Option<i32>)
    requires
        page_len >= EMAIL_QUERY_PAGE_SIZE ==> position + page_len <= i32::MAX,
    ensures
        r == (if page_len < EMAIL_QUERY_PAGE_SIZE {
            None
        } else {
            Some((position + page_len) as i32)
        }),
{
    if page_len < EMAIL_QUERY_PAGE_SIZE {
        None
    } else {
        Some((position as i64 + page_len as i64) as i32)
    }
}

/// Adds the ids of a page to those that are known.
pub fn collect_ids(ids: &mut Keyed<()>, page: &Vec<String>)
    requires
        old(ids).wf(),
    ensures
        final(ids).wf(),
        forall|k: Seq<char>| #[trigger]
            final(ids)@.contains_key(k) <==> old(ids)@.contains_key(k) || views(page@).contains(k),
{
    let ghost before = ids@;
    let ghost pv = views(page@);
    let mut i: usize = 0;
    while i < page.len()
        invariant
            ids.wf(),
            pv == views(page@),
            i <= page@.len(),
            forall|k: Seq<char>| #[trigger]
                ids@.contains_key(k) <==> before.contains_key(k) || exists|j: int|
                    0 <= j < i && #[trigger] pv[j] == k,
        decreases page@.len() - i,
    {
        let ghost now = ids@;
        ids.insert(page[i].clone(), ());
        assert forall|k: Seq<char>| #[trigger] ids@.contains_key(k) <==> before.contains_key(k)
            || exists|j: int| 0 <= j < i + 1 && #[trigger] pv[j] == k by {
            assert(ids@.contains_key(k) <==> now.contains_key(k) || k == pv[i as int]);
            if now.contains_key(k) && !before.contains_key(k) {
                let j = choose|j: int| 0 <= j < i && #[trigger] pv[j] == k;
                assert(pv[j] == k);
            }
            if k == pv[i as int] {
                assert(pv[i as int] == k);
            }
        }
        i += 1;
    }
    assert forall|k: Seq<char>| #[trigger] ids@.contains_key(k) <==> before.contains_key(k)
        || pv.contains(k) by {
        if exists|j: int| 0 <= j < i && #[trigger] pv[j] == k {
            let j = choose|j: int| 0 <= j < i && #[trigger] pv[j] == k;
            assert(pv.contains(k));
        }
        if pv.contains(k) {
            let j = choose|j: int| 0 <= j < pv.len() && pv[j] == k;
            assert(pv[j] == k);
        }
    }
}

/// The views of a map of rows.
pub open spec fn email_row_views(m: Map<Seq<char>, EmailRow>) -> Map<
    Seq<char>,
    EmailRow<Seq<char>>,
> {
    m.map_values(|r: EmailRow| r@)
}

/// Rows by the server's id. Of two rows with one id the later counts.
pub open spec fn emails_by_id(rows: Seq<EmailRow<Seq<char>>>) -> Map<Seq<char>, EmailRow<Seq<char>>>
    decreases rows.len(),
{
    if rows.len() == 0 {
        Map::empty()
    } else {
        let before = emails_by_id(rows.drop_last());
        match rows.last().jmap_id {
            Some(id) => before.insert(id, rows.last()),
            None => before,
        }
    }
}

/// Local messages by the server's id. Of two rows with one id the later counts.
pub fn emails_by_jmap_id(rows: &Vec<EmailRow>) -> (r: Keyed<EmailRow>)
    ensures
        r.wf(),
        email_row_views(r@) == emails_by_id(rows@.map_values(|m: EmailRow| m@)),
{
    let mut out: Keyed<EmailRow> = Keyed::new();
    let ghost rv = rows@.map_values(|m: EmailRow| m@);
    let mut i: usize = 0;
    assert(rv.take(0) =~= Seq::empty());
    assert(email_row_views(out@) =~= emails_by_id(rv.take(0)));
    while i < rows.len()
        invariant
            i <= rows@.len(),
            rv == rows@.map_values(|m: EmailRow| m@),
            out.wf(),
            email_row_views(out@) == emails_by_id(rv.take(i as int)),
        decreases rows@.len() - i,
    {
        let ghost before = out@;
        let ghost t = rv.take(i + 1);
        assert(t.drop_last() =~= rv.take(i as int));
        assert(t.last() == rows@[i as int]@);
        match &rows[i].jmap_id {
            Some(id) => {
                let copy = rows[i].clone();
                out.insert(id.clone(), copy);
                assert(email_row_views(out@) =~= email_row_views(before).insert(id@, copy@));
            },
            None => {},
        }
        i += 1;
    }
    assert(rv.take(i as int) =~= rv);
    out
}

/// The messages that are here but no longer on the server, each once.
pub fn vanished_emails(
    local_by_jmap: &Keyed<EmailRow>,
    server_ids: &Keyed<()>,
) -> (r: Vec<String>)
    requires
        local_by_jmap.wf(),
    ensures
        views(r@).no_duplicates(),
        forall|k: Seq<char>| #[trigger]
            views(r@).contains(k) <==> local_by_jmap@.contains_key(k)
                && !server_ids@.contains_key(k),
{
    let keys = local_by_jmap.key_list();
    let ghost kv = views(keys@);
    let mut out: Vec<String> = Vec::new();
    let mut i: usize = 0;
    while i < keys.len()
        invariant
            kv == views(keys@),
            kv.no_duplicates(),
            i <= keys@.len(),
            views(out@).no_duplicates(),
            forall|k: Seq<char>| #[trigger]
                views(out@).contains(k) <==> kv.take(i as int).contains(k)
                    && !server_ids@.contains_key(k),
        decreases keys@.len() - i,
    {
        let ghost before = views(out@);
        let ghost x = kv[i as int];
        assert(kv.take(i + 1) =~= kv.take(i as int).push(x));
        assert(!kv.take(i as int).contains(x));
        assert(!before.contains(x));
        if !server_ids.contains(keys[i].as_str()) {
            out.push(keys[i].clone());
            assert(views(out@) =~= before.push(x));
        }
        assert forall|k: Seq<char>| #[trigger] views(out@).contains(k) <==> kv.take(i + 1).contains(
            k,
        ) && !server_ids@.contains_key(k) by {
            lemma_push_contains(kv.take(i as int), x, k);
            lemma_push_contains(before, x, k);
            assert(before.contains(k) <==> kv.take(i as int).contains(k)
                && !server_ids@.contains_key(k));
        }
        i += 1;
    }
    assert(kv.take(i as int) =~= kv);
    out
}

/// The ids in the order in which the messages are asked for, each once.
pub fn hydration_order(server_ids: &Keyed<()>) -> (r: Vec<String>)
    requires
        server_ids.wf(),
    ensures
        strictly_in_order(views(r@)),
        forall|k: Seq<char>| #[trigger] views(r@).contains(k) <==> server_ids@.contains_key(k),
{
    let keys = server_ids.key_list();
    let sorted = sort_texts(keys);
    proof {
        broadcast use vstd::seq_lib::group_to_multiset_ensures;

        let a = views(sorted@);
        let b = views(keys@);
        lemma_multiset_set(a, b);
        b.lemma_multiset_has_no_duplicates();
        a.lemma_multiset_has_no_duplicates_conv();
        assert forall|i: int, j: int| 0 <= i < j < a.len() implies text_lt(
            #[trigger] a[i],
            #[trigger] a[j],
        ) by {
            assert(text_le(a[i], a[j]));
            lemma_text_lt_total(a[i], a[j]);
        }
        assert forall|k: Seq<char>| #[trigger] a.contains(k) <==> server_ids@.contains_key(k) by {
            assert(a.to_set().contains(k) <==> a.contains(k));
            assert(b.to_set().contains(k) <==> b.contains(k));
        }
    }
    sorted
}

/// How many of `n` ids come before chunk number `c`.
pub open spec fn chunk_start(c: int, n: int) -> int {
    if c * EMAIL_GET_CHUNK_SIZE < n {
        c * EMAIL_GET_CHUNK_SIZE
    } else {
        n
    }
}

/// The ids in the parts in which they are asked for: full ones, and a last one with
/// the rest. Each id is in one of them.
pub fn hydration_chunks(order: &Vec<String>) -> (r: Vec<Vec<String>>)
    ensures
        chunk_start(r@.len() as int, order@.len() as int) == order@.len(),
        forall|c: int|
            0 <= c < r@.len() ==> views((#[trigger] r@[c])@) == views(order@).subrange(
                chunk_start(c, order@.len() as int),
                chunk_start(c + 1, order@.len() as int),
            ) && r@[c]@.len() > 0,
{
    let mut out: Vec<Vec<String>> = Vec::new();
    let ghost n = order@.len() as int;
    let mut from: usize = 0;
    while from < order.len()
        invariant
            n == order@.len(),
            from == chunk_start(out@.len() as int, n),
            from <= order@.len(),
            forall|c: int|
                0 <= c < out@.len() ==> views((#[trigger] out@[c])@) == views(order@).subrange(
                    chunk_start(c, n),
                    chunk_start(c + 1, n),
                ) && out@[c]@.len() > 0,
        decreases order@.len() - from,
    {
        let to: usize = if order.len() - from <= EMAIL_GET_CHUNK_SIZE {
            order.len()
        } else {
            from + EMAIL_GET_CHUNK_SIZE
        };
        let mut chunk: Vec<String> = Vec::new();
        let mut i: usize = from;
        while i < to
            invariant
                from <= i <= to <= order@.len(),
                chunk@.len() == i - from,
                views(chunk@) == views(order@).subrange(from as int, i as int),
            decreases to - i,
        {
            let ghost before = views(chunk@);
            chunk.push(order[i].clone());
            assert(views(chunk@) =~= before.push(views(order@)[i as int]));
            assert(views(order@).subrange(from as int, i + 1) =~= before.push(
                views(order@)[i as int],
            ));
            i += 1;
        }
        out.push(chunk);
        from = to;
    }
    out
}

// ---------------------------------------------------------------------------
// Laws on decisions and counts
// ---------------------------------------------------------------------------

/// What is done about one message is counted once, as what it was, and nothing that was
/// counted before is lost. Bytes are counted for what is downloaded alone.
pub proof fn law_every_change_is_counted_once(action: &EmailAction, bytes: u64)
    ensures
        forall|s: &mut EmailSyncStats| #[trigger]
            call_ensures(EmailSyncStats::record, (s, action, bytes), ()) && s.created < usize::MAX
                && s.updated < usize::MAX && s.moved < usize::MAX && s.deleted < usize::MAX
                && s.bytes_downloaded + bytes <= u64::MAX ==> {
                &&& final(s).created == s.created + if action is Insert {
                    1int
                } else {
                    0
                }
                &&& final(s).moved == s.moved + if action is Move {
                    1int
                } else {
                    0
                }
                &&& final(s).updated == s.updated + if action is Update {
                    1int
                } else {
                    0
                }
                &&& final(s).deleted == s.deleted + if action is Delete {
                    1int
                } else {
                    0
                }
                &&& final(s).bytes_downloaded == s.bytes_downloaded + if action is Insert {
                    bytes as int
                } else {
                    0
                }
            },
{
}

/// Something was changed exactly if something was counted: bytes alone are no change.
pub proof fn law_changes_are_what_was_counted(s: &EmailSyncStats, r: bool)
    requires
        call_ensures(EmailSyncStats::changed, (s,), r),
    ensures
        !r <==> s.created == 0 && s.updated == 0 && s.moved == 0 && s.deleted == 0,
{
}

/// The inbox comes first, then the sent mail, the drafts, the archive, the trash and the
/// junk. Every other role, and none, comes after all of these, none before another.
pub proof fn law_roles_have_their_places(role: Option<Seq<char>>)
    ensures
        rank_of(Some("inbox"@)) < rank_of(Some("sent"@)) < rank_of(Some("drafts"@)) < rank_of(
            Some("archive"@),
        ) < rank_of(Some("trash"@)) < rank_of(Some("junk"@)) < rank_of(None),
        role != Some("inbox"@) && role != Some("sent"@) && role != Some("drafts"@) && role != Some(
            "archive"@,
        ) && role != Some("trash"@) && role != Some("junk"@) ==> rank_of(role) == rank_of(None),
{
    reveal_strlit("inbox");
    reveal_strlit("sent");
    reveal_strlit("drafts");
    reveal_strlit("archive");
    reveal_strlit("trash");
    reveal_strlit("junk");
    assert("inbox"@[0] == 'i' && "sent"@[0] == 's' && "drafts"@[0] == 'd' && "archive"@[0] == 'a');
    assert("trash"@[0] == 't' && "junk"@[0] == 'j');
}

/// The role counts before the place that the server gives a mailbox, that before the name,
/// and a mailbox without a place comes after those that have one. No two different mailboxes
/// are each preferred to the other, and of two that differ in name one is.
pub proof fn law_preference_goes_by_role_place_and_name(
    a: MailboxRow<Seq<char>>,
    b: MailboxRow<Seq<char>>,
)
    ensures
        rank_of(a.role) < rank_of(b.role) ==> is_preferred(a, b),
        rank_of(a.role) > rank_of(b.role) ==> !is_preferred(a, b),
        a.role == b.role && a.sort_order is Some && b.sort_order is Some && a.sort_order->0
            < b.sort_order->0 ==> is_preferred(a, b),
        a.role == b.role && a.sort_order is Some && b.sort_order is None && a.sort_order->0
            < i64::MAX ==> is_preferred(a, b),
        a.role == b.role && a.sort_order == b.sort_order ==> (is_preferred(a, b) <==> text_lt(
            a.name,
            b.name,
        )),
        !(is_preferred(a, b) && is_preferred(b, a)),
        a.name != b.name ==> is_preferred(a, b) || is_preferred(b, a),
{
    if is_preferred(a, b) && is_preferred(b, a) {
        lemma_text_lt_transitive(a.name, b.name, a.name);
        lemma_text_lt_irreflexive(a.name);
    }
    lemma_text_lt_total(a.name, b.name);
}

proof fn lemma_primary_is_first(
    ids: Seq<Seq<char>>,
    mailboxes: Map<Seq<char>, MailboxRow<Seq<char>>>,
    n: int,
)
    requires
        0 <= n <= ids.len(),
    ensures
        primary_among(ids, mailboxes, n) is Some ==> forall|j: int|
            0 <= j < primary_among(ids, mailboxes, n)->0 && mailboxes.contains_key(#[trigger] ids[j])
                ==> is_preferred(
                mailboxes[ids[primary_among(ids, mailboxes, n)->0]],
                mailboxes[ids[j]],
            ),
    decreases n,
{
    if n > 0 {
        lemma_primary_is_first(ids, mailboxes, n - 1);
        lemma_primary(ids, mailboxes, n - 1);
        let before = primary_among(ids, mailboxes, n - 1);
        if mailboxes.contains_key(ids[n - 1]) && before is Some && is_preferred(
            mailboxes[ids[n - 1]],
            mailboxes[ids[before->0]],
        ) {
            let a = mailboxes[ids[n - 1]];
            let b = mailboxes[ids[before->0]];
            assert forall|j: int| 0 <= j < n - 1 && mailboxes.contains_key(#[trigger] ids[j]) implies
                is_preferred(a, mailboxes[ids[j]]) by {
                let c = mailboxes[ids[j]];
                assert(!is_preferred(c, b));
                lemma_text_lt_total(b.name, c.name);
                if text_lt(b.name, c.name) && text_lt(a.name, b.name) {
                    lemma_text_lt_transitive(a.name, b.name, c.name);
                }
            }
        }
    }
}

/// The file of a message stands in a mailbox of the message that is synced, in one whose
/// role no other of these comes before; if the message is in the inbox, it stands there.
/// Where nothing speaks for one of two mailboxes, it stands in the one that the message
/// lists first.
pub proof fn law_file_stands_in_the_first_of_its_mailboxes(
    ids: Seq<Seq<char>>,
    mailboxes: Map<Seq<char>, MailboxRow<Seq<char>>>,
)
    requires
        primary_of(ids, mailboxes) is Some,
    ensures
        exists|k: int|
            {
                &&& 0 <= k < ids.len()
                &&& mailboxes.contains_key(#[trigger] ids[k])
                &&& primary_of(ids, mailboxes) == Some(mailboxes[ids[k]])
                &&& forall|j: int|
                    0 <= j < k && mailboxes.contains_key(#[trigger] ids[j]) ==> is_preferred(
                        mailboxes[ids[k]],
                        mailboxes[ids[j]],
                    )
                &&& forall|j: int|
                    0 <= j < ids.len() && mailboxes.contains_key(#[trigger] ids[j]) ==> rank_of(
                        mailboxes[ids[k]].role,
                    ) <= rank_of(mailboxes[ids[j]].role)
            },
        (exists|j: int|
            0 <= j < ids.len() && mailboxes.contains_key(#[trigger] ids[j]) && mailboxes[ids[j]].role
                == Some("inbox"@)) ==> primary_of(ids, mailboxes)->0.role == Some("inbox"@),
{
    let n = ids.len() as int;
    lemma_primary(ids, mailboxes, n);
    lemma_primary_is_first(ids, mailboxes, n);
    let k = primary_among(ids, mailboxes, n)->0;
    assert forall|j: int| 0 <= j < ids.len() && mailboxes.contains_key(#[trigger] ids[j]) implies rank_of(
        mailboxes[ids[k]].role,
    ) <= rank_of(mailboxes[ids[j]].role) by {
        assert(!is_preferred(mailboxes[ids[j]], mailboxes[ids[k]]));
    }
    assert(mailboxes.contains_key(ids[k]));
    if exists|j: int|
        0 <= j < ids.len() && mailboxes.contains_key(#[trigger] ids[j]) && mailboxes[ids[j]].role
            == Some("inbox"@) {
        let j = choose|j: int|
            0 <= j < ids.len() && mailboxes.contains_key(#[trigger] ids[j])
                && mailboxes[ids[j]].role == Some("inbox"@);
        law_roles_have_their_places(mailboxes[ids[k]].role);
        assert(rank_of(mailboxes[ids[k]].role) <= rank_of(mailboxes[ids[j]].role));
    }
}

/// The memberships of a message are those of its mailboxes that are synced, in the order in
/// which it lists them, each of the message itself, and the primary one marked and no other.
pub proof fn law_memberships_are_those_of_the_synced_mailboxes(
    email_id: Seq<char>,
    primary_id: Seq<char>,
    ids: Seq<Seq<char>>,
    mailboxes: Map<Seq<char>, MailboxRow<Seq<char>>>,
)
    ensures
        ({
            let rows = memberships_of(email_id, primary_id, ids, mailboxes);
            let synced = ids.filter(|id: Seq<char>| mailboxes.contains_key(id));
            &&& rows.len() == synced.len()
            &&& forall|i: int|
                0 <= i < rows.len() ==> {
                    &&& (#[trigger] rows[i]).mailbox_id == mailboxes[synced[i]].id
                    &&& rows[i].email_id == email_id
                    &&& rows[i].is_primary <==> rows[i].mailbox_id == primary_id
                }
        }),
    decreases ids.len(),
{
    reveal(Seq::filter);
    if ids.len() > 0 {
        law_memberships_are_those_of_the_synced_mailboxes(
            email_id,
            primary_id,
            ids.drop_last(),
            mailboxes,
        );
    }
}

/// What is done about a message follows from where it is and where it is to be. One without
/// an id is passed over. One in no synced mailbox goes if it is here. One that is new is
/// downloaded, and it is an error only if there is nothing to download. One that is here is
/// moved exactly if its file stands in another mailbox than it is to, and is left alone
/// exactly if that, its flags, its keywords and its mailboxes are right; it never goes and
/// is never downloaded again.
pub proof fn law_decision_follows_the_server(
    email: ServerEmail<Seq<char>, Seq<Seq<char>>>,
    mailboxes: Map<Seq<char>, MailboxRow<Seq<char>>>,
    existing: Option<EmailRow<Seq<char>>>,
    memberships: Seq<Seq<char>>,
    now: i64,
)
    ensures
        ({
            let r = planned(email, mailboxes, existing, memberships, now);
            let primary = primary_of(email.mailbox_ids, mailboxes);
            let synced = exists|k: int|
                0 <= k < email.mailbox_ids.len() && mailboxes.contains_key(
                    #[trigger] email.mailbox_ids[k],
                );
            &&& email.id is None ==> r is Ok && r->Ok_0 is Ignore
            &&& email.id is Some && !synced && existing is Some ==> r is Ok && r->Ok_0 is Delete
            &&& email.id is Some && !synced && existing is None ==> r is Ok && r->Ok_0 is Ignore
            &&& r is Err <==> email.id is Some && synced && existing is None && email.blob_id is None
            &&& r is Ok && r->Ok_0 is Insert <==> email.id is Some && synced && existing is None
                && email.blob_id is Some
            &&& r is Ok && r->Ok_0 is Delete <==> email.id is Some && !synced && existing is Some
            &&& email.id is Some && synced && existing is Some ==> {
                &&& r is Ok
                &&& r->Ok_0 is Move <==> existing->0.primary_mailbox != primary->0.id
                &&& r->Ok_0 is Keep <==> existing->0.primary_mailbox == primary->0.id && flags_in(
                    existing->0.file_path,
                ) == flags_of(email.keywords) && existing->0.keywords == Some(
                    keywords_text(email.keywords),
                ) && (forall|m: Seq<char>| #[trigger]
                    memberships.contains(m) <==> exists|k: int|
                        0 <= k < email.mailbox_ids.len() && mailboxes.contains_key(
                            #[trigger] email.mailbox_ids[k],
                        ) && mailboxes[email.mailbox_ids[k]].id == m)
                &&& r->Ok_0 is Move || r->Ok_0 is Update || r->Ok_0 is Keep
            }
        }),
{
    law_primary_is_preferred(email.mailbox_ids, mailboxes);
    let right = forall|m: Seq<char>| #[trigger]
        memberships.contains(m) <==> exists|k: int|
            0 <= k < email.mailbox_ids.len() && mailboxes.contains_key(
                #[trigger] email.mailbox_ids[k],
            ) && mailboxes[email.mailbox_ids[k]].id == m;
    if right {
        assert forall|m: Seq<char>| #[trigger] memberships.contains(m) == is_expected(
            m,
            email.mailbox_ids,
            mailboxes,
        ) by {}
    } else {
        let m = choose|m: Seq<char>|
            !(#[trigger] memberships.contains(m) <==> exists|k: int|
                0 <= k < email.mailbox_ids.len() && mailboxes.contains_key(
                    #[trigger] email.mailbox_ids[k],
                ) && mailboxes[email.mailbox_ids[k]].id == m);
        assert(memberships.contains(m) != is_expected(m, email.mailbox_ids, mailboxes));
    }
    assert(right == !has_drifted(memberships, email.mailbox_ids, mailboxes));
}

/// Wherever a message is put, it is put into the directory of its primary mailbox, under
/// that mailbox's id, with the flags and the keywords that the server says. The time in its
/// name is the server's, and the present only if the server gives none.
pub proof fn law_placement_is_in_the_primary_mailbox(
    email: ServerEmail<Seq<char>, Seq<Seq<char>>>,
    mailboxes: Map<Seq<char>, MailboxRow<Seq<char>>>,
    existing: Option<EmailRow<Seq<char>>>,
    memberships: Seq<Seq<char>>,
    now: i64,
)
    ensures
        ({
            let r = planned(email, mailboxes, existing, memberships, now);
            let primary = primary_of(email.mailbox_ids, mailboxes)->0;
            let right = |p: Placement<Seq<char>>|
                {
                    &&& p.primary_id == primary.id
                    &&& p.dir == primary.path
                    &&& p.flags == flags_of(email.keywords)
                    &&& p.keywords == keywords_text(email.keywords)
                    &&& email.received_at is Some ==> p.received_ts == email.received_at->0
                    &&& email.received_at is None ==> p.received_ts == now
                };
            &&& r is Ok && r->Ok_0 is Insert ==> {
                &&& Some(r->Ok_0->jmap_id) == email.id
                &&& Some(r->Ok_0->blob_id) == email.blob_id
                &&& right(r->Ok_0->placement)
            }
            &&& r is Ok && r->Ok_0 is Move ==> right(r->Ok_0->Move_0)
            &&& r is Ok && r->Ok_0 is Update ==> right(r->Ok_0->Update_0)
        }),
{
}

/// A message whose flags, keywords or mailboxes change stays the message that it was: its
/// file keeps its name but for the flags, and its row keeps all but the path, the keywords
/// and the time of the sync.
pub proof fn law_update_keeps_the_message(
    existing: &EmailRow,
    placement: &Placement,
    now: i64,
    r: EmailRow,
)
    requires
        call_ensures(update_email_in_place, (existing, placement, now), r),
        !occurs(placement.flags@, ":2,"@),
    ensures
        flagless(r.file_path@) == flagless(existing.file_path@),
        flags_in(r.file_path@) == placement.flags@,
        opt_view(r.keywords) == Some(placement.keywords@),
        r.last_sync == Some(now),
        r.id@ == existing.id@,
        opt_view(r.jmap_id) == opt_view(existing.jmap_id),
        opt_view(r.message_id) == opt_view(existing.message_id),
        r.primary_mailbox@ == existing.primary_mailbox@,
        opt_view(r.jmap_state) == opt_view(existing.jmap_state),
        r.size == existing.size,
        r.is_dirty == existing.is_dirty,
{
    law_flags_read_back(existing.file_path@, placement.flags@);
    assert(r@.keywords == opt_view(r.keywords));
    assert(r@.file_path == r.file_path@);
    assert(r@.id == r.id@ && r@.primary_mailbox == r.primary_mailbox@);
    assert(r@.jmap_id == opt_view(r.jmap_id) && r@.message_id == opt_view(r.message_id));
    assert(r@.jmap_state == opt_view(r.jmap_state));
}

/// A message that moves stays the message that it was: its row keeps all but the path, the
/// mailbox, the keywords and the time of the sync. Its file has the identifier that it is
/// moved under in its name and stands in the directory that it is to.
pub proof fn law_move_keeps_the_message(
    existing: EmailRow<Seq<char>>,
    placement: Placement<Seq<char>>,
    uuid: Seq<char>,
    now: i64,
)
    requires
        is_file_id(uuid),
        !occurs(placement.flags, ":2,"@),
        !placement.flags.contains('/'),
    ensures
        ({
            let r = moved_email(existing, placement, uuid, now);
            &&& r.primary_mailbox == placement.primary_id
            &&& flags_in(r.file_path) == placement.flags
            &&& r.file_path == placement.dir + "/cur/"@ + file_name(r.file_path)
            &&& uuid_in(r.file_path) == Some(uuid)
            &&& r.keywords == Some(placement.keywords)
            &&& r.last_sync == Some(now)
            &&& r.id == existing.id
            &&& r.jmap_id == existing.jmap_id
            &&& r.message_id == existing.message_id
            &&& r.jmap_state == existing.jmap_state
            &&& r.size == existing.size
            &&& r.is_dirty == existing.is_dirty
        }),
{
    law_message_path_tells_its_parts(
        placement.dir,
        placement.received_ts as int,
        uuid,
        placement.flags,
    );
}

/// The row of a message that was downloaded says what the server and the placement say of
/// it: its ids, its file, its mailbox, its keywords, and the first of the identifiers in its
/// header. It has no changes of its own.
pub proof fn law_insert_says_what_was_downloaded(
    id: String,
    jmap_id: &str,
    email: &ServerEmail,
    placement: &Placement,
    file_path: &str,
    now: i64,
    r: EmailRow,
)
    requires
        call_ensures(insert_email, (id, jmap_id, email, placement, file_path, now), r),
    ensures
        r.id@ == id@,
        opt_view(r.jmap_id) == Some(jmap_id@),
        r.file_path@ == file_path@,
        r.primary_mailbox@ == placement.primary_id@,
        opt_view(r.keywords) == Some(placement.keywords@),
        r.last_sync == Some(now),
        !r.is_dirty,
        r.jmap_state is None,
        email.size <= i64::MAX ==> r.size is Some && r.size->0 == email.size,
        email.message_ids@.len() > 0 ==> opt_view(r.message_id) == Some(email.message_ids@[0]@),
        email.message_ids@.len() == 0 ==> r.message_id is None,
{
    assert(email@.message_ids.len() == email.message_ids@.len());
    if email.message_ids@.len() > 0 {
        assert(email@.message_ids[0] == email.message_ids@[0]@);
    }
    assert(r@.keywords == opt_view(r.keywords));
    assert(r@.jmap_id == opt_view(r.jmap_id) && r@.message_id == opt_view(r.message_id));
    assert(r@.jmap_state == opt_view(r.jmap_state));
    assert(r@.id == r.id@ && r@.file_path == r.file_path@);
}

/// A row is found under the server's id that it has, the last of that id, and nothing is
/// found under an id that no row has.
pub proof fn law_rows_are_found_by_their_id(rows: Seq<EmailRow<Seq<char>>>, id: Seq<char>)
    ensures
        emails_by_id(rows).contains_key(id) <==> exists|k: int|
            0 <= k < rows.len() && (#[trigger] rows[k]).jmap_id == Some(id),
        emails_by_id(rows).contains_key(id) ==> exists|k: int|
            0 <= k < rows.len() && (#[trigger] rows[k]).jmap_id == Some(id) && emails_by_id(rows)[id]
                == rows[k] && forall|j: int|
                k < j < rows.len() ==> (#[trigger] rows[j]).jmap_id != Some(id),
    decreases rows.len(),
{
    if rows.len() > 0 {
        let n = rows.len() - 1;
        let front = rows.drop_last();
        law_rows_are_found_by_their_id(front, id);
        assert forall|k: int| 0 <= k < n implies #[trigger] front[k] == rows[k] by {}
        if rows[n].jmap_id != Some(id) {
            if exists|k: int| 0 <= k < rows.len() && (#[trigger] rows[k]).jmap_id == Some(id) {
                let k = choose|k: int| 0 <= k < rows.len() && (#[trigger] rows[k]).jmap_id == Some(id);
                assert(front[k].jmap_id == Some(id));
            }
            if emails_by_id(front).contains_key(id) {
                let k = choose|k: int|
                    0 <= k < front.len() && (#[trigger] front[k]).jmap_id == Some(id)
                        && emails_by_id(front)[id] == front[k] && forall|j: int|
                        k < j < front.len() ==> (#[trigger] front[j]).jmap_id != Some(id);
                assert(rows[k].jmap_id == Some(id));
                assert forall|j: int| k < j < rows.len() implies (#[trigger] rows[j]).jmap_id != Some(
                    id,
                ) by {
                    if j < n {
                        assert(front[j].jmap_id != Some(id));
                    }
                }
            }
        } else {
            assert(rows[n].jmap_id == Some(id));
        }
    }
}

/// Every message that is here is either asked for again or has vanished, never both, and
/// every message of the server is asked for.
pub proof fn law_every_message_is_asked_for_or_gone(
    local_by_jmap: &Keyed<EmailRow>,
    server_ids: &Keyed<()>,
    gone: Vec<String>,
    order: Vec<String>,
    id: Seq<char>,
)
    requires
        call_ensures(vanished_emails, (local_by_jmap, server_ids), gone),
        call_ensures(hydration_order, (server_ids,), order),
    ensures
        views(order@).contains(id) <==> server_ids@.contains_key(id),
        local_by_jmap@.contains_key(id) ==> (views(gone@).contains(id) <==> !views(
            order@,
        ).contains(id)),
        !local_by_jmap@.contains_key(id) ==> !views(gone@).contains(id),
{
}

/// Every id is asked for in one part, in order: the parts hold a hundred ids each, the last
/// one what is left.
pub proof fn law_parts_are_the_whole(order: &Vec<String>, r: Vec<Vec<String>>, i: int)
    requires
        call_ensures(hydration_chunks, (order,), r),
        0 <= i < order@.len(),
    ensures
        i / 100 < r@.len(),
        i % 100 < r@[i / 100]@.len(),
        r@[i / 100]@[i % 100]@ == order@[i]@,
        forall|c: int| 0 <= c < r@.len() - 1 ==> (#[trigger] r@[c])@.len() == 100,
        0 < r@.last()@.len() <= 100,
        r@.len() == (order@.len() + 99) / 100,
{
    let n = order@.len() as int;
    let c = i / 100;
    assert(c * 100 <= i < c * 100 + 100);
    let all = views(order@);
    if c >= r@.len() {
        assert(chunk_start(r@.len() as int, n) <= r@.len() * 100);
    }
    assert(views(r@[c]@) == all.subrange(chunk_start(c, n), chunk_start(c + 1, n)));
    assert(views(r@[c]@).len() == r@[c]@.len());
    assert(views(r@[c]@)[i % 100] == all[c * 100 + i % 100]);
    assert(views(r@[c]@)[i % 100] == r@[c]@[i % 100]@);
    let last = r@.len() - 1;
    assert(views(r@[last]@) == all.subrange(chunk_start(last, n), chunk_start(last + 1, n)));
    assert(views(r@[last]@).len() == r@[last]@.len());
    assert(r@[last]@.len() > 0);
    assert forall|d: int| 0 <= d < r@.len() - 1 implies (#[trigger] r@[d])@.len() == 100 by {
        assert(views(r@[d]@) == all.subrange(chunk_start(d, n), chunk_start(d + 1, n)));
        assert(views(r@[d]@).len() == r@[d]@.len());
    }
}

/// There is a next page exactly if the last one was full, and it begins where that ended.
pub proof fn law_pages_follow_one_another(position: i32, page_len: usize, r: Option<i32>)
    requires
        call_ensures(next_page, (position, page_len), r),
        page_len >= 256 ==> position + page_len <= i32::MAX,
    ensures
        r is Some <==> page_len >= 256,
        r is Some ==> r->0 == position + page_len,
{
}

/// Every membership that a message has goes, and every one that it is to have comes: one for
/// each of its mailboxes that is synced, marked if it is the primary one.
pub proof fn law_memberships_are_replaced(
    existing: &Vec<EmailMailboxRow>,
    email_id: &str,
    primary_local_id: &str,
    mailbox_jmap_ids: &Vec<String>,
    mailbox_by_jmap: &Keyed<MailboxRow>,
    r: MembershipPlan,
    k: int,
)
    requires
        call_ensures(
            reconcile_memberships,
            (existing, email_id, primary_local_id, mailbox_jmap_ids, mailbox_by_jmap),
            r,
        ),
    ensures
        0 <= k < existing@.len() ==> exists|i: int|
            0 <= i < r.deletes@.len() && (#[trigger] r.deletes@[i]).0@ == existing@[k].email_id@
                && r.deletes@[i].1@ == existing@[k].mailbox_id@,
        0 <= k < mailbox_jmap_ids@.len() && mailbox_by_jmap@.contains_key(mailbox_jmap_ids@[k]@)
            ==> exists|i: int|
            0 <= i < r.inserts@.len() && (#[trigger] r.inserts@[i]).email_id@ == email_id@
                && r.inserts@[i].mailbox_id@ == mailbox_by_jmap@[mailbox_jmap_ids@[k]@].id@
                && r.inserts@[i].is_primary == (r.inserts@[i].mailbox_id@ == primary_local_id@),
{
    if 0 <= k < existing@.len() {
        assert(r.deletes@[k].0@ == existing@[k].email_id@);
    }
    if 0 <= k < mailbox_jmap_ids@.len() && mailbox_by_jmap@.contains_key(mailbox_jmap_ids@[k]@) {
        let ids = views(mailbox_jmap_ids@);
        let boxes = row_views(mailbox_by_jmap@);
        let rows = memberships_of(email_id@, primary_local_id@, ids, boxes);
        assert(ids[k] == mailbox_jmap_ids@[k]@);
        assert(boxes.contains_key(ids[k]));
        assert(boxes[ids[k]] == mailbox_by_jmap@[ids[k]]@);
        lemma_memberships(email_id@, primary_local_id@, ids, boxes, boxes[ids[k]].id);
        assert(is_expected(boxes[ids[k]].id, ids, boxes));
        let i = choose|i: int| 0 <= i < rows.len() && (#[trigger] rows[i]).mailbox_id == boxes[ids[k]].id;
        law_memberships_are_those_of_the_synced_mailboxes(email_id@, primary_local_id@, ids, boxes);
        assert(membership_views(r.inserts@)[i] == r.inserts@[i]@);
        assert(rows[i].email_id == email_id@);
    }
}

/// The roles that the server gives are told by the names that they are stored under: its inbox
/// comes first, then its sent mail, drafts, archive, trash and junk; what it marks as
/// important and what has no role come last.
pub proof fn law_stored_roles_keep_their_places()
    ensures
        rank_of(role_name(Role::Inbox)) < rank_of(role_name(Role::Sent)),
        rank_of(role_name(Role::Sent)) < rank_of(role_name(Role::Drafts)),
        rank_of(role_name(Role::Drafts)) < rank_of(role_name(Role::Archive)),
        rank_of(role_name(Role::Archive)) < rank_of(role_name(Role::Trash)),
        rank_of(role_name(Role::Trash)) < rank_of(role_name(Role::Junk)),
        rank_of(role_name(Role::Junk)) < rank_of(role_name(Role::Important)),
        rank_of(role_name(Role::Important)) == rank_of(role_name(Role::Unset)),
{
    reveal_strlit("important");
    reveal_strlit("inbox");
    assert("important"@[1] == 'm');
    assert("inbox"@[1] == 'n');
    reveal_strlit("sent");
    reveal_strlit("drafts");
    reveal_strlit("archive");
    reveal_strlit("trash");
    reveal_strlit("junk");
    assert("inbox"@[0] == 'i' && "sent"@[0] == 's' && "drafts"@[0] == 'd' && "archive"@[0] == 'a');
    assert("trash"@[0] == 't' && "junk"@[0] == 'j' && "important"@[0] == 'i');
}

} // verus!
