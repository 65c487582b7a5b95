//! Bringing the local mailboxes in line with those that are to stand on disk.

use vstd::multiset::Multiset;
use vstd::prelude::*;
use vstd::seq_lib::*;
use vstd::string::*;
use vstd::utf8::*;

use crate::keyed::Keyed;
use crate::search::lemma_push_contains;
use crate::sync::rows::MailboxRow;
use crate::sync::target::{depth, distinct_ids, known_paths, law_targets_form_a_tree, path_fault, target_views, targets, ServerMailbox, TargetMailbox};
use crate::text::{lemma_encode_concat, opt_clone, opt_eq, opt_view, views};

verus! {

/// What a mailbox sync did.
#[derive(Debug, PartialEq, Eq, Structural)]
pub struct MailboxSyncStats {
    pub created: usize,
    pub updated: usize,
    pub deleted: usize,
    pub orphaned_emails: usize,
}

impl Default for MailboxSyncStats {
    fn default() -> (r: Self)
        ensures
            r.created == 0,
            r.updated == 0,
            r.deleted == 0,
            r.orphaned_emails == 0,
    {
        MailboxSyncStats { created: 0, updated: 0, deleted: 0, orphaned_emails: 0 }
    }
}

/// The views of a map of rows.
pub open spec fn row_views(m: Map<Seq<char>, MailboxRow>) -> Map<Seq<char>, MailboxRow<Seq<char>>> {
    m.map_values(|r: MailboxRow| r@)
}

/// Local mailboxes by the server's id. Of two rows with one id the later counts.
pub fn by_jmap_id(rows: &Vec<MailboxRow>) -> (r: Keyed<MailboxRow>)
    ensures
        r.wf(),
        row_views(r@) == rows_by_id(rows@.map_values(|m: MailboxRow| m@)),
{
    let mut out: Keyed<MailboxRow> = Keyed::new();
    let ghost rv = rows@.map_values(|m: MailboxRow| m@);
    let mut i: usize = 0;
    assert(rv.take(0) =~= Seq::empty());
    assert(row_views(out@) =~= rows_by_id(rv.take(0)));
    while i < rows.len()
        invariant
            i <= rows@.len(),
            rv == rows@.map_values(|m: MailboxRow| m@),
            out.wf(),
            row_views(out@) == rows_by_id(rv.take(i as int)),
        decreases rows@.len() - i,
    {
        let ghost before = out@;
        let ghost t = rv.take(i + 1);
        assert(t.drop_last() =~= rv.take(i as int));
        assert(t.last() == rows@[i as int]@);
        match &rows[i].jmap_id {
            Some(id) => {
                let copy = rows[i].clone();
                out.insert(id.clone(), copy);
                assert(row_views(out@) =~= row_views(before).insert(id@, copy@));
            },
            None => {},
        }
        i += 1;
    }
    assert(rv.take(i as int) =~= rv);
    out
}

/// Rows by the server's id. Of two rows with one id the later counts.
pub open spec fn rows_by_id(rows: Seq<MailboxRow<Seq<char>>>) -> Map<
    Seq<char>,
    MailboxRow<Seq<char>>,
>
    decreases rows.len(),
{
    if rows.len() == 0 {
        Map::empty()
    } else {
        let before = rows_by_id(rows.drop_last());
        match rows.last().jmap_id {
            Some(id) => before.insert(id, rows.last()),
            None => before,
        }
    }
}

// ---------------------------------------------------------------------------
// One mailbox
// ---------------------------------------------------------------------------

/// The local id of the mailbox that the target is in, if it is known.
pub open spec fn parent_row_id(
    parent: Option<Seq<char>>,
    local: Map<Seq<char>, MailboxRow<Seq<char>>>,
) -> Option<Seq<char>> {
    match parent {
        Some(pid) => if local.contains_key(pid) {
            Some(local[pid].id)
        } else {
            None
        },
        None => None,
    }
}

fn local_parent(parent: &Option<String>, local: &Keyed<MailboxRow>) -> (r: Option<String>)
    requires
        local.wf(),
    ensures
        opt_view(r) == parent_row_id(opt_view(*parent), row_views(local@)),
{
    match parent {
        Some(pid) => match local.get(pid.as_str()) {
            Some(row) => Some(row.id.clone()),
            None => None,
        },
        None => None,
    }
}

/// The row says of the mailbox what the target says.
pub open spec fn is_up_to_date(
    existing: MailboxRow<Seq<char>>,
    tgt: TargetMailbox<Seq<char>>,
    parent_id: Option<Seq<char>>,
) -> bool {
    &&& existing.name == tgt.name
    &&& existing.parent_id == parent_id
    &&& existing.role == tgt.role
    &&& existing.sort_order == tgt.sort_order
    &&& existing.path == tgt.path
}

/// The row for a target: the same mailbox, as the target describes it. What is
/// kept of the server's state stays.
pub open spec fn updated_row(
    existing: MailboxRow<Seq<char>>,
    tgt: TargetMailbox<Seq<char>>,
    parent_id: Option<Seq<char>>,
) -> MailboxRow<Seq<char>> {
    MailboxRow {
        id: existing.id,
        jmap_id: existing.jmap_id,
        name: tgt.name,
        parent_id,
        role: tgt.role,
        sort_order: tgt.sort_order,
        path: tgt.path,
        jmap_state: existing.jmap_state,
    }
}

/// The row that is to take the place of an existing one, if the two differ.
pub open spec fn row_change(
    existing: MailboxRow<Seq<char>>,
    tgt: TargetMailbox<Seq<char>>,
    local: Map<Seq<char>, MailboxRow<Seq<char>>>,
) -> Option<MailboxRow<Seq<char>>> {
    let parent_id = parent_row_id(tgt.parent_jmap_id, local);
    if is_up_to_date(existing, tgt, parent_id) {
        None
    } else {
        Some(updated_row(existing, tgt, parent_id))
    }
}

/// The view of an optional row.
pub open spec fn opt_row_view(o: Option<MailboxRow>) -> Option<MailboxRow<Seq<char>>> {
    match o {
        Some(r) => Some(r@),
        None => None,
    }
}

/// The row that is to take the place of an existing one, if the two differ.
pub fn diff_and_build_update(
    existing: &MailboxRow,
    tgt: &TargetMailbox,
    local_by_jmap: &Keyed<MailboxRow>,
) -> (r: Option<MailboxRow>)
    requires
        local_by_jmap.wf(),
    ensures
        opt_row_view(r) == row_change(existing@, tgt@, row_views(local_by_jmap@)),
{
    let parent_id = local_parent(&tgt.parent_jmap_id, local_by_jmap);
    let unchanged = existing.name == tgt.name && opt_eq(&existing.parent_id, &parent_id) && opt_eq(
        &existing.role,
        &tgt.role,
    ) && existing.sort_order == tgt.sort_order && existing.path == tgt.path;
    if unchanged {
        return None;
    }
    Some(
        MailboxRow {
            id: existing.id.clone(),
            jmap_id: opt_clone(&existing.jmap_id),
            name: tgt.name.clone(),
            parent_id,
            role: opt_clone(&tgt.role),
            sort_order: tgt.sort_order,
            path: tgt.path.clone(),
            jmap_state: opt_clone(&existing.jmap_state),
        },
    )
}

/// A row that has been brought up to date needs no change.
pub proof fn law_update_settles(
    existing: MailboxRow<Seq<char>>,
    tgt: TargetMailbox<Seq<char>>,
    local: Map<Seq<char>, MailboxRow<Seq<char>>>,
)
    requires
        row_change(existing, tgt, local) is Some,
    ensures
        row_change(row_change(existing, tgt, local)->0, tgt, local) is None,
{
}

/// The row of a mailbox that is new. The parent's row is one that was there
/// before, or one that `parent_in_db` gives because it was created just now.
pub open spec fn new_row(
    id: Seq<char>,
    tgt: TargetMailbox<Seq<char>>,
    local: Map<Seq<char>, MailboxRow<Seq<char>>>,
    parent_in_db: Option<Seq<char>>,
) -> MailboxRow<Seq<char>> {
    MailboxRow {
        id,
        jmap_id: Some(tgt.jmap_id),
        name: tgt.name,
        parent_id: match tgt.parent_jmap_id {
            None => None,
            Some(pid) => if local.contains_key(pid) {
                Some(local[pid].id)
            } else {
                parent_in_db
            },
        },
        role: tgt.role,
        sort_order: tgt.sort_order,
        path: tgt.path,
        jmap_state: None,
    }
}

/// The row of a mailbox that is new, under the local id `id`. `parent_in_db` is the
/// local id that the database has for the parent, for a parent that was not there
/// when the sync began.
pub fn create_mailbox(
    id: String,
    tgt: &TargetMailbox,
    local_by_jmap: &Keyed<MailboxRow>,
    parent_in_db: Option<String>,
) -> (r: MailboxRow)
    requires
        local_by_jmap.wf(),
    ensures
        r@ == new_row(id@, tgt@, row_views(local_by_jmap@), opt_view(parent_in_db)),
{
    let parent_id = match &tgt.parent_jmap_id {
        None => None,
        Some(pid) => match local_by_jmap.get(pid.as_str()) {
            Some(row) => Some(row.id.clone()),
            None => parent_in_db,
        },
    };
    MailboxRow {
        id,
        jmap_id: Some(tgt.jmap_id.clone()),
        name: tgt.name.clone(),
        parent_id,
        role: opt_clone(&tgt.role),
        sort_order: tgt.sort_order,
        path: tgt.path.clone(),
        jmap_state: None,
    }
}

/// What a change of a mailbox's path asks of the disk.
#[derive(Clone, Copy, Debug, PartialEq, Eq, Structural)]
pub enum DirectoryStep {
    /// The directory stays where it is.
    Stay,
    /// The directory moves.
    Rename,
    /// There was no directory: a new one is made.
    Create,
}

/// What replacing one row by another asks of the disk, by whether the old
/// directory is there.
pub fn update_mailbox(existing: &MailboxRow, new_row: &MailboxRow, old_exists: bool) -> (r:
    DirectoryStep)
    ensures
        r == (if existing.path@ == new_row.path@ {
            DirectoryStep::Stay
        } else if old_exists {
            DirectoryStep::Rename
        } else {
            DirectoryStep::Create
        }),
{
    if existing.path == new_row.path {
        DirectoryStep::Stay
    } else if old_exists {
        DirectoryStep::Rename
    } else {
        DirectoryStep::Create
    }
}

// ---------------------------------------------------------------------------
// The order of creating and updating
// ---------------------------------------------------------------------------

/// The mailbox can be brought up now: it is in no other, or in one that has a row
/// already, that came before, or that is not to stand on disk.
pub open spec fn is_ready(
    target: Map<Seq<char>, TargetMailbox<Seq<char>>>,
    local: Set<Seq<char>>,
    done: Seq<Seq<char>>,
    id: Seq<char>,
) -> bool {
    match target[id].parent_jmap_id {
        None => true,
        Some(pid) => local.contains(pid) || done.contains(pid) || !target.contains_key(pid),
    }
}

/// An order of all targets in which each of the first `n` comes when it is ready.
/// The others, if any, can never be: each is in another of them.
pub open spec fn parents_first(
    target: Map<Seq<char>, TargetMailbox<Seq<char>>>,
    local: Set<Seq<char>>,
    order: Seq<Seq<char>>,
    n: int,
) -> bool {
    &&& 0 <= n <= order.len()
    &&& order.no_duplicates()
    &&& forall|id: Seq<char>| #[trigger] order.contains(id) <==> target.contains_key(id)
    &&& forall|k: int| 0 <= k < n ==> is_ready(target, local, order.take(k), #[trigger] order[k])
    &&& forall|k: int|
        n <= k < order.len() ==> !is_ready(target, local, order.take(n), #[trigger] order[k])
}

proof fn lemma_take_next(s: Seq<Seq<char>>, i: int)
    requires
        0 <= i < s.len(),
    ensures
        s.take(i + 1).to_multiset() == s.take(i).to_multiset().insert(s[i]),
{
    broadcast use group_to_multiset_ensures;

    assert(s.take(i + 1) =~= s.take(i).push(s[i]));
}

/// Two pairs of lists that hold the same still do when one element joins each.
proof fn lemma_one_more(
    a: Multiset<Seq<char>>,
    b: Multiset<Seq<char>>,
    c: Multiset<Seq<char>>,
    d: Multiset<Seq<char>>,
    x: Seq<char>,
)
    requires
        a.add(b) == c.add(d),
    ensures
        a.insert(x).add(b) == c.add(d.insert(x)),
        a.add(b.insert(x)) == c.add(d.insert(x)),
{
    broadcast use vstd::multiset::group_multiset_axioms;

    assert forall|y: Seq<char>| a.count(y) + b.count(y) == c.count(y) + d.count(y) by {
        assert(a.add(b).count(y) == a.count(y) + b.count(y));
        assert(c.add(d).count(y) == c.count(y) + d.count(y));
    }
    assert(a.insert(x).add(b) =~= c.add(d.insert(x)));
    assert(a.add(b.insert(x)) =~= c.add(d.insert(x)));
}

/// A list with the elements of two lists that hold nothing twice.
proof fn lemma_same_elements(a: Seq<Seq<char>>, b: Seq<Seq<char>>, all: Seq<Seq<char>>)
    requires
        all.no_duplicates(),
        a.to_multiset().add(b.to_multiset()) == all.to_multiset(),
    ensures
        (a + b).no_duplicates(),
        forall|x: Seq<char>| #[trigger] (a + b).contains(x) <==> all.contains(x),
{
    broadcast use group_to_multiset_ensures;

    lemma_multiset_commutative(a, b);
    all.lemma_multiset_has_no_duplicates();
    (a + b).lemma_multiset_has_no_duplicates_conv();
    assert forall|x: Seq<char>| #[trigger] (a + b).contains(x) <==> all.contains(x) by {
        assert((a + b).to_multiset().contains(x) <==> all.to_multiset().contains(x));
        assert((a + b).contains(x) <==> (a + b).to_multiset().count(x) > 0);
        assert(all.contains(x) <==> all.to_multiset().count(x) > 0);
    }
}

/// An order of the targets in which parents come before what is in them.
pub fn topo_sort_creates_and_updates(
    target: &Keyed<TargetMailbox>,
    local_by_jmap: &Keyed<MailboxRow>,
) -> (r: Vec<String>)
    requires
        target.wf(),
        local_by_jmap.wf(),
    ensures
        exists|n: int| #[trigger]
            parents_first(target_views(target@), local_by_jmap@.dom(), views(r@), n),
{
    let ghost tv = target_views(target@);
    let ghost local = local_by_jmap@.dom();
    let mut remaining = target.key_list();
    let ghost all = views(remaining@);
    let mut order: Vec<String> = Vec::new();
    let mut done: Keyed<()> = Keyed::new();
    proof {
        broadcast use group_to_multiset_ensures;

        assert(views(order@) =~= Seq::empty());
        assert(views(order@).to_multiset().add(views(remaining@).to_multiset())
            =~= all.to_multiset());
    }
    loop
        invariant
            target.wf(),
            local_by_jmap.wf(),
            done.wf(),
            tv == target_views(target@),
            local == local_by_jmap@.dom(),
            all.no_duplicates(),
            forall|id: Seq<char>| #[trigger] all.contains(id) <==> tv.contains_key(id),
            views(order@).to_multiset().add(views(remaining@).to_multiset()) == all.to_multiset(),
            forall|x: Seq<char>| #[trigger] done@.contains_key(x) <==> views(order@).contains(x),
            forall|k: int|
                0 <= k < order@.len() ==> is_ready(
                    tv,
                    local,
                    views(order@).take(k),
                    #[trigger] views(order@)[k],
                ),
        decreases remaining@.len(),
    {
        let ghost order0 = views(order@);
        let ghost rem = views(remaining@);
        let mut next: Vec<String> = Vec::new();
        let mut i: usize = 0;
        proof {
            broadcast use group_to_multiset_ensures;

            lemma_same_elements(order0, rem, all);
            assert forall|k: int| 0 <= k < rem.len() implies tv.contains_key(#[trigger] rem[k]) by {
                assert((order0 + rem)[order0.len() + k] == rem[k]);
                assert((order0 + rem).contains(rem[k]));
            }
            assert(views(next@) =~= Seq::empty());
            assert(rem.take(0) =~= Seq::empty());
            assert(views(order@).to_multiset().add(views(next@).to_multiset())
                =~= order0.to_multiset().add(rem.take(0).to_multiset()));
        }
        while i < remaining.len()
            invariant
                target.wf(),
                local_by_jmap.wf(),
                done.wf(),
                tv == target_views(target@),
                local == local_by_jmap@.dom(),
                i <= remaining@.len(),
                rem == views(remaining@),
                next@.len() + order@.len() == order0.len() + i,
                order@.len() >= order0.len(),
                order@.len() == order0.len() ==> views(order@) == order0,
                order@.len() == order0.len() ==> views(next@) == rem.take(i as int),
                forall|k: int| 0 <= k < rem.len() ==> tv.contains_key(#[trigger] rem[k]),
                views(order@).to_multiset().add(views(next@).to_multiset())
                    == order0.to_multiset().add(rem.take(i as int).to_multiset()),
                forall|x: Seq<char>| #[trigger]
                    done@.contains_key(x) <==> views(order@).contains(x),
                forall|k: int|
                    0 <= k < order@.len() ==> is_ready(
                        tv,
                        local,
                        views(order@).take(k),
                        #[trigger] views(order@)[k],
                    ),
                order@.len() == order0.len() ==> forall|k: int|
                    0 <= k < i ==> !is_ready(tv, local, order0, #[trigger] rem[k]),
            decreases remaining@.len() - i,
        {
            let ghost o = views(order@);
            let ghost nx = views(next@);
            assert(rem[i as int] == remaining@[i as int]@);
            assert(tv.contains_key(rem[i as int]));
            let ready = match target.get(remaining[i].as_str()) {
                Some(t) => match &t.parent_jmap_id {
                    None => true,
                    Some(pid) => local_by_jmap.contains(pid.as_str()) || done.contains(pid.as_str())
                        || !target.contains(pid.as_str()),
                },
                None => true,
            };
            assert(ready == is_ready(tv, local, o, rem[i as int]));
            proof {
                broadcast use group_to_multiset_ensures;

                lemma_take_next(rem, i as int);
                lemma_one_more(
                    o.to_multiset(),
                    nx.to_multiset(),
                    order0.to_multiset(),
                    rem.take(i as int).to_multiset(),
                    rem[i as int],
                );
            }
            if ready {
                order.push(remaining[i].clone());
                let ghost before = done@;
                done.insert(remaining[i].clone(), ());
                proof {
                    broadcast use group_to_multiset_ensures;

                    assert(views(order@) =~= o.push(rem[i as int]));
                    assert(views(order@).to_multiset() =~= o.to_multiset().insert(rem[i as int]));
                    assert forall|k: int| 0 <= k < order@.len() implies is_ready(
                        tv,
                        local,
                        views(order@).take(k),
                        #[trigger] views(order@)[k],
                    ) by {
                        if k < o.len() {
                            assert(views(order@).take(k) =~= o.take(k));
                            assert(views(order@)[k] == o[k]);
                        } else {
                            assert(views(order@).take(k) =~= o);
                        }
                    }
                    assert forall|x: Seq<char>| #[trigger]
                        done@.contains_key(x) <==> views(order@).contains(x) by {
                        lemma_push_contains(o, rem[i as int], x);
                        assert(before.contains_key(x) <==> o.contains(x));
                    }
                    assert(views(order@).to_multiset().add(views(next@).to_multiset())
                        =~= order0.to_multiset().add(rem.take(i + 1).to_multiset()));
                }
            } else {
                next.push(remaining[i].clone());
                proof {
                    broadcast use group_to_multiset_ensures;

                    assert(views(next@) =~= nx.push(rem[i as int]));
                    assert(views(next@).to_multiset() =~= nx.to_multiset().insert(rem[i as int]));
                    assert(rem.take(i + 1) =~= rem.take(i as int).push(rem[i as int]));
                    assert(views(order@).to_multiset().add(views(next@).to_multiset())
                        =~= order0.to_multiset().add(rem.take(i + 1).to_multiset()));
                }
            }
            i += 1;
        }
        assert(rem.take(i as int) =~= rem);
        if next.len() == remaining.len() {
            // Nothing was ready: what is left can never be.
            let mut j: usize = 0;
            let ghost n = order0.len() as int;
            while j < remaining.len()
                invariant
                    j <= remaining@.len(),
                    rem == views(remaining@),
                    views(order@) == order0 + rem.take(j as int),
                decreases remaining@.len() - j,
            {
                let ghost before = views(order@);
                order.push(remaining[j].clone());
                assert(views(order@) =~= before.push(rem[j as int]));
                assert(views(order@) =~= order0 + rem.take(j + 1));
                j += 1;
            }
            proof {
                let o = views(order@);
                assert(rem.take(j as int) =~= rem);
                assert(o =~= order0 + rem);
                lemma_same_elements(order0, rem, all);
                assert(o.take(n) =~= order0);
                assert forall|k: int| 0 <= k < n implies is_ready(tv, local, o.take(k), #[trigger] o[k]) by {
                    assert(o.take(k) =~= order0.take(k));
                    assert(o[k] == order0[k]);
                }
                assert forall|k: int| n <= k < o.len() implies !is_ready(
                    tv,
                    local,
                    o.take(n),
                    #[trigger] o[k],
                ) by {
                    assert(o[k] == rem[k - n]);
                }
                assert forall|id: Seq<char>| #[trigger] o.contains(id) <==> tv.contains_key(id) by {
                    assert((order0 + rem).contains(id) <==> all.contains(id));
                }
                assert(parents_first(tv, local, o, n));
            }
            return order;
        }
        if next.len() == 0 {
            proof {
                broadcast use group_to_multiset_ensures;

                let o = views(order@);
                assert(views(next@) =~= Seq::empty());
                lemma_same_elements(o, views(next@), all);
                assert(o + views(next@) =~= o);
                assert forall|id: Seq<char>| #[trigger] o.contains(id) <==> tv.contains_key(id) by {
                    assert((o + views(next@)).contains(id) <==> all.contains(id));
                }
                assert(parents_first(tv, local, o, o.len() as int));
            }
            return order;
        }
        remaining = next;
    }
}

/// Where no target is in itself, however far up, every one comes after the target
/// that it is in, unless that has a row already. `rank` tells how far down each
/// stands.
pub proof fn law_parents_come_first(
    target: Map<Seq<char>, TargetMailbox<Seq<char>>>,
    local: Set<Seq<char>>,
    order: Seq<Seq<char>>,
    n: int,
    rank: spec_fn(Seq<char>) -> nat,
)
    requires
        parents_first(target, local, order, n),
        forall|id: Seq<char>| #[trigger]
            target.contains_key(id) ==> match target[id].parent_jmap_id {
                Some(pid) => target.contains_key(pid) ==> rank(pid) < rank(id),
                None => true,
            },
    ensures
        n == order.len(),
        forall|k: int| 0 <= k < order.len() ==> is_ready(target, local, order.take(k), #[trigger] order[k]),
{
    if n < order.len() {
        lemma_comes_ready(target, local, order, n, rank, n);
    }
}

/// For a tree that has been laid out, every mailbox comes up after the one that it
/// is in, unless that has a row already or is not to stand on disk: whenever a row
/// is written, the row that it refers to is there.
pub proof fn law_rows_follow_their_parents(
    server: Seq<ServerMailbox<Seq<char>>>,
    mapping: Seq<(Seq<char>, Seq<char>)>,
    keep: Seq<bool>,
    local: Set<Seq<char>>,
    order: Seq<Seq<char>>,
    n: int,
)
    requires
        distinct_ids(server),
        path_fault(server, mapping, 0) is None,
        parents_first(
            targets(server, mapping, known_paths(server, mapping), keep, server.len() as int),
            local,
            order,
            n,
        ),
    ensures
        ({
            let target = targets(
                server,
                mapping,
                known_paths(server, mapping),
                keep,
                server.len() as int,
            );
            forall|k: int|
                0 <= k < order.len() ==> is_ready(target, local, order.take(k), #[trigger] order[k])
        }),
{
    let target = targets(server, mapping, known_paths(server, mapping), keep, server.len() as int);
    let rank = |id: Seq<char>| depth(server, mapping, id);
    assert forall|id: Seq<char>| #[trigger] target.contains_key(id) implies match target[id].parent_jmap_id {
        Some(pid) => target.contains_key(pid) ==> rank(pid) < rank(id),
        None => true,
    } by {
        law_targets_form_a_tree(server, mapping, keep, id);
    }
    law_parents_come_first(target, local, order, n, rank);
}

/// A target that comes unready is in another that does, and so on without end.
proof fn lemma_comes_ready(
    target: Map<Seq<char>, TargetMailbox<Seq<char>>>,
    local: Set<Seq<char>>,
    order: Seq<Seq<char>>,
    n: int,
    rank: spec_fn(Seq<char>) -> nat,
    k: int,
)
    requires
        parents_first(target, local, order, n),
        forall|id: Seq<char>| #[trigger]
            target.contains_key(id) ==> match target[id].parent_jmap_id {
                Some(pid) => target.contains_key(pid) ==> rank(pid) < rank(id),
                None => true,
            },
        0 <= k < order.len(),
    ensures
        k < n,
    decreases rank(order[k]),
{
    if k >= n {
        let id = order[k];
        assert(order.contains(id));
        assert(target.contains_key(id));
        assert(!is_ready(target, local, order.take(n), order[k]));
        let pid = target[id].parent_jmap_id->0;
        assert(target.contains_key(pid));
        assert(order.contains(pid));
        let j = choose|j: int| 0 <= j < order.len() && order[j] == pid;
        lemma_comes_ready(target, local, order, n, rank, j);
        assert(order.take(n)[j] == pid);
        assert(order.take(n).contains(pid));
    }
}

// ---------------------------------------------------------------------------
// The whole difference
// ---------------------------------------------------------------------------

/// One step of bringing the targets up. `T` is a text.
#[derive(Debug)]
#[verifier::ext_equal]
pub enum DiffStep<T = String> {
    /// The mailbox is new.
    Create(T),
    /// The row takes the place of the mailbox's row.
    Update { jmap_id: T, row: MailboxRow<T> },
}

impl View for DiffStep<String> {
    type V = DiffStep<Seq<char>>;

    open spec fn view(&self) -> Self::V {
        match *self {
            DiffStep::Create(id) => DiffStep::Create(id@),
            DiffStep::Update { jmap_id, row } => DiffStep::Update { jmap_id: jmap_id@, row: row@ },
        }
    }
}

/// The views of a list of steps.
pub open spec fn step_views(v: Seq<DiffStep>) -> Seq<DiffStep<Seq<char>>> {
    v.map_values(|s: DiffStep| s@)
}

/// What one target asks for, if anything.
pub open spec fn step_of(
    id: Seq<char>,
    target: Map<Seq<char>, TargetMailbox<Seq<char>>>,
    local: Map<Seq<char>, MailboxRow<Seq<char>>>,
) -> Option<DiffStep<Seq<char>>> {
    if !local.contains_key(id) {
        Some(DiffStep::Create(id))
    } else {
        match row_change(local[id], target[id], local) {
            Some(row) => Some(DiffStep::Update { jmap_id: id, row }),
            None => None,
        }
    }
}

/// What the targets ask for, in this order.
pub open spec fn steps_of(
    order: Seq<Seq<char>>,
    target: Map<Seq<char>, TargetMailbox<Seq<char>>>,
    local: Map<Seq<char>, MailboxRow<Seq<char>>>,
) -> Seq<DiffStep<Seq<char>>>
    decreases order.len(),
{
    if order.len() == 0 {
        Seq::empty()
    } else {
        let before = steps_of(order.drop_last(), target, local);
        match step_of(order.last(), target, local) {
            Some(s) => before.push(s),
            None => before,
        }
    }
}

/// How many of the steps create a mailbox.
pub open spec fn creates(steps: Seq<DiffStep<Seq<char>>>) -> nat
    decreases steps.len(),
{
    if steps.len() == 0 {
        0
    } else {
        creates(steps.drop_last()) + (if steps.last() is Create {
            1nat
        } else {
            0nat
        })
    }
}

/// The length of a text in bytes.
pub open spec fn byte_len(s: Seq<char>) -> nat {
    encode_utf8(s).len()
}

/// The local mailboxes that are to go, longest path first.
pub open spec fn is_deletion_order(
    gone: Seq<Seq<char>>,
    target: Map<Seq<char>, TargetMailbox<Seq<char>>>,
    local: Map<Seq<char>, MailboxRow<Seq<char>>>,
) -> bool {
    &&& gone.no_duplicates()
    &&& forall|id: Seq<char>| #[trigger]
        gone.contains(id) <==> local.contains_key(id) && !target.contains_key(id)
    &&& forall|i: int, j: int|
        0 <= i < j < gone.len() ==> byte_len(local[#[trigger] gone[i]].path) >= byte_len(
            local[#[trigger] gone[j]].path,
        )
}

/// A mailbox goes before the one that it is in.
pub proof fn law_children_go_first(
    gone: Seq<Seq<char>>,
    target: Map<Seq<char>, TargetMailbox<Seq<char>>>,
    local: Map<Seq<char>, MailboxRow<Seq<char>>>,
    child: int,
    parent: int,
    rest: Seq<char>,
)
    requires
        is_deletion_order(gone, target, local),
        0 <= child < gone.len(),
        0 <= parent < gone.len(),
        local[gone[child]].path == local[gone[parent]].path + "/"@ + rest,
    ensures
        child < parent,
{
    let p = local[gone[parent]].path;
    reveal_strlit("/");
    lemma_encode_concat(p + "/"@, rest);
    lemma_encode_concat(p, "/"@);
    assert(is_ascii_chars("/"@));
    is_ascii_chars_encode_utf8("/"@);
    assert(byte_len(local[gone[child]].path) > byte_len(p));
}

proof fn lemma_insert_contains(s: Seq<Seq<char>>, p: int, x: Seq<char>)
    requires
        0 <= p <= s.len(),
    ensures
        forall|y: Seq<char>| #[trigger] s.insert(p, x).contains(y) <==> y == x || s.contains(y),
        s.no_duplicates() && !s.contains(x) ==> s.insert(p, x).no_duplicates(),
{
    let t = s.insert(p, x);
    assert forall|y: Seq<char>| #[trigger] t.contains(y) <==> y == x || s.contains(y) by {
        if s.contains(y) {
            let i = choose|i: int| 0 <= i < s.len() && s[i] == y;
            if i < p {
                assert(t[i] == y);
            } else {
                assert(t[i + 1] == y);
            }
        }
        if y == x {
            assert(t[p] == y);
        }
        if t.contains(y) {
            let i = choose|i: int| 0 <= i < t.len() && t[i] == y;
            if i < p {
                assert(s[i] == y);
            } else if i > p {
                assert(s[i - 1] == y);
            }
        }
    }
    if s.no_duplicates() && !s.contains(x) {
        assert forall|i: int, j: int| 0 <= i < t.len() && 0 <= j < t.len() && i != j implies t[i]
            != t[j] by {
            let a = if i < p {
                i
            } else {
                i - 1
            };
            let b = if j < p {
                j
            } else {
                j - 1
            };
            if i != p {
                assert(t[i] == s[a]);
            }
            if j != p {
                assert(t[j] == s[b]);
            }
        }
    }
}

/// The local mailboxes that are to go, longest path first.
fn deletions(target: &Keyed<TargetMailbox>, local: &Keyed<MailboxRow>) -> (r: Vec<String>)
    requires
        target.wf(),
        local.wf(),
    ensures
        is_deletion_order(views(r@), target_views(target@), row_views(local@)),
{
    let keys = local.key_list();
    let ghost kv = views(keys@);
    let ghost tv = target_views(target@);
    let ghost lv = row_views(local@);
    let mut out: Vec<String> = Vec::new();
    let mut lens: Vec<usize> = Vec::new();
    let mut i: usize = 0;
    while i < keys.len()
        invariant
            target.wf(),
            local.wf(),
            kv == views(keys@),
            tv == target_views(target@),
            lv == row_views(local@),
            kv.no_duplicates(),
            forall|k: Seq<char>| #[trigger] kv.contains(k) <==> local@.contains_key(k),
            i <= keys@.len(),
            lens@.len() == out@.len(),
            forall|a: int|
                0 <= a < out@.len() ==> lens@[a] == byte_len(lv[#[trigger] views(out@)[a]].path),
            forall|a: int, b: int| 0 <= a < b < lens@.len() ==> lens@[a] >= lens@[b],
            views(out@).no_duplicates(),
            forall|k: Seq<char>| #[trigger]
                views(out@).contains(k) <==> kv.take(i as int).contains(k) && !tv.contains_key(k),
        decreases keys@.len() - i,
    {
        let ghost x = kv[i as int];
        let ghost before = views(out@);
        let ghost lens0 = lens@;
        assert(kv.contains(x));
        assert(kv.take(i + 1) =~= kv.take(i as int).push(x));
        assert(!kv.take(i as int).contains(x));
        if !target.contains(keys[i].as_str()) {
            let n: usize = match local.get(keys[i].as_str()) {
                Some(row) => row.path.as_str().as_bytes().len(),
                None => 0,
            };
            assert(n == byte_len(lv[x].path));
            let mut p: usize = 0;
            while p < lens.len() && lens[p] >= n
                invariant
                    p <= lens@.len(),
                    forall|a: int| 0 <= a < p ==> lens@[a] >= n,
                decreases lens@.len() - p,
            {
                p += 1;
            }
            out.insert(p, keys[i].clone());
            lens.insert(p, n);
            proof {
                assert(views(out@) =~= before.insert(p as int, x));
                lemma_insert_contains(before, p as int, x);
                assert forall|a: int| 0 <= a < out@.len() implies lens@[a] == byte_len(
                    lv[#[trigger] views(out@)[a]].path,
                ) by {
                    if a < p {
                        assert(views(out@)[a] == before[a]);
                    } else if a > p {
                        assert(views(out@)[a] == before[a - 1]);
                    }
                }
                assert forall|a: int, b: int| 0 <= a < b < lens@.len() implies lens@[a]
                    >= lens@[b] by {
                    let a0 = if a < p {
                        a
                    } else {
                        a - 1
                    };
                    let b0 = if b < p {
                        b
                    } else {
                        b - 1
                    };
                    if a != p {
                        assert(lens@[a] == lens0[a0]);
                    }
                    if b != p {
                        assert(lens@[b] == lens0[b0]);
                    }
                    if a == p {
                        assert(p < lens0.len() && lens0[p as int] < n);
                        if b0 > p {
                            assert(lens0[p as int] >= lens0[b0]);
                        }
                    }
                }
            }
        }
        proof {
            assert forall|k: Seq<char>| #[trigger]
                views(out@).contains(k) <==> kv.take(i + 1).contains(k) && !tv.contains_key(k) by {
                lemma_push_contains(kv.take(i as int), x, k);
                assert(before.contains(k) <==> kv.take(i as int).contains(k) && !tv.contains_key(k));
            }
        }
        i += 1;
    }
    assert(kv.take(i as int) =~= kv);
    out
}

/// What brings the local mailboxes in line with the targets.
#[derive(Debug)]
pub struct DiffPlan {
    /// The server's ids of the mailboxes that go, in the order in which they go.
    pub deletes: Vec<String>,
    /// What is created and updated after that, in this order.
    pub steps: Vec<DiffStep>,
    pub stats: MailboxSyncStats,
}

/// What brings the local mailboxes in line with the targets: first the mailboxes
/// that are no longer wanted go, then the targets come up, parents first.
pub fn apply_diff(target: &Keyed<TargetMailbox>, local_by_jmap: &Keyed<MailboxRow>) -> (r: DiffPlan)
    requires
        target.wf(),
        local_by_jmap.wf(),
    ensures
        is_deletion_order(views(r.deletes@), target_views(target@), row_views(local_by_jmap@)),
        exists|order: Seq<Seq<char>>, n: int|
            #![trigger parents_first(target_views(target@), local_by_jmap@.dom(), order, n)]
            parents_first(target_views(target@), local_by_jmap@.dom(), order, n) && step_views(
                r.steps@,
            ) == steps_of(order, target_views(target@), row_views(local_by_jmap@)),
        r.stats.deleted == r.deletes@.len(),
        r.stats.created == creates(step_views(r.steps@)),
        r.stats.created + r.stats.updated == r.steps@.len(),
        r.stats.orphaned_emails == 0,
{
    let deletes = deletions(target, local_by_jmap);
    let order = topo_sort_creates_and_updates(target, local_by_jmap);
    let ghost tv = target_views(target@);
    let ghost lv = row_views(local_by_jmap@);
    let ghost ov = views(order@);
    let ghost n = choose|n: int| #[trigger] parents_first(tv, local_by_jmap@.dom(), ov, n);
    let mut steps: Vec<DiffStep> = Vec::new();
    let mut created: usize = 0;
    let mut updated: usize = 0;
    let mut i: usize = 0;
    assert(ov.take(0) =~= Seq::empty());
    assert(step_views(steps@) =~= Seq::empty());
    while i < order.len()
        invariant
            target.wf(),
            local_by_jmap.wf(),
            tv == target_views(target@),
            lv == row_views(local_by_jmap@),
            ov == views(order@),
            parents_first(tv, local_by_jmap@.dom(), ov, n),
            i <= order@.len(),
            step_views(steps@) == steps_of(ov.take(i as int), tv, lv),
            created == creates(step_views(steps@)),
            created + updated == steps@.len(),
            steps.len() <= i,
        decreases order@.len() - i,
    {
        let ghost id = ov[i as int];
        let ghost before = step_views(steps@);
        assert(ov.take(i + 1).drop_last() =~= ov.take(i as int));
        assert(ov.take(i + 1).last() == id);
        assert(ov.contains(id));
        match local_by_jmap.get(order[i].as_str()) {
            None => {
                let step = DiffStep::Create(order[i].clone());
                steps.push(step);
                created += 1;
                assert(step_views(steps@) =~= before.push(DiffStep::Create(id)));
                assert(step_views(steps@).drop_last() =~= before);
            },
            Some(existing) => match target.get(order[i].as_str()) {
                Some(tgt) => match diff_and_build_update(existing, tgt, local_by_jmap) {
                    Some(row) => {
                        let step = DiffStep::Update { jmap_id: order[i].clone(), row };
                        steps.push(step);
                        updated += 1;
                        assert(step_views(steps@) =~= before.push(
                            DiffStep::Update { jmap_id: id, row: row@ },
                        ));
                        assert(step_views(steps@).drop_last() =~= before);
                    },
                    None => {},
                },
                None => {},
            },
        }
        i += 1;
    }
    assert(ov.take(i as int) =~= ov);
    let stats = MailboxSyncStats { created, updated, deleted: deletes.len(), orphaned_emails: 0 };
    DiffPlan { deletes, steps, stats }
}

/// The rows after a first sync that found none: one for each target, under the local id
/// that `ids` gives it, with the row that was written before for its parent.
pub open spec fn first_rows(
    target: Map<Seq<char>, TargetMailbox<Seq<char>>>,
    ids: Map<Seq<char>, Seq<char>>,
) -> Map<Seq<char>, MailboxRow<Seq<char>>> {
    Map::new(
        |id: Seq<char>| target.contains_key(id),
        |id: Seq<char>|
            new_row(
                ids[id],
                target[id],
                Map::empty(),
                match target[id].parent_jmap_id {
                    Some(pid) => if target.contains_key(pid) {
                        Some(ids[pid])
                    } else {
                        None
                    },
                    None => None,
                },
            ),
    )
}

/// After a first sync there is nothing left to do: no mailbox is to go, to come or to
/// change while the targets stay the same.
pub proof fn law_first_sync_settles(
    target: Map<Seq<char>, TargetMailbox<Seq<char>>>,
    ids: Map<Seq<char>, Seq<char>>,
    gone: Seq<Seq<char>>,
    order: Seq<Seq<char>>,
)
    requires
        is_deletion_order(gone, target, first_rows(target, ids)),
        forall|id: Seq<char>| #[trigger] order.contains(id) ==> target.contains_key(id),
    ensures
        gone.len() == 0,
        steps_of(order, target, first_rows(target, ids)).len() == 0,
    decreases order.len(),
{
    let local = first_rows(target, ids);
    if gone.len() > 0 {
        assert(gone.contains(gone[0]));
    }
    if order.len() > 0 {
        let id = order.last();
        assert(order.contains(id));
        assert forall|x: Seq<char>| #[trigger] order.drop_last().contains(x) implies target.contains_key(
            x,
        ) by {
            let i = choose|i: int| 0 <= i < order.len() - 1 && order.drop_last()[i] == x;
            assert(order[i] == x);
            assert(order.contains(x));
        }
        law_first_sync_settles(target, ids, gone, order.drop_last());
        assert(local.contains_key(id));
        assert(row_change(local[id], target[id], local) is None);
    }
}

/// The row says of the mailbox's name, role, place and path what the target says.
pub open spec fn describes(row: MailboxRow<Seq<char>>, tgt: TargetMailbox<Seq<char>>) -> bool {
    &&& row.name == tgt.name
    &&& row.role == tgt.role
    &&& row.sort_order == tgt.sort_order
    &&& row.path == tgt.path
}

/// The local id that the rows have for a mailbox.
pub open spec fn id_in(
    rows: Map<Seq<char>, MailboxRow<Seq<char>>>,
    jmap_id: Option<Seq<char>>,
) -> Option<Seq<char>> {
    match jmap_id {
        Some(pid) => if rows.contains_key(pid) {
            Some(rows[pid].id)
        } else {
            None
        },
        None => None,
    }
}

/// The rows after a list of steps. `ids` are the local ids that new mailboxes get. The row
/// of a parent is looked up when it is needed.
pub open spec fn stepped(
    rows: Map<Seq<char>, MailboxRow<Seq<char>>>,
    steps: Seq<DiffStep<Seq<char>>>,
    target: Map<Seq<char>, TargetMailbox<Seq<char>>>,
    local: Map<Seq<char>, MailboxRow<Seq<char>>>,
    ids: Map<Seq<char>, Seq<char>>,
) -> Map<Seq<char>, MailboxRow<Seq<char>>>
    decreases steps.len(),
{
    if steps.len() == 0 {
        rows
    } else {
        let before = stepped(rows, steps.drop_last(), target, local, ids);
        match steps.last() {
            DiffStep::Create(id) => before.insert(
                id,
                new_row(ids[id], target[id], local, id_in(before, target[id].parent_jmap_id)),
            ),
            DiffStep::Update { jmap_id, row } => before.insert(jmap_id, row),
        }
    }
}

/// The one comes somewhere before the other.
pub open spec fn comes_before(order: Seq<Seq<char>>, a: Seq<char>, b: Seq<char>) -> bool {
    exists|i: int, j: int|
        0 <= i < j < order.len() && #[trigger] order[i] == a && #[trigger] order[j] == b
}

/// The local id that a target's row has: the one that it had, or a new one.
pub open spec fn local_id(
    id: Seq<char>,
    local: Map<Seq<char>, MailboxRow<Seq<char>>>,
    ids: Map<Seq<char>, Seq<char>>,
) -> Seq<char> {
    if local.contains_key(id) {
        local[id].id
    } else {
        ids[id]
    }
}

/// The row refers to the row of the mailbox that the target is in: if there is one, if
/// that had a row before, or if both are new and it comes first.
pub open spec fn refers_right(
    row: MailboxRow<Seq<char>>,
    id: Seq<char>,
    tgt: TargetMailbox<Seq<char>>,
    order: Seq<Seq<char>>,
    local: Map<Seq<char>, MailboxRow<Seq<char>>>,
    ids: Map<Seq<char>, Seq<char>>,
) -> bool {
    match tgt.parent_jmap_id {
        None => row.parent_id is None,
        Some(pid) => local.contains_key(pid) || !local.contains_key(id) && comes_before(
            order,
            pid,
            id,
        ) ==> row.parent_id == Some(local_id(pid, local, ids)),
    }
}

proof fn lemma_stepped(
    rows: Map<Seq<char>, MailboxRow<Seq<char>>>,
    order: Seq<Seq<char>>,
    target: Map<Seq<char>, TargetMailbox<Seq<char>>>,
    local: Map<Seq<char>, MailboxRow<Seq<char>>>,
    ids: Map<Seq<char>, Seq<char>>,
)
    requires
        forall|id: Seq<char>| #[trigger]
            rows.contains_key(id) ==> local.contains_key(id) && rows[id] == local[id],
        forall|id: Seq<char>| #[trigger]
            order.contains(id) && local.contains_key(id) ==> rows.contains_key(id),
        order.no_duplicates(),
    ensures
        ({
            let t = stepped(rows, steps_of(order, target, local), target, local, ids);
            &&& forall|id: Seq<char>| #[trigger]
                t.contains_key(id) <==> rows.contains_key(id) || order.contains(id)
            &&& forall|id: Seq<char>| #[trigger]
                order.contains(id) ==> describes(t[id], target[id]) && t[id].id == local_id(
                    id,
                    local,
                    ids,
                ) && refers_right(t[id], id, target[id], order, local, ids)
            &&& forall|id: Seq<char>|
                #![trigger t[id]]
                rows.contains_key(id) && !order.contains(id) ==> t[id] == rows[id]
        }),
    decreases order.len(),
{
    if order.len() > 0 {
        let d = order.drop_last();
        let last = order.last();
        assert forall|id: Seq<char>| #[trigger] order.contains(id) <==> d.contains(id) || id
            == last by {
            if order.contains(id) {
                let i = choose|i: int| 0 <= i < order.len() && order[i] == id;
                if i < d.len() {
                    assert(d[i] == id);
                }
            }
            if d.contains(id) {
                let i = choose|i: int| 0 <= i < d.len() && d[i] == id;
                assert(order[i] == id);
            }
            if id == last {
                assert(order[order.len() - 1] == id);
            }
        }
        assert forall|id: Seq<char>| #[trigger]
            d.contains(id) && local.contains_key(id) implies rows.contains_key(id) by {
            assert(order.contains(id));
        }
        assert(d.no_duplicates());
        assert(!d.contains(last)) by {
            if d.contains(last) {
                let i = choose|i: int| 0 <= i < d.len() && d[i] == last;
                assert(order[i] == order[order.len() - 1]);
            }
        }
        lemma_stepped(rows, d, target, local, ids);
        assert(order.contains(last));
        assert forall|a: Seq<char>, b: Seq<char>| #[trigger] comes_before(order, a, b)
            && b != last implies comes_before(d, a, b) by {
            let (i, j) = choose|i: int, j: int|
                0 <= i < j < order.len() && #[trigger] order[i] == a && #[trigger] order[j] == b;
            assert(d[i] == a && d[j] == b);
        }
        assert forall|a: Seq<char>| #[trigger] comes_before(order, a, last) implies d.contains(a) by {
            let (i, j) = choose|i: int, j: int|
                0 <= i < j < order.len() && #[trigger] order[i] == a && #[trigger] order[j] == last;
            assert(d[i] == a);
        }
        let before = steps_of(d, target, local);
        let all = steps_of(order, target, local);
        let mid = stepped(rows, before, target, local, ids);
        let t = stepped(rows, all, target, local, ids);
        match step_of(last, target, local) {
            Some(step) => {
                assert(all.drop_last() =~= before);
                assert(all.last() == step);
                assert(describes(t[last], target[last]));
                assert(refers_right(t[last], last, target[last], order, local, ids)) by {
                    if step is Create {
                        match target[last].parent_jmap_id {
                            Some(pid) => {
                                if comes_before(order, pid, last) {
                                    assert(d.contains(pid));
                                    assert(mid.contains_key(pid));
                                }
                            },
                            None => {},
                        }
                    }
                }
                assert forall|id: Seq<char>| id != last implies t.contains_key(id)
                    == mid.contains_key(id) && (mid.contains_key(id) ==> #[trigger] t[id]
                    == mid[id]) by {}
            },
            None => {
                assert(all == before);
                if !d.contains(last) {
                    assert(rows.contains_key(last));
                    assert(mid[last] == rows[last]);
                }
            },
        }
        assert forall|id: Seq<char>| #[trigger] order.contains(id) implies describes(
            t[id],
            target[id],
        ) && t[id].id == local_id(id, local, ids) && refers_right(
            t[id],
            id,
            target[id],
            order,
            local,
            ids,
        ) by {
            if id != last {
                assert(d.contains(id));
                assert(mid.contains_key(id));
                assert(refers_right(mid[id], id, target[id], d, local, ids));
                match target[id].parent_jmap_id {
                    Some(pid) => {
                        assert(comes_before(order, pid, id) ==> comes_before(d, pid, id));
                    },
                    None => {},
                }
            }
        }
    }
}

/// After a sync, the local mailboxes are the targets: there is a row for every target,
/// with its name, its role, its place and its path, and there is no other. The row of a
/// target that is in no other refers to none. The row of one that is in another target
/// refers to that one's row, if that was there before, or if both are new and that one
/// comes first.
pub proof fn law_mailboxes_follow_the_targets(
    target: Map<Seq<char>, TargetMailbox<Seq<char>>>,
    local: Map<Seq<char>, MailboxRow<Seq<char>>>,
    gone: Seq<Seq<char>>,
    order: Seq<Seq<char>>,
    ids: Map<Seq<char>, Seq<char>>,
)
    requires
        is_deletion_order(gone, target, local),
        order.no_duplicates(),
        forall|id: Seq<char>| #[trigger] order.contains(id) <==> target.contains_key(id),
    ensures
        ({
            let t = stepped(
                local.remove_keys(gone.to_set()),
                steps_of(order, target, local),
                target,
                local,
                ids,
            );
            &&& t.dom() == target.dom()
            &&& forall|id: Seq<char>| #[trigger]
                target.contains_key(id) ==> describes(t[id], target[id]) && match target[id].parent_jmap_id {
                    None => t[id].parent_id is None,
                    Some(pid) => target.contains_key(pid) && (local.contains_key(pid)
                        || !local.contains_key(id) && comes_before(order, pid, id))
                        ==> t[id].parent_id == Some(t[pid].id),
                }
        }),
{
    let rows = local.remove_keys(gone.to_set());
    assert forall|id: Seq<char>| #[trigger] rows.contains_key(id) <==> local.contains_key(id)
        && target.contains_key(id) by {
        assert(gone.contains(id) <==> gone.to_set().contains(id));
    }
    lemma_stepped(rows, order, target, local, ids);
    let t = stepped(rows, steps_of(order, target, local), target, local, ids);
    assert forall|id: Seq<char>| target.contains_key(id) <==> t.contains_key(id) by {
        assert(order.contains(id) <==> target.contains_key(id));
    }
    assert(t.dom() =~= target.dom());
    assert forall|id: Seq<char>| #[trigger] target.contains_key(id) implies describes(
        t[id],
        target[id],
    ) && match target[id].parent_jmap_id {
        None => t[id].parent_id is None,
        Some(pid) => target.contains_key(pid) && (local.contains_key(pid) || !local.contains_key(id)
            && comes_before(order, pid, id)) ==> t[id].parent_id == Some(t[pid].id),
    } by {
        assert(order.contains(id));
        match target[id].parent_jmap_id {
            Some(pid) => {
                if target.contains_key(pid) {
                    assert(order.contains(pid));
                }
            },
            None => {},
        }
    }
}

/// A row is found under the server's id that it has, the last of that id, and nothing is
/// found under an id that no row has.
pub proof fn law_rows_are_found_by_their_id(rows: Seq<MailboxRow<Seq<char>>>, id: Seq<char>)
    ensures
        rows_by_id(rows).contains_key(id) <==> exists|k: int|
            0 <= k < rows.len() && (#[trigger] rows[k]).jmap_id == Some(id),
        rows_by_id(rows).contains_key(id) ==> exists|k: int|
            0 <= k < rows.len() && (#[trigger] rows[k]).jmap_id == Some(id) && rows_by_id(rows)[id]
                == rows[k] && forall|j: int|
                k < j < rows.len() ==> (#[trigger] rows[j]).jmap_id != Some(id),
    decreases rows.len(),
{
    if rows.len() > 0 {
        let n = rows.len() - 1;
        let front = rows.drop_last();
        law_rows_are_found_by_their_id(front, id);
        assert forall|k: int| 0 <= k < n implies #[trigger] front[k] == rows[k] by {}
        if rows[n].jmap_id != Some(id) {
            if exists|k: int| 0 <= k < rows.len() && (#[trigger] rows[k]).jmap_id == Some(id) {
                let k = choose|k: int| 0 <= k < rows.len() && (#[trigger] rows[k]).jmap_id == Some(id);
                assert(front[k].jmap_id == Some(id));
            }
            if rows_by_id(front).contains_key(id) {
                let k = choose|k: int|
                    0 <= k < front.len() && (#[trigger] front[k]).jmap_id == Some(id) && rows_by_id(
                        front,
                    )[id] == front[k] && forall|j: int|
                        k < j < front.len() ==> (#[trigger] front[j]).jmap_id != Some(id);
                assert(rows[k].jmap_id == Some(id));
                assert forall|j: int| k < j < rows.len() implies (#[trigger] rows[j]).jmap_id != Some(
                    id,
                ) by {
                    if j < n {
                        assert(front[j].jmap_id != Some(id));
                    }
                }
            }
        } else {
            assert(rows[n].jmap_id == Some(id));
        }
    }
}

/// A row is replaced exactly if its name, its role, its place, its path or the row that it
/// refers to is not as the target says. The new row is as the target says, is the same
/// mailbox under the same ids, and keeps what is known of the server's state.
pub proof fn law_row_is_replaced_if_it_differs(
    existing: &MailboxRow,
    tgt: &TargetMailbox,
    local_by_jmap: &Keyed<MailboxRow>,
    r: Option<MailboxRow>,
)
    requires
        call_ensures(diff_and_build_update, (existing, tgt, local_by_jmap), r),
    ensures
        ({
            let parent = if tgt.parent_jmap_id is Some && local_by_jmap@.contains_key(
                tgt.parent_jmap_id->0@,
            ) {
                Some(local_by_jmap@[tgt.parent_jmap_id->0@].id@)
            } else {
                None
            };
            &&& r is None <==> existing.name@ == tgt.name@ && opt_view(existing.parent_id) == parent
                && opt_view(existing.role) == opt_view(tgt.role) && existing.sort_order
                == tgt.sort_order && existing.path@ == tgt.path@
            &&& r is Some ==> {
                &&& r->0.id@ == existing.id@
                &&& opt_view(r->0.jmap_id) == opt_view(existing.jmap_id)
                &&& opt_view(r->0.jmap_state) == opt_view(existing.jmap_state)
                &&& r->0.name@ == tgt.name@
                &&& opt_view(r->0.parent_id) == parent
                &&& opt_view(r->0.role) == opt_view(tgt.role)
                &&& r->0.sort_order == tgt.sort_order
                &&& r->0.path@ == tgt.path@
            }
        }),
{
    let lv = row_views(local_by_jmap@);
    assert(opt_row_view(r) == row_change(existing@, tgt@, lv));
    if tgt.parent_jmap_id is Some {
        let pid = tgt.parent_jmap_id->0@;
        assert(lv.contains_key(pid) == local_by_jmap@.contains_key(pid));
        if lv.contains_key(pid) {
            assert(lv[pid] == local_by_jmap@[pid]@);
        }
    }
    match r {
        Some(row) => {
            assert(opt_row_view(r) == Some(row@));
            assert(row@.parent_id == opt_view(row.parent_id) && row@.role == opt_view(row.role));
            assert(row@.jmap_id == opt_view(row.jmap_id));
            assert(row@.jmap_state == opt_view(row.jmap_state));
        },
        None => {},
    }
}

/// The row of a new mailbox is as the target says, under the id that it is given and the
/// server's. It refers to the row of the mailbox that it is in, as it was before or as it
/// has come since, and to none if it is in none.
pub proof fn law_new_row_is_the_target(
    id: String,
    tgt: &TargetMailbox,
    local_by_jmap: &Keyed<MailboxRow>,
    parent_in_db: Option<String>,
    r: MailboxRow,
)
    requires
        call_ensures(create_mailbox, (id, tgt, local_by_jmap, parent_in_db), r),
    ensures
        r.id@ == id@,
        opt_view(r.jmap_id) == Some(tgt.jmap_id@),
        r.name@ == tgt.name@,
        opt_view(r.role) == opt_view(tgt.role),
        r.sort_order == tgt.sort_order,
        r.path@ == tgt.path@,
        r.jmap_state is None,
        tgt.parent_jmap_id is None ==> r.parent_id is None,
        tgt.parent_jmap_id is Some && local_by_jmap@.contains_key(tgt.parent_jmap_id->0@)
            ==> opt_view(r.parent_id) == Some(local_by_jmap@[tgt.parent_jmap_id->0@].id@),
        tgt.parent_jmap_id is Some && !local_by_jmap@.contains_key(tgt.parent_jmap_id->0@)
            ==> opt_view(r.parent_id) == opt_view(parent_in_db),
{
    let lv = row_views(local_by_jmap@);
    if tgt.parent_jmap_id is Some {
        let pid = tgt.parent_jmap_id->0@;
        assert(lv.contains_key(pid) == local_by_jmap@.contains_key(pid));
        if lv.contains_key(pid) {
            assert(lv[pid] == local_by_jmap@[pid]@);
        }
    }
    assert(r@.parent_id == opt_view(r.parent_id) && r@.role == opt_view(r.role));
    assert(r@.jmap_id == opt_view(r.jmap_id) && r@.jmap_state == opt_view(r.jmap_state));
}

/// A directory is touched exactly if the path changes: it moves if it is there, and is made
/// if it is not.
pub proof fn law_directory_follows_the_path(
    existing: &MailboxRow,
    new_row: &MailboxRow,
    old_exists: bool,
    r: DirectoryStep,
)
    requires
        call_ensures(update_mailbox, (existing, new_row, old_exists), r),
    ensures
        r is Stay <==> existing.path@ == new_row.path@,
        r is Rename <==> existing.path@ != new_row.path@ && old_exists,
        r is Create <==> existing.path@ != new_row.path@ && !old_exists,
{
}

/// For a tree that has been laid out, a target that is in another target comes up after it,
/// unless that one has a row already.
pub proof fn law_child_comes_up_after_its_parent(
    server: Seq<ServerMailbox<Seq<char>>>,
    mapping: Seq<(Seq<char>, Seq<char>)>,
    keep: Seq<bool>,
    local: Set<Seq<char>>,
    order: Seq<Seq<char>>,
    n: int,
    k: int,
    pid: Seq<char>,
)
    requires
        distinct_ids(server),
        path_fault(server, mapping, 0) is None,
        ({
            let target = targets(
                server,
                mapping,
                known_paths(server, mapping),
                keep,
                server.len() as int,
            );
            &&& parents_first(target, local, order, n)
            &&& 0 <= k < order.len()
            &&& target[order[k]].parent_jmap_id == Some(pid)
            &&& target.contains_key(pid)
            &&& !local.contains(pid)
        }),
    ensures
        exists|j: int| 0 <= j < k && #[trigger] order[j] == pid,
{
    law_rows_follow_their_parents(server, mapping, keep, local, order, n);
    let target = targets(server, mapping, known_paths(server, mapping), keep, server.len() as int);
    assert(is_ready(target, local, order.take(k), order[k]));
    assert(order.take(k).contains(pid));
    let j = choose|j: int| 0 <= j < order.take(k).len() && order.take(k)[j] == pid;
    assert(order[j] == pid);
}

/// Every target comes up once, and nothing else does.
pub proof fn law_every_target_comes_up_once(
    target: Map<Seq<char>, TargetMailbox<Seq<char>>>,
    local: Set<Seq<char>>,
    order: Seq<Seq<char>>,
    n: int,
    id: Seq<char>,
)
    requires
        parents_first(target, local, order, n),
    ensures
        target.contains_key(id) <==> order.contains(id),
        forall|i: int, j: int| 0 <= i < j < order.len() ==> #[trigger] order[i] != #[trigger] order[j],
{
}

/// There is a step for a target exactly if it has no row, and then it is created, or if its
/// row is not as it should be, and then that row is replaced. As many mailboxes are created
/// as there are targets without a row.
pub proof fn law_steps_are_the_differences(
    order: Seq<Seq<char>>,
    target: Map<Seq<char>, TargetMailbox<Seq<char>>>,
    local: Map<Seq<char>, MailboxRow<Seq<char>>>,
    id: Seq<char>,
)
    ensures
        creates(steps_of(order, target, local)) == order.filter(
            |x: Seq<char>| !local.contains_key(x),
        ).len(),
        steps_of(order, target, local).contains(DiffStep::Create(id)) <==> order.contains(id)
            && !local.contains_key(id),
        forall|row: MailboxRow<Seq<char>>|
            #![trigger steps_of(order, target, local).contains(DiffStep::Update { jmap_id: id, row })]
            steps_of(order, target, local).contains(DiffStep::Update { jmap_id: id, row })
                ==> order.contains(id) && local.contains_key(id) && row.id == local[id].id && row
                != local[id] && describes(row, target[id]),
        order.contains(id) && local.contains_key(id) && !describes(local[id], target[id])
            ==> exists|row: MailboxRow<Seq<char>>| #[trigger]
            steps_of(order, target, local).contains(DiffStep::Update { jmap_id: id, row }),
    decreases order.len(),
{
    reveal(Seq::filter);
    let steps = steps_of(order, target, local);
    if order.len() > 0 {
        let front = order.drop_last();
        let last = order.last();
        law_steps_are_the_differences(front, target, local, id);
        let before = steps_of(front, target, local);
        assert(order =~= front.push(last));
        lemma_push_contains(front, last, id);
        match step_of(last, target, local) {
            Some(s) => {
                assert(steps == before.push(s));
                assert(steps.drop_last() =~= before);
                assert forall|t: DiffStep<Seq<char>>| #[trigger] steps.contains(t) <==> before.contains(
                    t,
                ) || t == s by {
                    lemma_push_contains(before, s, t);
                }
            },
            None => {},
        }
        assert forall|row: MailboxRow<Seq<char>>|
            #![trigger steps.contains(DiffStep::Update { jmap_id: id, row })]
            steps.contains(DiffStep::Update { jmap_id: id, row }) implies order.contains(id)
            && local.contains_key(id) && row.id == local[id].id && row != local[id] && describes(
            row,
            target[id],
        ) by {
            if before.contains(DiffStep::Update { jmap_id: id, row }) {
            } else {
                assert(step_of(last, target, local) == Some(DiffStep::Update { jmap_id: id, row }));
            }
        }
        if order.contains(id) && local.contains_key(id) && !describes(local[id], target[id]) {
            if last == id {
                let row = row_change(local[id], target[id], local)->0;
                assert(steps.contains(DiffStep::Update { jmap_id: id, row }));
            } else {
                let row = choose|row: MailboxRow<Seq<char>>| #[trigger]
                    before.contains(DiffStep::Update { jmap_id: id, row });
                assert(steps.contains(DiffStep::Update { jmap_id: id, row }));
            }
        }
    }
}

/// What goes is what is here and is no target, each once.
pub proof fn law_only_the_unwanted_goes(
    gone: Seq<Seq<char>>,
    target: Map<Seq<char>, TargetMailbox<Seq<char>>>,
    local: Map<Seq<char>, MailboxRow<Seq<char>>>,
    id: Seq<char>,
)
    requires
        is_deletion_order(gone, target, local),
    ensures
        target.contains_key(id) ==> !gone.contains(id),
        !local.contains_key(id) ==> !gone.contains(id),
        local.contains_key(id) && !target.contains_key(id) ==> gone.contains(id),
        forall|i: int, j: int| 0 <= i < j < gone.len() ==> #[trigger] gone[i] != #[trigger] gone[j],
{
}

} // verus!
