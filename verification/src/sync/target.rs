//! Which mailboxes of the server are to stand on disk, and where.

use vstd::prelude::*;
use vstd::string::*;

use crate::config::{BoxMapping, MailConfig};
use crate::keyed::Keyed;
use crate::outside::{add_glob, build_glob_set, builder_globs, debug_str, debug_text, glob_error, glob_matches, glob_set_matches, new_glob, new_glob_set_builder, set_error, set_globs};
use crate::search::{first_where, lemma_first_is, lemma_first_none};
use crate::text::{chars_of, has_prefix, has_suffix, opt_clone, opt_list_view, opt_view, views};

verus! {

// ---------------------------------------------------------------------------
// The server's mailboxes
// ---------------------------------------------------------------------------

/// What a mailbox is for. `T` is a text.
#[derive(Debug)]
#[verifier::ext_equal]
pub enum Role<T = String> {
    Unset,
    Archive,
    Drafts,
    Important,
    Inbox,
    Junk,
    Sent,
    Trash,
    Other(T),
}

impl View for Role<String> {
    type V = Role<Seq<char>>;

    open spec fn view(&self) -> Self::V {
        match *self {
            Role::Unset => Role::Unset,
            Role::Archive => Role::Archive,
            Role::Drafts => Role::Drafts,
            Role::Important => Role::Important,
            Role::Inbox => Role::Inbox,
            Role::Junk => Role::Junk,
            Role::Sent => Role::Sent,
            Role::Trash => Role::Trash,
            Role::Other(s) => Role::Other(s@),
        }
    }
}

/// A mailbox as the server describes it.
#[derive(Debug)]
#[verifier::ext_equal]
pub struct ServerMailbox<T = String> {
    pub id: Option<T>,
    pub name: Option<T>,
    pub parent_id: Option<T>,
    pub role: Role<T>,
    pub sort_order: u32,
    pub is_subscribed: bool,
}

impl View for ServerMailbox<String> {
    type V = ServerMailbox<Seq<char>>;

    open spec fn view(&self) -> Self::V {
        ServerMailbox {
            id: opt_view(self.id),
            name: opt_view(self.name),
            parent_id: opt_view(self.parent_id),
            role: self.role@,
            sort_order: self.sort_order,
            is_subscribed: self.is_subscribed,
        }
    }
}

/// The views of the server's mailboxes.
pub open spec fn mailbox_views(v: Seq<ServerMailbox>) -> Seq<ServerMailbox<Seq<char>>> {
    v.map_values(|m: ServerMailbox| m@)
}

/// The name that a role is stored under.
pub open spec fn role_name(role: Role<Seq<char>>) -> Option<Seq<char>> {
    match role {
        Role::Unset => None,
        Role::Archive => Some("archive"@),
        Role::Drafts => Some("drafts"@),
        Role::Important => Some("important"@),
        Role::Inbox => Some("inbox"@),
        Role::Junk => Some("junk"@),
        Role::Sent => Some("sent"@),
        Role::Trash => Some("trash"@),
        Role::Other(s) => Some(s),
    }
}

/// The name that a role is stored under.
pub fn role_to_str(role: &Role) -> (r: Option<String>)
    ensures
        opt_view(r) == role_name(role@),
{
    match role {
        Role::Unset => None,
        Role::Archive => Some("archive".to_owned()),
        Role::Drafts => Some("drafts".to_owned()),
        Role::Important => Some("important".to_owned()),
        Role::Inbox => Some("inbox".to_owned()),
        Role::Junk => Some("junk".to_owned()),
        Role::Sent => Some("sent".to_owned()),
        Role::Trash => Some("trash".to_owned()),
        Role::Other(s) => Some(s.clone()),
    }
}

// ---------------------------------------------------------------------------
// Errors
// ---------------------------------------------------------------------------

/// Why the tree cannot be laid out. `T` is a text.
#[derive(Debug)]
#[verifier::ext_equal]
pub enum TargetError<T = String> {
    /// A mailbox without an id has no path.
    NoId,
    /// The mailbox is below itself.
    Cycle(T),
    /// The mailbox has no name.
    NoName(T),
    /// The mailbox is below one that the server does not list.
    UnknownParent { id: T, parent: T },
    /// The filter holds what is no pattern.
    BadGlob { pattern: T, reason: T },
    /// The filter's patterns make no set.
    BadFilter(T),
}

impl View for TargetError<String> {
    type V = TargetError<Seq<char>>;

    open spec fn view(&self) -> Self::V {
        match *self {
            TargetError::NoId => TargetError::NoId,
            TargetError::Cycle(id) => TargetError::Cycle(id@),
            TargetError::NoName(id) => TargetError::NoName(id@),
            TargetError::UnknownParent { id, parent } => TargetError::UnknownParent {
                id: id@,
                parent: parent@,
            },
            TargetError::BadGlob { pattern, reason } => TargetError::BadGlob {
                pattern: pattern@,
                reason: reason@,
            },
            TargetError::BadFilter(reason) => TargetError::BadFilter(reason@),
        }
    }
}

/// What the user reads.
pub open spec fn target_error_text(e: TargetError<Seq<char>>) -> Seq<char> {
    match e {
        TargetError::NoId => "mailbox has no id (cannot resolve path)"@,
        TargetError::Cycle(id) => "mailbox parent cycle detected at "@ + debug_text(id),
        TargetError::NoName(id) => "mailbox "@ + debug_text(id) + " has no name"@,
        TargetError::UnknownParent { id, parent } => "mailbox "@ + debug_text(id)
            + " references unknown parent "@ + debug_text(parent),
        TargetError::BadGlob { pattern, reason } => "compiling box_filter glob "@ + debug_text(
            pattern,
        ) + ": "@ + reason,
        TargetError::BadFilter(reason) => "building GlobSet from box_filter: "@ + reason,
    }
}

impl TargetError<String> {
    /// What the user reads.
    pub fn message(&self) -> (r: String)
        ensures
            r@ == target_error_text(self@),
    {
        let mut out = String::new();
        match self {
            TargetError::NoId => out.append("mailbox has no id (cannot resolve path)"),
            TargetError::Cycle(id) => {
                out.append("mailbox parent cycle detected at ");
                out.append(debug_str(id.as_str()).as_str());
            },
            TargetError::NoName(id) => {
                out.append("mailbox ");
                out.append(debug_str(id.as_str()).as_str());
                out.append(" has no name");
            },
            TargetError::UnknownParent { id, parent } => {
                out.append("mailbox ");
                out.append(debug_str(id.as_str()).as_str());
                out.append(" references unknown parent ");
                out.append(debug_str(parent.as_str()).as_str());
            },
            TargetError::BadGlob { pattern, reason } => {
                out.append("compiling box_filter glob ");
                out.append(debug_str(pattern.as_str()).as_str());
                out.append(": ");
                out.append(reason.as_str());
            },
            TargetError::BadFilter(reason) => {
                out.append("building GlobSet from box_filter: ");
                out.append(reason.as_str());
            },
        }
        assert(out@ =~= target_error_text(self@));
        out
    }
}

// ---------------------------------------------------------------------------
// Names on disk
// ---------------------------------------------------------------------------

/// The views of a list of mappings.
pub open spec fn mapping_views(v: Seq<BoxMapping>) -> Seq<(Seq<char>, Seq<char>)> {
    v.map_values(|b: BoxMapping| (b.remote@, b.local@))
}

/// The name that a mailbox goes by on disk: the last mapping for it, or its own.
pub open spec fn local_name(mapping: Seq<(Seq<char>, Seq<char>)>, name: Seq<char>) -> Seq<char>
    decreases mapping.len(),
{
    if mapping.len() == 0 {
        name
    } else if mapping.last().0 == name {
        mapping.last().1
    } else {
        local_name(mapping.drop_last(), name)
    }
}

/// The map holds the names on disk.
pub open spec fn maps_names(m: Keyed<String>, mapping: Seq<(Seq<char>, Seq<char>)>) -> bool {
    &&& m.wf()
    &&& forall|name: Seq<char>| #[trigger]
        local_name(mapping, name) == (if m@.contains_key(name) {
            m@[name]@
        } else {
            name
        })
}

/// The names on disk, for looking up.
pub fn name_map(mapping: &Vec<BoxMapping>) -> (m: Keyed<String>)
    ensures
        maps_names(m, mapping_views(mapping@)),
{
    let mut m: Keyed<String> = Keyed::new();
    let ghost mv = mapping_views(mapping@);
    let mut i: usize = 0;
    assert(mv.take(0) =~= Seq::empty());
    while i < mapping.len()
        invariant
            i <= mapping@.len(),
            mv == mapping_views(mapping@),
            maps_names(m, mv.take(i as int)),
        decreases mapping@.len() - i,
    {
        let ghost before = m;
        m.insert(mapping[i].remote.clone(), mapping[i].local.clone());
        assert(mv.take(i + 1).drop_last() =~= mv.take(i as int));
        assert(mv.take(i + 1).last() == mv[i as int]);
        assert forall|name: Seq<char>| #[trigger] local_name(mv.take(i + 1), name) == (
        if m@.contains_key(name) {
            m@[name]@
        } else {
            name
        }) by {
            assert(local_name(mv.take(i as int), name) == (if before@.contains_key(name) {
                before@[name]@
            } else {
                name
            }));
        }
        i += 1;
    }
    assert(mv.take(i as int) =~= mv);
    m
}

/// The name on disk.
pub fn look_up_name(m: &Keyed<String>, name: &str) -> (r: String)
    requires
        m.wf(),
    ensures
        r@ == (if m@.contains_key(name@) {
            m@[name@]@
        } else {
            name@
        }),
{
    match m.get(name) {
        Some(s) => s.clone(),
        None => name.to_owned(),
    }
}

/// A name as one step of a path: a slash in it makes no directory.
pub open spec fn path_segment(s: Seq<char>) -> Seq<char> {
    s.map_values(
        |c: char|
            if c == '/' {
                '_'
            } else {
                c
            },
    )
}

/// A name as one step of a path.
pub fn sanitize_segment(s: &str) -> (r: String)
    ensures
        r@ == path_segment(s@),
{
    let v = chars_of(s);
    let mut out = String::new();
    let mut i: usize = 0;
    while i < v.len()
        invariant
            i <= v@.len(),
            out@ == path_segment(v@).take(i as int),
        decreases v@.len() - i,
    {
        out.push(
            if v[i] == '/' {
                '_'
            } else {
                v[i]
            },
        );
        i += 1;
        assert(path_segment(v@).take(i as int) =~= path_segment(v@).take(i - 1).push(
            path_segment(v@)[i - 1],
        ));
    }
    assert(path_segment(v@).take(i as int) =~= path_segment(v@));
    out
}

/// A step of a path is one step, whatever the name.
pub proof fn law_segment_has_no_slash(s: Seq<char>)
    ensures
        forall|i: int| 0 <= i < path_segment(s).len() ==> path_segment(s)[i] != '/',
        path_segment(s).len() == s.len(),
{
}

// ---------------------------------------------------------------------------
// Paths
// ---------------------------------------------------------------------------

/// The last mailbox of an id.
pub open spec fn owner(server: Seq<ServerMailbox<Seq<char>>>, id: Seq<char>) -> Option<int>
    decreases server.len(),
{
    if server.len() == 0 {
        None
    } else if server.last().id == Some(id) {
        Some(server.len() - 1)
    } else {
        owner(server.drop_last(), id)
    }
}

pub proof fn lemma_owner(server: Seq<ServerMailbox<Seq<char>>>, id: Seq<char>)
    ensures
        match owner(server, id) {
            Some(j) => 0 <= j < server.len() && server[j].id == Some(id) && (forall|k: int|
                j < k < server.len() ==> (#[trigger] server[k]).id != Some(id)),
            None => forall|k: int| 0 <= k < server.len() ==> (#[trigger] server[k]).id != Some(id),
        },
    decreases server.len(),
{
    if server.len() > 0 && server.last().id != Some(id) {
        lemma_owner(server.drop_last(), id);
        let d = server.drop_last();
        assert forall|k: int|
            (match owner(d, id) {
                Some(j) => j < k < server.len(),
                None => 0 <= k < server.len(),
            }) implies (#[trigger] server[k]).id != Some(id) by {
            if k < d.len() {
                assert(d[k] == server[k]);
            }
        }
    }
}

/// The ids of the server's mailboxes.
pub open spec fn ids(server: Seq<ServerMailbox<Seq<char>>>) -> Set<Seq<char>>
    decreases server.len(),
{
    if server.len() == 0 {
        Set::empty()
    } else {
        match server.last().id {
            Some(id) => ids(server.drop_last()).insert(id),
            None => ids(server.drop_last()),
        }
    }
}

proof fn lemma_ids(server: Seq<ServerMailbox<Seq<char>>>)
    ensures
        ids(server).finite(),
        forall|k: int|
            0 <= k < server.len() && (#[trigger] server[k]).id is Some ==> ids(server).contains(
                server[k].id->0,
            ),
    decreases server.len(),
{
    if server.len() > 0 {
        let d = server.drop_last();
        lemma_ids(d);
        assert forall|k: int| 0 <= k < server.len() && (#[trigger] server[k]).id is Some implies ids(
            server,
        ).contains(server[k].id->0) by {
            if k < d.len() {
                assert(d[k] == server[k]);
            }
        }
    }
}

/// One id fewer is left to see.
pub proof fn lemma_seen(server: Seq<ServerMailbox<Seq<char>>>, seen: Set<Seq<char>>, k: int)
    requires
        0 <= k < server.len(),
        server[k].id is Some,
        !seen.contains(server[k].id->0),
    ensures
        ids(server).difference(seen.insert(server[k].id->0)).len() < ids(server).difference(
            seen,
        ).len(),
{
    lemma_ids(server);
    let id = server[k].id->0;
    assert(ids(server).difference(seen.insert(id)) =~= ids(server).difference(seen).remove(id));
    assert(ids(server).difference(seen).contains(id));
}

/// The steps of a mailbox's path, from the root down. `seen` holds the mailboxes
/// below it that led here.
pub open spec fn segments(
    server: Seq<ServerMailbox<Seq<char>>>,
    mapping: Seq<(Seq<char>, Seq<char>)>,
    k: int,
    seen: Set<Seq<char>>,
) -> Result<Seq<Seq<char>>, TargetError<Seq<char>>>
    decreases ids(server).difference(seen).len(),
{
    if !(0 <= k < server.len()) {
        Err(TargetError::NoId)
    } else {
        match server[k].id {
            None => Err(TargetError::NoId),
            Some(id) => if seen.contains(id) {
                Err(TargetError::Cycle(id))
            } else {
                match server[k].name {
                    None => Err(TargetError::NoName(id)),
                    Some(name) => {
                        let step = path_segment(local_name(mapping, name));
                        match server[k].parent_id {
                            None => Ok(seq![step]),
                            Some(parent) => match owner(server, parent) {
                                None => Err(TargetError::UnknownParent { id, parent }),
                                Some(j) => {
                                    proof {
                                        lemma_seen(server, seen, k);
                                    }
                                    match segments(server, mapping, j, seen.insert(id)) {
                                        Ok(p) => Ok(p.push(step)),
                                        Err(e) => Err(e),
                                    }
                                },
                            },
                        }
                    },
                }
            },
        }
    }
}

/// The steps with slashes between them.
pub open spec fn slashed(p: Seq<Seq<char>>) -> Seq<char>
    decreases p.len(),
{
    if p.len() == 0 {
        Seq::empty()
    } else if p.len() == 1 {
        p[0]
    } else {
        slashed(p.drop_last()) + "/"@ + p.last()
    }
}

/// The path of a mailbox below the mail root: the names of the mailboxes that it
/// is in, and its own.
pub open spec fn path_of(
    server: Seq<ServerMailbox<Seq<char>>>,
    mapping: Seq<(Seq<char>, Seq<char>)>,
    k: int,
) -> Result<Seq<char>, TargetError<Seq<char>>> {
    match segments(server, mapping, k, Set::empty()) {
        Ok(p) => Ok(slashed(p)),
        Err(e) => Err(e),
    }
}

/// The index holds where each id stands last.
pub open spec fn indexes(m: Keyed<usize>, server: Seq<ServerMailbox<Seq<char>>>) -> bool {
    &&& m.wf()
    &&& forall|id: Seq<char>| #[trigger]
        m@.contains_key(id) == (owner(server, id) is Some)
    &&& forall|id: Seq<char>| #[trigger] m@.contains_key(id) ==> owner(server, id) == Some(m@[id] as int)
}

/// Where each id stands last, for looking up.
pub fn index_by_id(server: &Vec<ServerMailbox>) -> (m: Keyed<usize>)
    ensures
        indexes(m, mailbox_views(server@)),
{
    let mut m: Keyed<usize> = Keyed::new();
    let ghost sv = mailbox_views(server@);
    let mut i: usize = 0;
    assert(sv.take(0) =~= Seq::empty());
    while i < server.len()
        invariant
            i <= server@.len(),
            sv == mailbox_views(server@),
            indexes(m, sv.take(i as int)),
        decreases server@.len() - i,
    {
        let ghost before = m;
        let ghost t = sv.take(i + 1);
        assert(t.drop_last() =~= sv.take(i as int));
        assert(t.last() == sv[i as int]);
        match &server[i].id {
            Some(id) => {
                m.insert(id.clone(), i);
                assert forall|x: Seq<char>| #[trigger] m@.contains_key(x) == (owner(t, x) is Some)
                    && (m@.contains_key(x) ==> owner(t, x) == Some(m@[x] as int)) by {
                    assert(before@.contains_key(x) == (owner(sv.take(i as int), x) is Some));
                }
            },
            None => {
                assert forall|x: Seq<char>| owner(t, x) == owner(sv.take(i as int), x) by {}
                assert forall|x: Seq<char>| #[trigger] m@.contains_key(x) == (owner(t, x) is Some)
                    && (m@.contains_key(x) ==> owner(t, x) == Some(m@[x] as int)) by {
                    assert(owner(t, x) == owner(sv.take(i as int), x));
                }
            },
        }
        i += 1;
    }
    assert(sv.take(i as int) =~= sv);
    m
}

/// More steps at the end of a path.
spec fn extended(
    r: Result<Seq<Seq<char>>, TargetError<Seq<char>>>,
    tail: Seq<Seq<char>>,
) -> Result<Seq<Seq<char>>, TargetError<Seq<char>>> {
    match r {
        Ok(p) => Ok(p + tail),
        Err(e) => Err(e),
    }
}

/// Joins steps that stand from the leaf up.
fn join_upward(steps: &Vec<String>) -> (r: String)
    ensures
        r@ == slashed(views(steps@).reverse()),
{
    let mut out = String::new();
    let ghost p = views(steps@).reverse();
    let n: usize = steps.len();
    let mut i: usize = 0;
    assert(p.take(0) =~= Seq::empty());
    while i < n
        invariant
            n == steps@.len(),
            i <= n,
            p == views(steps@).reverse(),
            out@ == slashed(p.take(i as int)),
        decreases n - i,
    {
        let ghost t = p.take(i + 1);
        assert(t.drop_last() =~= p.take(i as int));
        assert(t.last() == steps@[n - 1 - i]@);
        if i > 0 {
            out.append("/");
        }
        let ghost before = out@;
        out.append(steps[n - 1 - i].as_str());
        proof {
            if i == 0 {
                assert(p.take(0) =~= Seq::empty());
                assert(out@ =~= t[0]);
            }
        }
        i += 1;
    }
    assert(p.take(i as int) =~= p);
    out
}

/// The view of a path or an error.
pub open spec fn path_view(r: Result<String, TargetError>) -> Result<Seq<char>, TargetError<Seq<char>>> {
    match r {
        Ok(p) => Ok(p@),
        Err(e) => Err(e@),
    }
}

/// The path of the mailbox at place `start`, with what to look up at hand.
fn walk_up(
    server: &Vec<ServerMailbox>,
    by_id: &Keyed<usize>,
    names: &Keyed<String>,
    Ghost(mapping): Ghost<Seq<(Seq<char>, Seq<char>)>>,
    start: usize,
) -> (r: Result<String, TargetError>)
    requires
        start < server@.len(),
        indexes(*by_id, mailbox_views(server@)),
        maps_names(*names, mapping),
    ensures
        path_view(r) == path_of(mailbox_views(server@), mapping, start as int),
{
    let ghost sv = mailbox_views(server@);
    let mut steps: Vec<String> = Vec::new();
    let mut seen: Keyed<()> = Keyed::new();
    let mut cur: usize = start;
    let ghost goal = segments(sv, mapping, start as int, Set::empty());
    proof {
        assert(seen@.dom() =~= Set::empty());
        assert(views(steps@).reverse() =~= Seq::empty());
        match goal {
            Ok(p) => {
                assert(p + Seq::<Seq<char>>::empty() =~= p);
            },
            Err(_) => {},
        }
    }
    loop
        invariant
            cur < server@.len(),
            sv == mailbox_views(server@),
            indexes(*by_id, sv),
            maps_names(*names, mapping),
            seen.wf(),
            goal == segments(sv, mapping, start as int, Set::empty()),
            goal == extended(
                segments(sv, mapping, cur as int, seen@.dom()),
                views(steps@).reverse(),
            ),
        decreases ids(sv).difference(seen@.dom()).len(),
    {
        let ghost here = segments(sv, mapping, cur as int, seen@.dom());
        let ghost m = sv[cur as int];
        let ghost tail = views(steps@).reverse();
        let id = match &server[cur].id {
            Some(id) => id.clone(),
            None => return Err(TargetError::NoId),
        };
        if seen.contains(id.as_str()) {
            return Err(TargetError::Cycle(id));
        }
        let name = match &server[cur].name {
            Some(name) => name,
            None => return Err(TargetError::NoName(id)),
        };
        let mapped = look_up_name(names, name.as_str());
        assert(mapped@ == local_name(mapping, name@));
        let step = sanitize_segment(mapped.as_str());
        let ghost step_view = step@;
        steps.push(step);
        proof {
            assert(views(steps@).reverse() =~= seq![step_view] + tail);
        }
        match &server[cur].parent_id {
            None => {
                let r = join_upward(&steps);
                assert(views(steps@).reverse() =~= seq![step_view] + tail);
                return Ok(r);
            },
            Some(parent) => match by_id.get(parent.as_str()) {
                None => {
                    return Err(TargetError::UnknownParent { id, parent: parent.clone() });
                },
                Some(j) => {
                    proof {
                        lemma_owner(sv, parent@);
                        lemma_seen(sv, seen@.dom(), cur as int);
                        match segments(sv, mapping, *j as int, seen@.dom().insert(id@)) {
                            Ok(p) => {
                                assert(p.push(step_view) + tail =~= p + (seq![step_view] + tail));
                            },
                            Err(_) => {},
                        }
                    }
                    let ghost before = seen@;
                    seen.insert(id, ());
                    assert(seen@.dom() =~= before.dom().insert(id@));
                    cur = *j;
                },
            },
        }
    }
}

/// The path of the mailbox at place `start` of the server's list.
pub fn resolve_path(
    server: &Vec<ServerMailbox>,
    mapping: &Vec<BoxMapping>,
    start: usize,
) -> (r: Result<String, TargetError>)
    requires
        start < server@.len(),
    ensures
        path_view(r) == path_of(mailbox_views(server@), mapping_views(mapping@), start as int),
{
    let by_id = index_by_id(server);
    let names = name_map(mapping);
    walk_up(server, &by_id, &names, Ghost(mapping_views(mapping@)), start)
}

/// The first mailbox at or after place `k` that has an id but no path, with what
/// is wrong with it.
pub open spec fn path_fault(
    server: Seq<ServerMailbox<Seq<char>>>,
    mapping: Seq<(Seq<char>, Seq<char>)>,
    k: int,
) -> Option<TargetError<Seq<char>>>
    decreases server.len() - k,
{
    if k < 0 || k >= server.len() {
        None
    } else {
        match (server[k].id, path_of(server, mapping, k)) {
            (Some(_), Err(e)) => Some(e),
            _ => path_fault(server, mapping, k + 1),
        }
    }
}

/// The path at place `k`; nothing for a mailbox without an id.
pub open spec fn known_path(
    server: Seq<ServerMailbox<Seq<char>>>,
    mapping: Seq<(Seq<char>, Seq<char>)>,
    k: int,
) -> Option<Seq<char>> {
    match (server[k].id, path_of(server, mapping, k)) {
        (Some(_), Ok(p)) => Some(p),
        _ => None,
    }
}

/// The paths of all mailboxes; nothing for those without an id.
pub open spec fn known_paths(
    server: Seq<ServerMailbox<Seq<char>>>,
    mapping: Seq<(Seq<char>, Seq<char>)>,
) -> Seq<Option<Seq<char>>> {
    Seq::new(server.len(), |k: int| known_path(server, mapping, k))
}

/// The views of a list of optional texts.
pub open spec fn opt_views(v: Seq<Option<String>>) -> Seq<Option<Seq<char>>> {
    v.map_values(|o: Option<String>| opt_view(o))
}

/// The paths of all mailboxes; nothing for those without an id.
pub fn resolve_paths(server: &Vec<ServerMailbox>, mapping: &Vec<BoxMapping>) -> (r: Result<
    Vec<Option<String>>,
    TargetError,
>)
    ensures
        match path_fault(mailbox_views(server@), mapping_views(mapping@), 0) {
            Some(e) => r matches Err(f) && f@ == e,
            None => r matches Ok(v) && opt_views(v@) == known_paths(
                mailbox_views(server@),
                mapping_views(mapping@),
            ),
        },
{
    let by_id = index_by_id(server);
    let names = name_map(mapping);
    let ghost sv = mailbox_views(server@);
    let ghost mv = mapping_views(mapping@);
    let mut out: Vec<Option<String>> = Vec::new();
    let mut i: usize = 0;
    while i < server.len()
        invariant
            i <= server@.len(),
            sv == mailbox_views(server@),
            mv == mapping_views(mapping@),
            indexes(by_id, sv),
            maps_names(names, mv),
            out@.len() == i,
            forall|k: int|
                0 <= k < i ==> opt_view(#[trigger] out@[k]) == known_path(sv, mv, k),
            path_fault(sv, mv, i as int) == path_fault(sv, mv, 0),
        decreases server@.len() - i,
    {
        match &server[i].id {
            Some(_) => match walk_up(server, &by_id, &names, Ghost(mv), i) {
                Ok(p) => out.push(Some(p)),
                Err(e) => return Err(e),
            },
            None => out.push(None),
        }
        i += 1;
    }
    assert(opt_views(out@) =~= known_paths(sv, mv));
    Ok(out)
}

// ---------------------------------------------------------------------------
// The filter
// ---------------------------------------------------------------------------

/// The text is no pattern.
pub open spec fn is_bad_glob(pattern: Seq<char>) -> bool {
    glob_error(pattern) is Some
}

/// What is wrong with a filter, if something is.
pub open spec fn filter_fault(filter: Option<Seq<Seq<char>>>) -> Option<TargetError<Seq<char>>> {
    match filter {
        None => None,
        Some(globs) => match first_where(globs, |g: Seq<char>| is_bad_glob(g)) {
            Some(i) => Some(
                TargetError::BadGlob { pattern: globs[i], reason: glob_error(globs[i])->0 },
            ),
            None => match set_error(globs) {
                Some(e) => Some(TargetError::BadFilter(e)),
                None => None,
            },
        },
    }
}

/// A filter ready for matching.
pub fn compile_filter(filter: &Option<Vec<String>>) -> (r: Result<
    Option<globset::GlobSet>,
    TargetError,
>)
    ensures
        match filter_fault(opt_list_view(*filter)) {
            Some(e) => r matches Err(f) && f@ == e,
            None => match *filter {
                Some(v) => r matches Ok(Some(s)) && set_globs(s) == views(v@),
                None => r matches Ok(None),
            },
        },
{
    match filter {
        None => Ok(None),
        Some(v) => {
            let mut builder = new_glob_set_builder();
            let ghost globs = views(v@);
            let ghost p = |g: Seq<char>| is_bad_glob(g);
            let mut i: usize = 0;
            assert(globs.take(0) =~= Seq::empty());
            while i < v.len()
                invariant
                    i <= v@.len(),
                    globs == views(v@),
                    filter == Some(*v),
                    p == (|g: Seq<char>| is_bad_glob(g)),
                    builder_globs(builder) == globs.take(i as int),
                    forall|j: int| 0 <= j < i ==> !p(#[trigger] globs[j]),
                decreases v@.len() - i,
            {
                match new_glob(v[i].as_str()) {
                    Ok(g) => {
                        add_glob(&mut builder, g);
                        assert(!p(globs[i as int]));
                        assert(globs.take(i as int).push(globs[i as int]) =~= globs.take(i + 1));
                    },
                    Err(e) => {
                        proof {
                            assert(p(globs[i as int]));
                            lemma_first_is(globs, p, i as int);
                        }
                        return Err(TargetError::BadGlob { pattern: v[i].clone(), reason: e });
                    },
                }
                i += 1;
            }
            proof {
                lemma_first_none(globs, p);
                assert(globs.take(i as int) =~= globs);
            }
            match build_glob_set(&builder) {
                Ok(s) => Ok(Some(s)),
                Err(e) => Err(TargetError::BadFilter(e)),
            }
        },
    }
}

/// Some pattern of the list matches the path.
pub open spec fn some_glob_matches(globs: Seq<Seq<char>>, path: Seq<char>) -> bool {
    exists|i: int| 0 <= i < globs.len() && glob_matches(#[trigger] globs[i], path)
}

/// The mailbox is to stand on disk: some pattern of the filter matches its path,
/// or, without a filter, it is subscribed to or that does not matter.
pub open spec fn is_wanted(
    filter: Option<Seq<Seq<char>>>,
    subscribed_only: bool,
    is_subscribed: bool,
    path: Seq<char>,
) -> bool {
    match filter {
        Some(globs) => some_glob_matches(globs, path),
        None => !subscribed_only || is_subscribed,
    }
}

/// Which mailboxes are to stand on disk.
pub open spec fn wanted(
    server: Seq<ServerMailbox<Seq<char>>>,
    paths: Seq<Option<Seq<char>>>,
    filter: Option<Seq<Seq<char>>>,
    subscribed_only: bool,
) -> Seq<bool> {
    Seq::new(
        server.len(),
        |k: int|
            match paths[k] {
                Some(p) => is_wanted(filter, subscribed_only, server[k].is_subscribed, p),
                None => false,
            },
    )
}

fn mark_wanted(
    server: &Vec<ServerMailbox>,
    paths: &Vec<Option<String>>,
    set: &Option<globset::GlobSet>,
    cfg: &MailConfig,
) -> (r: Vec<bool>)
    requires
        paths@.len() == server@.len(),
        match *set {
            Some(s) => cfg.box_filter matches Some(v) && set_globs(s) == views(v@),
            None => cfg.box_filter is None,
        },
    ensures
        r@ == wanted(
            mailbox_views(server@),
            opt_views(paths@),
            opt_list_view(cfg.box_filter),
            cfg.subscribed_only,
        ),
{
    let mut out: Vec<bool> = Vec::new();
    let ghost all = wanted(
        mailbox_views(server@),
        opt_views(paths@),
        opt_list_view(cfg.box_filter),
        cfg.subscribed_only,
    );
    let mut i: usize = 0;
    while i < server.len()
        invariant
            i <= server@.len(),
            paths@.len() == server@.len(),
            match *set {
                Some(s) => cfg.box_filter matches Some(v) && set_globs(s) == views(v@),
                None => cfg.box_filter is None,
            },
            all == wanted(
                mailbox_views(server@),
                opt_views(paths@),
                opt_list_view(cfg.box_filter),
                cfg.subscribed_only,
            ),
            out@.len() == i,
            forall|k: int| 0 <= k < i ==> out@[k] == #[trigger] all[k],
        decreases server@.len() - i,
    {
        let keep = match &paths[i] {
            Some(p) => match set {
                Some(s) => {
                    let hit = glob_set_matches(s, p.as_str());
                    assert(hit == some_glob_matches(set_globs(*s), p@));
                    hit
                },
                None => !cfg.subscribed_only || server[i].is_subscribed,
            },
            None => false,
        };
        assert(mailbox_views(server@)[i as int] == server@[i as int]@);
        assert(opt_views(paths@)[i as int] == opt_view(paths@[i as int]));
        assert(keep == all[i as int]);
        out.push(keep);
        i += 1;
    }
    assert(out@ =~= all);
    out
}

// ---------------------------------------------------------------------------
// The target set
// ---------------------------------------------------------------------------

/// A mailbox as it is to stand on disk. `T` is a text.
#[derive(Debug)]
#[verifier::ext_equal]
pub struct TargetMailbox<T = String> {
    pub jmap_id: T,
    pub name: T,
    pub parent_jmap_id: Option<T>,
    pub role: Option<T>,
    pub sort_order: Option<i64>,
    pub path: T,
}

impl View for TargetMailbox<String> {
    type V = TargetMailbox<Seq<char>>;

    open spec fn view(&self) -> Self::V {
        TargetMailbox {
            jmap_id: self.jmap_id@,
            name: self.name@,
            parent_jmap_id: opt_view(self.parent_jmap_id),
            role: opt_view(self.role),
            sort_order: self.sort_order,
            path: self.path@,
        }
    }
}

/// The views of a map of target mailboxes.
pub open spec fn target_views(m: Map<Seq<char>, TargetMailbox>) -> Map<
    Seq<char>,
    TargetMailbox<Seq<char>>,
> {
    m.map_values(|t: TargetMailbox| t@)
}

/// The target mailbox for one of the server's.
pub open spec fn target_of(
    m: ServerMailbox<Seq<char>>,
    mapping: Seq<(Seq<char>, Seq<char>)>,
    path: Seq<char>,
) -> TargetMailbox<Seq<char>> {
    TargetMailbox {
        jmap_id: m.id->0,
        name: local_name(mapping, m.name->0),
        parent_jmap_id: m.parent_id,
        role: role_name(m.role),
        sort_order: Some(m.sort_order as i64),
        path,
    }
}

/// The target mailboxes by id: of those that have a path and are wanted, the last
/// of each id.
pub open spec fn targets(
    server: Seq<ServerMailbox<Seq<char>>>,
    mapping: Seq<(Seq<char>, Seq<char>)>,
    paths: Seq<Option<Seq<char>>>,
    keep: Seq<bool>,
    n: int,
) -> Map<Seq<char>, TargetMailbox<Seq<char>>>
    decreases n,
{
    if n <= 0 {
        Map::empty()
    } else {
        let before = targets(server, mapping, paths, keep, n - 1);
        match (server[n - 1].id, paths[n - 1]) {
            (Some(id), Some(path)) => if keep[n - 1] {
                before.insert(id, target_of(server[n - 1], mapping, path))
            } else {
                before
            },
            _ => before,
        }
    }
}

/// The target mailboxes, by which have a path and are wanted.
pub fn select_targets(
    server: &Vec<ServerMailbox>,
    mapping: &Vec<BoxMapping>,
    paths: &Vec<Option<String>>,
    keep: &Vec<bool>,
) -> (r: Keyed<TargetMailbox>)
    requires
        paths@.len() == server@.len(),
        keep@.len() == server@.len(),
        forall|k: int| 0 <= k < server@.len() && (#[trigger] paths@[k]) is Some ==> server@[k].name is Some,
    ensures
        r.wf(),
        target_views(r@) == targets(
            mailbox_views(server@),
            mapping_views(mapping@),
            opt_views(paths@),
            keep@,
            server@.len() as int,
        ),
{
    let names = name_map(mapping);
    let ghost sv = mailbox_views(server@);
    let ghost mv = mapping_views(mapping@);
    let ghost pv = opt_views(paths@);
    let mut out: Keyed<TargetMailbox> = Keyed::new();
    let mut i: usize = 0;
    assert(target_views(out@) =~= targets(sv, mv, pv, keep@, 0));
    while i < server.len()
        invariant
            i <= server@.len(),
            paths@.len() == server@.len(),
            keep@.len() == server@.len(),
            forall|k: int|
                0 <= k < server@.len() && (#[trigger] paths@[k]) is Some ==> server@[k].name is Some,
            sv == mailbox_views(server@),
            mv == mapping_views(mapping@),
            pv == opt_views(paths@),
            maps_names(names, mv),
            out.wf(),
            target_views(out@) == targets(sv, mv, pv, keep@, i as int),
        decreases server@.len() - i,
    {
        let ghost before = out@;
        assert(sv[i as int] == server@[i as int]@);
        assert(pv[i as int] == opt_view(paths@[i as int]));
        match (&server[i].id, &paths[i], &server[i].name) {
            (Some(id), Some(path), Some(name)) => if keep[i] {
                let target = TargetMailbox {
                    jmap_id: id.clone(),
                    name: look_up_name(&names, name.as_str()),
                    parent_jmap_id: opt_clone(&server[i].parent_id),
                    role: role_to_str(&server[i].role),
                    sort_order: Some(server[i].sort_order as i64),
                    path: path.clone(),
                };
                assert(target@ == target_of(sv[i as int], mv, path@)) by {
                    assert(local_name(mv, name@) == (if names@.contains_key(name@) {
                        names@[name@]@
                    } else {
                        name@
                    }));
                }
                out.insert(id.clone(), target);
                assert(target_views(out@) =~= target_views(before).insert(id@, target@));
            },
            _ => {},
        }
        i += 1;
    }
    out
}

/// A mailbox with a path has a name.
proof fn lemma_path_has_name(
    server: Seq<ServerMailbox<Seq<char>>>,
    mapping: Seq<(Seq<char>, Seq<char>)>,
    k: int,
)
    requires
        known_path(server, mapping, k) is Some,
    ensures
        server[k].name is Some,
{
}

/// The mailboxes that are to stand on disk, by id.
///
/// With a filter these are the mailboxes whose path matches; without one, those
/// that are subscribed to, or all of them. A mailbox that cannot be given a path
/// is an error even if it would not have been wanted.
pub fn build_target_set(server_view: &Vec<ServerMailbox>, mail_cfg: &MailConfig) -> (r: Result<
    Keyed<TargetMailbox>,
    TargetError,
>)
    ensures
        ({
            let sv = mailbox_views(server_view@);
            let mv = mapping_views(mail_cfg.box_mapping@);
            let filter = opt_list_view(mail_cfg.box_filter);
            let paths = known_paths(sv, mv);
            match (filter_fault(filter), path_fault(sv, mv, 0)) {
                (Some(e), _) => r matches Err(f) && f@ == e,
                (None, Some(e)) => r matches Err(f) && f@ == e,
                (None, None) => r matches Ok(t) && t.wf() && target_views(t@) == targets(
                    sv,
                    mv,
                    paths,
                    wanted(sv, paths, filter, mail_cfg.subscribed_only),
                    sv.len() as int,
                ),
            }
        }),
{
    let set = match compile_filter(&mail_cfg.box_filter) {
        Ok(s) => s,
        Err(e) => return Err(e),
    };
    let paths = match resolve_paths(server_view, &mail_cfg.box_mapping) {
        Ok(p) => p,
        Err(e) => return Err(e),
    };
    let ghost sv = mailbox_views(server_view@);
    let ghost mv = mapping_views(mail_cfg.box_mapping@);
    proof {
        assert(opt_views(paths@).len() == sv.len());
        assert forall|k: int|
            0 <= k < server_view@.len() && (#[trigger] paths@[k]) is Some implies server_view@[k].name is Some by {
            assert(opt_views(paths@)[k] == opt_view(paths@[k]));
            assert(known_paths(sv, mv)[k] == known_path(sv, mv, k));
            lemma_path_has_name(sv, mv, k);
            assert(sv[k] == server_view@[k]@);
        }
    }
    let keep = mark_wanted(server_view, &paths, &set, mail_cfg);
    Ok(select_targets(server_view, &mail_cfg.box_mapping, &paths, &keep))
}

// ---------------------------------------------------------------------------
// Laws
// ---------------------------------------------------------------------------

/// No id stands twice.
pub open spec fn distinct_ids(server: Seq<ServerMailbox<Seq<char>>>) -> bool {
    forall|i: int, j: int|
        0 <= i < j < server.len() && (#[trigger] server[i]).id is Some ==> server[i].id
            != (#[trigger] server[j]).id
}

/// How many steps the path of a mailbox has.
pub open spec fn depth(
    server: Seq<ServerMailbox<Seq<char>>>,
    mapping: Seq<(Seq<char>, Seq<char>)>,
    id: Seq<char>,
) -> nat {
    match owner(server, id) {
        Some(j) => match segments(server, mapping, j, Set::empty()) {
            Ok(p) => p.len(),
            Err(_) => 0,
        },
        None => 0,
    }
}

/// A path that can be found with some mailboxes ruled out is found without.
proof fn lemma_fewer_seen(
    server: Seq<ServerMailbox<Seq<char>>>,
    mapping: Seq<(Seq<char>, Seq<char>)>,
    k: int,
    seen: Set<Seq<char>>,
    fewer: Set<Seq<char>>,
)
    requires
        segments(server, mapping, k, seen) is Ok,
        fewer.subset_of(seen),
    ensures
        segments(server, mapping, k, fewer) == segments(server, mapping, k, seen),
    decreases ids(server).difference(seen).len(),
{
    let id = server[k].id->0;
    match server[k].parent_id {
        Some(parent) => {
            lemma_seen(server, seen, k);
            let j = owner(server, parent)->0;
            lemma_fewer_seen(server, mapping, j, seen.insert(id), fewer.insert(id));
        },
        None => {},
    }
}

proof fn lemma_no_fault(
    server: Seq<ServerMailbox<Seq<char>>>,
    mapping: Seq<(Seq<char>, Seq<char>)>,
    from: int,
    k: int,
)
    requires
        path_fault(server, mapping, from) is None,
        0 <= from <= k < server.len(),
        server[k].id is Some,
    ensures
        path_of(server, mapping, k) is Ok,
    decreases k - from,
{
    if from < k {
        lemma_no_fault(server, mapping, from + 1, k);
    }
}

/// Where a target comes from.
proof fn lemma_target_source(
    server: Seq<ServerMailbox<Seq<char>>>,
    mapping: Seq<(Seq<char>, Seq<char>)>,
    paths: Seq<Option<Seq<char>>>,
    keep: Seq<bool>,
    n: int,
    id: Seq<char>,
) -> (k: int)
    requires
        0 <= n <= server.len(),
        targets(server, mapping, paths, keep, n).contains_key(id),
    ensures
        0 <= k < n,
        server[k].id == Some(id),
        targets(server, mapping, paths, keep, n)[id].parent_jmap_id == server[k].parent_id,
        paths[k] is Some,
        targets(server, mapping, paths, keep, n)[id] == target_of(server[k], mapping, paths[k]->0),
        keep[k],
    decreases n,
{
    if server[n - 1].id == Some(id) && paths[n - 1] is Some && keep[n - 1] {
        n - 1
    } else {
        lemma_target_source(server, mapping, paths, keep, n - 1, id)
    }
}

/// A target that is in another target stands one step further down: no target is
/// in itself, however far up. This holds of every tree that has been laid out,
/// whichever mailboxes are wanted.
pub proof fn law_targets_form_a_tree(
    server: Seq<ServerMailbox<Seq<char>>>,
    mapping: Seq<(Seq<char>, Seq<char>)>,
    keep: Seq<bool>,
    id: Seq<char>,
)
    requires
        distinct_ids(server),
        path_fault(server, mapping, 0) is None,
        targets(server, mapping, known_paths(server, mapping), keep, server.len() as int).contains_key(
            id,
        ),
    ensures
        ({
            let target = targets(
                server,
                mapping,
                known_paths(server, mapping),
                keep,
                server.len() as int,
            );
            match target[id].parent_jmap_id {
                Some(pid) => depth(server, mapping, pid) + 1 == depth(server, mapping, id),
                None => depth(server, mapping, id) == 1,
            }
        }),
{
    let paths = known_paths(server, mapping);
    let k = lemma_target_source(server, mapping, paths, keep, server.len() as int, id);
    lemma_no_fault(server, mapping, 0, k);
    lemma_owner(server, id);
    assert(owner(server, id) == Some(k));
    match server[k].parent_id {
        Some(pid) => {
            let j = owner(server, pid)->0;
            let none = Set::<Seq<char>>::empty();
            lemma_fewer_seen(server, mapping, j, none.insert(id), none);
        },
        None => {},
    }
}

/// The path of a target that is in another target begins with that one's path: its
/// directory stands inside.
pub proof fn law_child_path_extends_parent(
    server: Seq<ServerMailbox<Seq<char>>>,
    mapping: Seq<(Seq<char>, Seq<char>)>,
    keep: Seq<bool>,
    id: Seq<char>,
    pid: Seq<char>,
)
    requires
        distinct_ids(server),
        path_fault(server, mapping, 0) is None,
        ({
            let target = targets(
                server,
                mapping,
                known_paths(server, mapping),
                keep,
                server.len() as int,
            );
            &&& target.contains_key(id)
            &&& target.contains_key(pid)
            &&& target[id].parent_jmap_id == Some(pid)
        }),
    ensures
        ({
            let target = targets(
                server,
                mapping,
                known_paths(server, mapping),
                keep,
                server.len() as int,
            );
            target[id].path == target[pid].path + "/"@ + path_segment(target[id].name)
        }),
{
    let paths = known_paths(server, mapping);
    let n = server.len() as int;
    let none = Set::<Seq<char>>::empty();
    let k = lemma_target_source(server, mapping, paths, keep, n, id);
    let j = lemma_target_source(server, mapping, paths, keep, n, pid);
    lemma_no_fault(server, mapping, 0, k);
    lemma_no_fault(server, mapping, 0, j);
    lemma_owner(server, pid);
    assert(owner(server, pid) == Some(j));
    lemma_fewer_seen(server, mapping, j, none.insert(id), none);
    let p = segments(server, mapping, j, none)->Ok_0;
    let step = path_segment(local_name(mapping, server[k].name->0));
    assert(segments(server, mapping, k, none) == Ok::<Seq<Seq<char>>, TargetError<Seq<char>>>(
        p.push(step),
    ));
    lemma_segments_some(server, mapping, j, none);
    assert(p.push(step).drop_last() =~= p);
    assert(slashed(p.push(step)) == slashed(p) + "/"@ + step);
}

/// A path has at least one step.
proof fn lemma_segments_some(
    server: Seq<ServerMailbox<Seq<char>>>,
    mapping: Seq<(Seq<char>, Seq<char>)>,
    k: int,
    seen: Set<Seq<char>>,
)
    requires
        segments(server, mapping, k, seen) is Ok,
    ensures
        segments(server, mapping, k, seen)->Ok_0.len() > 0,
{
}

/// The target mailboxes by id for a configuration.
pub open spec fn target_set(
    server: Seq<ServerMailbox<Seq<char>>>,
    mapping: Seq<(Seq<char>, Seq<char>)>,
    filter: Option<Seq<Seq<char>>>,
    subscribed_only: bool,
) -> Map<Seq<char>, TargetMailbox<Seq<char>>> {
    targets(
        server,
        mapping,
        known_paths(server, mapping),
        wanted(server, known_paths(server, mapping), filter, subscribed_only),
        server.len() as int,
    )
}

/// What stands last for an id among the first `n` mailboxes is a target as it is, if it
/// has a path and is wanted.
proof fn lemma_last_is_target(
    server: Seq<ServerMailbox<Seq<char>>>,
    mapping: Seq<(Seq<char>, Seq<char>)>,
    paths: Seq<Option<Seq<char>>>,
    keep: Seq<bool>,
    n: int,
    k: int,
)
    requires
        0 <= k < n <= server.len(),
        server[k].id is Some,
        paths[k] is Some,
        keep[k],
    ensures
        targets(server, mapping, paths, keep, n).contains_key(server[k].id->0),
        (forall|j: int| k < j < n ==> (#[trigger] server[j]).id != server[k].id) ==> targets(
            server,
            mapping,
            paths,
            keep,
            n,
        )[server[k].id->0] == target_of(server[k], mapping, paths[k]->0),
    decreases n,
{
    if k < n - 1 {
        lemma_last_is_target(server, mapping, paths, keep, n - 1, k);
    }
}

/// With a filter, a mailbox is a target exactly if it has a path that some pattern of the
/// filter matches: whether it is subscribed to, and whether only such mailboxes are asked
/// for, makes no difference.
pub proof fn law_filter_alone_decides(
    server: Seq<ServerMailbox<Seq<char>>>,
    mapping: Seq<(Seq<char>, Seq<char>)>,
    globs: Seq<Seq<char>>,
    subscribed_only: bool,
    id: Seq<char>,
)
    ensures
        target_set(server, mapping, Some(globs), subscribed_only).contains_key(id) <==> exists|
            k: int,
            g: int,
        |
            0 <= k < server.len() && 0 <= g < globs.len() && (#[trigger] server[k]).id == Some(id)
                && path_of(server, mapping, k) is Ok && glob_matches(
                #[trigger] globs[g],
                path_of(server, mapping, k)->Ok_0,
            ),
{
    let paths = known_paths(server, mapping);
    let keep = wanted(server, paths, Some(globs), subscribed_only);
    let n = server.len() as int;
    if target_set(server, mapping, Some(globs), subscribed_only).contains_key(id) {
        let k = lemma_target_source(server, mapping, paths, keep, n, id);
        let p = paths[k]->0;
        assert(keep[k] == some_glob_matches(globs, p));
        let g = choose|i: int| 0 <= i < globs.len() && glob_matches(#[trigger] globs[i], p);
        assert(server[k].id == Some(id) && glob_matches(globs[g], path_of(server, mapping, k)->Ok_0));
    }
    if exists|k: int, g: int|
        0 <= k < server.len() && 0 <= g < globs.len() && (#[trigger] server[k]).id == Some(id)
            && path_of(server, mapping, k) is Ok && glob_matches(
            #[trigger] globs[g],
            path_of(server, mapping, k)->Ok_0,
        ) {
        let (k, g) = choose|k: int, g: int|
            0 <= k < server.len() && 0 <= g < globs.len() && (#[trigger] server[k]).id == Some(id)
                && path_of(server, mapping, k) is Ok && glob_matches(
                #[trigger] globs[g],
                path_of(server, mapping, k)->Ok_0,
            );
        assert(paths[k] == Some(path_of(server, mapping, k)->Ok_0));
        assert(some_glob_matches(globs, paths[k]->0));
        lemma_last_is_target(server, mapping, paths, keep, n, k);
    }
}

/// The mailboxes are the same but for which of them are subscribed to.
pub open spec fn same_but_subscriptions(
    a: Seq<ServerMailbox<Seq<char>>>,
    b: Seq<ServerMailbox<Seq<char>>>,
) -> bool {
    a.len() == b.len() && forall|k: int|
        0 <= k < a.len() ==> #[trigger] b[k] == (ServerMailbox {
            is_subscribed: b[k].is_subscribed,
            ..a[k]
        })
}

proof fn lemma_same_owner(
    a: Seq<ServerMailbox<Seq<char>>>,
    b: Seq<ServerMailbox<Seq<char>>>,
    id: Seq<char>,
)
    requires
        same_but_subscriptions(a, b),
    ensures
        owner(a, id) == owner(b, id),
        ids(a) == ids(b),
    decreases a.len(),
{
    if a.len() > 0 {
        assert(b[a.len() - 1].id == a[a.len() - 1].id);
        assert(same_but_subscriptions(a.drop_last(), b.drop_last()));
        lemma_same_owner(a.drop_last(), b.drop_last(), id);
    }
}

proof fn lemma_same_segments(
    a: Seq<ServerMailbox<Seq<char>>>,
    b: Seq<ServerMailbox<Seq<char>>>,
    mapping: Seq<(Seq<char>, Seq<char>)>,
    k: int,
    seen: Set<Seq<char>>,
)
    requires
        same_but_subscriptions(a, b),
    ensures
        segments(a, mapping, k, seen) == segments(b, mapping, k, seen),
    decreases ids(a).difference(seen).len(),
{
    if 0 <= k < a.len() {
        assert(b[k].id == a[k].id && b[k].name == a[k].name && b[k].parent_id == a[k].parent_id);
        match (a[k].id, a[k].parent_id) {
            (Some(id), Some(parent)) => {
                lemma_same_owner(a, b, parent);
                if !seen.contains(id) && owner(a, parent) is Some {
                    lemma_seen(a, seen, k);
                    lemma_same_segments(a, b, mapping, owner(a, parent)->0, seen.insert(id));
                }
            },
            _ => {},
        }
    }
}

proof fn lemma_same_targets(
    a: Seq<ServerMailbox<Seq<char>>>,
    b: Seq<ServerMailbox<Seq<char>>>,
    mapping: Seq<(Seq<char>, Seq<char>)>,
    paths: Seq<Option<Seq<char>>>,
    keep: Seq<bool>,
    n: int,
)
    requires
        same_but_subscriptions(a, b),
        n <= a.len(),
    ensures
        targets(a, mapping, paths, keep, n) == targets(b, mapping, paths, keep, n),
    decreases n,
{
    if n > 0 {
        lemma_same_targets(a, b, mapping, paths, keep, n - 1);
        assert(b[n - 1].id == a[n - 1].id);
        match paths[n - 1] {
            Some(p) => {
                assert(target_of(a[n - 1], mapping, p) == target_of(b[n - 1], mapping, p));
            },
            None => {},
        }
    }
}

/// With a filter, or where subscriptions are not asked for, the targets are the same
/// whatever mailboxes are subscribed to; with a filter they are also the same whether or
/// not subscriptions are asked for.
pub proof fn law_subscriptions_do_not_matter(
    a: Seq<ServerMailbox<Seq<char>>>,
    b: Seq<ServerMailbox<Seq<char>>>,
    mapping: Seq<(Seq<char>, Seq<char>)>,
    filter: Option<Seq<Seq<char>>>,
    one: bool,
    other: bool,
)
    requires
        same_but_subscriptions(a, b),
        filter is Some || !one && !other,
    ensures
        target_set(a, mapping, filter, one) == target_set(b, mapping, filter, other),
{
    let none = Set::<Seq<char>>::empty();
    assert forall|k: int| 0 <= k < a.len() implies known_path(a, mapping, k) == #[trigger] known_path(
        b,
        mapping,
        k,
    ) by {
        lemma_same_segments(a, b, mapping, k, none);
        assert(b[k].id == a[k].id);
    }
    let paths = known_paths(a, mapping);
    assert(paths =~= known_paths(b, mapping));
    let keep = wanted(a, paths, filter, one);
    assert(keep =~= wanted(b, paths, filter, other));
    lemma_same_targets(a, b, mapping, paths, keep, a.len() as int);
}

/// Without a filter, the targets are the mailboxes that have a path and, if subscriptions
/// are asked for, are subscribed to.
pub proof fn law_subscriptions_decide_without_filter(
    server: Seq<ServerMailbox<Seq<char>>>,
    mapping: Seq<(Seq<char>, Seq<char>)>,
    id: Seq<char>,
)
    ensures
        target_set(server, mapping, None, true).contains_key(id) <==> exists|k: int|
            0 <= k < server.len() && (#[trigger] server[k]).id == Some(id) && server[k].is_subscribed
                && path_of(server, mapping, k) is Ok,
        target_set(server, mapping, None, false).contains_key(id) <==> exists|k: int|
            0 <= k < server.len() && (#[trigger] server[k]).id == Some(id) && path_of(
                server,
                mapping,
                k,
            ) is Ok,
{
    let paths = known_paths(server, mapping);
    let n = server.len() as int;
    let subscribed = wanted(server, paths, None, true);
    let all = wanted(server, paths, None, false);
    if target_set(server, mapping, None, true).contains_key(id) {
        let k = lemma_target_source(server, mapping, paths, subscribed, n, id);
        assert(server[k].id == Some(id));
    }
    if target_set(server, mapping, None, false).contains_key(id) {
        let k = lemma_target_source(server, mapping, paths, all, n, id);
        assert(server[k].id == Some(id));
    }
    assert forall|k: int|
        0 <= k < server.len() && (#[trigger] server[k]).id == Some(id) && path_of(
            server,
            mapping,
            k,
        ) is Ok implies target_set(server, mapping, None, false).contains_key(id) && (
    server[k].is_subscribed ==> target_set(server, mapping, None, true).contains_key(id)) by {
        assert(paths[k] == Some(path_of(server, mapping, k)->Ok_0));
        lemma_last_is_target(server, mapping, paths, all, n, k);
        if server[k].is_subscribed {
            lemma_last_is_target(server, mapping, paths, subscribed, n, k);
        }
    }
}

/// A target is what the server says of the mailbox of its id: it has that id, the same
/// mailbox around it, the same place and the path of that mailbox; its name is the
/// server's, but for a mapping of that name. If no id stands twice there is no choice.
pub proof fn law_target_is_as_the_server_says(
    server: Seq<ServerMailbox<Seq<char>>>,
    mapping: Seq<(Seq<char>, Seq<char>)>,
    filter: Option<Seq<Seq<char>>>,
    subscribed_only: bool,
    k: int,
)
    requires
        distinct_ids(server),
        0 <= k < server.len(),
        server[k].id is Some,
        target_set(server, mapping, filter, subscribed_only).contains_key(server[k].id->0),
    ensures
        ({
            let id = server[k].id->0;
            let t = target_set(server, mapping, filter, subscribed_only)[id];
            &&& t.jmap_id == id
            &&& t.parent_jmap_id == server[k].parent_id
            &&& t.sort_order is Some
            &&& t.sort_order->0 == server[k].sort_order
            &&& path_of(server, mapping, k) == Ok::<Seq<char>, TargetError<Seq<char>>>(t.path)
            &&& server[k].name is Some
            &&& t.role is None <==> server[k].role is Unset
            &&& t.role == role_name(server[k].role)
            &&& t.name == local_name(mapping, server[k].name->0)
            &&& (forall|i: int|
                0 <= i < mapping.len() ==> (#[trigger] mapping[i]).0 != server[k].name->0)
                ==> t.name == server[k].name->0
        }),
{
    let paths = known_paths(server, mapping);
    let keep = wanted(server, paths, filter, subscribed_only);
    let n = server.len() as int;
    let id = server[k].id->0;
    let j = lemma_target_source(server, mapping, paths, keep, n, id);
    assert(j == k);
    assert(paths[k] == known_path(server, mapping, k));
    lemma_path_has_name(server, mapping, k);
    if forall|i: int| 0 <= i < mapping.len() ==> (#[trigger] mapping[i]).0 != server[k].name->0 {
        lemma_unmapped_name(mapping, server[k].name->0);
    }
}

/// A name that no mapping is for stays.
proof fn lemma_unmapped_name(mapping: Seq<(Seq<char>, Seq<char>)>, name: Seq<char>)
    requires
        forall|i: int| 0 <= i < mapping.len() ==> (#[trigger] mapping[i]).0 != name,
    ensures
        local_name(mapping, name) == name,
    decreases mapping.len(),
{
    if mapping.len() > 0 {
        assert(mapping[mapping.len() - 1].0 != name);
        assert forall|i: int| 0 <= i < mapping.len() - 1 implies (#[trigger] mapping.drop_last()[i]).0
            != name by {
            assert(mapping[i].0 != name);
        }
        lemma_unmapped_name(mapping.drop_last(), name);
    }
}

/// A mapped name goes by what the last mapping for it says, and a mapping changes the name
/// that it is for and no other.
pub proof fn law_mapping_renames_its_own(
    mapping: Seq<(Seq<char>, Seq<char>)>,
    remote: Seq<char>,
    local: Seq<char>,
    name: Seq<char>,
)
    ensures
        local_name(mapping.push((remote, local)), remote) == local,
        name != remote ==> local_name(mapping.push((remote, local)), name) == local_name(
            mapping,
            name,
        ),
        local_name(Seq::empty(), name) == name,
{
    assert(mapping.push((remote, local)).drop_last() =~= mapping);
}

/// A step of a path keeps its name's length and every character that is no slash; only a
/// slash is written as another character.
pub proof fn law_segment_keeps_the_rest(s: Seq<char>)
    ensures
        path_segment(s).len() == s.len(),
        forall|i: int| 0 <= i < s.len() && s[i] != '/' ==> #[trigger] path_segment(s)[i] == s[i],
        forall|i: int| 0 <= i < s.len() && s[i] == '/' ==> #[trigger] path_segment(s)[i] == '_',
{
}

/// Roles are stored under names that tell them apart: no two of the roles that are known
/// are stored alike, none of them is stored as no role at all, and a role that is not known
/// is stored as the server spells it.
pub proof fn law_roles_are_told_apart(a: Role<Seq<char>>, b: Role<Seq<char>>, spelled: Seq<char>)
    ensures
        a !is Other && b !is Other && role_name(a) == role_name(b) ==> a == b,
        role_name(a) is None <==> a is Unset,
        role_name(Role::Other(spelled)) == Some(spelled),
{
    reveal_strlit("archive");
    reveal_strlit("drafts");
    reveal_strlit("important");
    reveal_strlit("inbox");
    reveal_strlit("junk");
    reveal_strlit("sent");
    reveal_strlit("trash");
    assert("archive"@[0] == 'a' && "drafts"@[0] == 'd' && "important"@[1] == 'm');
    assert("inbox"@[0] == 'i' && "inbox"@[1] == 'n' && "important"@[0] == 'i');
    assert("junk"@[0] == 'j' && "sent"@[0] == 's' && "trash"@[0] == 't');
}

/// A mailbox in no other is named by one step. One in another has that one's path, a slash
/// and its own step; it has a path only if the other has one.
pub proof fn law_path_extends_the_parents(
    server: Seq<ServerMailbox<Seq<char>>>,
    mapping: Seq<(Seq<char>, Seq<char>)>,
    k: int,
)
    requires
        0 <= k < server.len(),
        path_of(server, mapping, k) is Ok,
    ensures
        server[k].id is Some,
        server[k].name is Some,
        server[k].parent_id is None ==> path_of(server, mapping, k)->Ok_0 == path_segment(
            local_name(mapping, server[k].name->0),
        ),
        server[k].parent_id is Some ==> {
            let j = owner(server, server[k].parent_id->0)->0;
            &&& owner(server, server[k].parent_id->0) is Some
            &&& server[j].id == server[k].parent_id
            &&& path_of(server, mapping, j) is Ok
            &&& path_of(server, mapping, k)->Ok_0 == path_of(server, mapping, j)->Ok_0 + "/"@
                + path_segment(local_name(mapping, server[k].name->0))
        },
{
    let none = Set::<Seq<char>>::empty();
    match server[k].parent_id {
        Some(parent) => {
            let id = server[k].id->0;
            lemma_owner(server, parent);
            let j = owner(server, parent)->0;
            lemma_fewer_seen(server, mapping, j, none.insert(id), none);
            let p = segments(server, mapping, j, none)->Ok_0;
            let step = path_segment(local_name(mapping, server[k].name->0));
            lemma_segments_some(server, mapping, j, none);
            assert(segments(server, mapping, k, none) == Ok::<
                Seq<Seq<char>>,
                TargetError<Seq<char>>,
            >(p.push(step)));
            assert(p.push(step).drop_last() =~= p);
            assert(slashed(p.push(step)) == slashed(p) + "/"@ + step);
        },
        None => {
            let step = path_segment(local_name(mapping, server[k].name->0));
            assert(seq![step][0] == step);
        },
    }
}

/// What is wrong with a mailbox itself is what is told of it: that it has no id, no name or
/// a mailbox around it that is not there, or that it is in itself.
pub proof fn law_faulty_mailbox_is_told(
    server: Seq<ServerMailbox<Seq<char>>>,
    mapping: Seq<(Seq<char>, Seq<char>)>,
    k: int,
)
    requires
        0 <= k < server.len(),
    ensures
        server[k].id is None ==> path_of(server, mapping, k) == Err::<
            Seq<char>,
            TargetError<Seq<char>>,
        >(TargetError::NoId),
        server[k].id is Some && server[k].name is None ==> path_of(server, mapping, k) == Err::<
            Seq<char>,
            TargetError<Seq<char>>,
        >(TargetError::NoName(server[k].id->0)),
        server[k].id is Some && server[k].name is Some && server[k].parent_id is None ==> path_of(
            server,
            mapping,
            k,
        ) is Ok,
        server[k].id is Some && server[k].name is Some && server[k].parent_id is Some && (forall|
            j: int,
        |
            0 <= j < server.len() ==> (#[trigger] server[j]).id != server[k].parent_id) ==> path_of(
            server,
            mapping,
            k,
        ) == Err::<Seq<char>, TargetError<Seq<char>>>(
            TargetError::UnknownParent { id: server[k].id->0, parent: server[k].parent_id->0 },
        ),
        server[k].id is Some && server[k].name is Some && server[k].parent_id == server[k].id
            ==> path_of(server, mapping, k) == Err::<Seq<char>, TargetError<Seq<char>>>(
            TargetError::Cycle(server[k].id->0),
        ),
{
    match server[k].parent_id {
        Some(parent) => {
            lemma_owner(server, parent);
            if server[k].id is Some && server[k].parent_id == server[k].id {
                let j = owner(server, parent)->0;
                assert(server[k].id == Some(parent));
                assert(segments(server, mapping, j, Set::empty().insert(parent)) == Err::<
                    Seq<Seq<char>>,
                    TargetError<Seq<char>>,
                >(TargetError::Cycle(parent)));
            }
        },
        None => {},
    }
}

/// The mailboxes can be laid out exactly if each that has an id has a path; if not, the first
/// that has none is told.
pub proof fn law_first_fault_is_told(
    server: Seq<ServerMailbox<Seq<char>>>,
    mapping: Seq<(Seq<char>, Seq<char>)>,
    k: int,
)
    requires
        0 <= k,
    ensures
        path_fault(server, mapping, k) is None <==> forall|i: int|
            k <= i < server.len() && (#[trigger] server[i]).id is Some ==> path_of(
                server,
                mapping,
                i,
            ) is Ok,
        path_fault(server, mapping, k) is Some ==> exists|i: int|
            {
                &&& k <= i < server.len()
                &&& (#[trigger] server[i]).id is Some
                &&& path_of(server, mapping, i) == Err::<Seq<char>, TargetError<Seq<char>>>(
                    path_fault(server, mapping, k)->0,
                )
                &&& forall|j: int|
                    k <= j < i && (#[trigger] server[j]).id is Some ==> path_of(
                        server,
                        mapping,
                        j,
                    ) is Ok
            },
    decreases server.len() - k,
{
    if k < server.len() {
        law_first_fault_is_told(server, mapping, k + 1);
        if server[k].id is Some && path_of(server, mapping, k) is Err {
            assert(server[k].id is Some);
        } else if path_fault(server, mapping, k) is Some {
            let i = choose|i: int|
                {
                    &&& k + 1 <= i < server.len()
                    &&& (#[trigger] server[i]).id is Some
                    &&& path_of(server, mapping, i) == Err::<Seq<char>, TargetError<Seq<char>>>(
                        path_fault(server, mapping, k + 1)->0,
                    )
                    &&& forall|j: int|
                        k + 1 <= j < i && (#[trigger] server[j]).id is Some ==> path_of(
                            server,
                            mapping,
                            j,
                        ) is Ok
                };
            assert(server[i].id is Some);
        }
    }
}

/// A filter is at fault exactly if one of its patterns is, the first of which is told, or if
/// the patterns make no set. No filter is at no fault.
pub proof fn law_faulty_filter_is_told(filter: Option<Seq<Seq<char>>>)
    ensures
        filter is None ==> filter_fault(filter) is None,
        filter is Some ==> {
            let globs = filter->0;
            let bad = exists|i: int| 0 <= i < globs.len() && glob_error(#[trigger] globs[i]) is Some;
            &&& filter_fault(filter) is None <==> !bad && set_error(globs) is None
            &&& !bad && set_error(globs) is Some ==> filter_fault(filter) == Some(
                TargetError::BadFilter(set_error(globs)->0),
            )
            &&& bad ==> exists|i: int|
                {
                    &&& 0 <= i < globs.len()
                    &&& glob_error(#[trigger] globs[i]) is Some
                    &&& filter_fault(filter) == Some(
                        TargetError::BadGlob {
                            pattern: globs[i],
                            reason: glob_error(globs[i])->0,
                        },
                    )
                    &&& forall|j: int| 0 <= j < i ==> glob_error(#[trigger] globs[j]) is None
                }
        },
{
    match filter {
        Some(globs) => {
            let p = |g: Seq<char>| is_bad_glob(g);
            crate::search::lemma_first_from(globs, p, 0);
            match first_where(globs, p) {
                Some(i) => {
                    assert(p(globs[i]));
                    assert forall|j: int| 0 <= j < i implies glob_error(#[trigger] globs[j]) is None by {
                        assert(!p(globs[j]));
                    }
                    assert(glob_error(globs[i]) is Some);
                },
                None => {
                    assert forall|j: int| 0 <= j < globs.len() implies glob_error(
                        #[trigger] globs[j],
                    ) is None by {
                        assert(!p(globs[j]));
                    }
                },
            }
        },
        None => {},
    }
}

/// The user reads which mailbox, which mailbox around it or which pattern is at fault.
pub proof fn law_fault_is_quoted(e: TargetError<Seq<char>>)
    ensures
        e is Cycle ==> has_suffix(target_error_text(e), debug_text(e->Cycle_0)),
        e is NoName ==> has_prefix(target_error_text(e), "mailbox "@ + debug_text(e->NoName_0)),
        e is UnknownParent ==> has_prefix(target_error_text(e), "mailbox "@ + debug_text(e->id))
            && has_suffix(target_error_text(e), debug_text(e->parent)),
        e is BadGlob ==> has_suffix(
            target_error_text(e),
            debug_text(e->pattern) + ": "@ + e->reason,
        ),
        e is BadFilter ==> has_suffix(target_error_text(e), e->BadFilter_0),
{
    let t = target_error_text(e);
    match e {
        TargetError::Cycle(id) => lemma_ends(t, debug_text(id)),
        TargetError::NoName(id) => {
            let head = "mailbox "@ + debug_text(id);
            assert(t.subrange(0, head.len() as int) =~= head);
        },
        TargetError::UnknownParent { id, parent } => {
            let head = "mailbox "@ + debug_text(id);
            assert(t.subrange(0, head.len() as int) =~= head);
            lemma_ends(t, debug_text(parent));
        },
        TargetError::BadGlob { pattern, reason } => {
            let tail = debug_text(pattern) + ": "@ + reason;
            assert(t =~= "compiling box_filter glob "@ + tail);
            lemma_ends(t, tail);
        },
        TargetError::BadFilter(reason) => lemma_ends(t, reason),
        TargetError::NoId => {},
    }
}

proof fn lemma_ends(t: Seq<char>, tail: Seq<char>)
    requires
        tail.len() <= t.len(),
        t.skip(t.len() - tail.len()) =~= tail,
    ensures
        has_suffix(t, tail),
{
    assert(t.subrange(t.len() - tail.len(), t.len() as int) =~= t.skip(t.len() - tail.len()));
}

/// A path that can be found is found with the mailbox `id` ruled out too, if that is in
/// `mark`, which is ruled out or is where the path begins.
proof fn lemma_more_seen(
    server: Seq<ServerMailbox<Seq<char>>>,
    mapping: Seq<(Seq<char>, Seq<char>)>,
    j: int,
    seen: Set<Seq<char>>,
    k: int,
    mark: Seq<char>,
)
    requires
        distinct_ids(server),
        segments(server, mapping, j, seen) is Ok,
        0 <= k < server.len(),
        server[k].id is Some,
        server[k].parent_id == Some(mark),
        seen.contains(mark) || server[j].id == Some(mark),
    ensures
        segments(server, mapping, j, seen.insert(server[k].id->0)) == segments(
            server,
            mapping,
            j,
            seen,
        ),
    decreases ids(server).difference(seen).len(),
{
    let id = server[k].id->0;
    let here = server[j].id->0;
    lemma_owner(server, mark);
    if here == id {
        assert(j == k);
        let m = owner(server, mark)->0;
        assert(segments(server, mapping, m, seen.insert(here)) is Err);
    } else {
        match server[j].parent_id {
            Some(parent) => {
                lemma_owner(server, parent);
                lemma_seen(server, seen, j);
                let m = owner(server, parent)->0;
                lemma_more_seen(server, mapping, m, seen.insert(here), k, mark);
                assert(seen.insert(here).insert(id) =~= seen.insert(id).insert(here));
            },
            None => {},
        }
    }
}

/// A mailbox with an id and a name has a path exactly if it is in no other or the one that
/// it is in has a path, however deep that stands.
pub proof fn law_path_is_found_if_the_parents_is(
    server: Seq<ServerMailbox<Seq<char>>>,
    mapping: Seq<(Seq<char>, Seq<char>)>,
    k: int,
)
    requires
        distinct_ids(server),
        0 <= k < server.len(),
        server[k].id is Some,
        server[k].name is Some,
    ensures
        path_of(server, mapping, k) is Ok <==> server[k].parent_id is None || owner(
            server,
            server[k].parent_id->0,
        ) is Some && path_of(server, mapping, owner(server, server[k].parent_id->0)->0) is Ok,
{
    let none = Set::<Seq<char>>::empty();
    if path_of(server, mapping, k) is Ok {
        law_path_extends_the_parents(server, mapping, k);
    }
    match server[k].parent_id {
        Some(parent) => {
            lemma_owner(server, parent);
            match owner(server, parent) {
                Some(j) => {
                    if path_of(server, mapping, j) is Ok {
                        lemma_more_seen(server, mapping, j, none, k, parent);
                    }
                },
                None => {},
            }
        },
        None => {},
    }
}

/// Of the mailboxes of one id the last counts: if it has a path that some pattern of the
/// filter matches, the target of that id has that path.
pub proof fn law_last_of_an_id_counts(
    server: Seq<ServerMailbox<Seq<char>>>,
    mapping: Seq<(Seq<char>, Seq<char>)>,
    globs: Seq<Seq<char>>,
    subscribed_only: bool,
    k: int,
    g: int,
)
    requires
        0 <= k < server.len(),
        0 <= g < globs.len(),
        server[k].id is Some,
        forall|j: int| k < j < server.len() ==> (#[trigger] server[j]).id != server[k].id,
        path_of(server, mapping, k) is Ok,
        glob_matches(globs[g], path_of(server, mapping, k)->Ok_0),
    ensures
        target_set(server, mapping, Some(globs), subscribed_only).contains_key(server[k].id->0),
        target_set(server, mapping, Some(globs), subscribed_only)[server[k].id->0].path == path_of(
            server,
            mapping,
            k,
        )->Ok_0,
{
    let paths = known_paths(server, mapping);
    let keep = wanted(server, paths, Some(globs), subscribed_only);
    assert(paths[k] == Some(path_of(server, mapping, k)->Ok_0));
    assert(some_glob_matches(globs, paths[k]->0));
    lemma_last_is_target(server, mapping, paths, keep, server.len() as int, k);
}

proof fn lemma_same_fault(
    a: Seq<ServerMailbox<Seq<char>>>,
    b: Seq<ServerMailbox<Seq<char>>>,
    mapping: Seq<(Seq<char>, Seq<char>)>,
    k: int,
)
    requires
        same_but_subscriptions(a, b),
    ensures
        path_fault(a, mapping, k) == path_fault(b, mapping, k),
    decreases a.len() - k,
{
    if 0 <= k < a.len() {
        lemma_same_segments(a, b, mapping, k, Set::empty());
        assert(b[k].id == a[k].id);
        lemma_same_fault(a, b, mapping, k + 1);
    }
}

/// With one filter and one mapping, two configurations have the same targets, or the same
/// error, whatever each says of subscriptions and whatever is subscribed to.
pub proof fn law_filtered_targets_are_the_same(
    one: &Vec<ServerMailbox>,
    other: &Vec<ServerMailbox>,
    cfg: &MailConfig,
    cfg2: &MailConfig,
    r: Result<Keyed<TargetMailbox>, TargetError>,
    r2: Result<Keyed<TargetMailbox>, TargetError>,
)
    requires
        call_ensures(build_target_set, (one, cfg), r),
        call_ensures(build_target_set, (other, cfg2), r2),
        same_but_subscriptions(mailbox_views(one@), mailbox_views(other@)),
        cfg.box_filter is Some,
        opt_list_view(cfg.box_filter) == opt_list_view(cfg2.box_filter),
        mapping_views(cfg.box_mapping@) == mapping_views(cfg2.box_mapping@),
    ensures
        r is Ok <==> r2 is Ok,
        r is Ok ==> target_views(r->Ok_0@) == target_views(r2->Ok_0@),
        r is Err ==> r->Err_0@ == r2->Err_0@,
{
    let a = mailbox_views(one@);
    let b = mailbox_views(other@);
    let mapping = mapping_views(cfg.box_mapping@);
    let filter = opt_list_view(cfg.box_filter);
    lemma_same_fault(a, b, mapping, 0);
    law_subscriptions_do_not_matter(a, b, mapping, filter, cfg.subscribed_only, cfg2.subscribed_only);
    assert(r is Ok ==> target_views(r->Ok_0@) == target_set(
        a,
        mapping,
        filter,
        cfg.subscribed_only,
    ));
    assert(r2 is Ok ==> target_views(r2->Ok_0@) == target_set(
        b,
        mapping,
        filter,
        cfg2.subscribed_only,
    ));
}

} // verus!
