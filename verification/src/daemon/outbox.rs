//! Watching the outbox: what its files tell, and what follows from each change.
//!
//! A queued message stands in Outbox; one that cannot be sent stands in Failed. A file
//! that the user moves from Failed back to Outbox is tried again. Such a move shows as
//! two events, one on each side.

use vstd::prelude::*;
use vstd::string::*;

use crate::daemon::retry::RetrySchedule;
use crate::daemon::sidecar::{epoch_secs_of, SidecarState};
use crate::daemon::span::{LONGEST_NANOS, NANOS_PER_SEC};
use crate::keyed::Keyed;
use crate::search::{first_where, lemma_first_is, lemma_first_none, lemma_push_contains};
use crate::sync::maildir::flagless;
use crate::text::{has_prefix, opt_view, rsplit_once, starts_with, str_eq, views};

verus! {

// ---------------------------------------------------------------------------
// Files
// ---------------------------------------------------------------------------

/// The name of a message: its file's name without flags.
pub fn strip_flags(name: &str) -> (r: String)
    ensures
        r@ == flagless(name@),
{
    match rsplit_once(name, ":2,") {
        Some((base, _)) => base,
        None => name.to_owned(),
    }
}

/// An entry of a directory.
#[derive(Debug)]
pub struct DirEntry {
    /// Its name, if that can be read as text.
    pub name: Option<String>,
    pub is_file: bool,
}

/// The entry is a message: a file whose name can be read and is not hidden.
pub open spec fn is_message(e: DirEntry) -> bool {
    match e.name {
        Some(n) => !has_prefix(n@, "."@) && e.is_file,
        None => false,
    }
}

/// The names of the messages among the first `n` entries, in order.
pub open spec fn message_names(entries: Seq<DirEntry>, n: int) -> Seq<Seq<char>>
    decreases n,
{
    if n <= 0 {
        Seq::empty()
    } else {
        let before = message_names(entries, n - 1);
        match entries[n - 1].name {
            Some(name) => if is_message(entries[n - 1]) {
                before.push(name@)
            } else {
                before
            },
            None => before,
        }
    }
}

/// The names of the messages of a directory, in order.
pub fn scan_maildir_files(entries: &Vec<DirEntry>) -> (r: Vec<String>)
    ensures
        views(r@) == message_names(entries@, entries@.len() as int),
{
    let mut out: Vec<String> = Vec::new();
    let mut i: usize = 0;
    assert(views(out@) =~= Seq::empty());
    while i < entries.len()
        invariant
            i <= entries@.len(),
            views(out@) == message_names(entries@, i as int),
        decreases entries@.len() - i,
    {
        let ghost before = views(out@);
        match &entries[i].name {
            Some(name) => if !starts_with(name.as_str(), ".") && entries[i].is_file {
                out.push(name.clone());
                assert(views(out@) =~= before.push(name@));
            },
            None => {},
        }
        i += 1;
    }
    out
}

/// The names of the messages whose files have these names.
pub fn scan_basenames(names: &Vec<String>) -> (r: Keyed<()>)
    ensures
        r.wf(),
        forall|b: Seq<char>| #[trigger]
            r@.contains_key(b) <==> exists|i: int|
                0 <= i < names@.len() && flagless((#[trigger] names@[i])@) == b,
{
    let mut out: Keyed<()> = Keyed::new();
    let mut i: usize = 0;
    while i < names.len()
        invariant
            i <= names@.len(),
            out.wf(),
            forall|b: Seq<char>| #[trigger]
                out@.contains_key(b) <==> exists|j: int|
                    0 <= j < i && flagless((#[trigger] names@[j])@) == b,
        decreases names@.len() - i,
    {
        let ghost before = out@;
        out.insert(strip_flags(names[i].as_str()), ());
        assert forall|b: Seq<char>| #[trigger] out@.contains_key(b) <==> exists|j: int|
            0 <= j < i + 1 && flagless((#[trigger] names@[j])@) == b by {
            assert(out@.contains_key(b) <==> before.contains_key(b) || b == flagless(
                names@[i as int]@,
            ));
            if before.contains_key(b) {
                let j = choose|j: int| 0 <= j < i && flagless((#[trigger] names@[j])@) == b;
                assert(flagless(names@[j]@) == b);
            }
            if b == flagless(names@[i as int]@) {
                assert(flagless(names@[i as int]@) == b);
            }
        }
        i += 1;
    }
    out
}

/// The entry has exactly the message's name, and is a file.
pub open spec fn is_exact(e: DirEntry, basename: Seq<char>) -> bool {
    opt_view(e.name) == Some(basename) && e.is_file
}

/// The entry has the message's name, with flags.
pub open spec fn is_flagged(e: DirEntry, basename: Seq<char>) -> bool {
    match e.name {
        Some(n) => has_prefix(n@, basename + ":2,"@),
        None => false,
    }
}

/// The name of a message's file in a directory: the bare name if there is such a file,
/// else the first with flags.
pub open spec fn located(entries: Seq<DirEntry>, basename: Seq<char>) -> Option<Seq<char>> {
    if exists|i: int| 0 <= i < entries.len() && is_exact(#[trigger] entries[i], basename) {
        Some(basename)
    } else {
        match first_where(entries, |e: DirEntry| is_flagged(e, basename)) {
            Some(i) => opt_view(entries[i].name),
            None => None,
        }
    }
}

/// The name of a message's file in a directory.
pub fn locate_outbox_message(entries: &Vec<DirEntry>, basename: &str) -> (r: Option<String>)
    ensures
        opt_view(r) == located(entries@, basename@),
{
    let mut i: usize = 0;
    while i < entries.len()
        invariant
            i <= entries@.len(),
            forall|j: int| 0 <= j < i ==> !is_exact(#[trigger] entries@[j], basename@),
        decreases entries@.len() - i,
    {
        let exact = match &entries[i].name {
            Some(n) => str_eq(n.as_str(), basename) && entries[i].is_file,
            None => false,
        };
        if exact {
            assert(is_exact(entries@[i as int], basename@));
            return Some(basename.to_owned());
        }
        i += 1;
    }
    let ghost p = |e: DirEntry| is_flagged(e, basename@);
    let mut prefix: String = basename.to_owned();
    prefix.append(":2,");
    let mut k: usize = 0;
    while k < entries.len()
        invariant
            k <= entries@.len(),
            prefix@ == basename@ + ":2,"@,
            p == (|e: DirEntry| is_flagged(e, basename@)),
            forall|j: int| 0 <= j < entries@.len() ==> !is_exact(#[trigger] entries@[j], basename@),
            forall|j: int| 0 <= j < k ==> !p(#[trigger] entries@[j]),
        decreases entries@.len() - k,
    {
        match &entries[k].name {
            Some(n) => {
                if starts_with(n.as_str(), prefix.as_str()) {
                    proof {
                        assert(p(entries@[k as int]));
                        lemma_first_is(entries@, p, k as int);
                    }
                    return Some(n.clone());
                }
                assert(!p(entries@[k as int]));
            },
            None => {
                assert(!p(entries@[k as int]));
            },
        }
        k += 1;
    }
    proof {
        lemma_first_none(entries@, p);
    }
    None
}

// ---------------------------------------------------------------------------
// Events
// ---------------------------------------------------------------------------

/// A side of the outbox.
#[derive(Clone, Copy, Debug, PartialEq, Eq, Structural)]
pub enum OutboxSide {
    Outbox,
    Failed,
}

/// What happened to a file.
#[derive(Clone, Copy, Debug, PartialEq, Eq, Structural)]
pub enum RawEventKind {
    CreateOrRenameTo,
    Remove,
    RenameFrom,
}

/// What a file watcher reports.
#[derive(Clone, Copy, Debug, PartialEq, Eq, Structural)]
pub enum WatchKind {
    Create,
    Remove,
    RenameFrom,
    RenameTo,
    /// A rename with both names, or one of which no more is known.
    RenameOther,
    /// A change that leaves the name as it is.
    Change,
    Other,
}

/// What happened to a file, if it concerns the outbox. A rename that tells no side
/// counts for the new name.
pub open spec fn event_kind(kind: WatchKind) -> Option<RawEventKind> {
    match kind {
        WatchKind::Create => Some(RawEventKind::CreateOrRenameTo),
        WatchKind::Remove => Some(RawEventKind::Remove),
        WatchKind::RenameFrom => Some(RawEventKind::RenameFrom),
        WatchKind::RenameTo => Some(RawEventKind::CreateOrRenameTo),
        WatchKind::RenameOther => Some(RawEventKind::CreateOrRenameTo),
        WatchKind::Change => None,
        WatchKind::Other => None,
    }
}

/// What happened to a file, if it concerns the outbox.
pub fn classify_event(kind: WatchKind) -> (r: Option<RawEventKind>)
    ensures
        r == event_kind(kind),
{
    match kind {
        WatchKind::Create => Some(RawEventKind::CreateOrRenameTo),
        WatchKind::Remove => Some(RawEventKind::Remove),
        WatchKind::RenameFrom => Some(RawEventKind::RenameFrom),
        WatchKind::RenameTo => Some(RawEventKind::CreateOrRenameTo),
        WatchKind::RenameOther => Some(RawEventKind::CreateOrRenameTo),
        WatchKind::Change => None,
        WatchKind::Other => None,
    }
}

/// The path begins with the steps of the other.
pub open spec fn is_under(path: Seq<Vec<u8>>, base: Seq<Vec<u8>>) -> bool {
    base.len() <= path.len() && forall|i: int|
        0 <= i < base.len() ==> (#[trigger] path[i])@ == base[i]@
}

/// The side that a path belongs to.
pub open spec fn side_of(
    path: Seq<Vec<u8>>,
    outbox: Seq<Vec<u8>>,
    failed: Seq<Vec<u8>>,
) -> Option<(OutboxSide, int)> {
    if is_under(path, outbox) {
        Some((OutboxSide::Outbox, outbox.len() as int))
    } else if is_under(path, failed) {
        Some((OutboxSide::Failed, failed.len() as int))
    } else {
        None
    }
}

/// The directory of a Maildir that messages stand in.
pub open spec fn subdir_of(step: Seq<u8>) -> Option<Seq<char>> {
    if step == seq![110u8, 101u8, 119u8] {
        Some("new"@)
    } else if step == seq![99u8, 117u8, 114u8] {
        Some("cur"@)
    } else {
        None
    }
}

fn bytes_eq(a: &Vec<u8>, b: &[u8]) -> (r: bool)
    ensures
        r == (a@ == b@),
{
    if a.len() != b.len() {
        return false;
    }
    let mut i: usize = 0;
    while i < a.len()
        invariant
            i <= a@.len(),
            a@.len() == b@.len(),
            forall|j: int| 0 <= j < i ==> a@[j] == b@[j],
        decreases a@.len() - i,
    {
        if a[i] != b[i] {
            return false;
        }
        i += 1;
    }
    assert(a@ =~= b@);
    true
}

fn under(path: &Vec<Vec<u8>>, base: &Vec<Vec<u8>>) -> (r: bool)
    ensures
        r == is_under(path@, base@),
{
    if base.len() > path.len() {
        return false;
    }
    let mut i: usize = 0;
    while i < base.len()
        invariant
            i <= base@.len() <= path@.len(),
            forall|j: int| 0 <= j < i ==> (#[trigger] path@[j])@ == base@[j]@,
        decreases base@.len() - i,
    {
        if !bytes_eq(&path[i], base[i].as_slice()) {
            assert(path@[i as int]@ != base@[i as int]@);
            return false;
        }
        i += 1;
    }
    true
}

/// The side and the directory that a changed file belongs to, by the steps of the paths;
/// nothing for what is no message in either.
pub fn classify_path(path: &Vec<Vec<u8>>, outbox: &Vec<Vec<u8>>, failed: &Vec<Vec<u8>>) -> (r:
    Option<(OutboxSide, String)>)
    ensures
        match side_of(path@, outbox@, failed@) {
            Some(p) => if path@.len() >= p.1 + 2 && subdir_of(path@[p.1]@) is Some {
                r matches Some(q) && q.0 == p.0 && Some(q.1@) == subdir_of(path@[p.1]@)
            } else {
                r is None
            },
            None => r is None,
        },
{
    let (side, n): (OutboxSide, usize) = if under(path, outbox) {
        (OutboxSide::Outbox, outbox.len())
    } else if under(path, failed) {
        (OutboxSide::Failed, failed.len())
    } else {
        return None;
    };
    if path.len() < 2 || path.len() - 2 < n {
        return None;
    }
    let new_dir: [u8; 3] = [110, 101, 119];
    let cur_dir: [u8; 3] = [99, 117, 114];
    assert(new_dir@ =~= seq![110u8, 101u8, 119u8]);
    assert(cur_dir@ =~= seq![99u8, 117u8, 114u8]);
    if bytes_eq(&path[n], &new_dir) {
        Some((side, "new".to_owned()))
    } else if bytes_eq(&path[n], &cur_dir) {
        Some((side, "cur".to_owned()))
    } else {
        None
    }
}

// ---------------------------------------------------------------------------
// Coalescing
// ---------------------------------------------------------------------------

/// For how long a second event of the same kind on the same file is left out.
pub const EVENT_DEBOUNCE_NANOS: u128 = 100_000_000;

/// The time from one moment to a later one; nothing where it is not later.
pub open spec fn since(now: u128, then_at: u128) -> int {
    if now >= then_at {
        now - then_at
    } else {
        0
    }
}

fn nanos_since(now: u128, then_at: u128) -> (r: u128)
    ensures
        r == since(now, then_at),
{
    if now >= then_at {
        now - then_at
    } else {
        0
    }
}

/// A mark for a side and a kind of event.
pub open spec fn event_mark(side: OutboxSide, kind: RawEventKind) -> char {
    match (side, kind) {
        (OutboxSide::Outbox, RawEventKind::CreateOrRenameTo) => 'a',
        (OutboxSide::Outbox, RawEventKind::Remove) => 'b',
        (OutboxSide::Outbox, RawEventKind::RenameFrom) => 'c',
        (OutboxSide::Failed, RawEventKind::CreateOrRenameTo) => 'd',
        (OutboxSide::Failed, RawEventKind::Remove) => 'e',
        (OutboxSide::Failed, RawEventKind::RenameFrom) => 'f',
    }
}

/// What events are told apart by: their side, their kind and the file's name.
pub open spec fn event_key(side: OutboxSide, kind: RawEventKind, name: Seq<char>) -> Seq<char> {
    seq![event_mark(side, kind)] + name
}

/// Leaves out events that repeat one from just before.
pub struct Debouncer {
    last: Keyed<u128>,
}

impl View for Debouncer {
    type V = Map<Seq<char>, u128>;

    /// When an event was last let through, by what events are told apart by.
    closed spec fn view(&self) -> Map<Seq<char>, u128> {
        self.last@
    }
}

impl Debouncer {
    pub closed spec fn wf(self) -> bool {
        self.last.wf()
    }

    pub fn new() -> (r: Self)
        ensures
            r.wf(),
            r@ == Map::<Seq<char>, u128>::empty(),
    {
        Debouncer { last: Keyed::new() }
    }

    /// Whether an event at `now` is let through: none of its kind on this file was let
    /// through less than `window` before.
    pub fn let_through(
        &mut self,
        side: OutboxSide,
        name: &str,
        kind: RawEventKind,
        now: u128,
        window: u128,
    ) -> (r: bool)
        requires
            old(self).wf(),
        ensures
            final(self).wf(),
            ({
                let key = event_key(side, kind, name@);
                let repeats = old(self)@.contains_key(key) && since(now, old(self)@[key]) < window;
                r == !repeats && final(self)@ == (if repeats {
                    old(self)@
                } else {
                    old(self)@.insert(key, now)
                })
            }),
    {
        let mut key = String::new();
        key.push(
            match (side, kind) {
                (OutboxSide::Outbox, RawEventKind::CreateOrRenameTo) => 'a',
                (OutboxSide::Outbox, RawEventKind::Remove) => 'b',
                (OutboxSide::Outbox, RawEventKind::RenameFrom) => 'c',
                (OutboxSide::Failed, RawEventKind::CreateOrRenameTo) => 'd',
                (OutboxSide::Failed, RawEventKind::Remove) => 'e',
                (OutboxSide::Failed, RawEventKind::RenameFrom) => 'f',
            },
        );
        key.append(name);
        assert(key@ =~= event_key(side, kind, name@));
        let repeats = match self.last.get(key.as_str()) {
            Some(prev) => nanos_since(now, *prev) < window,
            None => false,
        };
        if repeats {
            return false;
        }
        self.last.insert(key, now);
        true
    }
}

/// Events that differ in side, kind or file are never taken for one another.
pub proof fn law_events_are_told_apart(
    side: OutboxSide,
    kind: RawEventKind,
    name: Seq<char>,
    other_side: OutboxSide,
    other_kind: RawEventKind,
    other_name: Seq<char>,
)
    ensures
        event_key(side, kind, name) == event_key(other_side, other_kind, other_name) <==> side
            == other_side && kind == other_kind && name == other_name,
{
    let a = event_key(side, kind, name);
    let b = event_key(other_side, other_kind, other_name);
    if a == b {
        assert(a[0] == event_mark(side, kind));
        assert(b[0] == event_mark(other_side, other_kind));
        assert(a.skip(1) =~= name);
        assert(b.skip(1) =~= other_name);
    }
}

// ---------------------------------------------------------------------------
// What follows from an event
// ---------------------------------------------------------------------------

/// For how long the first half of a move waits for the second.
pub const RENAME_PAIR_WINDOW_NANOS: u128 = 500_000_000;

/// The first half of a move: from which side a file went, and when.
#[derive(Clone, Copy, Debug, PartialEq, Eq, Structural)]
pub struct PendingRename {
    pub side: OutboxSide,
    pub seen_at: u128,
}

/// A change to a file.
#[derive(Debug)]
pub struct OutboxEvent {
    pub side: OutboxSide,
    /// The file's name, if that can be read as text.
    pub filename: Option<String>,
    pub kind: RawEventKind,
}

/// What is left to do on disk after an event. `T` is a text.
#[derive(Debug)]
#[verifier::ext_equal]
pub enum EventAction<T = String> {
    Done,
    /// The message came back from Failed: the diagnostic fields come off its file, and
    /// its history is forgotten.
    DragBack(T),
}

impl View for EventAction<String> {
    type V = EventAction<Seq<char>>;

    open spec fn view(&self) -> Self::V {
        match *self {
            EventAction::Done => EventAction::Done,
            EventAction::DragBack(b) => EventAction::DragBack(b@),
        }
    }
}

/// What is known of an account's outbox.
pub struct OutboxState {
    /// The messages in Failed.
    pub known_failures: Keyed<()>,
    /// The moves of which only the first half has been seen.
    pub pending_renames: Keyed<PendingRename>,
    pub retry_queue: RetrySchedule,
}

/// What is known of an account's outbox, as a value.
#[verifier::ext_equal]
pub struct OutboxModel {
    pub failures: Set<Seq<char>>,
    pub pending: Map<Seq<char>, PendingRename>,
    pub due: Map<Seq<char>, u128>,
}

impl View for OutboxState {
    type V = OutboxModel;

    open spec fn view(&self) -> OutboxModel {
        OutboxModel {
            failures: self.known_failures@.dom(),
            pending: self.pending_renames@,
            due: self.retry_queue@,
        }
    }
}

impl OutboxState {
    pub open spec fn wf(self) -> bool {
        &&& self.known_failures.wf()
        &&& self.pending_renames.wf()
        &&& self.retry_queue.wf()
    }

    /// What is known at startup.
    pub fn new(known_failures: Keyed<()>, retry_queue: RetrySchedule) -> (r: Self)
        requires
            known_failures.wf(),
            retry_queue.wf(),
        ensures
            r.wf(),
            r@.failures == known_failures@.dom(),
            r@.pending == Map::<Seq<char>, PendingRename>::empty(),
            r@.due == retry_queue@,
    {
        OutboxState { known_failures, pending_renames: Keyed::new(), retry_queue }
    }
}

/// What is known after an event on the file of message `b`, and what is left to do.
pub open spec fn after_event(
    m: OutboxModel,
    side: OutboxSide,
    kind: RawEventKind,
    b: Seq<char>,
    now: u128,
) -> (OutboxModel, EventAction<Seq<char>>) {
    match (side, kind) {
        (OutboxSide::Outbox, RawEventKind::CreateOrRenameTo) => {
            let drag_back = m.pending.contains_key(b) && m.pending[b].side == OutboxSide::Failed;
            (
                OutboxModel {
                    failures: if drag_back {
                        m.failures.remove(b)
                    } else {
                        m.failures
                    },
                    pending: m.pending.remove(b),
                    due: m.due.insert(b, now),
                },
                if drag_back {
                    EventAction::DragBack(b)
                } else {
                    EventAction::Done
                },
            )
        },
        (OutboxSide::Outbox, RawEventKind::Remove) => (
            OutboxModel { due: m.due.remove(b), ..m },
            EventAction::Done,
        ),
        (_, RawEventKind::RenameFrom) => (
            OutboxModel { pending: m.pending.insert(b, PendingRename { side, seen_at: now }), ..m },
            EventAction::Done,
        ),
        (OutboxSide::Failed, RawEventKind::CreateOrRenameTo) => (
            OutboxModel { failures: m.failures.insert(b), due: m.due.remove(b), ..m },
            EventAction::Done,
        ),
        (OutboxSide::Failed, RawEventKind::Remove) => (
            OutboxModel { failures: m.failures.remove(b), ..m },
            EventAction::Done,
        ),
    }
}

/// Takes in an event that came at `now`. Files with a name that cannot be read, and
/// hidden files, do not count.
pub fn handle_event(state: &mut OutboxState, ev: &OutboxEvent, now: u128) -> (r: EventAction)
    requires
        old(state).wf(),
    ensures
        final(state).wf(),
        match ev.filename {
            Some(name) => if has_prefix(name@, "."@) {
                final(state)@ == old(state)@ && r@ == EventAction::<Seq<char>>::Done
            } else {
                (final(state)@, r@) == after_event(
                    old(state)@,
                    ev.side,
                    ev.kind,
                    flagless(name@),
                    now,
                )
            },
            None => final(state)@ == old(state)@ && r@ == EventAction::<Seq<char>>::Done,
        },
{
    let filename = match &ev.filename {
        Some(n) => n,
        None => return EventAction::Done,
    };
    if starts_with(filename.as_str(), ".") {
        return EventAction::Done;
    }
    let basename = strip_flags(filename.as_str());
    let ghost m = state@;
    let ghost expected = after_event(m, ev.side, ev.kind, basename@, now);
    match (ev.side, ev.kind) {
        (OutboxSide::Outbox, RawEventKind::CreateOrRenameTo) => {
            let pending = state.pending_renames.remove(basename.as_str());
            let drag_back = match pending {
                Some(p) => p.side == OutboxSide::Failed,
                None => false,
            };
            if drag_back {
                let _ = state.known_failures.remove(basename.as_str());
            }
            state.retry_queue.schedule(basename.clone(), now);
            assert(state@ =~= expected.0);
            if drag_back {
                EventAction::DragBack(basename)
            } else {
                EventAction::Done
            }
        },
        (OutboxSide::Outbox, RawEventKind::Remove) => {
            state.retry_queue.remove(basename.as_str());
            assert(state@ =~= expected.0);
            EventAction::Done
        },
        (_, RawEventKind::RenameFrom) => {
            state.pending_renames.insert(basename, PendingRename { side: ev.side, seen_at: now });
            assert(state@ =~= expected.0);
            EventAction::Done
        },
        (OutboxSide::Failed, RawEventKind::CreateOrRenameTo) => {
            state.retry_queue.remove(basename.as_str());
            state.known_failures.insert(basename, ());
            assert(state@ =~= expected.0);
            EventAction::Done
        },
        (OutboxSide::Failed, RawEventKind::Remove) => {
            let _ = state.known_failures.remove(basename.as_str());
            assert(state@ =~= expected.0);
            EventAction::Done
        },
    }
}

/// The first half of a move has waited too long at `now`.
pub open spec fn has_expired(p: PendingRename, now: u128) -> bool {
    since(now, p.seen_at) > RENAME_PAIR_WINDOW_NANOS
}

/// What is known at `now` once moves that were never completed are given up: each counts
/// as a removal. A file that left Failed for good is no failure any more, and one that
/// left Outbox for good is not tried any more.
pub open spec fn after_expiry(m: OutboxModel, now: u128) -> OutboxModel {
    OutboxModel {
        failures: m.failures.difference(
            Set::new(
                |b: Seq<char>|
                    m.pending.contains_key(b) && has_expired(m.pending[b], now)
                        && m.pending[b].side == OutboxSide::Failed,
            ),
        ),
        pending: m.pending.restrict(
            Set::new(
                |b: Seq<char>| m.pending.contains_key(b) && !has_expired(m.pending[b], now),
            ),
        ),
        due: m.due.remove_keys(
            Set::new(
                |b: Seq<char>|
                    m.pending.contains_key(b) && has_expired(m.pending[b], now)
                        && m.pending[b].side == OutboxSide::Outbox,
            ),
        ),
    }
}

/// Gives up moves whose second half has not come in time.
pub fn expire_pending_renames(state: &mut OutboxState, now: u128)
    requires
        old(state).wf(),
    ensures
        final(state).wf(),
        final(state)@ == after_expiry(old(state)@, now),
{
    let ghost m = state@;
    let names = state.pending_renames.key_list();
    let ghost nv = views(names@);
    let mut i: usize = 0;
    while i < names.len()
        invariant
            state.wf(),
            nv == views(names@),
            nv.no_duplicates(),
            i <= names@.len(),
            forall|b: Seq<char>| #[trigger]
                state@.due.contains_key(b) <==> m.due.contains_key(b) && !(nv.take(
                    i as int,
                ).contains(b) && has_expired(m.pending[b], now) && m.pending[b].side
                    == OutboxSide::Outbox),
            forall|b: Seq<char>| #[trigger]
                state@.due.contains_key(b) ==> state@.due[b] == m.due[b],
            forall|b: Seq<char>| #[trigger] nv.contains(b) <==> m.pending.contains_key(b),
            forall|b: Seq<char>| #[trigger]
                state@.pending.contains_key(b) <==> m.pending.contains_key(b) && !(nv.take(
                    i as int,
                ).contains(b) && has_expired(m.pending[b], now)),
            forall|b: Seq<char>| #[trigger]
                state@.pending.contains_key(b) ==> state@.pending[b] == m.pending[b],
            forall|b: Seq<char>| #[trigger]
                state@.failures.contains(b) <==> m.failures.contains(b) && !(nv.take(
                    i as int,
                ).contains(b) && has_expired(m.pending[b], now) && m.pending[b].side
                    == OutboxSide::Failed),
        decreases names@.len() - i,
    {
        let ghost before = state@;
        let ghost x = nv[i as int];
        proof {
            assert(nv.contains(x));
            assert(nv.take(i + 1) =~= nv.take(i as int).push(x));
            assert(!nv.take(i as int).contains(x));
            assert forall|b: Seq<char>| nv.take(i + 1).contains(b) <==> nv.take(i as int).contains(b)
                || b == x by {
                lemma_push_contains(nv.take(i as int), x, b);
            }
            assert(state@.pending.contains_key(x));
        }
        let entry: Option<PendingRename> = match state.pending_renames.get(names[i].as_str()) {
            Some(p) => Some(*p),
            None => None,
        };
        match entry {
            Some(p) => if nanos_since(now, p.seen_at) > RENAME_PAIR_WINDOW_NANOS {
                let _ = state.pending_renames.remove(names[i].as_str());
                match p.side {
                    OutboxSide::Failed => {
                        let _ = state.known_failures.remove(names[i].as_str());
                    },
                    OutboxSide::Outbox => {
                        state.retry_queue.remove(names[i].as_str());
                    },
                }
            },
            None => {},
        }
        proof {
            let gone = has_expired(m.pending[x], now) && m.pending[x].side == OutboxSide::Failed;
            let left = has_expired(m.pending[x], now) && m.pending[x].side == OutboxSide::Outbox;
            assert(state@.due =~= (if left {
                before.due.remove(x)
            } else {
                before.due
            }));
            assert forall|b: Seq<char>| #[trigger] state@.due.contains_key(b) <==> m.due.contains_key(
                b,
            ) && !(nv.take(i + 1).contains(b) && has_expired(m.pending[b], now) && m.pending[b].side
                == OutboxSide::Outbox) by {
                assert(before.due.contains_key(b) <==> m.due.contains_key(b) && !(nv.take(
                    i as int,
                ).contains(b) && has_expired(m.pending[b], now) && m.pending[b].side
                    == OutboxSide::Outbox));
            }
            assert(state@.failures =~= (if gone {
                before.failures.remove(x)
            } else {
                before.failures
            }));
            assert forall|b: Seq<char>| #[trigger] state@.failures.contains(b) <==> m.failures.contains(
                b,
            ) && !(nv.take(i + 1).contains(b) && has_expired(m.pending[b], now) && m.pending[b].side
                == OutboxSide::Failed) by {
                assert(before.failures.contains(b) <==> m.failures.contains(b) && !(nv.take(
                    i as int,
                ).contains(b) && has_expired(m.pending[b], now) && m.pending[b].side
                    == OutboxSide::Failed));
            }
        }
        i += 1;
    }
    proof {
        assert(nv.take(i as int) =~= nv);
        let expected = after_expiry(m, now);
        assert(state@.failures =~= expected.failures);
        assert(state@.pending =~= expected.pending);
        assert(state@.due =~= expected.due);
    }
}

// ---------------------------------------------------------------------------
// Startup and the loop
// ---------------------------------------------------------------------------

/// When a message is due that is found at startup: when its record says, or at once.
/// `epoch` is the time of day in seconds and `now` the present moment.
pub open spec fn startup_due(next_at: Option<Seq<char>>, epoch: u64, now: u128) -> int {
    let due_secs: u64 = match next_at {
        Some(s) => match epoch_secs_of(s) {
            Some(t) => t,
            None => epoch,
        },
        None => epoch,
    };
    if due_secs > epoch {
        now + (due_secs - epoch) * NANOS_PER_SEC
    } else {
        now as int
    }
}

/// What a record says of the next attempt.
pub open spec fn next_at_of(sc: SidecarState) -> Option<Seq<char>> {
    match sc@.retry {
        Some(r) => r.next_at,
        None => None,
    }
}

/// The schedule for the first `n` files that are found at startup.
pub open spec fn startup_model(
    files: Seq<(String, SidecarState)>,
    n: int,
    epoch: u64,
    now: u128,
) -> Map<Seq<char>, u128>
    decreases n,
{
    if n <= 0 {
        Map::empty()
    } else {
        startup_model(files, n - 1, epoch, now).insert(
            flagless(files[n - 1].0@),
            startup_due(next_at_of(files[n - 1].1), epoch, now) as u128,
        )
    }
}

/// The schedule for the files that are found at startup, each with its record.
pub fn startup_schedule(files: &Vec<(String, SidecarState)>, epoch: u64, now: u128) -> (r:
    RetrySchedule)
    requires
        now + LONGEST_NANOS <= u128::MAX,
    ensures
        r.wf(),
        r@ == startup_model(files@, files@.len() as int, epoch, now),
{
    let mut queue = RetrySchedule::new();
    let mut i: usize = 0;
    while i < files.len()
        invariant
            now + LONGEST_NANOS <= u128::MAX,
            queue.wf(),
            i <= files@.len(),
            queue@ == startup_model(files@, i as int, epoch, now),
        decreases files@.len() - i,
    {
        let next: Option<u64> = match &files[i].1.retry {
            Some(r) => r.next_at_epoch_secs(),
            None => None,
        };
        let due_secs: u64 = match next {
            Some(t) => t,
            None => epoch,
        };
        let due: u128 = if due_secs > epoch {
            now + (due_secs - epoch) as u128 * NANOS_PER_SEC
        } else {
            now
        };
        assert(due == startup_due(next_at_of(files@[i as int].1), epoch, now));
        queue.schedule(strip_flags(files[i].0.as_str()), due);
        i += 1;
    }
    queue
}

/// What the loop of an account's outbox waits for.
#[derive(Debug)]
pub enum LoopEvent {
    /// The daemon is shutting down.
    Cancelled,
    /// The first message on the schedule is due.
    Due,
    /// The watcher reports a change.
    Changed(OutboxEvent),
    /// The watcher is gone.
    WatcherClosed,
}

/// What the loop of an account's outbox does next.
#[derive(Debug)]
pub enum LoopAction {
    Exit,
    /// Tries to send these messages, one after the other.
    Attempt(Vec<String>),
    /// Does what is left to do after a change.
    React(EventAction),
}

/// What the loop of an account's outbox does next, after what it waited for came at
/// `now`.
pub fn loop_step(state: &mut OutboxState, ev: LoopEvent, now: u128) -> (r: LoopAction)
    requires
        old(state).wf(),
    ensures
        final(state).wf(),
        match ev {
            LoopEvent::Cancelled => r is Exit && final(state)@ == old(state)@,
            LoopEvent::WatcherClosed => r is Exit && final(state)@ == old(state)@,
            LoopEvent::Due => r matches LoopAction::Attempt(names) && views(names@).no_duplicates()
                && (forall|b: Seq<char>| #[trigger]
                views(names@).contains(b) <==> old(state)@.due.contains_key(b)
                    && old(state)@.due[b] <= now) && (forall|i: int, j: int|
                0 <= i < j < names@.len() ==> old(state)@.due[#[trigger] views(names@)[i]]
                    <= old(state)@.due[#[trigger] views(names@)[j]]) && final(state)@ == (
            OutboxModel {
                due: old(state)@.due.restrict(
                    Set::new(
                        |b: Seq<char>|
                            old(state)@.due.contains_key(b) && old(state)@.due[b] > now,
                    ),
                ),
                ..old(state)@
            }),
            LoopEvent::Changed(e) => r matches LoopAction::React(a) && match e.filename {
                Some(name) => if has_prefix(name@, "."@) {
                    final(state)@ == old(state)@ && a@ == EventAction::<Seq<char>>::Done
                } else {
                    (final(state)@, a@) == after_event(
                        old(state)@,
                        e.side,
                        e.kind,
                        flagless(name@),
                        now,
                    )
                },
                None => final(state)@ == old(state)@ && a@ == EventAction::<Seq<char>>::Done,
            },
        },
{
    match ev {
        LoopEvent::Cancelled => LoopAction::Exit,
        LoopEvent::WatcherClosed => LoopAction::Exit,
        LoopEvent::Due => LoopAction::Attempt(state.retry_queue.drain_due(now)),
        LoopEvent::Changed(e) => LoopAction::React(handle_event(state, &e, now)),
    }
}

// ---------------------------------------------------------------------------
// Laws
// ---------------------------------------------------------------------------

/// A message that the user moves from Failed to Outbox, in a move whose halves come in
/// time, is tried at once, is no failure any more, and has its diagnostic fields taken
/// off.
pub proof fn law_drag_back(m: OutboxModel, b: Seq<char>, left_at: u128, now: u128)
    requires
        since(now, left_at) <= RENAME_PAIR_WINDOW_NANOS,
    ensures
        ({
            let half = after_event(
                m,
                OutboxSide::Failed,
                RawEventKind::RenameFrom,
                b,
                left_at,
            ).0;
            let (done, action) = after_event(
                after_expiry(half, now),
                OutboxSide::Outbox,
                RawEventKind::CreateOrRenameTo,
                b,
                now,
            );
            &&& action == EventAction::DragBack(b)
            &&& !done.failures.contains(b)
            &&& done.due.contains_key(b) && done.due[b] == now
            &&& !done.pending.contains_key(b)
        }),
{
}

/// A message in Failed is not tried: once it is there, it is off the schedule, and only a
/// change in Outbox puts it back.
pub proof fn law_failures_are_not_tried(
    m: OutboxModel,
    b: Seq<char>,
    side: OutboxSide,
    kind: RawEventKind,
    other: Seq<char>,
    at: u128,
    now: u128,
)
    requires
        !(side == OutboxSide::Outbox && kind == RawEventKind::CreateOrRenameTo && other == b),
    ensures
        ({
            let there = after_event(
                m,
                OutboxSide::Failed,
                RawEventKind::CreateOrRenameTo,
                b,
                at,
            ).0;
            &&& there.failures.contains(b)
            &&& !there.due.contains_key(b)
            &&& !after_event(there, side, kind, other, now).0.due.contains_key(b)
        }),
{
}

/// A file that left Failed and did not turn up in Outbox in time is forgotten.
pub proof fn law_lost_move_is_forgotten(m: OutboxModel, b: Seq<char>, left_at: u128, now: u128)
    requires
        since(now, left_at) > RENAME_PAIR_WINDOW_NANOS,
    ensures
        ({
            let half = after_event(
                m,
                OutboxSide::Failed,
                RawEventKind::RenameFrom,
                b,
                left_at,
            ).0;
            let rest = after_expiry(half, now);
            !rest.failures.contains(b) && !rest.pending.contains_key(b)
        }),
{
}

/// A message whose file left Outbox and turned up nowhere in time is not tried any more,
/// just as if the file had been removed.
pub proof fn law_message_that_left_is_not_tried(
    m: OutboxModel,
    b: Seq<char>,
    left_at: u128,
    now: u128,
)
    requires
        since(now, left_at) > RENAME_PAIR_WINDOW_NANOS,
    ensures
        ({
            let half = after_event(
                m,
                OutboxSide::Outbox,
                RawEventKind::RenameFrom,
                b,
                left_at,
            ).0;
            !after_expiry(half, now).due.contains_key(b) && !after_expiry(
                half,
                now,
            ).pending.contains_key(b)
        }),
{
}

/// The messages of a directory are its files whose names can be read and do not begin with a
/// dot, in the order of the directory, each as often as it is there.
pub proof fn law_messages_are_the_visible_files(entries: &Vec<DirEntry>, r: Vec<String>)
    requires
        call_ensures(scan_maildir_files, (entries,), r),
    ensures
        ({
            let shown = entries@.filter(
                |e: DirEntry|
                    e.is_file && e.name is Some && (e.name->0@.len() == 0 || e.name->0@[0] != '.'),
            );
            &&& r@.len() == shown.len()
            &&& forall|k: int|
                0 <= k < shown.len() ==> (#[trigger] shown[k]).name is Some && r@[k]@
                    == shown[k].name->0@
        }),
{
    let p = |e: DirEntry|
        e.is_file && e.name is Some && (e.name->0@.len() == 0 || e.name->0@[0] != '.');
    lemma_message_names(entries@, entries@.len() as int, p);
    assert(entries@.take(entries@.len() as int) =~= entries@);
    let shown = entries@.filter(p);
    assert(views(r@).len() == r@.len());
    assert forall|k: int| 0 <= k < shown.len() implies (#[trigger] shown[k]).name is Some && r@[k]@
        == shown[k].name->0@ by {
        assert(views(r@)[k] == r@[k]@);
    }
}

proof fn lemma_message_names(entries: Seq<DirEntry>, n: int, p: spec_fn(DirEntry) -> bool)
    requires
        0 <= n <= entries.len(),
        p == (|e: DirEntry|
            e.is_file && e.name is Some && (e.name->0@.len() == 0 || e.name->0@[0] != '.')),
    ensures
        message_names(entries, n).len() == entries.take(n).filter(p).len(),
        forall|k: int|
            0 <= k < message_names(entries, n).len() ==> (#[trigger] entries.take(n).filter(
                p,
            )[k]).name is Some && message_names(entries, n)[k] == entries.take(n).filter(
                p,
            )[k].name->0@,
    decreases n,
{
    reveal(Seq::filter);
    if n > 0 {
        lemma_message_names(entries, n - 1, p);
        assert(entries.take(n).drop_last() =~= entries.take(n - 1));
        let e = entries[n - 1];
        reveal_strlit(".");
        match e.name {
            Some(s) => {
                assert(has_prefix(s@, "."@) == (s@.len() > 0 && s@[0] == '.')) by {
                    if s@.len() > 0 {
                        assert(s@.subrange(0, 1)[0] == s@[0]);
                        assert("."@[0] == '.');
                        if s@[0] == '.' {
                            assert(s@.subrange(0, 1) =~= "."@);
                        }
                    }
                }
            },
            None => {},
        }
        assert(p(e) == is_message(e));
    }
}

/// A message's file is found under its bare name if there is such a file, whatever else is
/// there; otherwise under a name that is the message's with flags, the first of these. It is
/// not found only if there is neither.
pub proof fn law_bare_name_comes_first(
    entries: &Vec<DirEntry>,
    basename: &str,
    r: Option<String>,
)
    requires
        call_ensures(locate_outbox_message, (entries, basename), r),
    ensures
        ({
            let bare = exists|i: int|
                0 <= i < entries@.len() && (#[trigger] entries@[i]).is_file && opt_view(
                    entries@[i].name,
                ) == Some(basename@);
            let flagged = |i: int|
                0 <= i < entries@.len() && entries@[i].name is Some && has_prefix(
                    entries@[i].name->0@,
                    basename@ + ":2,"@,
                );
            &&& bare ==> r is Some && r->0@ == basename@
            &&& !bare && r is Some ==> exists|i: int| #[trigger]
                flagged(i) && r->0@ == entries@[i].name->0@ && forall|j: int|
                    0 <= j < i ==> !#[trigger] flagged(j)
            &&& r is None ==> !bare && forall|i: int| !#[trigger] flagged(i)
        }),
{
    let all = entries@;
    let b = basename@;
    let p = |e: DirEntry| is_flagged(e, b);
    let flagged = |i: int|
        0 <= i < all.len() && all[i].name is Some && has_prefix(all[i].name->0@, b + ":2,"@);
    crate::search::lemma_first_from(all, p, 0);
    let bare = exists|i: int|
        0 <= i < all.len() && (#[trigger] all[i]).is_file && opt_view(all[i].name) == Some(b);
    if bare {
        let i = choose|i: int|
            0 <= i < all.len() && (#[trigger] all[i]).is_file && opt_view(all[i].name) == Some(b);
        assert(is_exact(all[i], b));
    } else {
        assert forall|i: int| 0 <= i < all.len() implies !is_exact(#[trigger] all[i], b) by {
            assert(!(all[i].is_file && opt_view(all[i].name) == Some(b)));
        }
        match first_where(all, p) {
            Some(i) => {
                assert(p(all[i]));
                assert(flagged(i));
                assert forall|j: int| 0 <= j < i implies !#[trigger] flagged(j) by {
                    assert(!p(all[j]));
                }
            },
            None => {
                assert forall|j: int| !#[trigger] flagged(j) by {
                    if 0 <= j < all.len() {
                        assert(!p(all[j]));
                    }
                }
            },
        }
    }
}

/// A file that comes or gets its name counts as come, one that is removed as removed, one
/// that loses its name as on its way; a change that leaves the name alone, and what is not
/// known, do not count.
pub proof fn law_reports_are_sorted(kind: WatchKind, r: Option<RawEventKind>)
    requires
        call_ensures(classify_event, (kind,), r),
    ensures
        r == Some(RawEventKind::CreateOrRenameTo) <==> kind is Create || kind is RenameTo
            || kind is RenameOther,
        r == Some(RawEventKind::Remove) <==> kind is Remove,
        r == Some(RawEventKind::RenameFrom) <==> kind is RenameFrom,
        r is None <==> kind is Change || kind is Other,
{
}

/// A path counts exactly if it leads into `new` or `cur` of one of the two trees, and then
/// for the tree that it is in; one that is in both counts for Outbox.
pub proof fn law_path_tells_the_side(
    path: &Vec<Vec<u8>>,
    outbox: &Vec<Vec<u8>>,
    failed: &Vec<Vec<u8>>,
    r: Option<(OutboxSide, String)>,
)
    requires
        call_ensures(classify_path, (path, outbox, failed), r),
    ensures
        ({
            let inside = |base: &Vec<Vec<u8>>|
                base@.len() <= path@.len() && forall|i: int|
                    0 <= i < base@.len() ==> (#[trigger] path@[i])@ == base@[i]@;
            let step = |n: int, name: Seq<u8>| n + 2 <= path@.len() && path@[n]@ == name;
            let new_dir = seq![110u8, 101u8, 119u8];
            let cur_dir = seq![99u8, 117u8, 114u8];
            &&& r is Some && (r->0).0 == OutboxSide::Outbox <==> inside(outbox) && (step(
                outbox@.len() as int,
                new_dir,
            ) || step(outbox@.len() as int, cur_dir))
            &&& r is Some && (r->0).0 == OutboxSide::Failed <==> !inside(outbox) && inside(failed) && (
            step(failed@.len() as int, new_dir) || step(failed@.len() as int, cur_dir))
            &&& r is Some && (r->0).0 == OutboxSide::Outbox ==> ((r->0).1@ == "new"@ <==> step(
                outbox@.len() as int,
                new_dir,
            )) && ((r->0).1@ == "cur"@ <==> step(outbox@.len() as int, cur_dir))
            &&& r is Some && (r->0).0 == OutboxSide::Failed ==> ((r->0).1@ == "new"@ <==> step(
                failed@.len() as int,
                new_dir,
            )) && ((r->0).1@ == "cur"@ <==> step(failed@.len() as int, cur_dir))
        }),
{
    reveal_strlit("new");
    reveal_strlit("cur");
    assert("new"@[0] == 'n' && "cur"@[0] == 'c');
    let new_dir = seq![110u8, 101u8, 119u8];
    let cur_dir = seq![99u8, 117u8, 114u8];
    assert(new_dir[0] != cur_dir[0]);
    let inside = |base: &Vec<Vec<u8>>|
        base@.len() <= path@.len() && forall|i: int|
            0 <= i < base@.len() ==> (#[trigger] path@[i])@ == base@[i]@;
    assert(inside(outbox) == is_under(path@, outbox@));
    assert(inside(failed) == is_under(path@, failed@));
}

/// An event is left out exactly if one like it was let through less than the window before;
/// what is left out leaves no trace. What is let through is remembered as of now, and other
/// events are not affected.
pub proof fn law_repeats_are_left_out(
    side: OutboxSide,
    name: &str,
    kind: RawEventKind,
    now: u128,
    window: u128,
)
    ensures
        forall|d: &mut Debouncer, r: bool| #[trigger]
            call_ensures(Debouncer::let_through, (d, side, name, kind, now, window), r) ==> {
                let key = event_key(side, kind, name@);
                &&& !d@.contains_key(key) ==> r
                &&& d@.contains_key(key) && now >= d@[key] + window ==> r
                &&& d@.contains_key(key) && now < d@[key] + window && window > 0 ==> !r
                &&& r ==> final(d)@.contains_key(key) && final(d)@[key] == now
                &&& !r ==> final(d)@ == d@
                &&& forall|other: Seq<char>|
                    other != key ==> (#[trigger] final(d)@.contains_key(other) <==> d@.contains_key(
                        other,
                    )) && (d@.contains_key(other) ==> final(d)@[other] == d@[other])
            },
{
}

/// What happens to one message's file changes what is known of that message alone.
pub proof fn law_event_is_about_one_message(
    m: OutboxModel,
    side: OutboxSide,
    kind: RawEventKind,
    b: Seq<char>,
    now: u128,
    other: Seq<char>,
)
    requires
        other != b,
    ensures
        ({
            let t = after_event(m, side, kind, b, now).0;
            &&& t.failures.contains(other) <==> m.failures.contains(other)
            &&& t.pending.contains_key(other) <==> m.pending.contains_key(other)
            &&& m.pending.contains_key(other) ==> t.pending[other] == m.pending[other]
            &&& t.due.contains_key(other) <==> m.due.contains_key(other)
            &&& m.due.contains_key(other) ==> t.due[other] == m.due[other]
        }),
{
}

/// A message that comes to Outbox is tried at once. One that goes from Outbox, or comes to
/// Failed, is not tried. A message is a failure from when it comes to Failed until it goes
/// from there for good or is moved back; nothing else makes or ends a failure. A file that
/// loses its name is remembered with its side and the time, and nothing else changes. The
/// diagnostic fields come off exactly if the message comes to Outbox on its way from Failed.
pub proof fn law_event_says_what_becomes_of_the_message(
    m: OutboxModel,
    side: OutboxSide,
    kind: RawEventKind,
    b: Seq<char>,
    now: u128,
)
    ensures
        ({
            let (t, action) = after_event(m, side, kind, b, now);
            let came = kind == RawEventKind::CreateOrRenameTo;
            let went = kind == RawEventKind::Remove;
            let from_failed = m.pending.contains_key(b) && m.pending[b].side == OutboxSide::Failed;
            &&& side == OutboxSide::Outbox && came ==> t.due.contains_key(b) && t.due[b] == now
                && !t.pending.contains_key(b)
            &&& side == OutboxSide::Outbox && went ==> !t.due.contains_key(b)
            &&& side == OutboxSide::Failed && came ==> !t.due.contains_key(b)
                && t.failures.contains(b)
            &&& side == OutboxSide::Failed && !came ==> t.due == m.due
            &&& side == OutboxSide::Failed && went ==> !t.failures.contains(b)
            &&& side == OutboxSide::Outbox && !(came && from_failed) ==> t.failures == m.failures
            &&& side == OutboxSide::Outbox && came && from_failed ==> !t.failures.contains(b)
            &&& kind == RawEventKind::RenameFrom ==> t.pending.contains_key(b)
                && t.pending[b].side == side && t.pending[b].seen_at == now && t.failures
                == m.failures && t.due == m.due
            &&& went || side == OutboxSide::Failed && came ==> t.pending == m.pending
            &&& action == EventAction::DragBack(b) <==> side == OutboxSide::Outbox && came
                && from_failed
            &&& action is DragBack ==> action->DragBack_0 == b
        }),
{
}

/// What is reported of a file counts for the message of its name without flags. Hidden files
/// and names that cannot be read do not count at all.
pub proof fn law_report_counts_for_its_message(ev: &OutboxEvent, now: u128)
    ensures
        forall|s: &mut OutboxState, r: EventAction| #[trigger]
            call_ensures(handle_event, (s, ev, now), r) ==> {
                &&& ev.filename is None ==> final(s)@ == s@ && r is Done
                &&& ev.filename is Some && has_prefix(ev.filename->0@, "."@) ==> final(s)@ == s@
                    && r is Done
                &&& ev.filename is Some && !has_prefix(ev.filename->0@, "."@) ==> {
                    let b = flagless(ev.filename->0@);
                    &&& ev.side == OutboxSide::Outbox && ev.kind == RawEventKind::CreateOrRenameTo
                        ==> final(s)@.due.contains_key(b) && final(s)@.due[b] == now
                    &&& ev.side == OutboxSide::Failed && ev.kind == RawEventKind::CreateOrRenameTo
                        ==> final(s)@.failures.contains(b) && !final(s)@.due.contains_key(b)
                    &&& ev.side == OutboxSide::Outbox && ev.kind == RawEventKind::Remove
                        ==> !final(s)@.due.contains_key(b)
                    &&& r is DragBack ==> r->DragBack_0@ == b
                }
            },
{
}

/// A move waits for its second half for half a second. One that has waited longer is given
/// up: a message on its way from Failed is no failure any more, one on its way from Outbox is
/// not tried any more, and nothing else changes.
pub proof fn law_moves_wait_half_a_second(now: u128)
    ensures
        forall|s: &mut OutboxState| #[trigger]
            call_ensures(expire_pending_renames, (s, now), ()) ==> forall|b: Seq<char>|
                {
                    let late = s@.pending.contains_key(b) && now > s@.pending[b].seen_at
                        + 500_000_000;
                    &&& (#[trigger] final(s)@.pending.contains_key(b)) <==> s@.pending.contains_key(b)
                        && !late
                    &&& s@.pending.contains_key(b) && !late ==> final(s)@.pending[b]
                        == s@.pending[b]
                    &&& final(s)@.failures.contains(b) <==> s@.failures.contains(b) && !(late
                        && s@.pending[b].side == OutboxSide::Failed)
                    &&& final(s)@.due.contains_key(b) <==> s@.due.contains_key(b) && !(late
                        && s@.pending[b].side == OutboxSide::Outbox)
                    &&& final(s)@.due.contains_key(b) ==> final(s)@.due[b] == s@.due[b]
                },
{
}

/// At startup every message that is found is on the schedule, and no other is. It is due
/// when the record of the last file of its name says, if that is still to come, and at once
/// otherwise.
pub proof fn law_startup_takes_up_every_message(
    files: Seq<(String, SidecarState)>,
    n: int,
    epoch: u64,
    now: u128,
    b: Seq<char>,
)
    requires
        0 <= n <= files.len(),
        now + LONGEST_NANOS <= u128::MAX,
    ensures
        startup_model(files, n, epoch, now).contains_key(b) <==> exists|k: int|
            0 <= k < n && flagless((#[trigger] files[k]).0@) == b,
        startup_model(files, n, epoch, now).contains_key(b) ==> exists|k: int|
            {
                &&& 0 <= k < n
                &&& flagless((#[trigger] files[k]).0@) == b
                &&& forall|j: int| k < j < n ==> flagless((#[trigger] files[j]).0@) != b
                &&& startup_model(files, n, epoch, now)[b] == startup_due(
                    next_at_of(files[k].1),
                    epoch,
                    now,
                )
            },
    decreases n,
{
    if n > 0 {
        law_startup_takes_up_every_message(files, n - 1, epoch, now, b);
        let name = flagless(files[n - 1].0@);
        let due = startup_due(next_at_of(files[n - 1].1), epoch, now);
        assert(0 <= due <= u128::MAX) by {
            law_startup_waits_as_long_as_it_takes(next_at_of(files[n - 1].1), epoch, now);
        }
        if name != b && startup_model(files, n, epoch, now).contains_key(b) {
            let k = choose|k: int|
                {
                    &&& 0 <= k < n - 1
                    &&& flagless((#[trigger] files[k]).0@) == b
                    &&& forall|j: int| k < j < n - 1 ==> flagless((#[trigger] files[j]).0@) != b
                    &&& startup_model(files, n - 1, epoch, now)[b] == startup_due(
                        next_at_of(files[k].1),
                        epoch,
                        now,
                    )
                };
            assert(flagless(files[k].0@) == b);
        }
        if name == b {
            assert(flagless(files[n - 1].0@) == b);
        }
    }
}

/// A message that is found at startup is never due before the present. One whose next attempt
/// lies ahead is due by then, to the second; one without a next attempt, with one that has
/// passed or with one that cannot be read is due at once.
pub proof fn law_startup_waits_as_long_as_it_takes(next_at: Option<Seq<char>>, epoch: u64, now: u128)
    ensures
        startup_due(next_at, epoch, now) >= now,
        startup_due(next_at, epoch, now) <= now + LONGEST_NANOS,
        next_at is None ==> startup_due(next_at, epoch, now) == now,
        next_at is Some && epoch_secs_of(next_at->0) is None ==> startup_due(next_at, epoch, now)
            == now,
        next_at is Some && epoch_secs_of(next_at->0) is Some && epoch_secs_of(next_at->0)->0
            <= epoch ==> startup_due(next_at, epoch, now) == now,
        next_at is Some && epoch_secs_of(next_at->0) is Some && epoch_secs_of(next_at->0)->0 > epoch
            ==> startup_due(next_at, epoch, now) == now + (epoch_secs_of(next_at->0)->0 - epoch)
            * 1_000_000_000,
{
}

/// When something is due, exactly what is due is tried, each once and the longest due first;
/// the rest stays on the schedule, and nothing that is due is left there. A change is taken in
/// as such. The loop ends when the daemon does or the watcher is gone, and only then.
pub proof fn law_loop_tries_what_is_due(ev: LoopEvent, now: u128)
    ensures
        forall|s: &mut OutboxState, r: LoopAction| #[trigger]
            call_ensures(loop_step, (s, ev, now), r) ==> {
                &&& r is Exit <==> ev is Cancelled || ev is WatcherClosed
                &&& r is Attempt <==> ev is Due
                &&& r is React <==> ev is Changed
                &&& r is Exit ==> final(s)@ == s@
                &&& ev is Changed && ev->Changed_0.filename is Some && !has_prefix(
                    ev->Changed_0.filename->0@,
                    "."@,
                ) ==> {
                    let e = ev->Changed_0;
                    (final(s)@, r->React_0@) == after_event(
                        s@,
                        e.side,
                        e.kind,
                        flagless(e.filename->0@),
                        now,
                    )
                }
                &&& ev is Changed && (ev->Changed_0.filename is None || has_prefix(
                    ev->Changed_0.filename->0@,
                    "."@,
                )) ==> final(s)@ == s@ && r->React_0 is Done
                &&& r is Attempt ==> {
                    let names = views(r->Attempt_0@);
                    &&& forall|b: Seq<char>| #[trigger]
                        s@.due.contains_key(b) ==> (names.contains(b) <==> s@.due[b] <= now) && (
                        names.contains(b) <==> !final(s)@.due.contains_key(b))
                    &&& forall|b: Seq<char>| #[trigger]
                        final(s)@.due.contains_key(b) ==> s@.due.contains_key(b)
                            && final(s)@.due[b] == s@.due[b] && final(s)@.due[b] > now
                    &&& final(s)@.failures == s@.failures
                    &&& final(s)@.pending == s@.pending
                    &&& names.no_duplicates()
                }
            },
{
}

} // verus!
