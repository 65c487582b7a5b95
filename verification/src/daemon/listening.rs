//! Listening to the server for changes, and riding out its failures.
//!
//! An account's loop syncs, connects to the server's stream of changes and syncs again
//! whenever the stream, the poll timer or the local tree says so. What it does next
//! follows from what has just happened; performing it is left to the caller.

use vstd::prelude::*;
use vstd::string::*;

use crate::config::Account;
use crate::daemon::outbox::WatchKind;
use crate::daemon::resilience::{capitalized, delay_number, opt_notification_view, provider_of, FailureNotifier, Notification, RetryBackoff};
use crate::daemon::span::{doubled, least, Span};
use crate::text::{has_prefix, opt_clone, opt_view};

verus! {

/// How long to wait after the first failure to reach the server, in seconds.
pub const ACCOUNT_RETRY_BASE_SECS: u64 = 5;

/// How long to wait at most between two attempts to reach the server, in seconds.
pub const ACCOUNT_RETRY_CAP_SECS: u64 = 300;

/// How long to wait after the server has closed the stream, in seconds.
pub const STREAM_DROP_BACKOFF_SECS: u64 = 1;

/// How often the server is to show that it is there, in seconds.
pub const SSE_PING_SECONDS: u32 = 60;

/// How long changes of the local tree are gathered before they count, in milliseconds.
pub const MAILDIR_DEBOUNCE_MILLIS: u64 = 500;

/// The first wait, in nanoseconds.
pub const RETRY_BASE_NANOS: u128 = 5_000_000_000;

/// The longest wait, in nanoseconds.
pub const RETRY_CAP_NANOS: u128 = 300_000_000_000;

// ---------------------------------------------------------------------------
// Reaching the server
// ---------------------------------------------------------------------------

/// How it stands between an account and its server.
pub struct Link {
    backoff: RetryBackoff,
    notifier: FailureNotifier,
}

/// How it stands between an account and its server: how long the next wait is, whether
/// the user knows of a failure, and how the user knows the two.
pub struct LinkModel {
    pub upcoming: u128,
    pub down: bool,
    pub account: Seq<char>,
    pub server: Seq<char>,
}

impl View for Link {
    type V = LinkModel;

    closed spec fn view(&self) -> LinkModel {
        LinkModel {
            upcoming: self.backoff.upcoming(),
            down: self.notifier.is_down(),
            account: self.notifier.account_label(),
            server: self.notifier.server_label(),
        }
    }
}

/// A link of which nothing is known yet.
pub open spec fn fresh_link(account: Seq<char>, jmap_host: Seq<char>) -> LinkModel {
    LinkModel {
        upcoming: RETRY_BASE_NANOS,
        down: false,
        account: capitalized(account),
        server: capitalized(provider_of(jmap_host)),
    }
}

/// A link after the server could not be reached.
pub open spec fn lost(m: LinkModel) -> LinkModel {
    LinkModel { upcoming: least(doubled(m.upcoming), RETRY_CAP_NANOS), down: true, ..m }
}

/// A link after the server was reached.
pub open spec fn reached(m: LinkModel) -> LinkModel {
    LinkModel { upcoming: RETRY_BASE_NANOS, down: false, ..m }
}

/// What the user is told when the server cannot be reached.
pub open spec fn down_notice(m: LinkModel) -> Option<Notification<Seq<char>>> {
    if m.down {
        None
    } else {
        Some(
            Notification {
                urgency: "normal"@,
                icon: "network-error-symbolic"@,
                summary: m.account + " eMail Down"@,
                body: m.server + " server is unreachable."@,
            },
        )
    }
}

/// What the user is told when the server has been reached.
pub open spec fn up_notice(m: LinkModel, icon: Seq<char>) -> Option<Notification<Seq<char>>> {
    if m.down {
        Some(
            Notification {
                urgency: "normal"@,
                icon,
                summary: m.account + " eMail Up"@,
                body: m.server + " server is reachable."@,
            },
        )
    } else {
        None
    }
}

impl Link {
    pub closed spec fn wf(self) -> bool {
        self.backoff.base() == RETRY_BASE_NANOS && self.backoff.cap() == RETRY_CAP_NANOS
    }

    pub fn new(account: &str, jmap_host: &str) -> (r: Link)
        ensures
            r.wf(),
            r@ == fresh_link(account@, jmap_host@),
    {
        Link {
            backoff: RetryBackoff::new(
                Span::from_secs(ACCOUNT_RETRY_BASE_SECS),
                Span::from_secs(ACCOUNT_RETRY_CAP_SECS),
            ),
            notifier: FailureNotifier::new(account, jmap_host),
        }
    }

    /// Whether the user knows of a failure, and of no recovery since.
    pub fn is_down(&self) -> (r: bool)
        ensures
            r == self@.down,
    {
        self.notifier.down()
    }

    /// The server could not be reached: what the user is to be told, if they do not know,
    /// and how long to wait.
    pub fn failed(&mut self) -> (r: (Option<Notification>, Span))
        requires
            old(self).wf(),
        ensures
            final(self).wf(),
            final(self)@ == lost(old(self)@),
            opt_notification_view(r.0) == down_notice(old(self)@),
            r.1.nanos == old(self)@.upcoming,
    {
        let delay = self.backoff.take_delay();
        let notice = self.notifier.failed();
        (notice, delay)
    }

    /// The server was reached: what the user is to be told, if they know of a failure.
    pub fn recovered(&mut self, icon: &str) -> (r: Option<Notification>)
        requires
            old(self).wf(),
        ensures
            final(self).wf(),
            final(self)@ == reached(old(self)@),
            opt_notification_view(r) == up_notice(old(self)@, icon@),
    {
        self.backoff.reset();
        self.notifier.recovered(icon)
    }
}

/// A link after `n` failures in a row.
pub open spec fn after_failures(m: LinkModel, n: nat) -> LinkModel
    decreases n,
{
    if n == 0 {
        m
    } else {
        lost(after_failures(m, (n - 1) as nat))
    }
}

/// After a success, the failures that follow in a row are waited out for five seconds,
/// then twice as long every time, up to five minutes; the first of them, and no other,
/// is told to the user.
pub proof fn law_failures_in_a_row(m: LinkModel, n: nat)
    ensures
        after_failures(reached(m), n).upcoming == delay_number(
            RETRY_BASE_NANOS,
            RETRY_CAP_NANOS,
            n,
        ),
        after_failures(reached(m), n).upcoming <= RETRY_CAP_NANOS,
        (down_notice(after_failures(reached(m), n)) is Some) == (n == 0),
    decreases n,
{
    if n > 0 {
        law_failures_in_a_row(m, (n - 1) as nat);
    }
}

// ---------------------------------------------------------------------------
// The stream of changes
// ---------------------------------------------------------------------------

/// What happens to an account's loop. `T` is a text.
#[derive(Debug)]
#[verifier::ext_equal]
pub enum SseEvent<T = String> {
    /// The loop begins, or begins again after a wait.
    Begin,
    /// The daemon is shutting down.
    Cancelled,
    /// The stream could not be opened.
    ConnectFailed,
    /// The stream is open; here is the icon for what the user may have to be told.
    Connected { icon: T },
    /// The poll timer went off.
    PollTick,
    /// The local tree has changed.
    MaildirChanged,
    /// The server reports a change, perhaps with the number of the report.
    StateChange { id: Option<T> },
    /// The server reports something that does not concern mail.
    Unrelated,
    /// The server closed the stream.
    StreamEnded,
    /// The stream broke off.
    StreamFailed,
}

impl View for SseEvent<String> {
    type V = SseEvent<Seq<char>>;

    open spec fn view(&self) -> Self::V {
        match *self {
            SseEvent::Begin => SseEvent::Begin,
            SseEvent::Cancelled => SseEvent::Cancelled,
            SseEvent::ConnectFailed => SseEvent::ConnectFailed,
            SseEvent::Connected { icon } => SseEvent::Connected { icon: icon@ },
            SseEvent::PollTick => SseEvent::PollTick,
            SseEvent::MaildirChanged => SseEvent::MaildirChanged,
            SseEvent::StateChange { id } => SseEvent::StateChange { id: opt_view(id) },
            SseEvent::Unrelated => SseEvent::Unrelated,
            SseEvent::StreamEnded => SseEvent::StreamEnded,
            SseEvent::StreamFailed => SseEvent::StreamFailed,
        }
    }
}

/// What an account's loop does next. `T` is a text.
#[derive(Debug)]
#[verifier::ext_equal]
pub enum SseAction<T = String> {
    Exit,
    /// Sync, then open the stream behind the report of this number.
    SyncAndConnect { resume_from: Option<T> },
    /// Tell the user, if there is something to tell, and wait for what the stream brings.
    Listen { notice: Option<Notification<T>> },
    /// Sync, then go on listening.
    Sync,
    /// Go on listening.
    KeepListening,
    /// Tell the user, if there is something to tell, wait for the network or for this
    /// long, and begin again.
    BackOff { notice: Option<Notification<T>>, delay: Span },
    /// Wait for this long and begin again.
    Pause(Span),
}

impl View for SseAction<String> {
    type V = SseAction<Seq<char>>;

    open spec fn view(&self) -> Self::V {
        match *self {
            SseAction::Exit => SseAction::Exit,
            SseAction::SyncAndConnect { resume_from } => SseAction::SyncAndConnect {
                resume_from: opt_view(resume_from),
            },
            SseAction::Listen { notice } => SseAction::Listen {
                notice: opt_notification_view(notice),
            },
            SseAction::Sync => SseAction::Sync,
            SseAction::KeepListening => SseAction::KeepListening,
            SseAction::BackOff { notice, delay } => SseAction::BackOff {
                notice: opt_notification_view(notice),
                delay,
            },
            SseAction::Pause(d) => SseAction::Pause(d),
        }
    }
}

/// Where an account's loop stands.
pub struct SseState {
    link: Link,
    last_event_id: Option<String>,
}

/// Where an account's loop stands: its link, and the number of the last report.
pub struct SseModel {
    pub link: LinkModel,
    pub last_event_id: Option<Seq<char>>,
}

impl View for SseState {
    type V = SseModel;

    closed spec fn view(&self) -> SseModel {
        SseModel { link: self.link@, last_event_id: opt_view(self.last_event_id) }
    }
}

/// Where the loop stands after an event.
pub open spec fn sse_after(m: SseModel, ev: SseEvent<Seq<char>>) -> SseModel {
    match ev {
        SseEvent::ConnectFailed | SseEvent::StreamFailed => SseModel { link: lost(m.link), ..m },
        SseEvent::Connected { .. } => SseModel { link: reached(m.link), ..m },
        SseEvent::StateChange { id: Some(id) } => SseModel { last_event_id: Some(id), ..m },
        _ => m,
    }
}

/// What the loop does upon an event.
pub open spec fn sse_reaction(m: SseModel, ev: SseEvent<Seq<char>>) -> SseAction<Seq<char>> {
    match ev {
        SseEvent::Begin => SseAction::SyncAndConnect { resume_from: m.last_event_id },
        SseEvent::Cancelled => SseAction::Exit,
        SseEvent::ConnectFailed | SseEvent::StreamFailed => SseAction::BackOff {
            notice: down_notice(m.link),
            delay: Span { nanos: m.link.upcoming },
        },
        SseEvent::Connected { icon } => SseAction::Listen { notice: up_notice(m.link, icon) },
        SseEvent::PollTick | SseEvent::MaildirChanged | SseEvent::StateChange { .. } =>
            SseAction::Sync,
        SseEvent::Unrelated => SseAction::KeepListening,
        SseEvent::StreamEnded => SseAction::Pause(
            Span { nanos: (STREAM_DROP_BACKOFF_SECS * 1_000_000_000) as u128 },
        ),
    }
}

impl SseState {
    pub closed spec fn wf(self) -> bool {
        self.link.wf()
    }

    pub fn new(account: &str, jmap_host: &str) -> (r: SseState)
        ensures
            r.wf(),
            r@ == (SseModel { link: fresh_link(account@, jmap_host@), last_event_id: None }),
    {
        SseState { link: Link::new(account, jmap_host), last_event_id: None }
    }

    /// Whether the user knows of a failure, and of no recovery since.
    pub fn is_down(&self) -> (r: bool)
        ensures
            r == self@.link.down,
    {
        self.link.is_down()
    }

    /// What the loop does upon an event.
    pub fn step(&mut self, ev: SseEvent) -> (r: SseAction)
        requires
            old(self).wf(),
        ensures
            final(self).wf(),
            final(self)@ == sse_after(old(self)@, ev@),
            r@ == sse_reaction(old(self)@, ev@),
    {
        match ev {
            SseEvent::Begin => SseAction::SyncAndConnect {
                resume_from: opt_clone(&self.last_event_id),
            },
            SseEvent::Cancelled => SseAction::Exit,
            SseEvent::ConnectFailed | SseEvent::StreamFailed => {
                let (notice, delay) = self.link.failed();
                SseAction::BackOff { notice, delay }
            },
            SseEvent::Connected { icon } => {
                let notice = self.link.recovered(icon.as_str());
                SseAction::Listen { notice }
            },
            SseEvent::PollTick | SseEvent::MaildirChanged => SseAction::Sync,
            SseEvent::StateChange { id } => {
                match id {
                    Some(id) => {
                        self.last_event_id = Some(id);
                    },
                    None => {},
                }
                SseAction::Sync
            },
            SseEvent::Unrelated => SseAction::KeepListening,
            SseEvent::StreamEnded => SseAction::Pause(Span::from_secs(STREAM_DROP_BACKOFF_SECS)),
        }
    }
}

/// Where the loop stands after a row of events.
pub open spec fn sse_run(m: SseModel, events: Seq<SseEvent<Seq<char>>>) -> SseModel
    decreases events.len(),
{
    if events.len() == 0 {
        m
    } else {
        sse_after(sse_run(m, events.drop_last()), events.last())
    }
}

/// The number in the last report that had one, or what was known before.
pub open spec fn last_number(known: Option<Seq<char>>, events: Seq<SseEvent<Seq<char>>>) -> Option<
    Seq<char>,
>
    decreases events.len(),
{
    if events.len() == 0 {
        known
    } else {
        match events.last() {
            SseEvent::StateChange { id: Some(id) } => Some(id),
            _ => last_number(known, events.drop_last()),
        }
    }
}

/// Whatever happens in between, the stream is opened behind the last report that had a
/// number.
pub proof fn law_stream_resumes(m: SseModel, events: Seq<SseEvent<Seq<char>>>)
    ensures
        sse_reaction(sse_run(m, events), SseEvent::Begin) == (SseAction::SyncAndConnect {
            resume_from: last_number(m.last_event_id, events),
        }),
    decreases events.len(),
{
    if events.len() > 0 {
        law_stream_resumes(m, events.drop_last());
    }
}

/// What the user is told by an action.
pub open spec fn notice_of(a: SseAction<Seq<char>>) -> Option<Notification<Seq<char>>> {
    match a {
        SseAction::Listen { notice } => notice,
        SseAction::BackOff { notice, .. } => notice,
        _ => None,
    }
}

/// What the user is told over a row of events: true for a failure and false for a
/// recovery.
pub open spec fn notices(m: SseModel, events: Seq<SseEvent<Seq<char>>>) -> Seq<bool>
    decreases events.len(),
{
    if events.len() == 0 {
        Seq::empty()
    } else {
        let before = notices(m, events.drop_last());
        let there = sse_run(m, events.drop_last());
        let a = sse_reaction(there, events.last());
        if notice_of(a) is Some {
            before.push(a is BackOff)
        } else {
            before
        }
    }
}

/// The user is told of failures and of recoveries in turn, a failure first: once for
/// every time that the server is lost, however many attempts fail, and once when it is
/// back.
pub proof fn law_notices_alternate(m: SseModel, events: Seq<SseEvent<Seq<char>>>)
    requires
        !m.link.down,
    ensures
        forall|i: int| 0 <= i < notices(m, events).len() ==> #[trigger] notices(m, events)[i] == (i
            % 2 == 0),
        sse_run(m, events).link.down == (notices(m, events).len() % 2 == 1),
    decreases events.len(),
{
    if events.len() > 0 {
        law_notices_alternate(m, events.drop_last());
    }
}

// ---------------------------------------------------------------------------
// The poll timer and the local tree
// ---------------------------------------------------------------------------

/// How often to sync while the server reports nothing; nothing for never.
pub fn poll_interval(acct: &Account) -> (r: Option<Span>)
    ensures
        r == (if acct.poll_interval_secs > 0 {
            Some(Span { nanos: (acct.poll_interval_secs * 1_000_000_000) as u128 })
        } else {
            None
        }),
{
    if acct.poll_interval_secs > 0 {
        Some(Span::from_secs(acct.poll_interval_secs))
    } else {
        None
    }
}

/// The tree to watch for local changes, if the account asks for that.
pub fn watched_tree(acct: &Account) -> (r: Option<&String>)
    ensures
        match acct.mail {
            Some(m) => if m.watch_maildir {
                r == Some(&m.path)
            } else {
                r is None
            },
            None => r is None,
        },
{
    match &acct.mail {
        Some(m) => if m.watch_maildir {
            Some(&m.path)
        } else {
            None
        },
        None => None,
    }
}

/// Whether what a file watcher reports is a change of the local tree.
pub fn is_local_change(kind: WatchKind) -> (r: bool)
    ensures
        r == (kind !is Other),
{
    !matches!(kind, WatchKind::Other)
}

/// In every state of the loop, a report of the server is answered by a sync, with or without
/// a number, and so are the poll timer and the local tree; nothing else is answered by a
/// sync alone. Each of the other events has an answer of its own.
pub proof fn law_every_change_is_synced(ev: SseEvent)
    ensures
        forall|s: &mut SseState, r: SseAction| #[trigger]
            call_ensures(SseState::step, (s, ev), r) ==> {
                &&& r is Sync <==> ev is StateChange || ev is PollTick || ev is MaildirChanged
                &&& r is SyncAndConnect <==> ev is Begin
                &&& r is Exit <==> ev is Cancelled
                &&& r is BackOff <==> ev is ConnectFailed || ev is StreamFailed
                &&& r is Listen <==> ev is Connected
                &&& r is KeepListening <==> ev is Unrelated
                &&& r is Pause <==> ev is StreamEnded
                &&& r is Pause ==> r->Pause_0.nanos == 1_000_000_000
            },
{
}

/// How many times the loop syncs over a row of events, besides the syncs that come with
/// connecting.
pub open spec fn syncs(m: SseModel, events: Seq<SseEvent<Seq<char>>>) -> nat
    decreases events.len(),
{
    if events.len() == 0 {
        0
    } else {
        let there = sse_run(m, events.drop_last());
        syncs(m, events.drop_last()) + (if sse_reaction(there, events.last()) is Sync {
            1nat
        } else {
            0nat
        })
    }
}

/// The loop syncs as often as the server reports a change, the poll timer goes off or the
/// local tree changes, whatever else happens in between.
pub proof fn law_no_change_is_missed(m: SseModel, events: Seq<SseEvent<Seq<char>>>)
    ensures
        syncs(m, events) == events.filter(
            |ev: SseEvent<Seq<char>>| ev is StateChange || ev is PollTick || ev is MaildirChanged,
        ).len(),
        forall|ev: SseEvent<Seq<char>>|
            ev is StateChange ==> #[trigger] sse_reaction(sse_run(m, events), ev) is Sync,
    decreases events.len(),
{
    reveal(Seq::filter);
    if events.len() > 0 {
        law_no_change_is_missed(m, events.drop_last());
    }
}

/// A wait after a failure is never shorter than the first nor longer than the longest. Each
/// failure doubles the next wait as far as that; only that the server is reached brings it
/// back to the first. What the loop waits for is the time that the state says, and whatever
/// else happens leaves it and what the user knows alone.
pub proof fn law_waits_grow_until_the_server_is_reached(ev: SseEvent)
    ensures
        forall|s: &mut SseState, r: SseAction| #[trigger]
            call_ensures(SseState::step, (s, ev), r) && 5_000_000_000 <= s@.link.upcoming
                <= 300_000_000_000 ==> {
                &&& 5_000_000_000 <= final(s)@.link.upcoming <= 300_000_000_000
                &&& r is BackOff ==> {
                    &&& r->delay.nanos == s@.link.upcoming
                    &&& s@.link.upcoming <= 150_000_000_000 ==> final(s)@.link.upcoming == 2
                        * s@.link.upcoming
                    &&& s@.link.upcoming > 150_000_000_000 ==> final(s)@.link.upcoming
                        == 300_000_000_000
                    &&& final(s)@.link.down
                    &&& r->BackOff_notice is Some <==> !s@.link.down
                }
                &&& r is Listen ==> {
                    &&& final(s)@.link.upcoming == 5_000_000_000
                    &&& !final(s)@.link.down
                    &&& r->Listen_notice is Some <==> s@.link.down
                }
                &&& r !is BackOff && r !is Listen ==> final(s)@.link == s@.link
                &&& final(s)@.link.account == s@.link.account
                &&& final(s)@.link.server == s@.link.server
                &&& ev !is StateChange ==> final(s)@.last_event_id == s@.last_event_id
            },
{
}

/// A loop that has just begun waits five seconds after its first failure, knows of no
/// failure and of no report.
pub proof fn law_loop_begins_afresh(account: &str, jmap_host: &str, s: SseState)
    requires
        call_ensures(SseState::new, (account, jmap_host), s),
    ensures
        s@.link.upcoming == 5_000_000_000,
        !s@.link.down,
        s@.last_event_id is None,
        s@.link.account == capitalized(account@),
        s@.link.server == capitalized(provider_of(jmap_host@)),
{
}

/// What the user is told names the account and the server that it is about, and a failure
/// and a recovery read differently.
pub proof fn law_notices_name_the_account(m: LinkModel, icon: Seq<char>)
    ensures
        down_notice(m) is Some ==> {
            &&& has_prefix(down_notice(m)->0.summary, m.account)
            &&& has_prefix(down_notice(m)->0.body, m.server)
            &&& down_notice(m)->0.urgency == "normal"@
        },
        up_notice(m, icon) is Some ==> {
            &&& has_prefix(up_notice(m, icon)->0.summary, m.account)
            &&& has_prefix(up_notice(m, icon)->0.body, m.server)
            &&& up_notice(m, icon)->0.icon == icon
            &&& up_notice(m, icon)->0.urgency == "normal"@
        },
        down_notice(m) is Some <==> up_notice(m, icon) is None,
        down_notice(m) is Some <==> !m.down,
{
    match down_notice(m) {
        Some(n) => {
            assert(n.summary.subrange(0, m.account.len() as int) =~= m.account);
            assert(n.body.subrange(0, m.server.len() as int) =~= m.server);
        },
        None => {},
    }
    match up_notice(m, icon) {
        Some(n) => {
            assert(n.summary.subrange(0, m.account.len() as int) =~= m.account);
            assert(n.body.subrange(0, m.server.len() as int) =~= m.server);
        },
        None => {},
    }
}

/// The poll timer goes off every so many seconds as the account asks for, and never if it
/// asks for none; the tree is watched only if the account asks for that and has one.
pub proof fn law_account_says_what_is_awaited(acct: &Account, r: Option<Span>, w: Option<&String>)
    requires
        call_ensures(poll_interval, (acct,), r),
        call_ensures(watched_tree, (acct,), w),
    ensures
        r is None <==> acct.poll_interval_secs == 0,
        r is Some ==> r->0.nanos == acct.poll_interval_secs * 1_000_000_000,
        w is Some <==> acct.mail is Some && acct.mail->0.watch_maildir,
        w is Some ==> w->0@ == acct.mail->0.path@,
{
}

/// Whatever comes, goes, changes or changes its name is a change of the local tree; only what
/// is none of these is not.
pub proof fn law_every_kind_of_change_counts(kind: WatchKind, r: bool)
    requires
        call_ensures(is_local_change, (kind,), r),
    ensures
        r <==> kind is Create || kind is Remove || kind is RenameFrom || kind is RenameTo
            || kind is RenameOther || kind is Change,
{
}

} // verus!
