//! Handing a queued message to the server: under which identity, where it is filed,
//! and what the server's answers mean.

use vstd::prelude::*;
use vstd::string::*;

use crate::clock::{is_present, is_time, iso_from_epoch_secs};
use crate::config::{ScheduledFolder, SubmitConfig};
use crate::daemon::outbox::startup_due;
use crate::daemon::retry::{backoff_delay_at, jittered, law_jitter_is_a_fifth, raw_delay, wait_fits, RetrySchedule};
use crate::daemon::sidecar::{envelope_fault, envelope_validation_error, epoch_secs_of, retry_view, RetryState, SidecarState};
use crate::daemon::span::{LONGEST_NANOS, NANOS_PER_SEC};
use crate::message::{fresh_ulid, is_drawn_ulid, is_ulid};
use crate::numbers::{decimal, push_decimal};
use crate::outside::{debug_str, debug_text, iso_text, parse_rfc3339, rfc3339_parsed, LAST_FOUR_DIGIT_SECOND};
use crate::search::{first_where, lemma_first_is, lemma_first_none};
use crate::sync::target::{mailbox_views, Role, ServerMailbox};
use crate::text::{clone_strings, debug_list, debug_strings, eq_ignore_case, has_prefix, has_suffix, is_blank, is_white, opt_clone, opt_view, same_ignoring_case, str_eq, views};

verus! {

// ---------------------------------------------------------------------------
// What is looked up once
// ---------------------------------------------------------------------------

/// An identity that the server lets the account send as. `T` is a text.
#[derive(Debug)]
#[verifier::ext_equal]
pub struct Identity<T = String> {
    pub id: Option<T>,
    pub email: Option<T>,
}

impl View for Identity<String> {
    type V = Identity<Seq<char>>;

    open spec fn view(&self) -> Self::V {
        Identity { id: opt_view(self.id), email: opt_view(self.email) }
    }
}

/// The views of the server's identities.
pub open spec fn identity_views(v: Seq<Identity>) -> Seq<Identity<Seq<char>>> {
    v.map_values(|i: Identity| i@)
}

/// Why an account cannot send. `T` is a text.
#[derive(Debug)]
#[verifier::ext_equal]
pub enum ContextError<T = String> {
    /// The server knows no identity with this address.
    NoIdentity(T),
    NoDrafts,
    NoSent,
}

impl View for ContextError<String> {
    type V = ContextError<Seq<char>>;

    open spec fn view(&self) -> Self::V {
        match *self {
            ContextError::NoIdentity(a) => ContextError::NoIdentity(a@),
            ContextError::NoDrafts => ContextError::NoDrafts,
            ContextError::NoSent => ContextError::NoSent,
        }
    }
}

/// What the user reads.
pub open spec fn context_error_text(e: ContextError<Seq<char>>) -> Seq<char> {
    match e {
        ContextError::NoIdentity(a) => "no JMAP Identity matches from_address "@ + debug_text(a)
            + " — check `pass show` picks up the right account, and that the identity exists in Fastmail's Settings → Sending identities"@,
        ContextError::NoDrafts =>
            "no Drafts mailbox (role=drafts) on the account — send path cannot start"@,
        ContextError::NoSent =>
            "no Sent mailbox (role=sent) on the account — send path cannot start"@,
    }
}

impl ContextError<String> {
    /// What the user reads.
    pub fn message(&self) -> (r: String)
        ensures
            r@ == context_error_text(self@),
    {
        match self {
            ContextError::NoIdentity(a) => {
                let mut out: String = "no JMAP Identity matches from_address ".to_owned();
                let shown = debug_str(a.as_str());
                out.append(shown.as_str());
                out.append(
                    " — check `pass show` picks up the right account, and that the identity exists in Fastmail's Settings → Sending identities",
                );
                out
            },
            ContextError::NoDrafts =>
                "no Drafts mailbox (role=drafts) on the account — send path cannot start".to_owned(),
            ContextError::NoSent =>
                "no Sent mailbox (role=sent) on the account — send path cannot start".to_owned(),
        }
    }
}

/// What an account's messages are sent with. `T` is a text.
#[derive(Debug)]
#[verifier::ext_equal]
pub struct SubmitContext<T = String> {
    pub account_id: T,
    pub identity_id: T,
    pub drafts_id: T,
    pub sent_id: T,
    /// Where messages with a sending time are filed, if not with the sent ones.
    pub scheduled_file_target_id: Option<T>,
}

impl View for SubmitContext<String> {
    type V = SubmitContext<Seq<char>>;

    open spec fn view(&self) -> Self::V {
        SubmitContext {
            account_id: self.account_id@,
            identity_id: self.identity_id@,
            drafts_id: self.drafts_id@,
            sent_id: self.sent_id@,
            scheduled_file_target_id: opt_view(self.scheduled_file_target_id),
        }
    }
}

/// The identity is for the address.
pub open spec fn identity_for(i: Identity<Seq<char>>, address: Seq<char>) -> bool {
    match i.email {
        Some(e) => same_ignoring_case(e, address),
        None => false,
    }
}

/// The identity that the configuration names; without one, the first for the account's
/// address.
pub open spec fn chosen_identity(
    configured: Option<Seq<char>>,
    address: Seq<char>,
    identities: Seq<Identity<Seq<char>>>,
) -> Option<Seq<char>> {
    match configured {
        Some(id) => Some(id),
        None => match first_where(identities, |i: Identity<Seq<char>>| identity_for(i, address)) {
            Some(k) => identities[k].id,
            None => None,
        },
    }
}

/// The identity that an account sends as.
pub fn pick_identity(cfg: &SubmitConfig, identities: &Vec<Identity>) -> (r: Option<String>)
    ensures
        opt_view(r) == chosen_identity(
            opt_view(cfg.identity_id),
            cfg.from_address@,
            identity_views(identities@),
        ),
{
    match &cfg.identity_id {
        Some(id) => return Some(id.clone()),
        None => {},
    }
    let ghost p = |i: Identity<Seq<char>>| identity_for(i, cfg.from_address@);
    let ghost all = identity_views(identities@);
    let mut i: usize = 0;
    while i < identities.len()
        invariant
            i <= identities@.len(),
            cfg.identity_id is None,
            all == identity_views(identities@),
            p == (|i: Identity<Seq<char>>| identity_for(i, cfg.from_address@)),
            forall|j: int| 0 <= j < i ==> !p(#[trigger] all[j]),
        decreases identities@.len() - i,
    {
        let found = match &identities[i].email {
            Some(e) => eq_ignore_case(e.as_str(), cfg.from_address.as_str()),
            None => false,
        };
        assert(all[i as int] == identities@[i as int]@);
        assert(found == p(all[i as int]));
        if found {
            proof {
                lemma_first_is(all, p, i as int);
            }
            return opt_clone(&identities[i].id);
        }
        i += 1;
    }
    proof {
        lemma_first_none(all, p);
    }
    None
}

/// The mailbox is the account's drafts.
pub open spec fn is_drafts(m: ServerMailbox<Seq<char>>) -> bool {
    m.role is Drafts
}

/// The mailbox is the account's sent mail.
pub open spec fn is_sent(m: ServerMailbox<Seq<char>>) -> bool {
    m.role is Sent
}

/// The mailbox goes by the name.
pub open spec fn is_named(m: ServerMailbox<Seq<char>>, name: Seq<char>) -> bool {
    match m.name {
        Some(n) => same_ignoring_case(n, name),
        None => false,
    }
}

/// The identifier of the first mailbox of a kind, if there is one and it has one.
pub open spec fn first_id(
    mailboxes: Seq<ServerMailbox<Seq<char>>>,
    p: spec_fn(ServerMailbox<Seq<char>>) -> bool,
) -> Option<Seq<char>> {
    match first_where(mailboxes, p) {
        Some(k) => mailboxes[k].id,
        None => None,
    }
}

/// The identifier of the account's drafts.
pub open spec fn drafts_of(mailboxes: Seq<ServerMailbox<Seq<char>>>) -> Option<Seq<char>> {
    first_id(mailboxes, |m: ServerMailbox<Seq<char>>| is_drafts(m))
}

/// The identifier of the account's sent mail.
pub open spec fn sent_of(mailboxes: Seq<ServerMailbox<Seq<char>>>) -> Option<Seq<char>> {
    first_id(mailboxes, |m: ServerMailbox<Seq<char>>| is_sent(m))
}

/// The identifier of the first mailbox of a name.
pub open spec fn named(mailboxes: Seq<ServerMailbox<Seq<char>>>, name: Seq<char>) -> Option<
    Seq<char>,
> {
    first_id(mailboxes, |m: ServerMailbox<Seq<char>>| is_named(m, name))
}

fn find_drafts(mailboxes: &Vec<ServerMailbox>) -> (r: Option<String>)
    ensures
        opt_view(r) == drafts_of(mailbox_views(mailboxes@)),
{
    let ghost p = |m: ServerMailbox<Seq<char>>| is_drafts(m);
    let ghost all = mailbox_views(mailboxes@);
    let mut i: usize = 0;
    while i < mailboxes.len()
        invariant
            i <= mailboxes@.len(),
            all == mailbox_views(mailboxes@),
            p == (|m: ServerMailbox<Seq<char>>| is_drafts(m)),
            forall|j: int| 0 <= j < i ==> !p(#[trigger] all[j]),
        decreases mailboxes@.len() - i,
    {
        assert(all[i as int] == mailboxes@[i as int]@);
        if matches!(mailboxes[i].role, Role::Drafts) {
            proof {
                assert(p(all[i as int]));
                lemma_first_is(all, p, i as int);
            }
            return opt_clone(&mailboxes[i].id);
        }
        assert(!p(all[i as int]));
        i += 1;
    }
    proof {
        lemma_first_none(all, p);
    }
    None
}

fn find_sent(mailboxes: &Vec<ServerMailbox>) -> (r: Option<String>)
    ensures
        opt_view(r) == sent_of(mailbox_views(mailboxes@)),
{
    let ghost p = |m: ServerMailbox<Seq<char>>| is_sent(m);
    let ghost all = mailbox_views(mailboxes@);
    let mut i: usize = 0;
    while i < mailboxes.len()
        invariant
            i <= mailboxes@.len(),
            all == mailbox_views(mailboxes@),
            p == (|m: ServerMailbox<Seq<char>>| is_sent(m)),
            forall|j: int| 0 <= j < i ==> !p(#[trigger] all[j]),
        decreases mailboxes@.len() - i,
    {
        assert(all[i as int] == mailboxes@[i as int]@);
        if matches!(mailboxes[i].role, Role::Sent) {
            proof {
                assert(p(all[i as int]));
                lemma_first_is(all, p, i as int);
            }
            return opt_clone(&mailboxes[i].id);
        }
        assert(!p(all[i as int]));
        i += 1;
    }
    proof {
        lemma_first_none(all, p);
    }
    None
}

/// The identifier of the first mailbox of a name, whatever the case.
pub fn find_mailbox_id_by_name(mailboxes: &Vec<ServerMailbox>, target: &str) -> (r: Option<String>)
    ensures
        opt_view(r) == named(mailbox_views(mailboxes@), target@),
{
    let ghost p = |m: ServerMailbox<Seq<char>>| is_named(m, target@);
    let ghost all = mailbox_views(mailboxes@);
    let mut i: usize = 0;
    while i < mailboxes.len()
        invariant
            i <= mailboxes@.len(),
            all == mailbox_views(mailboxes@),
            p == (|m: ServerMailbox<Seq<char>>| is_named(m, target@)),
            forall|j: int| 0 <= j < i ==> !p(#[trigger] all[j]),
        decreases mailboxes@.len() - i,
    {
        let found = match &mailboxes[i].name {
            Some(n) => eq_ignore_case(n.as_str(), target),
            None => false,
        };
        assert(all[i as int] == mailboxes@[i as int]@);
        assert(found == p(all[i as int]));
        if found {
            proof {
                lemma_first_is(all, p, i as int);
            }
            return opt_clone(&mailboxes[i].id);
        }
        i += 1;
    }
    proof {
        lemma_first_none(all, p);
    }
    None
}

/// Where messages with a sending time are filed, if not with the sent ones.
pub open spec fn scheduled_target(
    folder: ScheduledFolder,
    mailboxes: Seq<ServerMailbox<Seq<char>>>,
) -> Option<Seq<char>> {
    match folder {
        ScheduledFolder::Sent => None,
        ScheduledFolder::Auto => named(mailboxes, "Scheduled"@),
        ScheduledFolder::Named(name) => named(mailboxes, name@),
    }
}

/// What an account sends with, by what the server has.
pub open spec fn resolved_context(
    account_id: Seq<char>,
    cfg: SubmitConfig,
    identities: Seq<Identity<Seq<char>>>,
    mailboxes: Seq<ServerMailbox<Seq<char>>>,
) -> Result<SubmitContext<Seq<char>>, ContextError<Seq<char>>> {
    match chosen_identity(opt_view(cfg.identity_id), cfg.from_address@, identities) {
        None => Err(ContextError::NoIdentity(cfg.from_address@)),
        Some(identity_id) => match (drafts_of(mailboxes), sent_of(mailboxes)) {
            (None, _) => Err(ContextError::NoDrafts),
            (_, None) => Err(ContextError::NoSent),
            (Some(drafts_id), Some(sent_id)) => Ok(
                SubmitContext {
                    account_id,
                    identity_id,
                    drafts_id,
                    sent_id,
                    scheduled_file_target_id: scheduled_target(cfg.scheduled_folder, mailboxes),
                },
            ),
        },
    }
}

/// The view of a context or of why there is none.
pub open spec fn context_view(r: Result<SubmitContext, ContextError>) -> Result<
    SubmitContext<Seq<char>>,
    ContextError<Seq<char>>,
> {
    match r {
        Ok(c) => Ok(c@),
        Err(e) => Err(e@),
    }
}

/// The mailbox that a message is filed in once it has been handed over.
pub open spec fn file_target(ctx: SubmitContext<Seq<char>>, has_send_at: bool) -> Seq<char> {
    match ctx.scheduled_file_target_id {
        Some(id) => if has_send_at {
            id
        } else {
            ctx.sent_id
        },
        None => ctx.sent_id,
    }
}

impl SubmitContext<String> {
    /// What an account sends with, by what the server has. The identities matter only
    /// where the configuration names none.
    pub fn resolve(
        account_id: String,
        cfg: &SubmitConfig,
        identities: &Vec<Identity>,
        mailboxes: &Vec<ServerMailbox>,
    ) -> (r: Result<SubmitContext, ContextError>)
        ensures
            context_view(r) == resolved_context(
                account_id@,
                *cfg,
                identity_views(identities@),
                mailbox_views(mailboxes@),
            ),
    {
        let identity_id = match pick_identity(cfg, identities) {
            Some(id) => id,
            None => return Err(ContextError::NoIdentity(cfg.from_address.clone())),
        };
        let drafts_id = match find_drafts(mailboxes) {
            Some(id) => id,
            None => return Err(ContextError::NoDrafts),
        };
        let sent_id = match find_sent(mailboxes) {
            Some(id) => id,
            None => return Err(ContextError::NoSent),
        };
        let scheduled_file_target_id = match &cfg.scheduled_folder {
            ScheduledFolder::Sent => None,
            ScheduledFolder::Auto => find_mailbox_id_by_name(mailboxes, "Scheduled"),
            ScheduledFolder::Named(name) => find_mailbox_id_by_name(mailboxes, name.as_str()),
        };
        Ok(
            SubmitContext {
                account_id,
                identity_id,
                drafts_id,
                sent_id,
                scheduled_file_target_id,
            },
        )
    }

    /// The mailbox that a message is filed in once it has been handed over.
    pub fn file_target_id(&self, has_send_at: bool) -> (r: &str)
        ensures
            r@ == file_target(self@, has_send_at),
    {
        if has_send_at {
            match &self.scheduled_file_target_id {
                Some(id) => id.as_str(),
                None => self.sent_id.as_str(),
            }
        } else {
            self.sent_id.as_str()
        }
    }
}

// ---------------------------------------------------------------------------
// How an attempt ended
// ---------------------------------------------------------------------------

/// How an attempt to send a message ended. `T` is a text.
#[derive(Debug)]
#[verifier::ext_equal]
pub enum SubmitOutcome<T = String> {
    /// The server has taken the message over.
    Success,
    /// It is worth trying again later, for this reason.
    Transient(T),
    /// It is not worth trying again, for this reason.
    Permanent(T),
}

impl View for SubmitOutcome<String> {
    type V = SubmitOutcome<Seq<char>>;

    open spec fn view(&self) -> Self::V {
        match *self {
            SubmitOutcome::Success => SubmitOutcome::Success,
            SubmitOutcome::Transient(s) => SubmitOutcome::Transient(s@),
            SubmitOutcome::Permanent(s) => SubmitOutcome::Permanent(s@),
        }
    }
}

/// The kinds of errors with which a server answers a method call.
#[derive(Clone, Copy, Debug, PartialEq, Eq, Structural)]
pub enum MethodErrorType {
    ServerUnavailable,
    ServerFail,
    ServerPartialFail,
    UnknownMethod,
    InvalidArguments,
    InvalidResultReference,
    Forbidden,
    AccountNotFound,
    AccountNotSupportedByMethod,
    AccountReadOnly,
    RequestTooLarge,
    CannotCalculateChanges,
    StateMismatch,
    AlreadyExists,
    FromAccountNotFound,
    FromAccountNotSupportedByMethod,
    AnchorNotFound,
    UnsupportedSort,
    UnsupportedFilter,
    TooManyChanges,
}

/// An error with which the server answers a method call, and how it reads.
#[derive(Debug)]
#[verifier::ext_equal]
pub struct MethodError<T = String> {
    pub kind: MethodErrorType,
    pub text: T,
}

impl View for MethodError<String> {
    type V = MethodError<Seq<char>>;

    open spec fn view(&self) -> Self::V {
        MethodError { kind: self.kind, text: self.text@ }
    }
}

/// Why a request came to nothing. Each text is the error as it reads.
#[derive(Debug)]
#[verifier::ext_equal]
pub enum JmapError<T = String> {
    /// The server was not reached, or answered with a bare HTTP status.
    Transport { text: T, code: Option<u16> },
    /// The server described the problem.
    Problem { status: Option<u32>, title: Option<T> },
    Server(T),
    Method(MethodError<T>),
    /// The server refused one of the items that were to be set.
    SetItem(T),
    Parse(T),
    Internal(T),
    WebSocket(T),
}

impl View for JmapError<String> {
    type V = JmapError<Seq<char>>;

    open spec fn view(&self) -> Self::V {
        match *self {
            JmapError::Transport { text, code } => JmapError::Transport { text: text@, code },
            JmapError::Problem { status, title } => JmapError::Problem {
                status,
                title: opt_view(title),
            },
            JmapError::Server(s) => JmapError::Server(s@),
            JmapError::Method(me) => JmapError::Method(me@),
            JmapError::SetItem(s) => JmapError::SetItem(s@),
            JmapError::Parse(s) => JmapError::Parse(s@),
            JmapError::Internal(s) => JmapError::Internal(s@),
            JmapError::WebSocket(s) => JmapError::WebSocket(s@),
        }
    }
}

/// The errors that the server may get over by itself.
pub open spec fn passes(kind: MethodErrorType) -> bool {
    kind is ServerUnavailable || kind is ServerFail || kind is ServerPartialFail
}

/// How an attempt ended that the server answered with an error.
pub open spec fn method_outcome(me: MethodError<Seq<char>>) -> SubmitOutcome<Seq<char>> {
    if passes(me.kind) {
        SubmitOutcome::Transient("method "@ + me.text)
    } else {
        SubmitOutcome::Permanent("method "@ + me.text)
    }
}

/// The HTTP statuses that say that the request itself is at fault. Too many requests at
/// a time is none.
pub open spec fn is_refusal(status: u16) -> bool {
    400 <= status < 500 && status != 429
}

/// The statuses of problems that may pass: the server's own, and too many requests at a
/// time.
pub open spec fn may_pass(status: u32) -> bool {
    status >= 500 || status == 429
}

/// A problem as it reads.
pub open spec fn problem_text(status: u32, title: Option<Seq<char>>) -> Seq<char> {
    "problem status="@ + decimal(status as nat) + " title="@ + debug_text(
        match title {
            Some(t) => t,
            None => Seq::empty(),
        },
    )
}

/// How an attempt ended whose request came to nothing.
pub open spec fn error_outcome(e: JmapError<Seq<char>>) -> SubmitOutcome<Seq<char>> {
    match e {
        JmapError::Transport { text, code } => match code {
            Some(status) => if is_refusal(status) {
                SubmitOutcome::Permanent("http "@ + decimal(status as nat) + ": "@ + text)
            } else {
                SubmitOutcome::Transient("transport: "@ + text)
            },
            None => SubmitOutcome::Transient("transport: "@ + text),
        },
        JmapError::Problem { status, title } => {
            let code = match status {
                Some(code) => code,
                None => 0,
            };
            if may_pass(code) {
                SubmitOutcome::Transient(problem_text(code, title))
            } else {
                SubmitOutcome::Permanent(problem_text(code, title))
            }
        },
        JmapError::Server(s) => SubmitOutcome::Transient("server: "@ + s),
        JmapError::Method(me) => method_outcome(me),
        JmapError::SetItem(s) => SubmitOutcome::Permanent("set: "@ + s),
        JmapError::Parse(s) => SubmitOutcome::Transient("parse: "@ + s),
        JmapError::Internal(s) => SubmitOutcome::Transient("internal: "@ + s),
        JmapError::WebSocket(s) => SubmitOutcome::Transient("websocket: "@ + s),
    }
}

fn labelled(label: &str, text: &str) -> (r: String)
    ensures
        r@ == label@ + text@,
{
    let mut out: String = label.to_owned();
    out.append(text);
    out
}

impl SubmitOutcome<String> {
    /// How an attempt ended whose request came to nothing.
    pub fn from_jmap_error(e: &JmapError) -> (r: SubmitOutcome)
        ensures
            r@ == error_outcome(e@),
    {
        match e {
            JmapError::Transport { text, code } => {
                match code {
                    Some(status) => if 400 <= *status && *status < 500 && *status != 429 {
                        let mut out: String = "http ".to_owned();
                        push_decimal(&mut out, *status as u64);
                        out.append(": ");
                        out.append(text.as_str());
                        return SubmitOutcome::Permanent(out);
                    },
                    None => {},
                }
                SubmitOutcome::Transient(labelled("transport: ", text.as_str()))
            },
            JmapError::Problem { status, title } => {
                let code: u32 = match status {
                    Some(code) => *code,
                    None => 0,
                };
                let mut out: String = "problem status=".to_owned();
                push_decimal(&mut out, code as u64);
                out.append(" title=");
                let shown = match title {
                    Some(t) => debug_str(t.as_str()),
                    None => {
                        let nothing = String::new();
                        debug_str(nothing.as_str())
                    },
                };
                out.append(shown.as_str());
                if code >= 500 || code == 429 {
                    SubmitOutcome::Transient(out)
                } else {
                    SubmitOutcome::Permanent(out)
                }
            },
            JmapError::Server(s) => SubmitOutcome::Transient(labelled("server: ", s.as_str())),
            JmapError::Method(me) => SubmitOutcome::from_method_error(me),
            JmapError::SetItem(s) => SubmitOutcome::Permanent(labelled("set: ", s.as_str())),
            JmapError::Parse(s) => SubmitOutcome::Transient(labelled("parse: ", s.as_str())),
            JmapError::Internal(s) => SubmitOutcome::Transient(labelled("internal: ", s.as_str())),
            JmapError::WebSocket(s) => SubmitOutcome::Transient(
                labelled("websocket: ", s.as_str()),
            ),
        }
    }

    /// How an attempt ended that the server answered with an error.
    pub fn from_method_error(me: &MethodError) -> (r: SubmitOutcome)
        ensures
            r@ == method_outcome(me@),
    {
        match me.kind {
            MethodErrorType::ServerUnavailable
            | MethodErrorType::ServerFail
            | MethodErrorType::ServerPartialFail => SubmitOutcome::Transient(
                labelled("method ", me.text.as_str()),
            ),
            _ => SubmitOutcome::Permanent(labelled("method ", me.text.as_str())),
        }
    }
}

// ---------------------------------------------------------------------------
// What is asked of the server
// ---------------------------------------------------------------------------

/// An instant: whole seconds since the epoch, and the nanoseconds beyond them.
#[derive(Clone, Copy, Debug, PartialEq, Eq, Structural)]
pub struct Timestamp {
    pub secs: i64,
    pub nanos: u32,
}

/// What the server is asked to do with an uploaded message: to take it in, to send it,
/// and to change where it stands once that is done. `T` is a text, `L` a list of texts
/// and `C` a list of what is to be added or taken away.
#[derive(Debug)]
#[verifier::ext_equal]
pub struct Submission<T = String, L = Vec<String>, C = Vec<(String, bool)>> {
    pub import_mailboxes: L,
    pub import_keywords: L,
    pub identity_id: T,
    pub from: T,
    pub to: L,
    pub send_at: Option<Timestamp>,
    pub mailbox_changes: C,
    pub keyword_changes: C,
}

/// The views of a list of changes.
pub open spec fn change_views(v: Seq<(String, bool)>) -> Seq<(Seq<char>, bool)> {
    v.map_values(|c: (String, bool)| (c.0@, c.1))
}

impl View for Submission<String, Vec<String>, Vec<(String, bool)>> {
    type V = Submission<Seq<char>, Seq<Seq<char>>, Seq<(Seq<char>, bool)>>;

    open spec fn view(&self) -> Self::V {
        Submission {
            import_mailboxes: views(self.import_mailboxes@),
            import_keywords: views(self.import_keywords@),
            identity_id: self.identity_id@,
            from: self.from@,
            to: views(self.to@),
            send_at: self.send_at,
            mailbox_changes: change_views(self.mailbox_changes@),
            keyword_changes: change_views(self.keyword_changes@),
        }
    }
}

/// What the server is asked: the message comes in as a draft; once it has been handed
/// over it is a draft no more, is marked as read, and stands where such messages are
/// filed.
pub open spec fn submission_for(
    ctx: SubmitContext<Seq<char>>,
    sc: SidecarState<Seq<char>, Seq<Seq<char>>>,
    send_at: Option<Timestamp>,
) -> Submission<Seq<char>, Seq<Seq<char>>, Seq<(Seq<char>, bool)>> {
    Submission {
        import_mailboxes: seq![ctx.drafts_id],
        import_keywords: seq!["$draft"@],
        identity_id: ctx.identity_id,
        from: sc.envelope.from,
        to: sc.envelope.to,
        send_at,
        mailbox_changes: seq![
            (ctx.drafts_id, false),
            (file_target(ctx, send_at is Some), true),
        ],
        keyword_changes: seq![("$draft"@, false), ("$seen"@, true)],
    }
}

/// What the server is asked for a message that is to go out at `send_at`.
pub fn plan_submission(ctx: &SubmitContext, sc: &SidecarState, send_at: Option<Timestamp>) -> (r:
    Submission)
    ensures
        r@ == submission_for(ctx@, sc@, send_at),
{
    let mut import_mailboxes: Vec<String> = Vec::new();
    import_mailboxes.push(ctx.drafts_id.clone());
    let mut import_keywords: Vec<String> = Vec::new();
    import_keywords.push("$draft".to_owned());
    let mut mailbox_changes: Vec<(String, bool)> = Vec::new();
    mailbox_changes.push((ctx.drafts_id.clone(), false));
    mailbox_changes.push((ctx.file_target_id(send_at.is_some()).to_owned(), true));
    let mut keyword_changes: Vec<(String, bool)> = Vec::new();
    keyword_changes.push(("$draft".to_owned(), false));
    keyword_changes.push(("$seen".to_owned(), true));
    let r = Submission {
        import_mailboxes,
        import_keywords,
        identity_id: ctx.identity_id.clone(),
        from: sc.envelope.from.clone(),
        to: clone_strings(&sc.envelope.to),
        send_at,
        mailbox_changes,
        keyword_changes,
    };
    proof {
        let want = submission_for(ctx@, sc@, send_at);
        assert(r@.import_mailboxes =~= want.import_mailboxes);
        assert(r@.import_keywords =~= want.import_keywords);
        assert(r@.mailbox_changes =~= want.mailbox_changes);
        assert(r@.keyword_changes =~= want.keyword_changes);
    }
    r
}

/// Why a sending time is of no use.
pub open spec fn bad_schedule(value: Seq<char>, reason: Seq<char>) -> Seq<char> {
    "sidecar send_at "@ + debug_text(value) + " not a valid RFC3339 timestamp: "@ + reason
}

/// The sending time that a record names, by what reading it as a time gave.
pub fn check_schedule(value: &str, parsed: Result<(i64, u32), String>) -> (r: Result<
    Timestamp,
    SubmitOutcome,
>)
    ensures
        match parsed {
            Ok(t) => r == Ok::<Timestamp, SubmitOutcome>(Timestamp { secs: t.0, nanos: t.1 }),
            Err(e) => r matches Err(o) && o@ == SubmitOutcome::Permanent(bad_schedule(value@, e@)),
        },
{
    match parsed {
        Ok((secs, nanos)) => Ok(Timestamp { secs, nanos }),
        Err(e) => {
            let mut out: String = "sidecar send_at ".to_owned();
            let shown = debug_str(value);
            out.append(shown.as_str());
            out.append(" not a valid RFC3339 timestamp: ");
            out.append(e.as_str());
            Err(SubmitOutcome::Permanent(out))
        },
    }
}

/// What the server is asked for a queued message, or how the attempt ends before it is
/// asked anything: an envelope that names nobody, or a sending time that is none, gets
/// no better by waiting.
pub open spec fn prepared_submission(
    ctx: SubmitContext<Seq<char>>,
    sc: SidecarState<Seq<char>, Seq<Seq<char>>>,
) -> Result<
    Submission<Seq<char>, Seq<Seq<char>>, Seq<(Seq<char>, bool)>>,
    SubmitOutcome<Seq<char>>,
> {
    match envelope_fault(sc.envelope) {
        Some(reason) => Err(SubmitOutcome::Permanent(reason)),
        None => match sc.send_at {
            None => Ok(submission_for(ctx, sc, None)),
            Some(s) => match rfc3339_parsed(s) {
                Ok(t) => Ok(submission_for(ctx, sc, Some(Timestamp { secs: t.0, nanos: t.1 }))),
                Err(e) => Err(SubmitOutcome::Permanent(bad_schedule(s, e))),
            },
        },
    }
}

/// What the server is asked for a queued message, or how the attempt ends before it is
/// asked anything.
pub fn prepare_submission(ctx: &SubmitContext, sc: &SidecarState) -> (r: Result<
    Submission,
    SubmitOutcome,
>)
    ensures
        match prepared_submission(ctx@, sc@) {
            Ok(s) => r matches Ok(t) && t@ == s,
            Err(o) => r matches Err(p) && p@ == o,
        },
{
    match envelope_validation_error(&sc.envelope) {
        Some(reason) => return Err(SubmitOutcome::Permanent(reason)),
        None => {},
    }
    match &sc.send_at {
        None => Ok(plan_submission(ctx, sc, None)),
        Some(s) => {
            let parsed = parse_rfc3339(s.as_str());
            match check_schedule(s.as_str(), parsed) {
                Ok(t) => Ok(plan_submission(ctx, sc, Some(t))),
                Err(o) => Err(o),
            }
        },
    }
}

// ---------------------------------------------------------------------------
// What the server answers
// ---------------------------------------------------------------------------

/// One of the server's answers. Each text is an error as it reads.
#[derive(Debug)]
#[verifier::ext_equal]
pub enum Reply<T = String, L = Vec<String>> {
    Error(MethodError<T>),
    /// The answer to taking the message in: what was not taken in, why the first of
    /// these was not, as far as that is said, whether that is because the server has the
    /// message already, and what was taken in.
    Import { not_created: L, fault: Option<T>, exists: bool, created: L },
    /// The answer to taking back what was asked before.
    Cancelled { fault: Option<T> },
    /// The answer to sending it.
    Submission { fault: Option<T>, has_created: bool },
    /// The answer to something else.
    Other,
}

impl View for Reply<String, Vec<String>> {
    type V = Reply<Seq<char>, Seq<Seq<char>>>;

    open spec fn view(&self) -> Self::V {
        match *self {
            Reply::Error(me) => Reply::Error(me@),
            Reply::Import { not_created, fault, exists, created } => Reply::Import {
                not_created: views(not_created@),
                fault: opt_view(fault),
                exists,
                created: views(created@),
            },
            Reply::Cancelled { fault } => Reply::Cancelled { fault: opt_view(fault) },
            Reply::Submission { fault, has_created } => Reply::Submission {
                fault: opt_view(fault),
                has_created,
            },
            Reply::Other => Reply::Other,
        }
    }
}

/// The views of the server's answers.
pub open spec fn reply_views(v: Seq<Reply>) -> Seq<Reply<Seq<char>, Seq<Seq<char>>>> {
    v.map_values(|p: Reply| p@)
}

/// What the server's answers come to. `T` is a text.
#[derive(Debug)]
#[verifier::ext_equal]
pub enum Verdict<T = String> {
    /// The attempt has ended.
    Ended(SubmitOutcome<T>),
    /// The server has the message already, which is still to be looked into. The text is
    /// the refusal as it reads.
    Exists(T),
}

impl View for Verdict<String> {
    type V = Verdict<Seq<char>>;

    open spec fn view(&self) -> Self::V {
        match *self {
            Verdict::Ended(o) => Verdict::Ended(o@),
            Verdict::Exists(s) => Verdict::Exists(s@),
        }
    }
}

/// What one answer comes to, if it does not bear success.
pub open spec fn reply_verdict(p: Reply<Seq<char>, Seq<Seq<char>>>) -> Option<Verdict<Seq<char>>> {
    match p {
        Reply::Error(me) => Some(Verdict::Ended(method_outcome(me))),
        Reply::Import { not_created, fault, exists, created } => if not_created.len() > 0 {
            let reason = match fault {
                Some(e) => "Email/import: "@ + e,
                None => "Email/import not_created: "@ + debug_list(not_created),
            };
            Some(
                if exists {
                    Verdict::Exists(reason)
                } else {
                    Verdict::Ended(SubmitOutcome::Permanent(reason))
                },
            )
        } else if created.len() == 0 {
            Some(
                Verdict::Ended(
                    SubmitOutcome::Permanent("Email/import returned no created entry"@),
                ),
            )
        } else {
            None
        },
        Reply::Cancelled { fault } => match fault {
            Some(e) => Some(Verdict::Ended(SubmitOutcome::Permanent("EmailSubmission/set: "@ + e))),
            None => None,
        },
        Reply::Submission { fault, has_created } => match fault {
            Some(e) => Some(Verdict::Ended(SubmitOutcome::Permanent("EmailSubmission/set: "@ + e))),
            None => if has_created {
                None
            } else {
                Some(
                    Verdict::Ended(
                        SubmitOutcome::Permanent("EmailSubmission/set returned no created entry"@),
                    ),
                )
            },
        },
        Reply::Other => None,
    }
}

/// The view of an optional verdict.
pub open spec fn opt_verdict_view(o: Option<Verdict>) -> Option<Verdict<Seq<char>>> {
    match o {
        Some(v) => Some(v@),
        None => None,
    }
}

/// What one answer comes to, if it does not bear success.
pub fn interpret_reply(p: &Reply) -> (r: Option<Verdict>)
    ensures
        opt_verdict_view(r) == reply_verdict(p@),
{
    match p {
        Reply::Error(me) => Some(Verdict::Ended(SubmitOutcome::from_method_error(me))),
        Reply::Import { not_created, fault, exists, created } => {
            assert(views(not_created@).len() == not_created@.len());
            assert(views(created@).len() == created@.len());
            if not_created.len() > 0 {
                let reason = match fault {
                    Some(e) => labelled("Email/import: ", e.as_str()),
                    None => {
                        let shown = debug_strings(not_created);
                        labelled("Email/import not_created: ", shown.as_str())
                    },
                };
                if *exists {
                    Some(Verdict::Exists(reason))
                } else {
                    Some(Verdict::Ended(SubmitOutcome::Permanent(reason)))
                }
            } else if created.len() == 0 {
                Some(
                    Verdict::Ended(
                        SubmitOutcome::Permanent(
                            "Email/import returned no created entry".to_owned(),
                        ),
                    ),
                )
            } else {
                None
            }
        },
        Reply::Cancelled { fault } => match fault {
            Some(e) => Some(
                Verdict::Ended(
                    SubmitOutcome::Permanent(labelled("EmailSubmission/set: ", e.as_str())),
                ),
            ),
            None => None,
        },
        Reply::Submission { fault, has_created } => match fault {
            Some(e) => Some(
                Verdict::Ended(
                    SubmitOutcome::Permanent(labelled("EmailSubmission/set: ", e.as_str())),
                ),
            ),
            None => if *has_created {
                None
            } else {
                Some(
                    Verdict::Ended(
                        SubmitOutcome::Permanent(
                            "EmailSubmission/set returned no created entry".to_owned(),
                        ),
                    ),
                )
            },
        },
        Reply::Other => None,
    }
}

/// The answer does not bear success.
pub open spec fn is_bad(p: Reply<Seq<char>, Seq<Seq<char>>>) -> bool {
    reply_verdict(p) is Some
}

/// What the server's answers come to: the first that does not bear success decides.
pub open spec fn replies_verdict(replies: Seq<Reply<Seq<char>, Seq<Seq<char>>>>) -> Verdict<
    Seq<char>,
> {
    match first_where(replies, |p: Reply<Seq<char>, Seq<Seq<char>>>| is_bad(p)) {
        Some(k) => reply_verdict(replies[k])->0,
        None => Verdict::Ended(SubmitOutcome::Success),
    }
}

/// What the server's answers come to.
pub fn interpret_replies(replies: &Vec<Reply>) -> (r: Verdict)
    ensures
        r@ == replies_verdict(reply_views(replies@)),
{
    let ghost bad = |p: Reply<Seq<char>, Seq<Seq<char>>>| is_bad(p);
    let ghost all = reply_views(replies@);
    let mut i: usize = 0;
    while i < replies.len()
        invariant
            i <= replies@.len(),
            all == reply_views(replies@),
            bad == (|p: Reply<Seq<char>, Seq<Seq<char>>>| is_bad(p)),
            forall|j: int| 0 <= j < i ==> !bad(#[trigger] all[j]),
        decreases replies@.len() - i,
    {
        assert(all[i as int] == replies@[i as int]@);
        match interpret_reply(&replies[i]) {
            Some(v) => {
                proof {
                    assert(bad(all[i as int]));
                    lemma_first_is(all, bad, i as int);
                }
                return v;
            },
            None => {},
        }
        assert(!bad(all[i as int]));
        i += 1;
    }
    proof {
        lemma_first_none(all, bad);
    }
    Verdict::Ended(SubmitOutcome::Success)
}

/// A message counts as sent by the answers exactly if none of them speaks against it.
pub proof fn law_success_needs_every_answer(replies: Seq<Reply<Seq<char>, Seq<Seq<char>>>>)
    ensures
        replies_verdict(replies) == Verdict::Ended(SubmitOutcome::<Seq<char>>::Success) <==> (forall|
            i: int,
        |
            0 <= i < replies.len() ==> reply_verdict(#[trigger] replies[i]) is None),
{
    let bad = |p: Reply<Seq<char>, Seq<Seq<char>>>| is_bad(p);
    crate::search::lemma_first_from(replies, bad, 0);
    match first_where(replies, bad) {
        Some(k) => {
            assert(bad(replies[k]));
        },
        None => {
            assert forall|i: int| 0 <= i < replies.len() implies reply_verdict(
                #[trigger] replies[i],
            ) is None by {
                assert(!bad(replies[i]));
            }
        },
    }
}

// ---------------------------------------------------------------------------
// What follows from an attempt
// ---------------------------------------------------------------------------

/// What is left to do after an attempt. `T` is a text and `L` a list of texts.
#[derive(Debug)]
#[verifier::ext_equal]
pub enum AttemptStep<T = String, L = Vec<String>> {
    /// The message and its record can go.
    Forget,
    /// The record is to be kept as it now is. The message is on the schedule again.
    Keep(SidecarState<T, L>),
    /// The message moves to the failed ones, with this reason and this mark, and its
    /// record can go.
    GiveUp { reason: T, ulid: T },
}

/// The number of the attempt that a record's next failure is.
pub open spec fn attempt_number(retry: Option<RetryState<Seq<char>>>) -> u32 {
    match retry {
        Some(r) => if r.attempts == u32::MAX {
            u32::MAX
        } else {
            (r.attempts + 1) as u32
        },
        None => 1,
    }
}

/// The number of the attempt that a record's next failure is.
pub fn next_attempt(sc: &SidecarState) -> (r: u32)
    ensures
        r == attempt_number(sc@.retry),
{
    match &sc.retry {
        Some(s) => if s.attempts == u32::MAX {
            u32::MAX
        } else {
            s.attempts + 1
        },
        None => 1,
    }
}

/// The second at which a wait that begins in the second `epoch` ends.
pub open spec fn wait_ends(epoch: u64, wait_nanos: int) -> u64 {
    if epoch + wait_nanos / (NANOS_PER_SEC as int) <= u64::MAX {
        (epoch + wait_nanos / (NANOS_PER_SEC as int)) as u64
    } else {
        u64::MAX
    }
}

/// The wait after the attempt that a record's next failure is, in nanoseconds.
pub open spec fn wait_after(
    retry: Option<RetryState<Seq<char>>>,
    cfg: SubmitConfig,
    nanos: u32,
) -> int {
    jittered(raw_delay(attempt_number(retry), cfg.retry_base_secs, cfg.retry_cap_secs), nanos)
}

/// A record after an attempt that is to be repeated: it tells of one more failure, of
/// its reason and of the next attempt, and no longer of one under way.
pub open spec fn failed_once_more(
    sc: SidecarState<Seq<char>, Seq<Seq<char>>>,
    reason: Seq<char>,
    next_at: Seq<char>,
) -> SidecarState<Seq<char>, Seq<Seq<char>>> {
    SidecarState {
        in_flight: None,
        retry: Some(
            RetryState {
                attempts: attempt_number(sc.retry),
                next_at: Some(next_at),
                last_error: Some(reason),
            },
        ),
        ..sc
    }
}

/// Does what an attempt's end asks for. `epoch` and `nanos` are the time of day, and `now`
/// is the time on the schedule's own clock. Only a failure that may pass puts the
/// message on the schedule again; up to the end of the year 9999, what the record
/// says of the next attempt reads as the second in which it is due.
pub fn handle_submit_attempt(
    queue: &mut RetrySchedule,
    basename: &str,
    outcome: SubmitOutcome,
    sidecar: SidecarState,
    cfg: &SubmitConfig,
    epoch: u64,
    nanos: u32,
    now: u128,
) -> (r: AttemptStep)
    requires
        old(queue).wf(),
        nanos < 1_000_000_000,
        outcome is Transient ==> wait_fits(
            attempt_number(sidecar@.retry),
            cfg.retry_base_secs,
            cfg.retry_cap_secs,
        ) && now + LONGEST_NANOS <= u128::MAX,
    ensures
        final(queue).wf(),
        match outcome@ {
            SubmitOutcome::Success => r is Forget && final(queue)@ == old(queue)@,
            SubmitOutcome::Transient(reason) => {
                let wait = wait_after(sidecar@.retry, *cfg, nanos);
                let due = wait_ends(epoch, wait);
                &&& final(queue)@ == old(queue)@.insert(basename@, (now + wait) as u128)
                &&& r matches AttemptStep::Keep(sc)
                &&& retry_view(sc.retry) matches Some(s)
                &&& s.next_at matches Some(next_at)
                &&& sc@ == failed_once_more(sidecar@, reason, next_at)
                &&& match iso_text(due as i64) {
                    Some(t) => next_at == t,
                    None => is_time(next_at) && is_present(next_at),
                }
                &&& due <= LAST_FOUR_DIGIT_SECOND ==> epoch_secs_of(next_at) == Some(due)
            },
            SubmitOutcome::Permanent(reason) => {
                &&& final(queue)@ == old(queue)@
                &&& r matches AttemptStep::GiveUp { reason: said, ulid }
                &&& said@ == reason
                &&& is_ulid(ulid@)
                &&& is_drawn_ulid(ulid@)
            },
        },
{
    match outcome {
        SubmitOutcome::Success => AttemptStep::Forget,
        SubmitOutcome::Transient(reason) => {
            let attempts: u32 = next_attempt(&sidecar);
            let delay = backoff_delay_at(
                attempts,
                cfg.retry_base_secs,
                cfg.retry_cap_secs,
                nanos,
            );
            let due: u64 = epoch.saturating_add(delay.as_secs());
            assert(due == wait_ends(epoch, delay.nanos as int));
            let next_at = iso_from_epoch_secs(due);
            let mut sc = sidecar;
            let ghost before = sc@;
            let ghost text = next_at@;
            let ghost said = reason@;
            sc.in_flight = None;
            sc.retry = Some(
                RetryState { attempts, next_at: Some(next_at), last_error: Some(reason) },
            );
            proof {
                assert(sc@.retry->0.next_at == Some(text));
                assert(sc@ =~= failed_once_more(before, said, text));
            }
            queue.schedule(basename.to_owned(), now + delay.nanos);
            AttemptStep::Keep(sc)
        },
        SubmitOutcome::Permanent(reason) => {
            let ulid = fresh_ulid();
            AttemptStep::GiveUp { reason, ulid }
        },
    }
}

/// A daemon that starts anew goes by what the record of a failure says: the message is
/// due when it would have been, or at once if that has passed.
pub proof fn law_restart_keeps_the_wait(
    sc: SidecarState<Seq<char>, Seq<Seq<char>>>,
    reason: Seq<char>,
    next_at: Seq<char>,
    due: u64,
    epoch: u64,
    now: u128,
)
    requires
        epoch_secs_of(next_at) == Some(due),
    ensures
        startup_due(failed_once_more(sc, reason, next_at).retry->0.next_at, epoch, now) == (if due
            > epoch {
            now + (due - epoch) * NANOS_PER_SEC
        } else {
            now as int
        }),
{
}

// ---------------------------------------------------------------------------
// Messages that the server already has
// ---------------------------------------------------------------------------

/// What to do about a message that the server already has. `L` is a list of texts.
#[derive(Debug, PartialEq, Eq)]
#[verifier::ext_equal]
pub enum ReconcileAction<L = Vec<String>> {
    /// It has been sent.
    AlreadyDone,
    /// It waits to be sent: what was asked before is taken back, and asked anew.
    CancelAndResubmit { destroy_ids: L, send_at: Option<Timestamp> },
    /// It is a draft.
    CreateSubmission { send_at: Option<Timestamp> },
}

impl View for ReconcileAction<Vec<String>> {
    type V = ReconcileAction<Seq<Seq<char>>>;

    open spec fn view(&self) -> Self::V {
        match *self {
            ReconcileAction::AlreadyDone => ReconcileAction::AlreadyDone,
            ReconcileAction::CancelAndResubmit { destroy_ids, send_at } =>
                ReconcileAction::CancelAndResubmit { destroy_ids: views(destroy_ids@), send_at },
            ReconcileAction::CreateSubmission { send_at } => ReconcileAction::CreateSubmission {
                send_at,
            },
        }
    }
}

/// What to do about a message that the server already has, by where it stands there and
/// what is pending for it. One that stands among the sent ones has been sent, wherever
/// else it stands.
pub open spec fn reconciliation(
    mailbox_ids: Seq<Seq<char>>,
    pending_ids: Seq<Seq<char>>,
    sent_id: Seq<char>,
    send_at: Option<Timestamp>,
) -> ReconcileAction<Seq<Seq<char>>> {
    if mailbox_ids.contains(sent_id) {
        ReconcileAction::AlreadyDone
    } else if pending_ids.len() > 0 {
        ReconcileAction::CancelAndResubmit { destroy_ids: pending_ids, send_at }
    } else {
        ReconcileAction::CreateSubmission { send_at }
    }
}

/// What to do about a message that the server already has, by where it stands there and
/// what is pending for it. One that stands among the sent ones has been sent, wherever
/// else it stands.
pub fn reconcile_action(
    email_mailbox_ids: &[String],
    pending_submission_ids: &[String],
    sent_id: &str,
    sidecar_send_at: Option<Timestamp>,
) -> (r: ReconcileAction)
    ensures
        r@ == reconciliation(
            views(email_mailbox_ids@),
            views(pending_submission_ids@),
            sent_id@,
            sidecar_send_at,
        ),
{
    assert(views(pending_submission_ids@).len() == pending_submission_ids@.len());
    let mut i: usize = 0;
    while i < email_mailbox_ids.len()
        invariant
            i <= email_mailbox_ids@.len(),
            forall|j: int| 0 <= j < i ==> #[trigger] views(email_mailbox_ids@)[j] != sent_id@,
        decreases email_mailbox_ids@.len() - i,
    {
        if str_eq(email_mailbox_ids[i].as_str(), sent_id) {
            assert(views(email_mailbox_ids@)[i as int] == sent_id@);
            return ReconcileAction::AlreadyDone;
        }
        i += 1;
    }
    assert(!views(email_mailbox_ids@).contains(sent_id@));
    if pending_submission_ids.len() > 0 {
        let mut destroy_ids: Vec<String> = Vec::new();
        let mut k: usize = 0;
        while k < pending_submission_ids.len()
            invariant
                k <= pending_submission_ids@.len(),
                views(destroy_ids@) == views(pending_submission_ids@).take(k as int),
            decreases pending_submission_ids@.len() - k,
        {
            let ghost before = views(destroy_ids@);
            destroy_ids.push(pending_submission_ids[k].clone());
            assert(views(destroy_ids@) =~= before.push(views(pending_submission_ids@)[k as int]));
            k += 1;
            assert(views(destroy_ids@) =~= views(pending_submission_ids@).take(k as int));
        }
        assert(views(destroy_ids@) =~= views(pending_submission_ids@));
        return ReconcileAction::CancelAndResubmit { destroy_ids, send_at: sidecar_send_at };
    }
    ReconcileAction::CreateSubmission { send_at: sidecar_send_at }
}

/// A message as the server has it: its id, the mailboxes that it stands in, and what is
/// still pending for it. `T` is a text and `L` a list of texts.
#[derive(Debug)]
#[verifier::ext_equal]
pub struct Existing<T = String, L = Vec<String>> {
    pub email_id: T,
    pub mailbox_ids: L,
    pub pending_ids: L,
}

impl View for Existing<String, Vec<String>> {
    type V = Existing<Seq<char>, Seq<Seq<char>>>;

    open spec fn view(&self) -> Self::V {
        Existing {
            email_id: self.email_id@,
            mailbox_ids: views(self.mailbox_ids@),
            pending_ids: views(self.pending_ids@),
        }
    }
}

/// The view of an optional message of the server.
pub open spec fn opt_existing_view(o: Option<Existing>) -> Option<
    Existing<Seq<char>, Seq<Seq<char>>>,
> {
    match o {
        Some(e) => Some(e@),
        None => None,
    }
}

/// What follows once a message that the server already has was looked up. `T` is a text
/// and `L` a list of texts.
#[derive(Debug)]
#[verifier::ext_equal]
pub enum ReconcileStep<T = String, L = Vec<String>> {
    /// The attempt has ended.
    Done(SubmitOutcome<T>),
    /// What is listed is taken back, then the message that is there is to be sent, at the
    /// time if one is given.
    Resubmit { email_id: T, cancel_ids: L, send_at: Option<Timestamp> },
}

impl View for ReconcileStep<String, Vec<String>> {
    type V = ReconcileStep<Seq<char>, Seq<Seq<char>>>;

    open spec fn view(&self) -> Self::V {
        match *self {
            ReconcileStep::Done(o) => ReconcileStep::Done(o@),
            ReconcileStep::Resubmit { email_id, cancel_ids, send_at } => ReconcileStep::Resubmit {
                email_id: email_id@,
                cancel_ids: views(cancel_ids@),
                send_at,
            },
        }
    }
}

/// What follows from where the message stands on the server: what `reconciliation` says.
/// One that is not found is given up, with the refusal as the reason.
pub open spec fn reconciled_step(
    reason: Seq<char>,
    found: Option<Existing<Seq<char>, Seq<Seq<char>>>>,
    sent_id: Seq<char>,
    send_at: Option<Timestamp>,
) -> ReconcileStep<Seq<char>, Seq<Seq<char>>> {
    match found {
        None => ReconcileStep::Done(SubmitOutcome::Permanent(reason)),
        Some(e) => match reconciliation(e.mailbox_ids, e.pending_ids, sent_id, send_at) {
            ReconcileAction::AlreadyDone => ReconcileStep::Done(SubmitOutcome::Success),
            ReconcileAction::CancelAndResubmit { destroy_ids, send_at } => ReconcileStep::Resubmit {
                email_id: e.email_id,
                cancel_ids: destroy_ids,
                send_at,
            },
            ReconcileAction::CreateSubmission { send_at } => ReconcileStep::Resubmit {
                email_id: e.email_id,
                cancel_ids: Seq::empty(),
                send_at,
            },
        },
    }
}

/// What follows once a message that the server already has was looked up.
pub fn reconcile(
    reason: String,
    found: Option<Existing>,
    ctx: &SubmitContext,
    plan: &Submission,
) -> (r: ReconcileStep)
    ensures
        r@ == reconciled_step(reason@, opt_existing_view(found), ctx@.sent_id, plan.send_at),
{
    match found {
        None => ReconcileStep::Done(SubmitOutcome::Permanent(reason)),
        Some(e) => match reconcile_action(
            e.mailbox_ids.as_slice(),
            e.pending_ids.as_slice(),
            ctx.sent_id.as_str(),
            plan.send_at,
        ) {
            ReconcileAction::AlreadyDone => ReconcileStep::Done(SubmitOutcome::Success),
            ReconcileAction::CancelAndResubmit { destroy_ids, send_at } => ReconcileStep::Resubmit {
                email_id: e.email_id,
                cancel_ids: destroy_ids,
                send_at,
            },
            ReconcileAction::CreateSubmission { send_at } => {
                let cancel_ids: Vec<String> = Vec::new();
                assert(views(cancel_ids@) =~= Seq::empty());
                ReconcileStep::Resubmit { email_id: e.email_id, cancel_ids, send_at }
            },
        },
    }
}

/// How an attempt ends whose message was already there and was asked to be sent anew. A
/// refusal because the message is there is then like any other.
pub fn resubmit_outcome(verdict: Verdict) -> (r: SubmitOutcome)
    ensures
        r@ == (match verdict@ {
            Verdict::Ended(o) => o,
            Verdict::Exists(reason) => SubmitOutcome::Permanent(reason),
        }),
{
    match verdict {
        Verdict::Ended(o) => o,
        Verdict::Exists(reason) => SubmitOutcome::Permanent(reason),
    }
}

/// A message that the server refuses to take in because it has it already is looked into,
/// whatever the answers behind that refusal are. If it is found among the sent ones, it
/// counts as sent. If not, all that is pending for it is taken back, and it is sent at
/// the time that its record asks for. It is given up only if it is not found.
pub proof fn law_existing_message_is_reconciled(
    replies: Seq<Reply<Seq<char>, Seq<Seq<char>>>>,
    k: int,
    found: Existing<Seq<char>, Seq<Seq<char>>>,
    sent_id: Seq<char>,
    send_at: Option<Timestamp>,
)
    requires
        0 <= k < replies.len(),
        forall|i: int| 0 <= i < k ==> reply_verdict(#[trigger] replies[i]) is None,
        replies[k] matches Reply::Import { not_created, fault, exists, created } && exists
            && not_created.len() > 0,
    ensures
        replies_verdict(replies) is Exists,
        reconciled_step(replies_verdict(replies)->Exists_0, Some(found), sent_id, send_at) == (
        if found.mailbox_ids.contains(sent_id) {
            ReconcileStep::Done(SubmitOutcome::Success)
        } else {
            ReconcileStep::Resubmit {
                email_id: found.email_id,
                cancel_ids: found.pending_ids,
                send_at,
            }
        }),
{
    let bad = |p: Reply<Seq<char>, Seq<Seq<char>>>| is_bad(p);
    assert(bad(replies[k]));
    assert forall|i: int| 0 <= i < k implies !bad(#[trigger] replies[i]) by {
        assert(reply_verdict(replies[i]) is None);
    }
    lemma_first_is(replies, bad, k);
    if found.pending_ids.len() == 0 {
        assert(found.pending_ids =~= Seq::empty());
    }
}

// ---------------------------------------------------------------------------
// Laws
// ---------------------------------------------------------------------------

/// Why an attempt did not succeed.
pub open spec fn reason_of(o: SubmitOutcome<Seq<char>>) -> Seq<char> {
    match o {
        SubmitOutcome::Success => Seq::empty(),
        SubmitOutcome::Transient(s) => s,
        SubmitOutcome::Permanent(s) => s,
    }
}

/// Whether a request that came to nothing is tried again. A problem is, whose status is 500
/// or more or is 429; no other is, nor one without a status. A bare HTTP status from 400 to
/// 499 is final but for 429; every other, and a server that was not reached, is tried again.
/// What the server says of single items is final, and of what it says of the method only
/// that it cannot serve it now is not.
pub proof fn law_error_tells_whether_to_try_again(e: &JmapError, o: SubmitOutcome)
    requires
        call_ensures(SubmitOutcome::from_jmap_error, (e,), o),
    ensures
        o !is Success,
        e is Problem && e->status is Some && e->status->0 >= 500 ==> o is Transient,
        e is Problem && e->status == Some(429u32) ==> o is Transient,
        e is Problem && e->status is Some && e->status->0 < 500 && e->status->0 != 429
            ==> o is Permanent,
        e is Problem && e->status is None ==> o is Permanent,
        e is Transport && e->code is None ==> o is Transient,
        e is Transport && e->code == Some(429u16) ==> o is Transient,
        e is Transport && e->code is Some && (e->code->0 < 400 || e->code->0 >= 500)
            ==> o is Transient,
        e is Transport && e->code is Some && 400 <= e->code->0 <= 428 ==> o is Permanent,
        e is Transport && e->code is Some && 430 <= e->code->0 <= 499 ==> o is Permanent,
        e is Server || e is Parse || e is Internal || e is WebSocket ==> o is Transient,
        e is SetItem ==> o is Permanent,
        e is Method ==> (o is Transient <==> e->Method_0.kind is ServerUnavailable
            || e->Method_0.kind is ServerFail || e->Method_0.kind is ServerPartialFail),
{
}

/// What the error says is in the reason, whatever kind of error it is.
pub proof fn law_reason_quotes_the_error(e: &JmapError, o: SubmitOutcome)
    requires
        call_ensures(SubmitOutcome::from_jmap_error, (e,), o),
    ensures
        match e@ {
            JmapError::Transport { text, code } => {
                &&& has_suffix(reason_of(o@), text)
                &&& o is Permanent ==> has_prefix(
                    reason_of(o@),
                    "http "@ + decimal(code->0 as nat) + ": "@,
                )
            },
            JmapError::Problem { status, title } => {
                &&& status matches Some(s) ==> has_prefix(
                    reason_of(o@),
                    "problem status="@ + decimal(s as nat),
                )
                &&& status is None ==> has_prefix(reason_of(o@), "problem status="@ + decimal(0))
                &&& title matches Some(t) ==> has_suffix(reason_of(o@), debug_text(t))
            },
            JmapError::Server(s) => has_suffix(reason_of(o@), s),
            JmapError::Method(me) => has_suffix(reason_of(o@), me.text),
            JmapError::SetItem(s) => has_suffix(reason_of(o@), s),
            JmapError::Parse(s) => has_suffix(reason_of(o@), s),
            JmapError::Internal(s) => has_suffix(reason_of(o@), s),
            JmapError::WebSocket(s) => has_suffix(reason_of(o@), s),
        },
{
    let said = reason_of(o@);
    match e@ {
        JmapError::Transport { text, code } => {
            assert(said.skip(said.len() - text.len()) =~= text);
            assert(said.subrange(said.len() - text.len(), said.len() as int) =~= text);
            if o is Permanent {
                let head = "http "@ + decimal(code->0 as nat) + ": "@;
                assert(said.subrange(0, head.len() as int) =~= head);
            }
        },
        JmapError::Problem { status, title } => {
            match status {
                Some(s) => {
                    let head = "problem status="@ + decimal(s as nat);
                    assert(said.subrange(0, head.len() as int) =~= head);
                },
                None => {
                    let head = "problem status="@ + decimal(0);
                    assert(said.subrange(0, head.len() as int) =~= head);
                },
            }
            match title {
                Some(t) => {
                    let tail = debug_text(t);
                    assert(said.subrange(said.len() - tail.len(), said.len() as int) =~= tail);
                },
                None => {},
            }
        },
        JmapError::Method(me) => {
            assert(said.subrange(said.len() - me.text.len(), said.len() as int) =~= me.text);
        },
        JmapError::Server(s)
        | JmapError::SetItem(s)
        | JmapError::Parse(s)
        | JmapError::Internal(s)
        | JmapError::WebSocket(s) => {
            assert(said.subrange(said.len() - s.len(), said.len() as int) =~= s);
        },
    }
}

/// A problem of the server's own, with a status of 500 or more, does not cost the message:
/// after the attempt its record is kept, with one more failure in it and with the recipients
/// that it had, and the message is due again, a second from now at the earliest.
pub proof fn law_server_problem_keeps_the_message(
    e: &JmapError,
    o: SubmitOutcome,
    basename: &str,
    sidecar: SidecarState,
    cfg: &SubmitConfig,
    epoch: u64,
    nanos: u32,
    now: u128,
)
    requires
        call_ensures(SubmitOutcome::from_jmap_error, (e,), o),
        e is Problem,
        e->status is Some,
        e->status->0 >= 500,
        now + LONGEST_NANOS <= u128::MAX,
        nanos < 1_000_000_000,
        wait_fits(attempt_number(sidecar@.retry), cfg.retry_base_secs, cfg.retry_cap_secs),
    ensures
        forall|queue: &mut RetrySchedule, r: AttemptStep| #[trigger]
            call_ensures(
                handle_submit_attempt,
                (queue, basename, o, sidecar, cfg, epoch, nanos, now),
                r,
            ) ==> {
                &&& final(queue)@.contains_key(basename@)
                &&& final(queue)@[basename@] >= now + 1_000_000_000
                &&& r is Keep
                &&& r->Keep_0@.envelope == sidecar@.envelope
                &&& r->Keep_0@.retry is Some
                &&& r->Keep_0@.retry->0.attempts >= 1
            },
{
    law_failure_is_tried_again(basename, o, sidecar, cfg, epoch, nanos, now);
}

/// A failure that may pass leaves the message on the schedule, once, and moves no other. It
/// is due between a second and six fifths of the longest wait from now, and no further than a
/// fifth from the wait that is owed after as many failures as the record then tells of. The record stays as
/// it was but for the failures: there is one more, its reason and the time of the next
/// attempt are there, and no attempt is under way.
pub proof fn law_failure_is_tried_again(
    basename: &str,
    o: SubmitOutcome,
    sidecar: SidecarState,
    cfg: &SubmitConfig,
    epoch: u64,
    nanos: u32,
    now: u128,
)
    requires
        o is Transient,
        now + LONGEST_NANOS <= u128::MAX,
        nanos < 1_000_000_000,
        wait_fits(attempt_number(sidecar@.retry), cfg.retry_base_secs, cfg.retry_cap_secs),
    ensures
        forall|queue: &mut RetrySchedule, r: AttemptStep| #[trigger]
            call_ensures(
                handle_submit_attempt,
                (queue, basename, o, sidecar, cfg, epoch, nanos, now),
                r,
            ) ==> {
                &&& final(queue)@.contains_key(basename@)
                &&& final(queue)@[basename@] >= now + 1_000_000_000
                &&& cfg.retry_cap_secs >= 1 ==> (final(queue)@[basename@] - now) * 5
                    <= cfg.retry_cap_secs * 6_000_000_000
                &&& (final(queue)@[basename@] - now) * 5 >= raw_delay(
                    r->Keep_0@.retry->0.attempts,
                    cfg.retry_base_secs,
                    cfg.retry_cap_secs,
                ) * 4_000_000_000
                &&& (final(queue)@[basename@] - now) * 5 <= raw_delay(
                    r->Keep_0@.retry->0.attempts,
                    cfg.retry_base_secs,
                    cfg.retry_cap_secs,
                ) * 6_000_000_000
                &&& final(queue)@.remove(basename@) == queue@.remove(basename@)
                &&& r is Keep
                &&& r->Keep_0@.envelope == sidecar@.envelope
                &&& r->Keep_0@.send_at == sidecar@.send_at
                &&& r->Keep_0@.submitted_at == sidecar@.submitted_at
                &&& r->Keep_0@.account == sidecar@.account
                &&& r->Keep_0@.in_flight is None
                &&& r->Keep_0@.retry is Some
                &&& r->Keep_0@.retry->0.next_at is Some
                &&& r->Keep_0@.retry->0.last_error == Some(o->Transient_0@)
                &&& sidecar@.retry is None ==> r->Keep_0@.retry->0.attempts == 1
                &&& sidecar@.retry is Some && sidecar@.retry->0.attempts < u32::MAX
                    ==> r->Keep_0@.retry->0.attempts == sidecar@.retry->0.attempts + 1
                &&& sidecar@.retry is Some && sidecar@.retry->0.attempts == u32::MAX
                    ==> r->Keep_0@.retry->0.attempts == u32::MAX
            },
{
    let attempts = attempt_number(sidecar@.retry);
    let raw = raw_delay(attempts, cfg.retry_base_secs, cfg.retry_cap_secs);
    let wait = wait_after(sidecar@.retry, *cfg, nanos);
    assert(wait == jittered(raw, nanos));
    lemma_wait_bounds(raw, cfg.retry_cap_secs as int, nanos);
    law_jitter_is_a_fifth(raw, nanos);
    assert forall|queue: &mut RetrySchedule, r: AttemptStep| #[trigger]
        call_ensures(
            handle_submit_attempt,
            (queue, basename, o, sidecar, cfg, epoch, nanos, now),
            r,
        ) implies {
        &&& final(queue)@[basename@] == now + wait
        &&& final(queue)@.remove(basename@) == queue@.remove(basename@)
    } by {
        assert(final(queue)@.remove(basename@) =~= queue@.remove(basename@));
    }
}

/// What a wait lies between.
proof fn lemma_wait_bounds(raw: int, cap: int, nanos: u32)
    requires
        nanos < 1_000_000_000,
        raw >= 1,
        cap >= 1 ==> raw <= cap,
        raw * 6 <= 5 * u64::MAX,
    ensures
        NANOS_PER_SEC <= jittered(raw, nanos) <= LONGEST_NANOS,
        cap >= 1 ==> jittered(raw, nanos) * 5 <= cap * 6_000_000_000,
{
    let f = 4_000_000_000 + 2 * nanos as int;
    assert(raw * f <= raw * 6_000_000_000) by (nonlinear_arith)
        requires
            raw >= 1,
            f <= 6_000_000_000,
    ;
    if cap >= 1 {
        assert(raw * 6_000_000_000 <= cap * 6_000_000_000);
        assert(cap * 6_000_000_000 >= 5_000_000_000);
    }
}

/// A success leaves nothing behind, and a final failure is given up with its reason: neither
/// puts anything on the schedule.
pub proof fn law_end_is_the_end(
    basename: &str,
    o: SubmitOutcome,
    sidecar: SidecarState,
    cfg: &SubmitConfig,
    epoch: u64,
    nanos: u32,
    now: u128,
)
    requires
        o !is Transient,
    ensures
        forall|queue: &mut RetrySchedule, r: AttemptStep| #[trigger]
            call_ensures(
                handle_submit_attempt,
                (queue, basename, o, sidecar, cfg, epoch, nanos, now),
                r,
            ) ==> {
                &&& final(queue)@ == queue@
                &&& o is Success <==> r is Forget
                &&& o is Permanent <==> r is GiveUp
                &&& o is Permanent ==> r->reason@ == o->Permanent_0@
            },
{
}

/// An identity that is configured is taken, whatever identities the server has. Without one,
/// the first of the server's for the account's address is taken, the case of letters aside,
/// and there is none only if no identity has that address or the first that has it has no
/// id.
pub proof fn law_identity_is_the_accounts_own(
    cfg: &SubmitConfig,
    identities: &Vec<Identity>,
    r: Option<String>,
)
    requires
        call_ensures(pick_identity, (cfg, identities), r),
    ensures
        cfg.identity_id is Some ==> opt_view(r) == opt_view(cfg.identity_id),
        cfg.identity_id is None && r is Some ==> exists|k: int|
            0 <= k < identities@.len() && opt_view((#[trigger] identities@[k]).id) == opt_view(r)
                && identities@[k].email is Some && same_ignoring_case(
                identities@[k].email->0@,
                cfg.from_address@,
            ) && forall|j: int|
                0 <= j < k && (#[trigger] identities@[j]).email is Some ==> !same_ignoring_case(
                    identities@[j].email->0@,
                    cfg.from_address@,
                ),
        cfg.identity_id is None && (exists|k: int|
            0 <= k < identities@.len() && (#[trigger] identities@[k]).email is Some
                && same_ignoring_case(identities@[k].email->0@, cfg.from_address@)) && (forall|
            k: int,
        |
            0 <= k < identities@.len() ==> (#[trigger] identities@[k]).id is Some) ==> r is Some,
{
    if cfg.identity_id is None {
        let all = identity_views(identities@);
        let p = |i: Identity<Seq<char>>| identity_for(i, cfg.from_address@);
        crate::search::lemma_first_from(all, p, 0);
        match first_where(all, p) {
            Some(k) => {
                assert(all[k] == identities@[k]@);
                assert forall|j: int| 0 <= j < k && (#[trigger] identities@[j]).email is Some implies
                    !same_ignoring_case(identities@[j].email->0@, cfg.from_address@) by {
                    assert(all[j] == identities@[j]@);
                    assert(!p(all[j]));
                }
            },
            None => {
                assert forall|k: int|
                    0 <= k < identities@.len() && (#[trigger] identities@[k]).email is Some implies
                    !same_ignoring_case(identities@[k].email->0@, cfg.from_address@) by {
                    assert(all[k] == identities@[k]@);
                    assert(!p(all[k]));
                }
            },
        }
    }
}

/// What an account sends with belongs together: the drafts and the sent mail are the first
/// mailboxes of these roles, whatever their names, and where messages with a sending time go
/// is the first mailbox of the name that is asked for, whatever its role.
pub proof fn law_context_names_the_mailboxes(
    account_id: Seq<char>,
    cfg: SubmitConfig,
    identities: Seq<Identity<Seq<char>>>,
    mailboxes: Seq<ServerMailbox<Seq<char>>>,
)
    requires
        resolved_context(account_id, cfg, identities, mailboxes) is Ok,
    ensures
        ({
            let ctx = resolved_context(account_id, cfg, identities, mailboxes)->Ok_0;
            &&& ctx.account_id == account_id
            &&& exists|k: int|
                0 <= k < mailboxes.len() && (#[trigger] mailboxes[k]).role is Drafts
                    && mailboxes[k].id == Some(ctx.drafts_id) && forall|j: int|
                    0 <= j < k ==> (#[trigger] mailboxes[j]).role !is Drafts
            &&& exists|k: int|
                0 <= k < mailboxes.len() && (#[trigger] mailboxes[k]).role is Sent
                    && mailboxes[k].id == Some(ctx.sent_id) && forall|j: int|
                    0 <= j < k ==> (#[trigger] mailboxes[j]).role !is Sent
            &&& cfg.scheduled_folder is Sent ==> ctx.scheduled_file_target_id is None
            &&& cfg.scheduled_folder is Auto && ctx.scheduled_file_target_id is Some
                ==> is_first_named(mailboxes, "Scheduled"@, ctx.scheduled_file_target_id->0)
            &&& cfg.scheduled_folder is Named && ctx.scheduled_file_target_id is Some
                ==> is_first_named(
                mailboxes,
                cfg.scheduled_folder->Named_0@,
                ctx.scheduled_file_target_id->0,
            )
        }),
{
    let d = |m: ServerMailbox<Seq<char>>| is_drafts(m);
    let s = |m: ServerMailbox<Seq<char>>| is_sent(m);
    crate::search::lemma_first_from(mailboxes, d, 0);
    crate::search::lemma_first_from(mailboxes, s, 0);
    let i = first_where(mailboxes, d)->0;
    let k = first_where(mailboxes, s)->0;
    assert forall|j: int| 0 <= j < i implies (#[trigger] mailboxes[j]).role !is Drafts by {
        assert(!d(mailboxes[j]));
    }
    assert forall|j: int| 0 <= j < k implies (#[trigger] mailboxes[j]).role !is Sent by {
        assert(!s(mailboxes[j]));
    }
    assert(d(mailboxes[i]) && s(mailboxes[k]));
    match cfg.scheduled_folder {
        ScheduledFolder::Sent => {},
        ScheduledFolder::Auto => lemma_first_named(mailboxes, "Scheduled"@),
        ScheduledFolder::Named(name) => lemma_first_named(mailboxes, name@),
    }
}

/// The id is that of the first mailbox of the name, the case of letters aside.
pub open spec fn is_first_named(
    mailboxes: Seq<ServerMailbox<Seq<char>>>,
    name: Seq<char>,
    id: Seq<char>,
) -> bool {
    exists|k: int|
        0 <= k < mailboxes.len() && (#[trigger] mailboxes[k]).id == Some(id)
            && mailboxes[k].name is Some && same_ignoring_case(mailboxes[k].name->0, name)
            && forall|j: int|
            0 <= j < k && (#[trigger] mailboxes[j]).name is Some ==> !same_ignoring_case(
                mailboxes[j].name->0,
                name,
            )
}

proof fn lemma_first_named(mailboxes: Seq<ServerMailbox<Seq<char>>>, name: Seq<char>)
    ensures
        named(mailboxes, name) is Some ==> is_first_named(
            mailboxes,
            name,
            named(mailboxes, name)->0,
        ),
        named(mailboxes, name) is None ==> (forall|k: int|
            0 <= k < mailboxes.len() && (#[trigger] mailboxes[k]).id is Some
                && mailboxes[k].name is Some && same_ignoring_case(mailboxes[k].name->0, name)
                ==> exists|j: int|
                0 <= j < k && (#[trigger] mailboxes[j]).id is None && mailboxes[j].name is Some
                    && same_ignoring_case(mailboxes[j].name->0, name)),
{
    let p = |m: ServerMailbox<Seq<char>>| is_named(m, name);
    crate::search::lemma_first_from(mailboxes, p, 0);
    match first_where(mailboxes, p) {
        Some(i) => {
            assert(p(mailboxes[i]));
            assert forall|j: int| 0 <= j < i && (#[trigger] mailboxes[j]).name is Some implies
                !same_ignoring_case(mailboxes[j].name->0, name) by {
                assert(!p(mailboxes[j]));
            }
            if mailboxes[i].id is None {
                assert forall|k: int|
                    0 <= k < mailboxes.len() && (#[trigger] mailboxes[k]).id is Some
                        && mailboxes[k].name is Some && same_ignoring_case(
                        mailboxes[k].name->0,
                        name,
                    ) implies i < k by {
                    assert(p(mailboxes[k]));
                    if k < i {
                        assert(!p(mailboxes[k]));
                    }
                }
            }
        },
        None => {
            assert forall|k: int| 0 <= k < mailboxes.len() implies !p(#[trigger] mailboxes[k]) by {}
            assert forall|k: int|
                0 <= k < mailboxes.len() && (#[trigger] mailboxes[k]).name is Some implies
                !same_ignoring_case(mailboxes[k].name->0, name) by {
                assert(!p(mailboxes[k]));
            }
        },
    }
}

/// A mailbox is found by its name exactly if there is one of that name, the first such, as
/// long as the server gives every mailbox an id.
pub proof fn law_mailbox_is_found_by_its_name(
    mailboxes: Seq<ServerMailbox<Seq<char>>>,
    name: Seq<char>,
)
    requires
        forall|k: int| 0 <= k < mailboxes.len() ==> (#[trigger] mailboxes[k]).id is Some,
    ensures
        named(mailboxes, name) is Some <==> exists|k: int|
            0 <= k < mailboxes.len() && (#[trigger] mailboxes[k]).name is Some
                && same_ignoring_case(mailboxes[k].name->0, name),
        named(mailboxes, name) is Some ==> is_first_named(
            mailboxes,
            name,
            named(mailboxes, name)->0,
        ),
{
    lemma_first_named(mailboxes, name);
    if named(mailboxes, name) is None {
        assert forall|k: int| 0 <= k < mailboxes.len() && (#[trigger] mailboxes[k]).name is Some implies
            !same_ignoring_case(mailboxes[k].name->0, name) by {
            assert(mailboxes[k].id is Some);
        }
    }
}

/// An account can send exactly if it has an identity, drafts and sent mail, and what it
/// lacks is said in this order. Where messages with a sending time go is no reason not to
/// send.
pub proof fn law_context_says_what_is_lacking(
    account_id: Seq<char>,
    cfg: SubmitConfig,
    identities: Seq<Identity<Seq<char>>>,
    mailboxes: Seq<ServerMailbox<Seq<char>>>,
)
    requires
        forall|k: int| 0 <= k < mailboxes.len() ==> (#[trigger] mailboxes[k]).id is Some,
        cfg.identity_id is Some,
    ensures
        ({
            let r = resolved_context(account_id, cfg, identities, mailboxes);
            let drafts = exists|k: int|
                0 <= k < mailboxes.len() && (#[trigger] mailboxes[k]).role is Drafts;
            let sent = exists|k: int|
                0 <= k < mailboxes.len() && (#[trigger] mailboxes[k]).role is Sent;
            &&& r is Ok <==> drafts && sent
            &&& r is Ok ==> r->Ok_0.identity_id == cfg.identity_id->0@
            &&& r is Ok && cfg.scheduled_folder is Auto ==> (r->Ok_0.scheduled_file_target_id is Some
                <==> exists|k: int|
                0 <= k < mailboxes.len() && (#[trigger] mailboxes[k]).name is Some
                    && same_ignoring_case(mailboxes[k].name->0, "Scheduled"@))
            &&& r is Ok && cfg.scheduled_folder is Named ==> (
            r->Ok_0.scheduled_file_target_id is Some <==> exists|k: int|
                0 <= k < mailboxes.len() && (#[trigger] mailboxes[k]).name is Some
                    && same_ignoring_case(
                    mailboxes[k].name->0,
                    cfg.scheduled_folder->Named_0@,
                ))
            &&& !drafts ==> r == Err::<SubmitContext<Seq<char>>, ContextError<Seq<char>>>(
                ContextError::NoDrafts,
            )
            &&& drafts && !sent ==> r == Err::<SubmitContext<Seq<char>>, ContextError<Seq<char>>>(
                ContextError::NoSent,
            )
        }),
{
    match cfg.scheduled_folder {
        ScheduledFolder::Sent => {},
        ScheduledFolder::Auto => law_mailbox_is_found_by_its_name(mailboxes, "Scheduled"@),
        ScheduledFolder::Named(name) => law_mailbox_is_found_by_its_name(mailboxes, name@),
    }
    let d = |m: ServerMailbox<Seq<char>>| is_drafts(m);
    let s = |m: ServerMailbox<Seq<char>>| is_sent(m);
    crate::search::lemma_first_from(mailboxes, d, 0);
    crate::search::lemma_first_from(mailboxes, s, 0);
    match first_where(mailboxes, d) {
        Some(i) => {
            assert(d(mailboxes[i]));
            assert(mailboxes[i].id is Some);
        },
        None => {
            assert forall|k: int| 0 <= k < mailboxes.len() implies (#[trigger] mailboxes[k]).role !is Drafts by {
                assert(!d(mailboxes[k]));
            }
        },
    }
    match first_where(mailboxes, s) {
        Some(i) => {
            assert(s(mailboxes[i]));
            assert(mailboxes[i].id is Some);
        },
        None => {
            assert forall|k: int| 0 <= k < mailboxes.len() implies (#[trigger] mailboxes[k]).role !is Sent by {
                assert(!s(mailboxes[k]));
            }
        },
    }
}

/// A message without a sending time is filed with the sent mail. One with a sending time is
/// filed where such messages go, if the account has a place for them.
pub proof fn law_filing_goes_by_the_sending_time(ctx: SubmitContext<Seq<char>>)
    ensures
        file_target(ctx, false) == ctx.sent_id,
        ctx.scheduled_file_target_id is None ==> file_target(ctx, true) == ctx.sent_id,
        ctx.scheduled_file_target_id is Some ==> Some(file_target(ctx, true))
            == ctx.scheduled_file_target_id,
{
}

/// What a list of changes makes of a set: what is to be added is in it, what is to be taken
/// away is not, and the rest stays.
pub open spec fn changed_by(s: Set<Seq<char>>, changes: Seq<(Seq<char>, bool)>) -> Set<Seq<char>>
    decreases changes.len(),
{
    if changes.len() == 0 {
        s
    } else {
        let before = changed_by(s, changes.drop_last());
        if changes.last().1 {
            before.insert(changes.last().0)
        } else {
            before.remove(changes.last().0)
        }
    }
}

/// Everybody who is in the envelope is in what the server is asked, in the same order, and
/// nobody else; the sender is the envelope's. A message that was taken in stands, once it
/// has been sent, where it is to be filed and nowhere else, is no draft and is read.
pub proof fn law_submission_is_for_the_envelope(
    ctx: &SubmitContext,
    sc: &SidecarState,
    send_at: Option<Timestamp>,
    r: Submission,
)
    requires
        call_ensures(plan_submission, (ctx, sc, send_at), r),
    ensures
        views(r.to@) == views(sc.envelope.to@),
        r.from@ == sc.envelope.from@,
        r.send_at == send_at,
        r.identity_id@ == ctx.identity_id@,
        views(r.import_mailboxes@) == seq![ctx.drafts_id@],
        changed_by(views(r.import_mailboxes@).to_set(), change_views(r.mailbox_changes@))
            == Set::<Seq<char>>::empty().insert(
            if send_at is Some && ctx.scheduled_file_target_id is Some {
                ctx.scheduled_file_target_id->0@
            } else {
                ctx.sent_id@
            },
        ),
        changed_by(views(r.import_keywords@).to_set(), change_views(r.keyword_changes@))
            == Set::<Seq<char>>::empty().insert("$seen"@),
        views(r.import_keywords@).contains("$draft"@),
{
    reveal_with_fuel(changed_by, 3);
    let m = r@.mailbox_changes;
    let k = r@.keyword_changes;
    let target = file_target(ctx@, send_at is Some);
    assert(m.drop_last() =~= seq![(ctx.drafts_id@, false)]);
    assert(m.drop_last().drop_last() =~= Seq::empty());
    assert(k.drop_last() =~= seq![("$draft"@, false)]);
    assert(k.drop_last().drop_last() =~= Seq::empty());
    let a = views(r.import_mailboxes@);
    let b = views(r.import_keywords@);
    assert(a =~= seq![ctx.drafts_id@]);
    assert(a[0] == ctx.drafts_id@);
    assert(b =~= seq!["$draft"@]);
    assert(b[0] == "$draft"@);
    assert(a.to_set().remove(ctx.drafts_id@) =~= Set::empty());
    assert(b.to_set().remove("$draft"@) =~= Set::empty());
    assert(m.last() == (target, true));
    assert(k.last() == ("$seen"@, true));
    assert(changed_by(a.to_set(), m.drop_last()) == a.to_set().remove(ctx.drafts_id@));
    assert(changed_by(b.to_set(), k.drop_last()) == b.to_set().remove("$draft"@));
}

/// The server is asked exactly if the envelope has a sender and somebody to go to who is
/// more than white space, and the sending time, if there is one, can be read. What is asked
/// then has a sending time exactly if the record has one. If the server is not asked, the
/// attempt has failed for good.
pub proof fn law_only_a_whole_record_is_submitted(
    ctx: &SubmitContext,
    sc: &SidecarState,
    r: Result<Submission, SubmitOutcome>,
)
    requires
        call_ensures(prepare_submission, (ctx, sc), r),
    ensures
        r is Ok <==> {
            &&& exists|i: int|
                0 <= i < sc.envelope.from@.len() && !is_white(#[trigger] sc.envelope.from@[i])
            &&& exists|k: int, i: int|
                0 <= k < sc.envelope.to@.len() && 0 <= i < sc.envelope.to@[k]@.len() && !is_white(
                    #[trigger] sc.envelope.to@[k]@[i],
                )
            &&& sc.send_at is Some ==> rfc3339_parsed(sc.send_at->0@) is Ok
        },
        r is Err ==> r->Err_0 is Permanent,
        r is Ok ==> views(r->Ok_0.to@) == views(sc.envelope.to@),
        r is Ok ==> r->Ok_0.from@ == sc.envelope.from@,
        r is Ok ==> (r->Ok_0.send_at is Some <==> sc.send_at is Some),
        r is Ok && sc.send_at is Some ==> {
            &&& r->Ok_0.send_at->0.secs == rfc3339_parsed(sc.send_at->0@)->Ok_0.0
            &&& r->Ok_0.send_at->0.nanos == rfc3339_parsed(sc.send_at->0@)->Ok_0.1
        },
{
    let env = sc@.envelope;
    let named = exists|k: int, i: int|
        0 <= k < sc.envelope.to@.len() && 0 <= i < sc.envelope.to@[k]@.len() && !is_white(
            #[trigger] sc.envelope.to@[k]@[i],
        );
    if named {
        let (k, i) = choose|k: int, i: int|
            0 <= k < sc.envelope.to@.len() && 0 <= i < sc.envelope.to@[k]@.len() && !is_white(
                #[trigger] sc.envelope.to@[k]@[i],
            );
        assert(env.to[k] == sc.envelope.to@[k]@);
        assert(!is_white(env.to[k][i]));
        assert(!is_blank(env.to[k]));
    } else {
        assert forall|k: int| 0 <= k < env.to.len() implies is_blank(#[trigger] env.to[k]) by {
            assert(env.to[k] == sc.envelope.to@[k]@);
            assert forall|i: int| 0 <= i < env.to[k].len() implies is_white(#[trigger] env.to[k][i]) by {
                assert(is_white(sc.envelope.to@[k]@[i]));
            }
        }
    }
    assert(env.from == sc.envelope.from@);
}

/// What one answer speaks against: an error does, and so does a message that was not taken
/// in or was not said to be taken in, and a fault in taking back or in sending, or that
/// nothing was sent. Nothing else does. Only that the message is there already is looked
/// into; all else that the server refuses is final, but for an error that may pass.
pub proof fn law_answer_is_read_in_full(p: &Reply, r: Option<Verdict>)
    requires
        call_ensures(interpret_reply, (p,), r),
    ensures
        p is Error ==> r is Some && r->0 is Ended && (r->0->Ended_0 is Transient
            <==> p->Error_0.kind is ServerUnavailable || p->Error_0.kind is ServerFail
            || p->Error_0.kind is ServerPartialFail),
        *p matches Reply::Import { not_created, fault, exists, created } ==> {
            &&& r is None <==> not_created@.len() == 0 && created@.len() > 0
            &&& r is Some && r->0 is Exists <==> not_created@.len() > 0 && exists
            &&& r is Some && r->0 is Ended ==> r->0->Ended_0 is Permanent
            &&& not_created@.len() > 0 && fault is Some && r->0 is Exists ==> has_suffix(
                r->0->Exists_0@,
                fault->0@,
            )
            &&& not_created@.len() > 0 && fault is Some && r->0 is Ended ==> has_suffix(
                r->0->Ended_0->Permanent_0@,
                fault->0@,
            )
            &&& not_created@.len() > 0 && fault is None && r->0 is Exists ==> has_suffix(
                r->0->Exists_0@,
                debug_list(views(not_created@)),
            )
            &&& not_created@.len() > 0 && fault is None && r->0 is Ended ==> has_suffix(
                r->0->Ended_0->Permanent_0@,
                debug_list(views(not_created@)),
            )
        },
        *p matches Reply::Cancelled { fault } ==> {
            &&& r is Some <==> fault is Some
            &&& r is Some ==> r->0 is Ended && r->0->Ended_0 is Permanent && has_suffix(
                r->0->Ended_0->Permanent_0@,
                fault->0@,
            )
        },
        *p matches Reply::Submission { fault, has_created } ==> {
            &&& r is None <==> fault is None && has_created
            &&& r is Some ==> r->0 is Ended && r->0->Ended_0 is Permanent
            &&& fault is Some ==> has_suffix(r->0->Ended_0->Permanent_0@, fault->0@)
        },
        p is Other ==> r is None,
{
    match p@ {
        Reply::Import { not_created, fault, exists, created } => {
            assert(p->not_created@.len() == not_created.len());
            assert(p->created@.len() == created.len());
            match fault {
                Some(e) => {
                    let said = "Email/import: "@ + e;
                    assert(said.subrange(said.len() - e.len(), said.len() as int) =~= e);
                },
                None => {
                    let list = debug_list(not_created);
                    let said = "Email/import not_created: "@ + list;
                    assert(said.subrange(said.len() - list.len(), said.len() as int) =~= list);
                },
            }
        },
        Reply::Cancelled { fault: Some(e) } => {
            let said = "EmailSubmission/set: "@ + e;
            assert(said.subrange(said.len() - e.len(), said.len() as int) =~= e);
        },
        Reply::Submission { fault: Some(e), has_created } => {
            let said = "EmailSubmission/set: "@ + e;
            assert(said.subrange(said.len() - e.len(), said.len() as int) =~= e);
        },
        _ => {},
    }
}

/// What decides is the first answer that speaks against success: those behind it change
/// nothing.
pub proof fn law_first_bad_answer_decides(
    replies: Seq<Reply<Seq<char>, Seq<Seq<char>>>>,
    k: int,
)
    requires
        0 <= k < replies.len(),
        reply_verdict(replies[k]) is Some,
        forall|i: int| 0 <= i < k ==> reply_verdict(#[trigger] replies[i]) is None,
    ensures
        Some(replies_verdict(replies)) == reply_verdict(replies[k]),
        replies_verdict(replies) == replies_verdict(replies.take(k + 1)),
{
    let bad = |p: Reply<Seq<char>, Seq<Seq<char>>>| is_bad(p);
    assert forall|i: int| 0 <= i < k implies !bad(#[trigger] replies[i]) by {
        assert(reply_verdict(replies[i]) is None);
    }
    assert(bad(replies[k]));
    lemma_first_is(replies, bad, k);
    let short = replies.take(k + 1);
    assert forall|i: int| 0 <= i < k implies !bad(#[trigger] short[i]) by {
        assert(short[i] == replies[i]);
    }
    assert(bad(short[k]));
    lemma_first_is(short, bad, k);
}

/// A message that is not found is given up with the reason that the server gave for refusing
/// it. Of one that is found, all that is pending is taken back before it is sent anew, unless
/// it has been sent; it is never given up.
pub proof fn law_lookup_decides(
    reason: String,
    found: Option<Existing>,
    ctx: &SubmitContext,
    plan: &Submission,
    r: ReconcileStep,
)
    requires
        call_ensures(reconcile, (reason, found, ctx, plan), r),
    ensures
        found is None ==> r@ == ReconcileStep::<Seq<char>, Seq<Seq<char>>>::Done(
            SubmitOutcome::Permanent(reason@),
        ),
        found is Some ==> {
            let e = found->0;
            &&& r is Done <==> views(e.mailbox_ids@).contains(ctx.sent_id@)
            &&& r is Done ==> r->Done_0 is Success
            &&& r is Resubmit ==> r->email_id@ == e.email_id@
            &&& r is Resubmit ==> views(r->cancel_ids@) == views(e.pending_ids@)
            &&& r is Resubmit ==> r->send_at == plan.send_at
        },
{
    match found {
        Some(e) => {
            if views(e.pending_ids@).len() == 0 {
                assert(views(e.pending_ids@) =~= Seq::empty());
            }
        },
        None => {},
    }
}

/// The second answer to a message that is there already is final: it is not looked into
/// again.
pub proof fn law_resubmission_is_not_looked_into_again(v: Verdict, o: SubmitOutcome)
    requires
        call_ensures(resubmit_outcome, (v,), o),
    ensures
        v is Exists ==> o is Permanent && o->Permanent_0@ == v->Exists_0@,
        v is Ended ==> o@ == v->Ended_0@,
{
}

/// A wait ends in the second that it reaches, and at the end of time at the latest: never
/// before it began, and a longer one never sooner.
pub proof fn law_wait_ends_when_it_has_passed(epoch: u64, wait: int, longer: int)
    requires
        0 <= wait <= longer,
    ensures
        epoch <= wait_ends(epoch, wait) <= wait_ends(epoch, longer),
        wait_ends(epoch, wait) < u64::MAX ==> {
            &&& (wait_ends(epoch, wait) - epoch) * 1_000_000_000 <= wait
            &&& wait < (wait_ends(epoch, wait) - epoch + 1) * 1_000_000_000
        },
        epoch + wait / 1_000_000_000 <= u64::MAX ==> wait_ends(epoch, wait) == epoch + wait
            / 1_000_000_000,
        epoch + wait / 1_000_000_000 > u64::MAX ==> wait_ends(epoch, wait) == u64::MAX,
{
}

/// An error of a method ends an attempt for good unless the server says that it cannot serve
/// it now; what the server says is in the reason.
pub proof fn law_method_error_is_final_or_passes(me: &MethodError, o: SubmitOutcome)
    requires
        call_ensures(SubmitOutcome::from_method_error, (me,), o),
    ensures
        o !is Success,
        o is Transient <==> me.kind is ServerUnavailable || me.kind is ServerFail
            || me.kind is ServerPartialFail,
        has_suffix(reason_of(o@), me.text@),
{
    let said = reason_of(o@);
    assert(said.subrange(said.len() - me.text@.len(), said.len() as int) =~= me.text@);
}

/// A sending time that can be read is the one that is asked for; one that cannot ends the
/// attempt for good, with what is wrong with it in the reason.
pub proof fn law_schedule_is_as_it_reads(
    value: &str,
    parsed: Result<(i64, u32), String>,
    r: Result<Timestamp, SubmitOutcome>,
)
    requires
        call_ensures(check_schedule, (value, parsed), r),
    ensures
        r is Ok <==> parsed is Ok,
        r is Ok ==> r->Ok_0.secs == parsed->Ok_0.0 && r->Ok_0.nanos == parsed->Ok_0.1,
        r is Err ==> r->Err_0 is Permanent && has_suffix(
            r->Err_0->Permanent_0@,
            parsed->Err_0@,
        ) && has_prefix(r->Err_0->Permanent_0@, "sidecar send_at "@ + debug_text(value@)),
{
    match parsed {
        Ok(_) => {},
        Err(e) => {
            let said = r->Err_0->Permanent_0@;
            assert(said == bad_schedule(value@, e@));
            let head = "sidecar send_at "@ + debug_text(value@);
            assert(said.subrange(0, head.len() as int) =~= head);
            assert(said.subrange(said.len() - e@.len(), said.len() as int) =~= e@);
        },
    }
}

/// An account without a configured identity that the server knows no identity for cannot
/// send, whatever mailboxes it has, and the address is told.
pub proof fn law_account_without_identity_cannot_send(
    account_id: Seq<char>,
    cfg: SubmitConfig,
    identities: Seq<Identity<Seq<char>>>,
    mailboxes: Seq<ServerMailbox<Seq<char>>>,
)
    requires
        cfg.identity_id is None,
        forall|k: int|
            0 <= k < identities.len() && (#[trigger] identities[k]).email is Some
                ==> !same_ignoring_case(identities[k].email->0, cfg.from_address@),
    ensures
        resolved_context(account_id, cfg, identities, mailboxes) == Err::<
            SubmitContext<Seq<char>>,
            ContextError<Seq<char>>,
        >(ContextError::NoIdentity(cfg.from_address@)),
{
    let p = |i: Identity<Seq<char>>| identity_for(i, cfg.from_address@);
    assert forall|k: int| 0 <= k < identities.len() implies !p(#[trigger] identities[k]) by {
        assert(identities[k].email is Some ==> !same_ignoring_case(
            identities[k].email->0,
            cfg.from_address@,
        ));
    }
    lemma_first_none(identities, p);
}

/// The user reads for which address there is no identity, and which mailbox is missing.
pub proof fn law_context_error_says_what_is_missing(e: ContextError<Seq<char>>)
    ensures
        e is NoIdentity ==> has_prefix(
            context_error_text(e),
            "no JMAP Identity matches from_address "@ + debug_text(e->NoIdentity_0),
        ),
        context_error_text(ContextError::NoDrafts) != context_error_text(ContextError::NoSent),
{
    if e is NoIdentity {
        let t = context_error_text(e);
        let head = "no JMAP Identity matches from_address "@ + debug_text(e->NoIdentity_0);
        assert(t.subrange(0, head.len() as int) =~= head);
    }
    reveal_strlit("no Drafts mailbox (role=drafts) on the account — send path cannot start");
    reveal_strlit("no Sent mailbox (role=sent) on the account — send path cannot start");
    assert("no Drafts mailbox (role=drafts) on the account — send path cannot start"@[3] == 'D');
    assert("no Sent mailbox (role=sent) on the account — send path cannot start"@[3] == 'S');
}

/// A message that the server has is done with exactly if it stands among the sent ones. If
/// not, and something is pending for it, all of that is taken back first; if nothing is, it
/// is only sent. The time is the one that was asked for.
pub proof fn law_pending_is_taken_back_first(
    email_mailbox_ids: &[String],
    pending_submission_ids: &[String],
    sent_id: &str,
    sidecar_send_at: Option<Timestamp>,
    r: ReconcileAction,
)
    requires
        call_ensures(
            reconcile_action,
            (email_mailbox_ids, pending_submission_ids, sent_id, sidecar_send_at),
            r,
        ),
    ensures
        ({
            let sent = exists|k: int|
                0 <= k < email_mailbox_ids@.len() && (#[trigger] email_mailbox_ids@[k])@ == sent_id@;
            &&& r is AlreadyDone <==> sent
            &&& r is CancelAndResubmit <==> !sent && pending_submission_ids@.len() > 0
            &&& r is CreateSubmission <==> !sent && pending_submission_ids@.len() == 0
            &&& r is CancelAndResubmit ==> views(r->destroy_ids@) == views(
                pending_submission_ids@,
            ) && r->CancelAndResubmit_send_at == sidecar_send_at
            &&& r is CreateSubmission ==> r->CreateSubmission_send_at == sidecar_send_at
        }),
{
    let ids = views(email_mailbox_ids@);
    assert(views(pending_submission_ids@).len() == pending_submission_ids@.len());
    if ids.contains(sent_id@) {
        let k = choose|k: int| 0 <= k < ids.len() && ids[k] == sent_id@;
        assert(email_mailbox_ids@[k]@ == sent_id@);
    }
    if exists|k: int|
        0 <= k < email_mailbox_ids@.len() && (#[trigger] email_mailbox_ids@[k])@ == sent_id@ {
        let k = choose|k: int|
            0 <= k < email_mailbox_ids@.len() && (#[trigger] email_mailbox_ids@[k])@ == sent_id@;
        assert(ids[k] == sent_id@);
    }
}

} // verus!
