//! Riding out failures: how long to wait before the next attempt, and what the user
//! is told.

use vstd::prelude::*;
use vstd::string::*;

use crate::daemon::span::{doubled, least, Span};
use crate::outside::{to_upper, upper_case};
use crate::search::{before_first, find, first_where, lemma_find, lemma_find_append, lemma_find_is, lemma_find_none, lemma_first_is, lemma_first_none, occurs_at, split_first};
use crate::text::{before, chars_of, has_prefix, has_suffix, opt_list_view, opt_view, split_once, string_of, substring, views};

verus! {

// ---------------------------------------------------------------------------
// Backing off
// ---------------------------------------------------------------------------

/// How long to wait before each of a row of attempts: at first the base, then twice
/// as long every time, up to the cap.
pub struct RetryBackoff {
    base: Span,
    cap: Span,
    next: Span,
}

/// How long the wait number `n` is, counted from zero.
pub open spec fn delay_number(base: u128, cap: u128, n: nat) -> u128
    decreases n,
{
    if n == 0 {
        base
    } else {
        least(doubled(delay_number(base, cap, (n - 1) as nat)), cap)
    }
}

impl RetryBackoff {
    pub closed spec fn base(self) -> u128 {
        self.base.nanos
    }

    pub closed spec fn cap(self) -> u128 {
        self.cap.nanos
    }

    /// How long the next wait is.
    pub closed spec fn upcoming(self) -> u128 {
        self.next.nanos
    }

    pub fn new(base: Span, cap: Span) -> (r: Self)
        ensures
            r.base() == base.nanos,
            r.cap() == cap.nanos,
            r.upcoming() == base.nanos,
    {
        RetryBackoff { base, cap, next: base }
    }

    /// How long to wait now.
    pub fn take_delay(&mut self) -> (r: Span)
        ensures
            r.nanos == old(self).upcoming(),
            final(self).upcoming() == least(doubled(old(self).upcoming()), old(self).cap()),
            final(self).base() == old(self).base(),
            final(self).cap() == old(self).cap(),
    {
        let delay = self.next;
        self.next = self.next.double().min(self.cap);
        delay
    }

    /// Begins again.
    pub fn reset(&mut self)
        ensures
            final(self).upcoming() == old(self).base(),
            final(self).base() == old(self).base(),
            final(self).cap() == old(self).cap(),
    {
        self.next = self.base;
    }
}

/// A wait is never longer than the cap, but for the first; with a base below the cap
/// no wait is longer than the cap or shorter than the one before.
pub proof fn law_delays_grow_to_the_cap(base: u128, cap: u128, n: nat)
    ensures
        n > 0 ==> delay_number(base, cap, n) <= cap,
        base <= cap <= crate::daemon::span::LONGEST_NANOS ==> delay_number(base, cap, n)
            <= delay_number(base, cap, n + 1) <= cap,
    decreases n,
{
    if n > 0 {
        law_delays_grow_to_the_cap(base, cap, (n - 1) as nat);
    }
}

// ---------------------------------------------------------------------------
// Waiting
// ---------------------------------------------------------------------------

/// How waiting for the network ended.
#[derive(Clone, Copy, Debug, PartialEq, Eq, Structural)]
pub enum NetworkWait {
    Online,
    /// It cannot be told.
    Unavailable,
    Cancelled,
}

/// What to do after waiting for the network.
#[derive(Clone, Copy, Debug, PartialEq, Eq, Structural)]
pub enum WaitStep {
    /// Give up: the daemon is shutting down.
    Stop,
    /// Wait for this long, unless the daemon is shut down meanwhile.
    Sleep(Span),
    /// Try again at once.
    Proceed,
}

/// How waiting for the network ended, by how the program that waits for it did: by
/// whether it succeeded, or nothing where it could not be run.
pub fn network_verdict(exit: Option<bool>) -> (r: NetworkWait)
    ensures
        r == (if exit == Some(true) {
            NetworkWait::Online
        } else {
            NetworkWait::Unavailable
        }),
{
    match exit {
        Some(true) => NetworkWait::Online,
        _ => NetworkWait::Unavailable,
    }
}

/// What to do after waiting for the network took `elapsed`: an attempt comes no
/// earlier than the backoff permits.
pub fn after_network_wait(outcome: NetworkWait, minimum_delay: Span, elapsed: Span) -> (r: WaitStep)
    ensures
        r == (if outcome == NetworkWait::Cancelled {
            WaitStep::Stop
        } else if elapsed.nanos < minimum_delay.nanos {
            WaitStep::Sleep(Span { nanos: (minimum_delay.nanos - elapsed.nanos) as u128 })
        } else {
            WaitStep::Proceed
        }),
{
    match outcome {
        NetworkWait::Cancelled => WaitStep::Stop,
        _ => {
            let remaining = minimum_delay.saturating_sub(elapsed);
            if remaining.is_zero() {
                WaitStep::Proceed
            } else {
                WaitStep::Sleep(remaining)
            }
        },
    }
}

// ---------------------------------------------------------------------------
// Labels
// ---------------------------------------------------------------------------

/// A text with its first character in upper case.
pub open spec fn capitalized(value: Seq<char>) -> Seq<char> {
    if value.len() == 0 {
        value
    } else {
        upper_case(value[0]) + value.skip(1)
    }
}

/// A text that is not empty, with `capital` for its first character.
pub fn with_capital(capital: &str, value: &str) -> (r: String)
    requires
        value@.len() > 0,
    ensures
        r@ == capital@ + value@.skip(1),
{
    let v = chars_of(value);
    let mut out: String = capital.to_owned();
    let rest = substring(&v, 1, v.len());
    assert(rest@ =~= value@.skip(1));
    out.append(rest.as_str());
    out
}

/// A name as the user reads it: with a capital.
pub fn display_label(value: &str) -> (r: String)
    ensures
        r@ == capitalized(value@),
{
    let v = chars_of(value);
    if v.len() == 0 {
        return value.to_owned();
    }
    let capital = to_upper(v[0]);
    with_capital(capital.as_str(), value)
}

/// The runs of characters between dots, without empty ones.
pub open spec fn dotted(s: Seq<char>) -> Seq<Seq<char>>
    decreases s.len(),
{
    if s.len() == 0 {
        Seq::empty()
    } else {
        let before = dotted(s.drop_last());
        let c = s.last();
        if c == '.' {
            before
        } else if s.len() == 1 || s[s.len() - 2] == '.' {
            before.push(seq![c])
        } else {
            before.drop_last().push(before.last().push(c))
        }
    }
}

/// A text that does not end in a dot has a last run.
proof fn lemma_dotted(s: Seq<char>)
    requires
        s.len() > 0,
        s.last() != '.',
    ensures
        dotted(s).len() > 0,
    decreases s.len(),
{
}

fn split_dots(s: &Vec<char>) -> (r: Vec<Vec<char>>)
    ensures
        r@.map_values(|v: Vec<char>| v@) == dotted(s@),
{
    let mut out: Vec<Vec<char>> = Vec::new();
    let mut i: usize = 0;
    assert(s@.take(0) =~= Seq::empty());
    assert(out@.map_values(|v: Vec<char>| v@) =~= dotted(s@.take(0)));
    while i < s.len()
        invariant
            i <= s@.len(),
            out@.map_values(|v: Vec<char>| v@) == dotted(s@.take(i as int)),
        decreases s@.len() - i,
    {
        let ghost t = s@.take(i + 1);
        let ghost before = out@.map_values(|v: Vec<char>| v@);
        assert(t.drop_last() =~= s@.take(i as int));
        let c = s[i];
        if c != '.' {
            if i == 0 || s[i - 1] == '.' {
                let mut v: Vec<char> = Vec::new();
                v.push(c);
                out.push(v);
                assert(out@.map_values(|v: Vec<char>| v@) =~= before.push(seq![c]));
            } else {
                proof {
                    assert(s@.take(i as int).last() == s@[i - 1]);
                    lemma_dotted(s@.take(i as int));
                    assert(out@.len() == before.len());
                }
                let n: usize = out.len() - 1;
                let mut v = out.pop().unwrap();
                assert(v@ == before.last());
                v.push(c);
                out.push(v);
                assert(out@.map_values(|v: Vec<char>| v@) =~= before.drop_last().push(
                    before.last().push(c),
                ));
            }
        }
        i += 1;
    }
    assert(s@.take(i as int) =~= s@);
    out
}

/// The host in a server's address: between a scheme and a port or a path.
pub open spec fn host_name(jmap_host: Seq<char>) -> Seq<char> {
    let rest = match split_first(jmap_host, "://"@) {
        Some(p) => p.1,
        None => jmap_host,
    };
    before_first(before_first(rest, "/"@), ":"@)
}

/// Who runs a server: the label before the last of its host's name, or the whole name
/// where it has fewer than two.
pub open spec fn provider_of(jmap_host: Seq<char>) -> Seq<char> {
    let host = host_name(jmap_host);
    let labels = dotted(host);
    if labels.len() >= 2 {
        labels[labels.len() - 2]
    } else {
        host
    }
}

/// Who runs a server, as the user reads it.
pub fn server_label(jmap_host: &str) -> (r: String)
    ensures
        r@ == capitalized(provider_of(jmap_host@)),
{
    let rest = match split_once(jmap_host, "://") {
        Some((_, tail)) => tail,
        None => jmap_host.to_owned(),
    };
    let authority = before(rest.as_str(), "/");
    let host = before(authority.as_str(), ":");
    let labels = split_dots(&chars_of(host.as_str()));
    let ghost lv = labels@.map_values(|v: Vec<char>| v@);
    assert(lv.len() == labels@.len());
    if labels.len() >= 2 {
        let provider = string_of(&labels[labels.len() - 2]);
        assert(provider@ == lv[lv.len() - 2]);
        display_label(provider.as_str())
    } else {
        display_label(host.as_str())
    }
}

// ---------------------------------------------------------------------------
// Telling the user
// ---------------------------------------------------------------------------

/// A message on the user's screen. `T` is a text.
#[derive(Debug)]
#[verifier::ext_equal]
pub struct Notification<T = String> {
    pub urgency: T,
    pub icon: T,
    pub summary: T,
    pub body: T,
}

impl View for Notification<String> {
    type V = Notification<Seq<char>>;

    open spec fn view(&self) -> Self::V {
        Notification {
            urgency: self.urgency@,
            icon: self.icon@,
            summary: self.summary@,
            body: self.body@,
        }
    }
}

/// The view of an optional notification.
pub open spec fn opt_notification_view(o: Option<Notification>) -> Option<Notification<Seq<char>>> {
    match o {
        Some(n) => Some(n@),
        None => None,
    }
}

/// The arguments that show a notification.
pub fn notification_args(n: &Notification) -> (r: Vec<String>)
    ensures
        views(r@) == seq![
            "--app-name=jmapsyncd"@,
            "--urgency="@ + n@.urgency,
            "--icon="@ + n@.icon,
            n@.summary,
            n@.body,
        ],
{
    let mut urgency: String = "--urgency=".to_owned();
    urgency.append(n.urgency.as_str());
    let mut icon: String = "--icon=".to_owned();
    icon.append(n.icon.as_str());
    let mut out: Vec<String> = Vec::new();
    out.push("--app-name=jmapsyncd".to_owned());
    out.push(urgency);
    out.push(icon);
    out.push(n.summary.clone());
    out.push(n.body.clone());
    assert(views(out@) =~= seq![
        "--app-name=jmapsyncd"@,
        "--urgency="@ + n@.urgency,
        "--icon="@ + n@.icon,
        n@.summary,
        n@.body,
    ]);
    out
}

/// Tells the user of an account's server once when it cannot be reached, and once
/// when it can be again.
pub struct FailureNotifier {
    account: String,
    server: String,
    failed: bool,
}

impl FailureNotifier {
    /// The account as the user reads it.
    pub closed spec fn account_label(self) -> Seq<char> {
        self.account@
    }

    /// The server as the user reads it.
    pub closed spec fn server_label(self) -> Seq<char> {
        self.server@
    }

    /// The user has been told of a failure, and of no recovery since.
    pub closed spec fn is_down(self) -> bool {
        self.failed
    }

    pub fn new(account: &str, jmap_host: &str) -> (r: Self)
        ensures
            r.account_label() == capitalized(account@),
            r.server_label() == capitalized(provider_of(jmap_host@)),
            !r.is_down(),
    {
        FailureNotifier {
            account: display_label(account),
            server: server_label(jmap_host),
            failed: false,
        }
    }

    /// Whether the user has been told of a failure, and of no recovery since.
    pub fn down(&self) -> (r: bool)
        ensures
            r == self.is_down(),
    {
        self.failed
    }

    /// The server cannot be reached. What the user is to be told, if they do not know.
    pub fn failed(&mut self) -> (r: Option<Notification>)
        ensures
            final(self).is_down(),
            final(self).account_label() == old(self).account_label(),
            final(self).server_label() == old(self).server_label(),
            opt_notification_view(r) == (if old(self).is_down() {
                None
            } else {
                Some(
                    Notification {
                        urgency: "normal"@,
                        icon: "network-error-symbolic"@,
                        summary: old(self).account_label() + " eMail Down"@,
                        body: old(self).server_label() + " server is unreachable."@,
                    },
                )
            }),
    {
        if self.failed {
            return None;
        }
        self.failed = true;
        let mut summary = self.account.clone();
        summary.append(" eMail Down");
        let mut body = self.server.clone();
        body.append(" server is unreachable.");
        Some(
            Notification {
                urgency: "normal".to_owned(),
                icon: "network-error-symbolic".to_owned(),
                summary,
                body,
            },
        )
    }

    /// The server has been reached. What the user is to be told, if they have been told
    /// of a failure.
    pub fn recovered(&mut self, icon: &str) -> (r: Option<Notification>)
        ensures
            !final(self).is_down(),
            final(self).account_label() == old(self).account_label(),
            final(self).server_label() == old(self).server_label(),
            opt_notification_view(r) == (if !old(self).is_down() {
                None
            } else {
                Some(
                    Notification {
                        urgency: "normal"@,
                        icon: icon@,
                        summary: old(self).account_label() + " eMail Up"@,
                        body: old(self).server_label() + " server is reachable."@,
                    },
                )
            }),
    {
        if !self.failed {
            return None;
        }
        self.failed = false;
        let mut summary = self.account.clone();
        summary.append(" eMail Up");
        let mut body = self.server.clone();
        body.append(" server is reachable.");
        Some(
            Notification {
                urgency: "normal".to_owned(),
                icon: icon.to_owned(),
                summary,
                body,
            },
        )
    }
}

/// A path below a directory.
pub open spec fn below(dir: Seq<char>, rest: Seq<char>) -> Seq<char> {
    if dir.len() == 0 || dir.last() == '/' {
        dir + rest
    } else {
        dir + "/"@ + rest
    }
}

fn join_below(dir: &str, rest: &str) -> (r: String)
    ensures
        r@ == below(dir@, rest@),
{
    let v = chars_of(dir);
    let mut out: String = dir.to_owned();
    if v.len() > 0 && v[v.len() - 1] != '/' {
        out.append("/");
    }
    out.append(rest);
    out
}

/// The directories that icons are looked for in: the user's own first, then those of
/// the system.
pub open spec fn data_dirs(
    data_home: Option<Seq<char>>,
    home: Option<Seq<char>>,
    system: Option<Seq<Seq<char>>>,
) -> Seq<Seq<char>> {
    (match (data_home, home) {
        (Some(d), _) => seq![d],
        (None, Some(h)) => seq![below(h, ".local/share"@)],
        (None, None) => Seq::empty(),
    }) + (match system {
        Some(s) => s,
        None => seq!["/usr/local/share"@, "/usr/share"@],
    })
}

/// Where the icon for a server that can be reached may stand, in the order in which to
/// look.
pub fn icon_candidates(
    data_home: &Option<String>,
    home: &Option<String>,
    system: &Option<Vec<String>>,
) -> (r: Vec<String>)
    ensures
        views(r@) == data_dirs(
            opt_view(*data_home),
            opt_view(*home),
            opt_list_view(*system),
        ).map_values(
            |d: Seq<char>|
                below(d, "icons/hicolor/scalable/status/network-connected-symbolic.svg"@),
        ),
{
    let mut dirs: Vec<String> = Vec::new();
    match (data_home, home) {
        (Some(d), _) => dirs.push(d.clone()),
        (None, Some(h)) => dirs.push(join_below(h.as_str(), ".local/share")),
        (None, None) => {},
    }
    let ghost own = views(dirs@);
    match system {
        Some(s) => {
            let mut i: usize = 0;
            while i < s.len()
                invariant
                    i <= s@.len(),
                    views(dirs@) == own + views(s@).take(i as int),
                decreases s@.len() - i,
            {
                let ghost before = views(dirs@);
                dirs.push(s[i].clone());
                assert(views(dirs@) =~= before.push(views(s@)[i as int]));
                i += 1;
                assert(views(dirs@) =~= own + views(s@).take(i as int));
            }
            assert(views(s@).take(i as int) =~= views(s@));
        },
        None => {
            dirs.push("/usr/local/share".to_owned());
            dirs.push("/usr/share".to_owned());
        },
    }
    let ghost all = data_dirs(
        opt_view(*data_home),
        opt_view(*home),
        opt_list_view(*system),
    );
    assert(views(dirs@) =~= all);
    let ghost place = |d: Seq<char>|
        below(d, "icons/hicolor/scalable/status/network-connected-symbolic.svg"@);
    let mut out: Vec<String> = Vec::new();
    let mut i: usize = 0;
    while i < dirs.len()
        invariant
            i <= dirs@.len(),
            views(dirs@) == all,
            place == (|d: Seq<char>|
                below(d, "icons/hicolor/scalable/status/network-connected-symbolic.svg"@)),
            views(out@) == all.map_values(place).take(i as int),
        decreases dirs@.len() - i,
    {
        let ghost before = views(out@);
        out.push(
            join_below(
                dirs[i].as_str(),
                "icons/hicolor/scalable/status/network-connected-symbolic.svg",
            ),
        );
        assert(views(dirs@)[i as int] == dirs@[i as int]@);
        assert(views(out@) =~= before.push(place(all[i as int])));
        i += 1;
        assert(views(out@) =~= all.map_values(place).take(i as int));
    }
    assert(all.map_values(place).take(i as int) =~= all.map_values(place));
    out
}

/// The icon for a server that can be reached: the first of the candidates that is there,
/// or the name of the icon.
pub open spec fn found_icon(candidates: Seq<Seq<char>>, there: Seq<bool>) -> Seq<char> {
    match first_where(there, |b: bool| b) {
        Some(i) => candidates[i],
        None => "network-connected-symbolic"@,
    }
}

/// The icon for a server that can be reached, by which of the candidates are there.
pub fn connected_icon(candidates: &Vec<String>, there: &Vec<bool>) -> (r: String)
    requires
        candidates@.len() == there@.len(),
    ensures
        r@ == found_icon(views(candidates@), there@),
{
    let ghost yes = |b: bool| b;
    let mut i: usize = 0;
    while i < there.len()
        invariant
            i <= there@.len(),
            candidates@.len() == there@.len(),
            yes == (|b: bool| b),
            forall|j: int| 0 <= j < i ==> !yes(#[trigger] there@[j]),
        decreases there@.len() - i,
    {
        if there[i] {
            proof {
                assert(yes(there@[i as int]));
                lemma_first_is(there@, yes, i as int);
            }
            return candidates[i].clone();
        }
        assert(!yes(there@[i as int]));
        i += 1;
    }
    proof {
        lemma_first_none(there@, yes);
    }
    "network-connected-symbolic".to_owned()
}

// ---------------------------------------------------------------------------
// Laws
// ---------------------------------------------------------------------------

/// Each wait is the one that was to come; the one after it is twice as long, but no longer
/// than the cap. Beginning again goes back to the base. The base and the cap stay.
pub proof fn law_backoff_doubles_up_to_the_cap()
    ensures
        forall|b: &mut RetryBackoff, r: Span| #[trigger]
            call_ensures(RetryBackoff::take_delay, (b,), r) && b.upcoming()
                <= crate::daemon::span::LONGEST_NANOS && b.cap()
                <= crate::daemon::span::LONGEST_NANOS ==> {
                &&& r.nanos == b.upcoming()
                &&& 2 * b.upcoming() <= b.cap() ==> final(b).upcoming() == 2 * b.upcoming()
                &&& 2 * b.upcoming() > b.cap() ==> final(b).upcoming() == b.cap()
                &&& final(b).base() == b.base() && final(b).cap() == b.cap()
            },
        forall|b: &mut RetryBackoff| #[trigger]
            call_ensures(RetryBackoff::reset, (b,), ()) ==> final(b).upcoming() == b.base()
                && final(b).base() == b.base() && final(b).cap() == b.cap(),
{
}

/// The network counts as there only if the program that waits for it says so.
pub proof fn law_network_is_there_if_it_is_said(exit: Option<bool>, r: NetworkWait)
    requires
        call_ensures(network_verdict, (exit,), r),
    ensures
        r is Online <==> exit == Some(true),
        r is Unavailable <==> exit != Some(true),
{
}

/// An attempt comes no earlier than the wait permits and no later than it must: what has
/// passed and what is still slept make up the wait, or the wait has passed. Only the end of
/// the daemon stops it, and whether the network is there makes no difference to the wait.
pub proof fn law_wait_is_kept(outcome: NetworkWait, wait: Span, elapsed: Span, r: WaitStep)
    requires
        call_ensures(after_network_wait, (outcome, wait, elapsed), r),
    ensures
        r is Stop <==> outcome is Cancelled,
        r is Proceed <==> outcome !is Cancelled && elapsed.nanos >= wait.nanos,
        r is Sleep ==> elapsed.nanos + r->Sleep_0.nanos == wait.nanos && r->Sleep_0.nanos > 0,
{
}

/// A name with a capital is the name but for its first character, and an empty one stays
/// empty.
pub proof fn law_capital_changes_the_first_character(value: &str, r: String)
    requires
        call_ensures(display_label, (value,), r),
    ensures
        value@.len() == 0 ==> r@.len() == 0,
        value@.len() > 0 ==> r@ == upper_case(value@[0]) + value@.skip(1),
{
}

/// A word behind a dot, or at the front, is a label of its own.
proof fn lemma_dotted_word(s: Seq<char>, w: Seq<char>)
    requires
        s.len() == 0 || s.last() == '.',
        w.len() > 0,
        !w.contains('.'),
    ensures
        dotted(s + w) == dotted(s).push(w),
    decreases w.len(),
{
    let t = s + w;
    let v = w.drop_last();
    assert(t.drop_last() =~= s + v);
    assert(t.last() == w.last());
    assert(w[w.len() - 1] != '.') by {
        assert(w.contains(w[w.len() - 1]));
    }
    if v.len() == 0 {
        assert(s + v =~= s);
        assert(seq![w.last()] =~= w);
        if s.len() > 0 {
            assert(t[t.len() - 2] == s.last());
        }
    } else {
        assert(!v.contains('.')) by {
            if v.contains('.') {
                let i = choose|i: int| 0 <= i < v.len() && v[i] == '.';
                assert(w[i] == '.');
            }
        }
        lemma_dotted_word(s, v);
        assert(t[t.len() - 2] == w[w.len() - 2]);
        assert(w.contains(w[w.len() - 2]));
        let before = dotted(s).push(v);
        assert(before.drop_last() =~= dotted(s));
        assert(before.last() == v);
        assert(v.push(w.last()) =~= w);
    }
}

/// A server is named after the label before the last of its host, whatever stands before
/// that. A host of one label is named as it is.
pub proof fn law_server_is_named_after_its_domain(
    front: Seq<char>,
    provider: Seq<char>,
    top: Seq<char>,
)
    requires
        front.len() == 0 || front.last() == '.',
        !front.contains('/') && !front.contains(':'),
        !provider.contains('/') && !provider.contains(':') && !provider.contains('.'),
        !top.contains('/') && !top.contains(':') && !top.contains('.'),
        provider.len() > 0 && top.len() > 0,
    ensures
        provider_of(front + provider + "."@ + top) == provider,
        provider_of(top) == top,
{
    reveal_strlit(".");
    let host = front + provider + "."@ + top;
    assert forall|c: char| host.contains(c) implies front.contains(c) || provider.contains(c)
        || top.contains(c) || c == '.' by {
        let i = choose|i: int| 0 <= i < host.len() && host[i] == c;
        let n = front.len() as int;
        let m = provider.len() as int;
        if i < n {
            assert(front[i] == c);
        } else if i < n + m {
            assert(provider[i - n] == c);
        } else if i == n + m {
            assert("."@[0] == '.');
        } else {
            assert(top[i - n - m - 1] == c);
        }
    }
    lemma_plain_host(host);
    lemma_plain_host(top);
    lemma_dotted_word(front, provider);
    let s = front + provider + "."@;
    assert(s.drop_last() =~= front + provider);
    assert(s.last() == '.');
    assert(dotted(s) == dotted(front + provider));
    lemma_dotted_word(s, top);
    let labels = dotted(front).push(provider).push(top);
    assert(labels[labels.len() - 2] == provider);
    assert(Seq::<char>::empty() + top =~= top);
    lemma_dotted_word(Seq::empty(), top);
    assert(dotted(Seq::<char>::empty()).len() == 0);
}

/// A host without a scheme, a port and a path is the whole address.
proof fn lemma_plain_host(host: Seq<char>)
    requires
        !host.contains('/'),
        !host.contains(':'),
    ensures
        host_name(host) == host,
{
    reveal_strlit("://");
    reveal_strlit("/");
    reveal_strlit(":");
    assert forall|j: int| !occurs_at(host, "://"@, j) by {
        if occurs_at(host, "://"@, j) {
            assert(host.subrange(j, j + 3)[0] == ':');
            assert(host[j] == ':');
        }
    }
    lemma_find_none(host, "://"@);
    assert forall|j: int| !occurs_at(host, "/"@, j) by {
        if occurs_at(host, "/"@, j) {
            assert(host.subrange(j, j + 1)[0] == '/');
            assert(host[j] == '/');
        }
    }
    lemma_find_none(host, "/"@);
    assert forall|j: int| !occurs_at(host, ":"@, j) by {
        if occurs_at(host, ":"@, j) {
            assert(host.subrange(j, j + 1)[0] == ':');
            assert(host[j] == ':');
        }
    }
    lemma_find_none(host, ":"@);
}

/// What stands before a character that the front does not hold is the front and what stands
/// before it in the rest.
proof fn lemma_cut(front: Seq<char>, rest: Seq<char>, pat: Seq<char>)
    requires
        pat.len() == 1,
        !front.contains(pat[0]),
    ensures
        before_first(front + rest, pat) == front + before_first(rest, pat),
{
    let s = front + rest;
    assert forall|j: int| 0 <= j < front.len() implies !occurs_at(s, pat, j) by {
        if occurs_at(s, pat, j) {
            assert(s.subrange(j, j + 1)[0] == pat[0]);
            assert(front[j] == pat[0]);
        }
    }
    lemma_find_append(front, rest, pat);
    lemma_find(rest, pat);
    match find(rest, pat) {
        Some(k) => {
            assert(s.take(front.len() + k) =~= front + rest.take(k));
        },
        None => {},
    }
}

/// Nothing stands before a character that stands first.
proof fn lemma_cut_at_front(s: Seq<char>, pat: Seq<char>)
    requires
        pat.len() == 1,
        s.len() > 0 ==> s[0] == pat[0],
    ensures
        before_first(s, pat).len() == 0,
{
    if s.len() > 0 {
        assert(s.subrange(0, 1) =~= pat);
        lemma_find_is(s, pat, 0);
    } else {
        lemma_find(s, pat);
    }
}

/// The host of an address is what stands between the scheme and the port or the path,
/// whichever comes first.
pub proof fn law_host_stands_between_scheme_and_port(
    scheme: Seq<char>,
    host: Seq<char>,
    rest: Seq<char>,
)
    requires
        !scheme.contains(':'),
        !host.contains('/') && !host.contains(':'),
        rest.len() == 0 || rest[0] == ':' || rest[0] == '/',
    ensures
        host_name(scheme + "://"@ + host + rest) == host,
{
    reveal_strlit("://");
    reveal_strlit("/");
    reveal_strlit(":");
    let url = scheme + "://"@ + host + rest;
    let n = scheme.len() as int;
    assert(url.subrange(n, n + 3) =~= "://"@);
    assert forall|j: int| j < n implies !occurs_at(url, "://"@, j) by {
        if occurs_at(url, "://"@, j) {
            assert(url.subrange(j, j + 3)[0] == ':');
            assert(url[j] == scheme[j]);
        }
    }
    lemma_find_is(url, "://"@, n);
    assert(url.skip(n + 3) =~= host + rest);
    lemma_cut(host, rest, "/"@);
    let r = before_first(rest, "/"@);
    lemma_find(rest, "/"@);
    lemma_cut(host, r, ":"@);
    if rest.len() > 0 && rest[0] == '/' {
        lemma_cut_at_front(rest, "/"@);
    } else if rest.len() > 0 {
        match find(rest, "/"@) {
            Some(k) => {
                if k == 0 {
                    assert(rest.subrange(0, 1)[0] == '/');
                }
            },
            None => {},
        }
        assert(r[0] == ':');
    }
    lemma_cut_at_front(r, ":"@);
    assert(host + before_first(r, ":"@) =~= host);
}

/// The user is told once that the server is lost and once that it is back: a second failure
/// and a second recovery are not told. What is told is of the account and the server.
pub proof fn law_user_is_told_once(icon: &str)
    ensures
        forall|n: &mut FailureNotifier, r: Option<Notification>| #[trigger]
            call_ensures(FailureNotifier::failed, (n,), r) ==> {
                &&& r is Some <==> !n.is_down()
                &&& final(n).is_down()
                &&& r is Some ==> has_prefix(r->0.summary@, n.account_label()) && has_prefix(
                    r->0.body@,
                    n.server_label(),
                )
            },
        forall|n: &mut FailureNotifier, r: Option<Notification>| #[trigger]
            call_ensures(FailureNotifier::recovered, (n, icon), r) ==> {
                &&& r is Some <==> n.is_down()
                &&& !final(n).is_down()
                &&& r is Some ==> r->0.icon@ == icon@
                &&& r is Some ==> has_prefix(r->0.summary@, n.account_label()) && has_prefix(
                    r->0.body@,
                    n.server_label(),
                )
            },
{
    assert forall|n: &mut FailureNotifier, r: Option<Notification>| #[trigger]
        call_ensures(FailureNotifier::failed, (n,), r) && r is Some implies has_prefix(
        r->0.summary@,
        n.account_label(),
    ) && has_prefix(r->0.body@, n.server_label()) by {
        let a = n.account_label();
        let b = n.server_label();
        assert(opt_notification_view(r) == Some(r->0@));
        assert(r->0@.summary == r->0.summary@ && r->0@.body == r->0.body@);
        assert(r->0.summary@.subrange(0, a.len() as int) =~= a);
        assert(r->0.body@.subrange(0, b.len() as int) =~= b);
    }
    assert forall|n: &mut FailureNotifier, r: Option<Notification>| #[trigger]
        call_ensures(FailureNotifier::recovered, (n, icon), r) && r is Some implies has_prefix(
        r->0.summary@,
        n.account_label(),
    ) && has_prefix(r->0.body@, n.server_label()) && r->0.icon@ == icon@ by {
        let a = n.account_label();
        let b = n.server_label();
        assert(opt_notification_view(r) == Some(r->0@));
        assert(r->0@.summary == r->0.summary@ && r->0@.body == r->0.body@);
        assert(r->0@.icon == r->0.icon@);
        assert(r->0.summary@.subrange(0, a.len() as int) =~= a);
        assert(r->0.body@.subrange(0, b.len() as int) =~= b);
    }
}

/// A path below a directory begins with the directory and ends with the rest, with one slash
/// between the two, and none more where the directory ends in one.
pub proof fn law_path_below_a_directory(dir: Seq<char>, rest: Seq<char>)
    ensures
        has_prefix(below(dir, rest), dir),
        has_suffix(below(dir, rest), rest),
        dir.len() > 0 && dir.last() != '/' ==> below(dir, rest).len() == dir.len() + 1 + rest.len()
            && below(dir, rest)[dir.len() as int] == '/',
        dir.len() == 0 || dir.last() == '/' ==> below(dir, rest).len() == dir.len() + rest.len(),
{
    reveal_strlit("/");
    let p = below(dir, rest);
    assert(p.subrange(0, dir.len() as int) =~= dir);
    assert(p.subrange(p.len() - rest.len(), p.len() as int) =~= rest);
}

/// The user's own directory is looked at first: the one that is set, or else the one in the
/// home directory. Then come the system's, in their order, and the two usual ones only where
/// none are set.
pub proof fn law_own_directory_comes_first(
    data_home: Option<Seq<char>>,
    home: Option<Seq<char>>,
    system: Option<Seq<Seq<char>>>,
)
    ensures
        ({
            let dirs = data_dirs(data_home, home, system);
            let n: int = if data_home is Some || home is Some {
                1
            } else {
                0
            };
            &&& data_home is Some ==> dirs[0] == data_home->0
            &&& data_home is None && home is Some ==> dirs[0] == below(home->0, ".local/share"@)
            &&& system is Some ==> dirs.skip(n) == system->0
            &&& system is None ==> dirs.len() == n + 2 && dirs[n] == "/usr/local/share"@ && dirs[n
                + 1] == "/usr/share"@
        }),
{
    let dirs = data_dirs(data_home, home, system);
    let n: int = if data_home is Some || home is Some {
        1
    } else {
        0
    };
    if system is Some {
        assert(dirs.skip(n) =~= system->0);
    }
}

/// The icon is the first of the candidates that is there; only if none is, it is the name of
/// the icon.
pub proof fn law_first_icon_that_is_there(candidates: &Vec<String>, there: &Vec<bool>, r: String)
    requires
        call_ensures(connected_icon, (candidates, there), r),
        candidates@.len() == there@.len(),
    ensures
        (exists|i: int| 0 <= i < there@.len() && #[trigger] there@[i]) ==> exists|i: int|
            0 <= i < there@.len() && #[trigger] there@[i] && r@ == candidates@[i]@ && forall|j: int|
                0 <= j < i ==> !#[trigger] there@[j],
        (forall|i: int| 0 <= i < there@.len() ==> !#[trigger] there@[i]) ==> r@
            == "network-connected-symbolic"@,
{
    let yes = |b: bool| b;
    crate::search::lemma_first_from(there@, yes, 0);
    match first_where(there@, yes) {
        Some(i) => {
            assert(yes(there@[i]));
            assert(views(candidates@)[i] == candidates@[i]@);
            assert forall|j: int| 0 <= j < i implies !#[trigger] there@[j] by {
                assert(!yes(there@[j]));
            }
        },
        None => {
            assert forall|j: int| 0 <= j < there@.len() implies !#[trigger] there@[j] by {
                assert(!yes(there@[j]));
            }
        },
    }
}

/// What is shown is the notification: its urgency and its icon, then its two texts last, as
/// they are.
pub proof fn law_notification_is_shown_whole(n: &Notification, r: Vec<String>)
    requires
        call_ensures(notification_args, (n,), r),
    ensures
        r@.len() == 5,
        has_suffix(r@[1]@, n.urgency@),
        has_suffix(r@[2]@, n.icon@),
        r@[3]@ == n.summary@,
        r@[4]@ == n.body@,
{
    let v = views(r@);
    assert(v.len() == r@.len());
    assert(v[1] == r@[1]@ && v[2] == r@[2]@ && v[3] == r@[3]@ && v[4] == r@[4]@);
    let u = n.urgency@;
    let i = n.icon@;
    assert(v[1] == "--urgency="@ + u);
    assert(v[2] == "--icon="@ + i);
    assert(v[1].subrange(v[1].len() - u.len(), v[1].len() as int) =~= u);
    assert(v[2].subrange(v[2].len() - i.len(), v[2].len() as int) =~= i);
}

/// There is one candidate for every directory, in the same order, and each stands below its
/// own.
pub proof fn law_every_directory_is_looked_at(
    data_home: &Option<String>,
    home: &Option<String>,
    system: &Option<Vec<String>>,
    r: Vec<String>,
)
    requires
        call_ensures(icon_candidates, (data_home, home, system), r),
    ensures
        ({
            let dirs = data_dirs(opt_view(*data_home), opt_view(*home), opt_list_view(*system));
            &&& r@.len() == dirs.len()
            &&& forall|i: int|
                0 <= i < dirs.len() ==> has_prefix((#[trigger] r@[i])@, dirs[i]) && has_suffix(
                    r@[i]@,
                    "icons/hicolor/scalable/status/network-connected-symbolic.svg"@,
                )
        }),
{
    let dirs = data_dirs(opt_view(*data_home), opt_view(*home), opt_list_view(*system));
    assert(views(r@).len() == r@.len());
    assert forall|i: int| 0 <= i < dirs.len() implies has_prefix((#[trigger] r@[i])@, dirs[i])
        && has_suffix(
        r@[i]@,
        "icons/hicolor/scalable/status/network-connected-symbolic.svg"@,
    ) by {
        assert(views(r@)[i] == r@[i]@);
        law_path_below_a_directory(
            dirs[i],
            "icons/hicolor/scalable/status/network-connected-symbolic.svg"@,
        );
    }
}

/// A dot at the end of a name, and one beside another, make no label.
pub proof fn law_dots_alone_make_no_label(s: Seq<char>)
    ensures
        dotted(s.push('.')) == dotted(s),
        forall|i: int| 0 <= i < dotted(s).len() ==> (#[trigger] dotted(s)[i]).len() > 0,
        forall|i: int| 0 <= i < dotted(s).len() ==> !(#[trigger] dotted(s)[i]).contains('.'),
    decreases s.len(),
{
    assert(s.push('.').drop_last() =~= s);
    if s.len() > 0 {
        let f = s.drop_last();
        law_dots_alone_make_no_label(f);
        let before = dotted(f);
        let c = s.last();
        assert forall|i: int| 0 <= i < dotted(s).len() implies (#[trigger] dotted(s)[i]).len() > 0
            && !dotted(s)[i].contains('.') by {
            if c == '.' {
                assert(dotted(s)[i] == before[i]);
            } else if s.len() == 1 || s[s.len() - 2] == '.' {
                if i < before.len() {
                    assert(dotted(s)[i] == before[i]);
                } else {
                    assert(dotted(s)[i] == seq![c]);
                }
            } else {
                lemma_dotted(f);
                if i < before.len() - 1 {
                    assert(dotted(s)[i] == before[i]);
                } else {
                    let w = before[before.len() - 1];
                    assert(dotted(s)[i] == w.push(c));
                    if w.push(c).contains('.') {
                        let k = choose|k: int| 0 <= k < w.push(c).len() && w.push(c)[k] == '.';
                        assert(w[k] == '.');
                    }
                }
            }
        }
    }
}

} // verus!
