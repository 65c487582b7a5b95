//! The record that stands beside a queued message: to whom it goes, when, and
//! how the attempts to send it have gone.

use vstd::prelude::*;
use vstd::string::*;

use crate::numbers::{decimal, push_decimal};
use crate::outside::{parse_rfc3339, rfc3339_parsed};
use crate::text::{blank, chars_of, debug_list, debug_strings, ends_with, has_prefix, has_suffix, is_blank, is_white, opt_view, starts_with, substring, views};

verus! {

/// The sender and the recipients. `T` is a text and `L` a list of texts.
#[derive(Debug)]
#[verifier::ext_equal]
pub struct Envelope<T = String, L = Vec<String>> {
    pub from: T,
    pub to: L,
}

impl View for Envelope<String, Vec<String>> {
    type V = Envelope<Seq<char>, Seq<Seq<char>>>;

    open spec fn view(&self) -> Self::V {
        Envelope { from: self.from@, to: views(self.to@) }
    }
}

/// How the attempts so far have gone.
#[derive(Debug)]
#[verifier::ext_equal]
pub struct RetryState<T = String> {
    pub attempts: u32,
    pub next_at: Option<T>,
    pub last_error: Option<T>,
}

impl View for RetryState<String> {
    type V = RetryState<Seq<char>>;

    open spec fn view(&self) -> Self::V {
        RetryState {
            attempts: self.attempts,
            next_at: opt_view(self.next_at),
            last_error: opt_view(self.last_error),
        }
    }
}

/// The view of an optional retry state.
pub open spec fn retry_view(r: Option<RetryState>) -> Option<RetryState<Seq<char>>> {
    match r {
        Some(s) => Some(s@),
        None => None,
    }
}

/// What is known of one queued message.
#[derive(Debug)]
#[verifier::ext_equal]
pub struct SidecarState<T = String, L = Vec<String>> {
    pub envelope: Envelope<T, L>,
    pub send_at: Option<T>,
    pub submitted_at: T,
    pub account: T,
    pub retry: Option<RetryState<T>>,
    /// Set when an attempt goes out, and cleared once it has come to an end. Found
    /// at startup, it tells of an attempt that was cut off.
    pub in_flight: Option<T>,
}

impl View for SidecarState<String, Vec<String>> {
    type V = SidecarState<Seq<char>, Seq<Seq<char>>>;

    open spec fn view(&self) -> Self::V {
        SidecarState {
            envelope: self.envelope@,
            send_at: opt_view(self.send_at),
            submitted_at: self.submitted_at@,
            account: self.account@,
            retry: retry_view(self.retry),
            in_flight: opt_view(self.in_flight),
        }
    }
}

/// The envelope of a record that names nobody.
pub open spec fn empty_envelope() -> Envelope<Seq<char>, Seq<Seq<char>>> {
    Envelope { from: Seq::empty(), to: Seq::empty() }
}

impl Default for Envelope<String, Vec<String>> {
    fn default() -> (r: Self)
        ensures
            r@ == empty_envelope(),
    {
        let r = Envelope { from: String::new(), to: Vec::new() };
        assert(r@ =~= empty_envelope());
        r
    }
}

impl Default for RetryState<String> {
    fn default() -> (r: Self)
        ensures
            r.attempts == 0,
            r.next_at is None,
            r.last_error is None,
    {
        RetryState { attempts: 0, next_at: None, last_error: None }
    }
}

impl Default for SidecarState<String, Vec<String>> {
    /// The record of a message of which nothing is known.
    fn default() -> (r: Self)
        ensures
            r.envelope@ == empty_envelope(),
            r.send_at is None,
            r.submitted_at@ == Seq::<char>::empty(),
            r.account@ == Seq::<char>::empty(),
            r.retry is None,
            r.in_flight is None,
    {
        SidecarState {
            envelope: Envelope::default(),
            send_at: None,
            submitted_at: String::new(),
            account: String::new(),
            retry: None,
            in_flight: None,
        }
    }
}

// ---------------------------------------------------------------------------
// The envelope
// ---------------------------------------------------------------------------

/// What an envelope lacks, if it cannot be submitted: a sender, or a recipient
/// that is more than white space.
pub open spec fn envelope_fault(env: Envelope<Seq<char>, Seq<Seq<char>>>) -> Option<Seq<char>> {
    if is_blank(env.from) {
        Some("sidecar envelope missing `from`"@)
    } else if forall|i: int| 0 <= i < env.to.len() ==> is_blank(#[trigger] env.to[i]) {
        Some("sidecar envelope missing `to`"@)
    } else {
        None
    }
}

/// Why an envelope cannot be submitted, if it cannot.
pub fn envelope_validation_error(env: &Envelope) -> (r: Option<String>)
    ensures
        opt_view(r) == envelope_fault(env@),
{
    if blank(env.from.as_str()) {
        return Some("sidecar envelope missing `from`".to_owned());
    }
    let mut i: usize = 0;
    while i < env.to.len()
        invariant
            i <= env.to@.len(),
            !is_blank(env@.from),
            forall|j: int| 0 <= j < i ==> is_blank(#[trigger] env@.to[j]),
        decreases env.to@.len() - i,
    {
        if !blank(env.to[i].as_str()) {
            assert(!is_blank(env@.to[i as int]));
            return None;
        }
        i += 1;
    }
    Some("sidecar envelope missing `to`".to_owned())
}

// ---------------------------------------------------------------------------
// Retries
// ---------------------------------------------------------------------------

/// The second that a text stands for, not before the epoch.
pub open spec fn epoch_secs_of(s: Seq<char>) -> Option<u64> {
    match rfc3339_parsed(s) {
        Ok(t) => Some(if t.0 < 0 {
            0
        } else {
            t.0 as u64
        }),
        Err(_) => None,
    }
}

impl RetryState<String> {
    /// When the next attempt is due, in seconds since the epoch; nothing where the
    /// record says nothing that reads as a time.
    pub fn next_at_epoch_secs(&self) -> (r: Option<u64>)
        ensures
            r == (match self@.next_at {
                Some(s) => epoch_secs_of(s),
                None => None,
            }),
    {
        match &self.next_at {
            Some(s) => match parse_rfc3339(s.as_str()) {
                Ok((secs, _)) => Some(
                    if secs < 0 {
                        0
                    } else {
                        secs as u64
                    },
                ),
                Err(_) => None,
            },
            None => None,
        }
    }
}

impl SidecarState<String, Vec<String>> {
    /// Marks an attempt as under way since `now`.
    pub fn mark_in_flight(&mut self, now: String)
        ensures
            final(self)@ == (SidecarState { in_flight: Some(now@), ..old(self)@ }),
    {
        self.in_flight = Some(now);
    }

    /// The record on one line, for the log.
    pub fn format_log(&self) -> (r: String)
        ensures
            r@ == log_line(self@),
    {
        let mut out = String::new();
        out.append("from=");
        out.append(self.envelope.from.as_str());
        out.append(" to=");
        let to = debug_strings(&self.envelope.to);
        out.append(to.as_str());
        match &self.send_at {
            Some(s) => {
                out.append(" send_at=");
                out.append(s.as_str());
            },
            None => {},
        }
        match &self.retry {
            Some(s) => if s.attempts > 0 {
                out.append(" retry attempts=");
                push_decimal(&mut out, s.attempts as u64);
                out.append(" next_at=");
                match &s.next_at {
                    Some(t) => out.append(t.as_str()),
                    None => out.append("<unset>"),
                }
            },
            None => {},
        }
        match &self.in_flight {
            Some(s) => {
                out.append(" in_flight=");
                out.append(s.as_str());
            },
            None => {},
        }
        assert(out@ =~= log_line(self@));
        out
    }
}

/// Forgets the history of a message that is to be tried again from the start.
pub fn reset_sidecar_for_retry(sc: &mut SidecarState)
    ensures
        final(sc)@ == (SidecarState { retry: None, in_flight: None, ..old(sc)@ }),
{
    sc.retry = None;
    sc.in_flight = None;
}

/// A note in the log for what is set, and nothing for what is not.
pub open spec fn log_note(label: Seq<char>, value: Option<Seq<char>>) -> Seq<char> {
    match value {
        Some(s) => label + s,
        None => Seq::empty(),
    }
}

/// A record on one line.
pub open spec fn log_line(sc: SidecarState<Seq<char>, Seq<Seq<char>>>) -> Seq<char> {
    let retry_note = match sc.retry {
        Some(s) => if s.attempts > 0 {
            " retry attempts="@ + decimal(s.attempts as nat) + " next_at="@ + (match s.next_at {
                Some(t) => t,
                None => "<unset>"@,
            })
        } else {
            Seq::empty()
        },
        None => Seq::empty(),
    };
    "from="@ + sc.envelope.from + " to="@ + debug_list(sc.envelope.to) + log_note(
        " send_at="@,
        sc.send_at,
    ) + retry_note + log_note(" in_flight="@, sc.in_flight)
}

// ---------------------------------------------------------------------------
// Attempts that were cut off
// ---------------------------------------------------------------------------

/// How old an attempt found at startup has to be to count as cut off.
pub const STARTUP_INFLIGHT_STALENESS_SECS: u64 = 60;

/// An attempt that began at `since` counts as cut off at `now`: it is old enough,
/// or its age cannot be told.
pub open spec fn cut_off(since: Option<u64>, now: Option<u64>) -> bool {
    match (since, now) {
        (Some(s), Some(n)) => n < s || n - s >= STARTUP_INFLIGHT_STALENESS_SECS,
        _ => true,
    }
}

/// Whether an attempt that began at `since` counts as cut off at `now`, both in
/// seconds since the epoch.
pub fn is_cut_off(since: Option<u64>, now: Option<u64>) -> (r: bool)
    ensures
        r == cut_off(since, now),
{
    match (since, now) {
        (Some(s), Some(n)) => n < s || n - s >= STARTUP_INFLIGHT_STALENESS_SECS,
        _ => true,
    }
}

/// Whether the attempt that a record tells of counts as cut off at `now`. A record
/// that tells of none has none that was cut off.
pub fn stale_in_flight(sc: &SidecarState, now: Option<u64>) -> (r: bool)
    ensures
        r == (match sc@.in_flight {
            Some(s) => cut_off(epoch_secs_of(s), now),
            None => false,
        }),
{
    match &sc.in_flight {
        Some(s) => {
            let since: Option<u64> = match parse_rfc3339(s.as_str()) {
                Ok((secs, _)) => Some(
                    if secs < 0 {
                        0
                    } else {
                        secs as u64
                    },
                ),
                Err(_) => None,
            };
            is_cut_off(since, now)
        },
        None => false,
    }
}

/// Without the endings `pat`, however many there are.
pub open spec fn without_endings(s: Seq<char>, pat: Seq<char>) -> Seq<char>
    decreases s.len(),
{
    if pat.len() > 0 && has_suffix(s, pat) {
        without_endings(s.take(s.len() - pat.len()), pat)
    } else {
        s
    }
}

/// The name of the message that a file beside the outbox tells of: a file that is
/// not hidden and whose name ends in `.json`.
pub open spec fn sidecar_owner(name: Seq<char>) -> Option<Seq<char>> {
    if has_suffix(name, ".json"@) && !has_prefix(name, "."@) {
        Some(without_endings(name, ".json"@))
    } else {
        None
    }
}

/// The name of the message that a file beside the outbox tells of.
pub fn sidecar_basename(name: &str) -> (r: Option<String>)
    ensures
        opt_view(r) == sidecar_owner(name@),
{
    if !ends_with(name, ".json") || starts_with(name, ".") {
        return None;
    }
    let mut rest: String = name.to_owned();
    proof {
        reveal_strlit(".json");
    }
    while ends_with(rest.as_str(), ".json")
        invariant
            ".json"@.len() == 5,
            without_endings(rest@, ".json"@) == without_endings(name@, ".json"@),
        decreases rest@.len(),
    {
        let c = chars_of(rest.as_str());
        let n: usize = c.len() - 5;
        assert(c@.subrange(0, n as int) =~= c@.take(n as int));
        rest = substring(&c, 0, n);
    }
    Some(rest)
}

/// The name of the file that tells of a message.
pub fn sidecar_file_name(basename: &str) -> (r: String)
    ensures
        r@ == basename@ + ".json"@,
{
    let mut out: String = basename.to_owned();
    out.append(".json");
    out
}

/// A message is found again from the name of its own record, unless it is hidden
/// or itself ends in `.json`.
pub proof fn law_record_name_leads_back(basename: Seq<char>)
    requires
        !has_prefix(basename + ".json"@, "."@),
        !has_suffix(basename, ".json"@),
    ensures
        sidecar_owner(basename + ".json"@) == Some(basename),
{
    reveal_strlit(".json");
    reveal_with_fuel(without_endings, 2);
    let name = basename + ".json"@;
    assert(name.subrange(name.len() - 5, name.len() as int) =~= ".json"@);
    assert(name.take(name.len() - 5) =~= basename);
}

// ---------------------------------------------------------------------------
// Laws
// ---------------------------------------------------------------------------

/// An envelope can be submitted exactly if its sender and at least one of its recipients
/// hold something else than white space. What it lacks is told, the sender first.
pub proof fn law_envelope_names_somebody(env: &Envelope, r: Option<String>)
    requires
        call_ensures(envelope_validation_error, (env,), r),
    ensures
        ({
            let sender = exists|i: int|
                0 <= i < env.from@.len() && !is_white(#[trigger] env.from@[i]);
            let recipient = exists|k: int, i: int|
                0 <= k < env.to@.len() && 0 <= i < env.to@[k]@.len() && !is_white(
                    #[trigger] env.to@[k]@[i],
                );
            &&& r is None <==> sender && recipient
            &&& !sender ==> r is Some && r->0@ == "sidecar envelope missing `from`"@
            &&& sender && !recipient ==> r is Some && r->0@ == "sidecar envelope missing `to`"@
        }),
{
    let recipient = exists|k: int, i: int|
        0 <= k < env.to@.len() && 0 <= i < env.to@[k]@.len() && !is_white(
            #[trigger] env.to@[k]@[i],
        );
    if recipient {
        let (k, i) = choose|k: int, i: int|
            0 <= k < env.to@.len() && 0 <= i < env.to@[k]@.len() && !is_white(
                #[trigger] env.to@[k]@[i],
            );
        assert(env@.to[k] == env.to@[k]@);
        assert(!is_white(env@.to[k][i]));
        assert(!is_blank(env@.to[k]));
    } else {
        assert forall|k: int| 0 <= k < env@.to.len() implies is_blank(#[trigger] env@.to[k]) by {
            assert(env@.to[k] == env.to@[k]@);
            assert forall|i: int| 0 <= i < env@.to[k].len() implies is_white(#[trigger] env@.to[k][i]) by {
                assert(is_white(env.to@[k]@[i]));
            }
        }
    }
    assert(env@.from == env.from@);
}

/// The next attempt is due at a second exactly if the record names a time that can be read,
/// and then at the second of that time, or at the epoch if it lies before.
pub proof fn law_next_attempt_is_when_the_record_says(s: &RetryState, r: Option<u64>)
    requires
        call_ensures(RetryState::<String>::next_at_epoch_secs, (s,), r),
    ensures
        r is Some <==> s.next_at is Some && rfc3339_parsed(s.next_at->0@) is Ok,
        r is Some && rfc3339_parsed(s.next_at->0@)->Ok_0.0 >= 0 ==> r->0 == rfc3339_parsed(
            s.next_at->0@,
        )->Ok_0.0,
        r is Some && rfc3339_parsed(s.next_at->0@)->Ok_0.0 < 0 ==> r->0 == 0,
{
    assert(s@.next_at == opt_view(s.next_at));
}

/// Marking an attempt changes the mark alone; forgetting a message's history takes the mark
/// and the failures away. Whom the message goes to, when, by which account and since when
/// stays in either case.
pub proof fn law_record_keeps_the_message(now: String)
    ensures
        forall|s: &mut SidecarState| #[trigger]
            call_ensures(SidecarState::<String, Vec<String>>::mark_in_flight, (s, now), ()) ==> {
                &&& final(s)@.in_flight == Some(now@)
                &&& final(s)@.retry == s@.retry
                &&& final(s)@.envelope == s@.envelope
                &&& final(s)@.send_at == s@.send_at
                &&& final(s)@.submitted_at == s@.submitted_at
                &&& final(s)@.account == s@.account
            },
        forall|s: &mut SidecarState| #[trigger]
            call_ensures(reset_sidecar_for_retry, (s,), ()) ==> {
                &&& final(s)@.in_flight is None
                &&& final(s)@.retry is None
                &&& final(s)@.envelope == s@.envelope
                &&& final(s)@.send_at == s@.send_at
                &&& final(s)@.submitted_at == s@.submitted_at
                &&& final(s)@.account == s@.account
            },
{
}

/// The log names the sender and the recipients first and an attempt under way last. It tells
/// of the sending time if there is one, and of failures only if there were any.
pub proof fn law_log_tells_what_is_set(sc: SidecarState<Seq<char>, Seq<Seq<char>>>)
    ensures
        has_prefix(
            log_line(sc),
            "from="@ + sc.envelope.from + " to="@ + debug_list(sc.envelope.to),
        ),
        sc.send_at is Some ==> has_prefix(
            log_line(sc),
            "from="@ + sc.envelope.from + " to="@ + debug_list(sc.envelope.to) + " send_at="@
                + sc.send_at->0,
        ),
        sc.in_flight is Some ==> log_line(sc) == log_line(SidecarState { in_flight: None, ..sc })
            + " in_flight="@ + sc.in_flight->0,
        sc.retry is Some && sc.retry->0.attempts > 0 && sc.in_flight is None ==> has_suffix(
            log_line(sc),
            " retry attempts="@ + decimal(sc.retry->0.attempts as nat) + " next_at="@ + (
            match sc.retry->0.next_at {
                Some(t) => t,
                None => "<unset>"@,
            }),
        ),
        sc.retry is Some && sc.retry->0.attempts == 0 ==> log_line(sc) == log_line(
            SidecarState { retry: None, ..sc },
        ),
{
    let line = log_line(sc);
    let head = "from="@ + sc.envelope.from + " to="@ + debug_list(sc.envelope.to);
    assert(line.subrange(0, head.len() as int) =~= head);
    if sc.send_at is Some {
        let more = head + " send_at="@ + sc.send_at->0;
        assert(line.subrange(0, more.len() as int) =~= more);
    }
    if sc.in_flight is Some {
        let front = log_line(SidecarState { in_flight: None, ..sc });
        assert(line =~= front + " in_flight="@ + sc.in_flight->0);
    }
    if sc.retry is Some && sc.retry->0.attempts > 0 && sc.in_flight is None {
        let tail = " retry attempts="@ + decimal(sc.retry->0.attempts as nat) + " next_at="@ + (
        match sc.retry->0.next_at {
            Some(t) => t,
            None => "<unset>"@,
        });
        assert(line.subrange(line.len() - tail.len(), line.len() as int) =~= tail);
    }
}

/// An attempt counts as still under way exactly if both times are known and less than a
/// minute lies between them; a record that tells of no attempt has none that was cut off.
pub proof fn law_attempt_is_cut_off_after_a_minute(
    since: Option<u64>,
    now: Option<u64>,
    r: bool,
    sc: &SidecarState,
    stale: bool,
)
    requires
        call_ensures(is_cut_off, (since, now), r),
        call_ensures(stale_in_flight, (sc, now), stale),
    ensures
        !r <==> since is Some && now is Some && since->0 <= now->0 && now->0 < since->0 + 60,
        sc.in_flight is None ==> !stale,
        sc.in_flight is Some && rfc3339_parsed(sc.in_flight->0@) is Err ==> stale,
        sc.in_flight is Some && rfc3339_parsed(sc.in_flight->0@) is Ok && now is Some
            && rfc3339_parsed(sc.in_flight->0@)->Ok_0.0 >= 0 ==> (!stale <==> rfc3339_parsed(
            sc.in_flight->0@,
        )->Ok_0.0 <= now->0 < rfc3339_parsed(sc.in_flight->0@)->Ok_0.0 + 60),
{
    assert(sc@.in_flight == opt_view(sc.in_flight));
}

/// A file tells of a message exactly if its name ends in `.json` and does not begin with a
/// dot. The message's name is the front of the file's and does not end in `.json` itself.
pub proof fn law_record_is_told_by_its_name(name: Seq<char>)
    ensures
        sidecar_owner(name) is Some <==> has_suffix(name, ".json"@) && !has_prefix(name, "."@),
        sidecar_owner(name) is Some ==> {
            &&& has_prefix(name, sidecar_owner(name)->0)
            &&& !has_suffix(sidecar_owner(name)->0, ".json"@)
            &&& sidecar_owner(name)->0.len() < name.len()
        },
{
    reveal_strlit(".json");
    lemma_without_endings(name);
    if has_suffix(name, ".json"@) {
        lemma_without_endings(name.take(name.len() - 5));
    }
}

proof fn lemma_without_endings(s: Seq<char>)
    ensures
        has_prefix(s, without_endings(s, ".json"@)),
        !has_suffix(without_endings(s, ".json"@), ".json"@),
    decreases s.len(),
{
    reveal_strlit(".json");
    if has_suffix(s, ".json"@) {
        let t = s.take(s.len() - 5);
        lemma_without_endings(t);
        let w = without_endings(t, ".json"@);
        assert(s.subrange(0, w.len() as int) =~= t.subrange(0, w.len() as int));
    } else {
        assert(s.subrange(0, s.len() as int) =~= s);
    }
}

} // verus!
