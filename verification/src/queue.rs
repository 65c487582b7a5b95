//! Queueing a message for the daemon to send.
//!
//! A mail program hands over a message and its recipients. Which account it goes
//! out by follows from its sender; when it goes out follows from an option or from
//! its own `X-JMAP-Send-At` field, which never leaves the machine.

use vstd::prelude::*;
use vstd::string::*;
use vstd::utf8::*;

use crate::config::{Account, Config};
use crate::daemon::sidecar::{Envelope, RetryState, SidecarState};
use crate::lines::{append_bytes, byte_lower, find_line_end, find_subseq, has_line, kept, lemma_kept_all, lemma_kept_clean, lemma_kept_shorter, lemma_kept_step, lower_byte, starts_with_folded_continuation};
use crate::message::{crlf_blank, fresh_ulid, is_drawn_ulid, is_ulid, lf_blank};
use crate::numbers::{decimal, push_decimal};
use crate::outside::{debug_str, debug_text, headers_parsed, pair_views, parse_headers, parse_rfc3339, rfc3339_parsed};
use crate::search::{find, first_where, lemma_find, lemma_find_is, lemma_first_is, lemma_first_none, lemma_rfind, lemma_rfind_is, occurs, occurs_at, rfind};
use crate::text::{chars_of, clone_strings, eq_ignore_case, find_chars, has_suffix, is_blank, law_blank_is_empty_when_trimmed, law_trimming_takes_the_ends, opt_view, rfind_chars, same_ignoring_case, str_eq, substring, trim, trimmed, views};

verus! {

// ---------------------------------------------------------------------------
// Errors
// ---------------------------------------------------------------------------

/// Why a message is not queued. `T` is a text.
#[derive(Debug)]
#[verifier::ext_equal]
pub enum QueueError<T = String> {
    NoRecipients,
    EmptyMessage,
    /// The header cannot be read.
    BadHeaders(T),
    NoFrom,
    /// No account has the name that was asked for.
    UnknownAccount(T),
    /// No account sends for this address.
    NoAccountFor(T),
    /// The account has no sending side.
    NoSubmit(T),
    /// The account has no mail directory.
    NoMail(T),
    /// The sending time is no time.
    BadSendAt { value: T, reason: T },
}

impl View for QueueError<String> {
    type V = QueueError<Seq<char>>;

    open spec fn view(&self) -> Self::V {
        match *self {
            QueueError::NoRecipients => QueueError::NoRecipients,
            QueueError::EmptyMessage => QueueError::EmptyMessage,
            QueueError::BadHeaders(e) => QueueError::BadHeaders(e@),
            QueueError::NoFrom => QueueError::NoFrom,
            QueueError::UnknownAccount(n) => QueueError::UnknownAccount(n@),
            QueueError::NoAccountFor(a) => QueueError::NoAccountFor(a@),
            QueueError::NoSubmit(n) => QueueError::NoSubmit(n@),
            QueueError::NoMail(n) => QueueError::NoMail(n@),
            QueueError::BadSendAt { value, reason } => QueueError::BadSendAt {
                value: value@,
                reason: reason@,
            },
        }
    }
}

/// What the user reads.
pub open spec fn error_text(e: QueueError<Seq<char>>) -> Seq<char> {
    match e {
        QueueError::NoRecipients => "no recipient(s) on the command line"@,
        QueueError::EmptyMessage => "empty message on stdin"@,
        QueueError::BadHeaders(e) => "parsing message headers: "@ + e,
        QueueError::NoFrom => "no From: header in message and no -f override provided"@,
        QueueError::UnknownAccount(n) => "--account "@ + debug_text(n) + " not found in config"@,
        QueueError::NoAccountFor(a) =>
            "no account whose [accounts.submit].from_address matches From: "@ + debug_text(a)
            + " (use --account to override)"@,
        QueueError::NoSubmit(n) => "account "@ + debug_text(n)
            + " has no [accounts.submit] block; jmapqueue refuses to route mail through a receive-only account"@,
        QueueError::NoMail(n) => "account "@ + debug_text(n)
            + " has no [accounts.mail] block; nowhere to write Outbox"@,
        QueueError::BadSendAt { value, reason } => "invalid --send-at / X-JMAP-Send-At value "@
            + debug_text(value) + " (expected RFC 3339, e.g. 2026-08-01T09:00:00-07:00): "@ + reason,
    }
}

fn around(head: &str, middle: &str, tail: &str) -> (r: String)
    ensures
        r@ == head@ + middle@ + tail@,
{
    let mut out: String = head.to_owned();
    out.append(middle);
    out.append(tail);
    out
}

impl QueueError<String> {
    /// What the user reads.
    pub fn message(&self) -> (r: String)
        ensures
            r@ == error_text(self@),
    {
        match self {
            QueueError::NoRecipients => "no recipient(s) on the command line".to_owned(),
            QueueError::EmptyMessage => "empty message on stdin".to_owned(),
            QueueError::BadHeaders(e) => {
                let mut out: String = "parsing message headers: ".to_owned();
                out.append(e.as_str());
                out
            },
            QueueError::NoFrom => "no From: header in message and no -f override provided".to_owned(),
            QueueError::UnknownAccount(n) => around(
                "--account ",
                debug_str(n.as_str()).as_str(),
                " not found in config",
            ),
            QueueError::NoAccountFor(a) => around(
                "no account whose [accounts.submit].from_address matches From: ",
                debug_str(a.as_str()).as_str(),
                " (use --account to override)",
            ),
            QueueError::NoSubmit(n) => around(
                "account ",
                debug_str(n.as_str()).as_str(),
                " has no [accounts.submit] block; jmapqueue refuses to route mail through a receive-only account",
            ),
            QueueError::NoMail(n) => around(
                "account ",
                debug_str(n.as_str()).as_str(),
                " has no [accounts.mail] block; nowhere to write Outbox",
            ),
            QueueError::BadSendAt { value, reason } => {
                let mut out = around(
                    "invalid --send-at / X-JMAP-Send-At value ",
                    debug_str(value.as_str()).as_str(),
                    " (expected RFC 3339, e.g. 2026-08-01T09:00:00-07:00): ",
                );
                out.append(reason.as_str());
                out
            },
        }
    }
}

// ---------------------------------------------------------------------------
// What the header says
// ---------------------------------------------------------------------------

/// The address in the value of a From field: what stands between the first `<`
/// and the last `>`, or the whole value, without white space at the ends.
pub open spec fn address_of(s: Seq<char>) -> Seq<char> {
    match (find(s, seq!['<']), rfind(s, seq!['>'])) {
        (Some(lt), Some(gt)) => if lt < gt {
            trimmed(s.subrange(lt + 1, gt))
        } else {
            trimmed(s)
        },
        _ => trimmed(s),
    }
}

/// The address in the value of a From field.
pub fn bare_address(header_value: &str) -> (r: String)
    ensures
        r@ == address_of(header_value@),
{
    let v = chars_of(header_value);
    let open = vec!['<'];
    let close = vec!['>'];
    assert(open@ =~= seq!['<']);
    assert(close@ =~= seq!['>']);
    let lt = find_chars(&v, &open);
    let gt = rfind_chars(&v, &close);
    match (lt, gt) {
        (Some(a), Some(b)) => if a < b {
            let inner = substring(&v, a + 1, b);
            trim(inner.as_str())
        } else {
            trim(header_value)
        },
        _ => trim(header_value),
    }
}

/// The value of the first field of a name.
pub open spec fn first_value(
    headers: Seq<(Seq<char>, Seq<char>)>,
    name: Seq<char>,
) -> Option<Seq<char>> {
    match first_where(headers, |h: (Seq<char>, Seq<char>)| same_ignoring_case(h.0, name)) {
        Some(i) => Some(headers[i].1),
        None => None,
    }
}

/// The value of the first field of a name.
pub fn find_value<'a>(headers: &'a Vec<(String, String)>, name: &str) -> (r: Option<&'a String>)
    ensures
        match r {
            Some(v) => first_value(pair_views(headers@), name@) == Some(v@),
            None => first_value(pair_views(headers@), name@) is None,
        },
{
    let ghost p = |h: (Seq<char>, Seq<char>)| same_ignoring_case(h.0, name@);
    let ghost hs = pair_views(headers@);
    let mut i: usize = 0;
    while i < headers.len()
        invariant
            i <= headers@.len(),
            hs == pair_views(headers@),
            p == (|h: (Seq<char>, Seq<char>)| same_ignoring_case(h.0, name@)),
            forall|j: int| 0 <= j < i ==> !p(#[trigger] hs[j]),
        decreases headers@.len() - i,
    {
        if eq_ignore_case(headers[i].0.as_str(), name) {
            proof {
                assert(p(hs[i as int]));
                lemma_first_is(hs, p, i as int);
            }
            return Some(&headers[i].1);
        }
        assert(!p(hs[i as int]));
        i += 1;
    }
    proof {
        lemma_first_none(hs, p);
    }
    None
}

/// The sender that a header names.
pub open spec fn header_from(headers: Seq<(Seq<char>, Seq<char>)>) -> Option<Seq<char>> {
    match first_value(headers, "from"@) {
        Some(v) => Some(address_of(v)),
        None => None,
    }
}

/// The sending time that a header asks for.
pub open spec fn header_send_at(headers: Seq<(Seq<char>, Seq<char>)>) -> Option<Seq<char>> {
    match first_value(headers, "x-jmap-send-at"@) {
        Some(v) => Some(trimmed(v)),
        None => None,
    }
}

/// The sender and the sending time that the fields of a header name.
pub fn pick_headers(headers: &Vec<(String, String)>) -> (r: (Option<String>, Option<String>))
    ensures
        opt_view(r.0) == header_from(pair_views(headers@)),
        opt_view(r.1) == header_send_at(pair_views(headers@)),
{
    let from = match find_value(headers, "from") {
        Some(v) => Some(bare_address(v.as_str())),
        None => None,
    };
    let send_at = match find_value(headers, "x-jmap-send-at") {
        Some(v) => Some(trim(v.as_str())),
        None => None,
    };
    (from, send_at)
}

/// The sender and the sending time that a message's own header names.
pub fn extract_headers(raw: &[u8]) -> (r: Result<(Option<String>, Option<String>), QueueError>)
    ensures
        match headers_parsed(raw@) {
            Ok(h) => r matches Ok(p) && opt_view(p.0) == header_from(h) && opt_view(p.1)
                == header_send_at(h),
            Err(e) => r matches Err(f) && f@ == QueueError::BadHeaders(e),
        },
{
    match parse_headers(raw) {
        Ok(h) => Ok(pick_headers(&h)),
        Err(e) => Err(QueueError::BadHeaders(e)),
    }
}

/// The identifier that a message's own header gives it, if it can be read and gives one.
pub fn message_id(raw: &[u8]) -> (r: Option<String>)
    ensures
        opt_view(r) == (match headers_parsed(raw@) {
            Ok(h) => first_value(h, "message-id"@),
            Err(_) => None,
        }),
{
    match parse_headers(raw) {
        Ok(h) => match find_value(&h, "message-id") {
            Some(v) => Some(v.clone()),
            None => None,
        },
        Err(_) => None,
    }
}

// ---------------------------------------------------------------------------
// The account
// ---------------------------------------------------------------------------

/// The account has the name.
pub open spec fn goes_by(a: Account, name: Seq<char>) -> bool {
    a.name@ == name
}

/// The account sends for the address.
pub open spec fn sends_for(a: Account, from: Seq<char>) -> bool {
    match a.submit {
        Some(s) => same_ignoring_case(s.from_address@, from),
        None => false,
    }
}

/// The account of the name that was asked for; without one, the first that sends
/// for the address.
pub open spec fn chosen_account(
    accounts: Seq<Account>,
    explicit: Option<Seq<char>>,
    from: Seq<char>,
) -> Option<int> {
    match explicit {
        Some(name) => first_where(accounts, |a: Account| goes_by(a, name)),
        None => first_where(accounts, |a: Account| sends_for(a, from)),
    }
}

/// The error where there is no such account.
pub open spec fn no_account(explicit: Option<Seq<char>>, from: Seq<char>) -> QueueError<Seq<char>> {
    match explicit {
        Some(name) => QueueError::UnknownAccount(name),
        None => QueueError::NoAccountFor(from),
    }
}

/// The view of an optional reference to a text.
pub open spec fn ref_view(o: Option<&str>) -> Option<Seq<char>> {
    match o {
        Some(s) => Some(s@),
        None => None,
    }
}

/// The account that a message goes out by.
pub fn pick_account<'c>(config: &'c Config, explicit_name: Option<&str>, from: &str) -> (r: Result<
    &'c Account,
    QueueError,
>)
    ensures
        match chosen_account(config.accounts@, ref_view(explicit_name), from@) {
            Some(i) => r matches Ok(a) && 0 <= i < config.accounts@.len() && *a
                == config.accounts@[i],
            None => r matches Err(e) && e@ == no_account(ref_view(explicit_name), from@),
        },
{
    let ghost accounts = config.accounts@;
    match explicit_name {
        Some(name) => {
            let ghost p = |a: Account| goes_by(a, name@);
            let mut i: usize = 0;
            while i < config.accounts.len()
                invariant
                    i <= config.accounts@.len(),
                    accounts == config.accounts@,
                    explicit_name == Some(name),
                    p == (|a: Account| goes_by(a, name@)),
                    forall|j: int| 0 <= j < i ==> !p(#[trigger] accounts[j]),
                decreases config.accounts@.len() - i,
            {
                if str_eq(config.accounts[i].name.as_str(), name) {
                    proof {
                        assert(p(accounts[i as int]));
                        lemma_first_is(accounts, p, i as int);
                    }
                    return Ok(&config.accounts[i]);
                }
                assert(!p(accounts[i as int]));
                i += 1;
            }
            proof {
                lemma_first_none(accounts, p);
            }
            Err(QueueError::UnknownAccount(name.to_owned()))
        },
        None => {
            let ghost p = |a: Account| sends_for(a, from@);
            let mut i: usize = 0;
            while i < config.accounts.len()
                invariant
                    i <= config.accounts@.len(),
                    accounts == config.accounts@,
                    explicit_name is None,
                    p == (|a: Account| sends_for(a, from@)),
                    forall|j: int| 0 <= j < i ==> !p(#[trigger] accounts[j]),
                decreases config.accounts@.len() - i,
            {
                let matched = match &config.accounts[i].submit {
                    Some(s) => eq_ignore_case(s.from_address.as_str(), from),
                    None => false,
                };
                if matched {
                    proof {
                        assert(p(accounts[i as int]));
                        lemma_first_is(accounts, p, i as int);
                    }
                    return Ok(&config.accounts[i]);
                }
                assert(!p(accounts[i as int]));
                i += 1;
            }
            proof {
                lemma_first_none(accounts, p);
            }
            Err(QueueError::NoAccountFor(from.to_owned()))
        },
    }
}

// ---------------------------------------------------------------------------
// The sending time
// ---------------------------------------------------------------------------

/// The text asks for sending at once.
pub open spec fn asks_for_now(t: Seq<char>) -> bool {
    t.len() == 0 || same_ignoring_case(t, "send-now"@)
}

/// The sending time `t`, by what parsing made of it.
pub open spec fn checked_send_at(
    t: Seq<char>,
    parsed: Result<(i64, u32), Seq<char>>,
) -> Result<Option<Seq<char>>, QueueError<Seq<char>>> {
    match parsed {
        Ok(_) => Ok(Some(t)),
        Err(e) => Err(QueueError::BadSendAt { value: t, reason: e }),
    }
}

/// The sending time that a text asks for: nothing for sending at once.
pub open spec fn normalized_send_at(v: Seq<char>) -> Result<
    Option<Seq<char>>,
    QueueError<Seq<char>>,
> {
    let t = trimmed(v);
    if asks_for_now(t) {
        Ok(None)
    } else {
        checked_send_at(t, rfc3339_parsed(t))
    }
}

/// The view of a sending time or an error.
pub open spec fn send_at_view(r: Result<Option<String>, QueueError>) -> Result<
    Option<Seq<char>>,
    QueueError<Seq<char>>,
> {
    match r {
        Ok(o) => Ok(opt_view(o)),
        Err(e) => Err(e@),
    }
}

/// The view of what parsing made of a time.
pub open spec fn parsed_view(r: Result<(i64, u32), String>) -> Result<(i64, u32), Seq<char>> {
    match r {
        Ok(t) => Ok(t),
        Err(e) => Err(e@),
    }
}

/// The sending time `value`, by what parsing made of it.
pub fn check_send_at(value: String, parsed: Result<(i64, u32), String>) -> (r: Result<
    Option<String>,
    QueueError,
>)
    ensures
        send_at_view(r) == checked_send_at(value@, parsed_view(parsed)),
{
    match parsed {
        Ok(_) => Ok(Some(value)),
        Err(e) => Err(QueueError::BadSendAt { value, reason: e }),
    }
}

/// The sending time that a text asks for: nothing for sending at once.
pub fn normalize_send_at(v: &str) -> (r: Result<Option<String>, QueueError>)
    ensures
        send_at_view(r) == normalized_send_at(v@),
{
    let t = trim(v);
    let n = chars_of(t.as_str()).len();
    if n == 0 || eq_ignore_case(t.as_str(), "send-now") {
        return Ok(None);
    }
    let parsed = parse_rfc3339(t.as_str());
    check_send_at(t, parsed)
}

// ---------------------------------------------------------------------------
// Taking a field out
// ---------------------------------------------------------------------------

/// Where the header ends and the body begins: before a blank line with carriage
/// returns, or, in a message without one, before a blank line without. The blank
/// line counts with the body.
pub open spec fn body_start(s: Seq<u8>) -> int {
    match find(s, crlf_blank()) {
        Some(i) => i,
        None => match find(s, lf_blank()) {
            Some(j) => j,
            None => s.len() as int,
        },
    }
}

proof fn lemma_body_start(s: Seq<u8>)
    ensures
        0 <= body_start(s) <= s.len(),
{
    lemma_find(s, crlf_blank());
    lemma_find(s, lf_blank());
}

/// Splits a message before the blank line that ends its header.
pub fn split_header_body(raw: &[u8]) -> (r: (&[u8], &[u8]))
    ensures
        r.0@ == raw@.take(body_start(raw@)),
        r.1@ == raw@.skip(body_start(raw@)),
{
    let crlf: [u8; 4] = [13, 10, 13, 10];
    let lf: [u8; 2] = [10, 10];
    assert(crlf@ =~= crlf_blank());
    assert(lf@ =~= lf_blank());
    let at: usize = match find_subseq(raw, &crlf) {
        Some(i) => i,
        None => match find_subseq(raw, &lf) {
            Some(j) => j,
            None => raw.len(),
        },
    };
    assert(at == body_start(raw@));
    let head = vstd::slice::slice_subrange(raw, 0, at);
    let body = vstd::slice::slice_subrange(raw, at, raw.len());
    assert(head@ =~= raw@.take(at as int));
    assert(body@ =~= raw@.skip(at as int));
    (head, body)
}

/// The field's name, up to the first colon, is this one, given in lower case.
pub open spec fn has_field_name(line: Seq<u8>, name: Seq<u8>) -> bool {
    match find(line, seq![58u8]) {
        Some(c) => c == name.len() && forall|i: int|
            0 <= i < c ==> byte_lower(#[trigger] line[i]) == name[i],
        None => false,
    }
}

/// `has_field_name` as a predicate on lines.
pub open spec fn field_named(name: Seq<u8>) -> spec_fn(Seq<u8>) -> bool {
    |line: Seq<u8>| has_field_name(line, name)
}

/// Whether a line is a field of this name, given in lower case.
pub fn line_starts_with_header(line: &[u8], name_lc: &str) -> (r: bool)
    ensures
        r == has_field_name(line@, encode_utf8(name_lc@)),
{
    let colon: [u8; 1] = [58];
    assert(colon@ =~= seq![58u8]);
    let name = name_lc.as_bytes();
    match find_subseq(line, &colon) {
        Some(c) => {
            if c != name.len() {
                return false;
            }
            let mut i: usize = 0;
            while i < c
                invariant
                    i <= c,
                    c == name@.len(),
                    c < line@.len(),
                    name@ == encode_utf8(name_lc@),
                    find(line@, seq![58u8]) == Some(c as int),
                    forall|j: int| 0 <= j < i ==> byte_lower(#[trigger] line@[j]) == name@[j],
                decreases c - i,
            {
                if lower_byte(line[i]) != name[i] {
                    return false;
                }
                i += 1;
            }
            true
        },
        None => false,
    }
}

/// The message without the fields of a name in its header, with the lines that
/// continue them.
pub open spec fn without_field(s: Seq<u8>, name: Seq<u8>) -> Seq<u8> {
    kept(s.take(body_start(s)), field_named(name), false) + s.skip(body_start(s))
}

/// Takes the fields of a name, given in lower case, out of a message's header.
pub fn strip_header_case_insensitive(raw: &[u8], name_lc: &str) -> (r: Vec<u8>)
    ensures
        r@ == without_field(raw@, encode_utf8(name_lc@)),
{
    let (header, body) = split_header_body(raw);
    let ghost named = field_named(encode_utf8(name_lc@));
    let mut out: Vec<u8> = Vec::new();
    let mut i: usize = 0;
    let mut skip = false;
    assert(header@.skip(0) =~= header@);
    assert(out@ + kept(header@, named, false) =~= kept(header@, named, false));
    while i < header.len()
        invariant
            i <= header@.len(),
            named == field_named(encode_utf8(name_lc@)),
            out@ + kept(header@.skip(i as int), named, skip) == kept(header@, named, false),
        decreases header@.len() - i,
    {
        let rest = vstd::slice::slice_subrange(header, i, header.len());
        assert(rest@ =~= header@.skip(i as int));
        let n = find_line_end(rest);
        let line = vstd::slice::slice_subrange(rest, 0, n);
        assert(line@ =~= rest@.take(n as int));
        proof {
            lemma_kept_step(rest@, named, skip);
        }
        if !starts_with_folded_continuation(line) {
            skip = line_starts_with_header(line, name_lc);
        }
        let ghost before = out@;
        let ghost tail = kept(rest@.skip(n as int), named, skip);
        if !skip {
            append_bytes(&mut out, line);
            assert(before + (line@ + tail) =~= out@ + tail);
        } else {
            assert(before + (Seq::<u8>::empty() + tail) =~= out@ + tail);
        }
        assert(rest@.skip(n as int) =~= header@.skip(i + n));
        i += n;
    }
    assert(out@ =~= kept(header@, named, false));
    append_bytes(&mut out, body);
    out
}

/// What is left of the header holds no field of the name.
pub proof fn law_field_is_gone(s: Seq<u8>, name: Seq<u8>)
    ensures
        !has_line(kept(s.take(body_start(s)), field_named(name), false), field_named(name)),
{
    lemma_kept_clean(s.take(body_start(s)), field_named(name), false);
}

/// A message without the field is left as it is.
pub proof fn law_others_stay(s: Seq<u8>, name: Seq<u8>)
    requires
        !has_line(s.take(body_start(s)), field_named(name)),
    ensures
        without_field(s, name) == s,
{
    lemma_body_start(s);
    lemma_kept_all(s.take(body_start(s)), field_named(name));
    assert(s.take(body_start(s)) + s.skip(body_start(s)) =~= s);
}

/// The body comes through unchanged, with the blank line before it.
pub proof fn law_body_stays(s: Seq<u8>, name: Seq<u8>)
    ensures
        ({
            let body = s.skip(body_start(s));
            let r = without_field(s, name);
            body.len() <= r.len() && r.skip(r.len() - body.len()) == body
        }),
{
    let body = s.skip(body_start(s));
    let r = without_field(s, name);
    assert(r.skip(r.len() - body.len()) =~= body);
}

// ---------------------------------------------------------------------------
// The file name
// ---------------------------------------------------------------------------

/// The name of a queued message's file.
pub open spec fn queue_file_name(
    epoch: nat,
    pid: nat,
    ulid: Seq<char>,
    host: Option<Seq<char>>,
) -> Seq<char> {
    decimal(epoch) + ".jmq"@ + decimal(pid) + "_"@ + ulid + "."@ + (match host {
        Some(h) => h,
        None => "localhost"@,
    })
}

/// The name of the file for a message that is queued at `epoch` by process `pid`
/// on `host`, under the label `ulid_id`.
pub fn maildir_filename(epoch: u64, pid: u32, ulid_id: &str, host: Option<&str>) -> (r: String)
    ensures
        r@ == queue_file_name(epoch as nat, pid as nat, ulid_id@, ref_view(host)),
{
    let mut out = String::new();
    push_decimal(&mut out, epoch);
    out.append(".jmq");
    push_decimal(&mut out, pid as u64);
    out.append("_");
    out.append(ulid_id);
    out.append(".");
    match host {
        Some(h) => out.append(h),
        None => out.append("localhost"),
    }
    assert(out@ =~= queue_file_name(epoch as nat, pid as nat, ulid_id@, ref_view(host)));
    out
}

/// A file name with a label of its own.
pub fn fresh_maildir_filename(epoch: u64, pid: u32, host: Option<&str>) -> (r: String)
    ensures
        exists|ulid: Seq<char>|
            is_ulid(ulid) && is_drawn_ulid(ulid) && r@ == #[trigger] queue_file_name(
                epoch as nat,
                pid as nat,
                ulid,
                ref_view(host),
            ),
{
    let ulid = fresh_ulid();
    maildir_filename(epoch, pid, ulid.as_str(), host)
}

// ---------------------------------------------------------------------------
// Queueing
// ---------------------------------------------------------------------------

/// What the caller asked for. `T` is a text and `L` a list of texts.
#[derive(Debug)]
#[verifier::ext_equal]
pub struct QueueArgs<T = String, L = Vec<String>> {
    /// The sender, in place of the one that the header names.
    pub from: Option<T>,
    /// The sending time, in place of the one that the header asks for.
    pub send_at: Option<T>,
    /// The account's name, in place of the one that the sender leads to.
    pub account: Option<T>,
    pub recipients: L,
}

impl View for QueueArgs<String, Vec<String>> {
    type V = QueueArgs<Seq<char>, Seq<Seq<char>>>;

    open spec fn view(&self) -> Self::V {
        QueueArgs {
            from: opt_view(self.from),
            send_at: opt_view(self.send_at),
            account: opt_view(self.account),
            recipients: views(self.recipients@),
        }
    }
}

/// By which account a message goes out, and when it is asked to.
#[derive(Debug)]
#[verifier::ext_equal]
pub struct Route<T = String> {
    pub from: T,
    pub account: T,
    pub mail_root: T,
    /// The sending time as it was asked for, before any check.
    pub send_at: Option<T>,
}

impl View for Route<String> {
    type V = Route<Seq<char>>;

    open spec fn view(&self) -> Self::V {
        Route {
            from: self.from@,
            account: self.account@,
            mail_root: self.mail_root@,
            send_at: opt_view(self.send_at),
        }
    }
}

/// The first of two texts that is there.
pub open spec fn first_set(a: Option<Seq<char>>, b: Option<Seq<char>>) -> Option<Seq<char>> {
    match a {
        Some(s) => Some(s),
        None => b,
    }
}

/// The route of a message: the options come before what the header says.
pub open spec fn routed(
    args: QueueArgs<Seq<char>, Seq<Seq<char>>>,
    headers: Seq<(Seq<char>, Seq<char>)>,
    accounts: Seq<Account>,
) -> Result<Route<Seq<char>>, QueueError<Seq<char>>> {
    match first_set(args.from, header_from(headers)) {
        None => Err(QueueError::NoFrom),
        Some(from) => match chosen_account(accounts, args.account, from) {
            None => Err(no_account(args.account, from)),
            Some(i) => {
                let a = accounts[i];
                match (a.submit, a.mail) {
                    (None, _) => Err(QueueError::NoSubmit(a.name@)),
                    (_, None) => Err(QueueError::NoMail(a.name@)),
                    (Some(_), Some(m)) => Ok(
                        Route {
                            from,
                            account: a.name@,
                            mail_root: m.path@,
                            send_at: first_set(args.send_at, header_send_at(headers)),
                        },
                    ),
                }
            },
        },
    }
}

/// The view of a route or an error.
pub open spec fn route_view(r: Result<Route, QueueError>) -> Result<
    Route<Seq<char>>,
    QueueError<Seq<char>>,
> {
    match r {
        Ok(x) => Ok(x@),
        Err(e) => Err(e@),
    }
}

fn first_of(a: &Option<String>, b: Option<String>) -> (r: Option<String>)
    ensures
        opt_view(r) == first_set(opt_view(*a), opt_view(b)),
{
    match a {
        Some(s) => Some(s.clone()),
        None => b,
    }
}

/// The route of a message whose header holds these fields.
pub fn route(args: &QueueArgs, headers: &Vec<(String, String)>, config: &Config) -> (r: Result<
    Route,
    QueueError,
>)
    ensures
        route_view(r) == routed(args@, pair_views(headers@), config.accounts@),
{
    let (header_from, header_send_at) = pick_headers(headers);
    let from = match first_of(&args.from, header_from) {
        Some(f) => f,
        None => return Err(QueueError::NoFrom),
    };
    let explicit: Option<&str> = match &args.account {
        Some(n) => Some(n.as_str()),
        None => None,
    };
    let account = match pick_account(config, explicit, from.as_str()) {
        Ok(a) => a,
        Err(e) => return Err(e),
    };
    match (&account.submit, &account.mail) {
        (None, _) => Err(QueueError::NoSubmit(account.name.clone())),
        (_, None) => Err(QueueError::NoMail(account.name.clone())),
        (Some(_), Some(m)) => Ok(
            Route {
                from,
                account: account.name.clone(),
                mail_root: m.path.clone(),
                send_at: first_of(&args.send_at, header_send_at),
            },
        ),
    }
}

/// A message that is ready to be written to the outbox.
#[derive(Debug)]
pub struct Prepared {
    pub mail_root: String,
    /// The message as it goes out.
    pub outbound: Vec<u8>,
    /// What the daemon is told of it.
    pub sidecar: SidecarState,
}

/// The sending time of a message, checked.
pub open spec fn route_send_at(send_at: Option<Seq<char>>) -> Result<
    Option<Seq<char>>,
    QueueError<Seq<char>>,
> {
    match send_at {
        Some(s) => normalized_send_at(s),
        None => Ok(None),
    }
}

/// What the daemon is told of a message that has just been queued.
pub open spec fn first_sidecar(
    route: Route<Seq<char>>,
    recipients: Seq<Seq<char>>,
    send_at: Option<Seq<char>>,
    now: Seq<char>,
) -> SidecarState<Seq<char>, Seq<Seq<char>>> {
    SidecarState {
        envelope: Envelope { from: route.from, to: recipients },
        send_at,
        submitted_at: now,
        account: route.account,
        retry: Some(RetryState { attempts: 0, next_at: None, last_error: None }),
        in_flight: None,
    }
}

/// Whether a message can be queued at all: somebody is to get it, and there is
/// something to get.
pub fn check_message(recipients: &Vec<String>, raw: &[u8]) -> (r: Result<(), QueueError>)
    ensures
        match r {
            Ok(_) => recipients@.len() > 0 && raw@.len() > 0,
            Err(e) => e@ == (if recipients@.len() == 0 {
                QueueError::<Seq<char>>::NoRecipients
            } else {
                QueueError::<Seq<char>>::EmptyMessage
            }) && (recipients@.len() == 0 || raw@.len() == 0),
        },
{
    if recipients.len() == 0 {
        return Err(QueueError::NoRecipients);
    }
    if raw.len() == 0 {
        return Err(QueueError::EmptyMessage);
    }
    Ok(())
}

/// Makes a message ready for the outbox at the time `now`.
pub fn prepare(args: &QueueArgs, raw: &[u8], config: &Config, now: &str) -> (r: Result<
    Prepared,
    QueueError,
>)
    ensures
        match headers_parsed(raw@) {
            Err(e) => r matches Err(f) && f@ == QueueError::BadHeaders(e),
            Ok(h) => match routed(args@, h, config.accounts@) {
                Err(e) => r matches Err(f) && f@ == e,
                Ok(route) => match route_send_at(route.send_at) {
                    Err(e) => r matches Err(f) && f@ == e,
                    Ok(send_at) => r matches Ok(p) && p.mail_root@ == route.mail_root
                        && p.outbound@ == without_field(raw@, encode_utf8("x-jmap-send-at"@))
                        && p.sidecar@ == first_sidecar(route, args@.recipients, send_at, now@),
                },
            },
        },
        r matches Ok(p) ==> views(p.sidecar.envelope.to@) == views(args.recipients@),
{
    let headers = match parse_headers(raw) {
        Ok(h) => h,
        Err(e) => return Err(QueueError::BadHeaders(e)),
    };
    let route = match route(args, &headers, config) {
        Ok(x) => x,
        Err(e) => return Err(e),
    };
    let send_at = match &route.send_at {
        Some(s) => match normalize_send_at(s.as_str()) {
            Ok(x) => x,
            Err(e) => return Err(e),
        },
        None => None,
    };
    let outbound = strip_header_case_insensitive(raw, "x-jmap-send-at");
    let sidecar = SidecarState {
        envelope: Envelope { from: route.from, to: clone_strings(&args.recipients) },
        send_at,
        submitted_at: now.to_owned(),
        account: route.account,
        retry: Some(RetryState::default()),
        in_flight: None,
    };
    Ok(Prepared { mail_root: route.mail_root, outbound, sidecar })
}

// ---------------------------------------------------------------------------
// Laws
// ---------------------------------------------------------------------------

/// Whenever a message is queued, its record names everybody who was asked for, as many, the
/// same and in the same order. A sender and an account that were asked for are the record's.
/// The record is dated with the present, tells of no attempt and of none under way.
pub proof fn law_record_says_what_was_asked(
    args: &QueueArgs,
    raw: &[u8],
    config: &Config,
    now: &str,
    r: Result<Prepared, QueueError>,
)
    requires
        call_ensures(prepare, (args, raw, config, now), r),
        r is Ok,
    ensures
        views(r->Ok_0.sidecar.envelope.to@) == views(args.recipients@),
        r->Ok_0.sidecar.envelope.to@.len() == args.recipients@.len(),
        args.from is Some ==> r->Ok_0.sidecar.envelope.from@ == args.from->0@,
        args.account is Some ==> r->Ok_0.sidecar.account@ == args.account->0@,
        r->Ok_0.sidecar.submitted_at@ == now@,
        r->Ok_0.sidecar.in_flight is None,
        r->Ok_0.sidecar.retry is Some,
        r->Ok_0.sidecar.retry->0.attempts == 0,
        r->Ok_0.sidecar.retry->0.next_at is None,
        r->Ok_0.sidecar.retry->0.last_error is None,
{
    let p = r->Ok_0;
    let send_at = route_send_at(
        routed(args@, headers_parsed(raw@)->Ok_0, config.accounts@)->Ok_0.send_at,
    )->Ok_0;
    let route = routed(args@, headers_parsed(raw@)->Ok_0, config.accounts@)->Ok_0;
    assert(p.sidecar@ == first_sidecar(route, args@.recipients, send_at, now@));
    assert(p.sidecar@.envelope.to == views(p.sidecar.envelope.to@));
    assert(views(p.sidecar.envelope.to@).len() == p.sidecar.envelope.to@.len());
    assert(views(args.recipients@).len() == args.recipients@.len());
    assert(p.sidecar@.envelope.from == p.sidecar.envelope.from@);
    if args.account is Some {
        let q = |a: Account| goes_by(a, args.account->0@);
        crate::search::lemma_first_from(config.accounts@, q, 0);
        assert(q(config.accounts@[first_where(config.accounts@, q)->0]));
    }
}

/// A message is queued with an account of the configuration that can both send and receive,
/// in that account's tree. Without an account that was asked for, it is the first that sends
/// for the sender, the case of letters aside.
pub proof fn law_account_can_send(
    args: &QueueArgs,
    raw: &[u8],
    config: &Config,
    now: &str,
    r: Result<Prepared, QueueError>,
)
    requires
        call_ensures(prepare, (args, raw, config, now), r),
        r is Ok,
    ensures
        exists|i: int|
            {
                &&& 0 <= i < config.accounts@.len()
                &&& (#[trigger] config.accounts@[i]).name@ == r->Ok_0.sidecar.account@
                &&& config.accounts@[i].submit is Some
                &&& config.accounts@[i].mail is Some
                &&& config.accounts@[i].mail->0.path@ == r->Ok_0.mail_root@
                &&& args.account is None ==> same_ignoring_case(
                    config.accounts@[i].submit->0.from_address@,
                    r->Ok_0.sidecar.envelope.from@,
                )
                &&& args.account is None ==> (forall|j: int|
                    0 <= j < i && (#[trigger] config.accounts@[j]).submit is Some
                        ==> !same_ignoring_case(
                        config.accounts@[j].submit->0.from_address@,
                        r->Ok_0.sidecar.envelope.from@,
                    ))
            },
{
    let p = r->Ok_0;
    let accounts = config.accounts@;
    let route = routed(args@, headers_parsed(raw@)->Ok_0, accounts)->Ok_0;
    let i = chosen_account(accounts, args@.account, route.from)->0;
    assert(p.sidecar@.account == route.account);
    assert(p.sidecar@.envelope.from == p.sidecar.envelope.from@);
    match args@.account {
        Some(name) => {
            let q = |a: Account| goes_by(a, name);
            crate::search::lemma_first_from(accounts, q, 0);
        },
        None => {
            let q = |a: Account| sends_for(a, route.from);
            crate::search::lemma_first_from(accounts, q, 0);
            assert(q(accounts[i]));
            assert forall|j: int| 0 <= j < i && (#[trigger] accounts[j]).submit is Some implies
                !same_ignoring_case(accounts[j].submit->0.from_address@, p.sidecar.envelope.from@) by {
                assert(!q(accounts[j]));
            }
        },
    }
    assert(accounts[i].name@ == p.sidecar.account@);
}

/// The sending time in the record is one that can be read as a time, without white space
/// around it. There is none if the option asks for sending at once, whatever the message's
/// own header asks for, and it is the option's if the option asks for a time.
pub proof fn law_option_decides_the_sending_time(
    args: &QueueArgs,
    raw: &[u8],
    config: &Config,
    now: &str,
    r: Result<Prepared, QueueError>,
)
    requires
        call_ensures(prepare, (args, raw, config, now), r),
        r is Ok,
    ensures
        r->Ok_0.sidecar.send_at is Some ==> {
            let t = r->Ok_0.sidecar.send_at->0@;
            rfc3339_parsed(t) is Ok && t.len() > 0 && trimmed(t) == t
        },
        args.send_at is Some && is_blank(args.send_at->0@) ==> r->Ok_0.sidecar.send_at is None,
        args.send_at is Some && same_ignoring_case(trimmed(args.send_at->0@), "send-now"@)
            ==> r->Ok_0.sidecar.send_at is None,
        args.send_at is Some && !is_blank(args.send_at->0@) && !same_ignoring_case(
            trimmed(args.send_at->0@),
            "send-now"@,
        ) ==> r->Ok_0.sidecar.send_at is Some && r->Ok_0.sidecar.send_at->0@ == trimmed(
            args.send_at->0@,
        ),
{
    let p = r->Ok_0;
    let route = routed(args@, headers_parsed(raw@)->Ok_0, config.accounts@)->Ok_0;
    let send_at = route_send_at(route.send_at)->Ok_0;
    assert(p.sidecar@.send_at == send_at);
    assert(p.sidecar@.send_at == opt_view(p.sidecar.send_at));
    match route.send_at {
        Some(s) => {
            law_trimming_takes_the_ends(s);
            law_blank_is_empty_when_trimmed(s);
        },
        None => {},
    }
}

/// A text asks for a time exactly if it is more than white space and does not ask for sending
/// at once; the time is then the text without the white space around it, and it is an error,
/// with that text in it, exactly if it cannot be read as a time.
pub proof fn law_sending_time_is_read_or_refused(
    v: &str,
    r: Result<Option<String>, QueueError>,
)
    requires
        call_ensures(normalize_send_at, (v,), r),
    ensures
        r is Ok && r->Ok_0 is None <==> is_blank(v@) || same_ignoring_case(trimmed(v@), "send-now"@),
        r is Ok && r->Ok_0 is Some ==> r->Ok_0->0@ == trimmed(v@) && rfc3339_parsed(
            trimmed(v@),
        ) is Ok,
        r is Err ==> rfc3339_parsed(trimmed(v@)) is Err && r->Err_0@ == (QueueError::BadSendAt {
            value: trimmed(v@),
            reason: rfc3339_parsed(trimmed(v@))->Err_0,
        }),
{
    law_blank_is_empty_when_trimmed(v@);
    assert(send_at_view(r) == normalized_send_at(v@));
    match r {
        Ok(o) => {
            assert(opt_view(o) == normalized_send_at(v@)->Ok_0);
        },
        Err(_) => {},
    }
}

/// What goes out is the message, but for the fields of the name in its header: the body is
/// as it was, none of the fields is left before it, and a message without such a field is
/// left alone.
pub proof fn law_only_the_field_is_taken_out(raw: &[u8], name_lc: &str, r: Vec<u8>)
    requires
        call_ensures(strip_header_case_insensitive, (raw, name_lc), r),
    ensures
        ({
            let body = raw@.skip(body_start(raw@));
            let head = r@.take(r@.len() - body.len());
            &&& body.len() <= r@.len() <= raw@.len()
            &&& r@.skip(r@.len() - body.len()) == body
            &&& !has_line(head, field_named(encode_utf8(name_lc@)))
        }),
        !has_line(raw@.take(body_start(raw@)), field_named(encode_utf8(name_lc@))) ==> r@ == raw@,
{
    let name = encode_utf8(name_lc@);
    let s = raw@;
    lemma_body_start(s);
    let head = s.take(body_start(s));
    let body = s.skip(body_start(s));
    let k = kept(head, field_named(name), false);
    lemma_kept_clean(head, field_named(name), false);
    lemma_kept_shorter(head, field_named(name), false);
    assert(r@.take(r@.len() - body.len()) =~= k);
    assert(r@.skip(r@.len() - body.len()) =~= body);
    if !has_line(head, field_named(name)) {
        law_others_stay(s, name);
    }
}

/// A queued message goes out without its `X-JMAP-Send-At` field, with the body that it had.
pub proof fn law_sending_time_does_not_go_out(
    args: &QueueArgs,
    raw: &[u8],
    config: &Config,
    now: &str,
    r: Result<Prepared, QueueError>,
)
    requires
        call_ensures(prepare, (args, raw, config, now), r),
        r is Ok,
    ensures
        ({
            let out = r->Ok_0.outbound@;
            let body = raw@.skip(body_start(raw@));
            let field = field_named(encode_utf8("x-jmap-send-at"@));
            &&& body.len() <= out.len()
            &&& out.skip(out.len() - body.len()) == body
            &&& !has_line(out.take(out.len() - body.len()), field)
            &&& !has_line(raw@.take(body_start(raw@)), field) ==> out == raw@
        }),
{
    let name = encode_utf8("x-jmap-send-at"@);
    let s = raw@;
    let out = r->Ok_0.outbound@;
    lemma_body_start(s);
    let head = s.take(body_start(s));
    let body = s.skip(body_start(s));
    lemma_kept_clean(head, field_named(name), false);
    assert(out.take(out.len() - body.len()) =~= kept(head, field_named(name), false));
    assert(out.skip(out.len() - body.len()) =~= body);
    if !has_line(head, field_named(name)) {
        law_others_stay(s, name);
    }
}

/// Header and body are the whole message. The body begins with the first blank line with
/// carriage returns; without one, with the first blank line; without any, there is no body.
/// `lf` and `crlf` are the two forms of a blank line.
pub proof fn law_body_begins_with_the_blank_line(
    raw: &[u8],
    r: (&[u8], &[u8]),
    lf: Seq<u8>,
    crlf: Seq<u8>,
)
    requires
        call_ensures(split_header_body, (raw,), r),
        lf == seq![10u8, 10u8],
        crlf == seq![13u8, 10u8, 13u8, 10u8],
    ensures
        r.0@ + r.1@ == raw@,
        occurs(raw@, crlf) ==> occurs_at(r.1@, crlf, 0),
        !occurs(raw@, crlf) && occurs(raw@, lf) ==> occurs_at(r.1@, lf, 0),
        !occurs(raw@, crlf) && !occurs(raw@, lf) ==> r.1@.len() == 0,
        forall|i: int| #[trigger] occurs_at(raw@, crlf, i) ==> r.0@.len() <= i,
        !occurs(raw@, crlf) ==> forall|i: int| #[trigger] occurs_at(raw@, lf, i) ==> r.0@.len()
            <= i,
{
    let s = raw@;
    assert(crlf =~= crlf_blank());
    assert(lf =~= lf_blank());
    lemma_body_start(s);
    lemma_find(s, crlf);
    lemma_find(s, lf);
    assert(r.0@ + r.1@ =~= s);
    let k = body_start(s);
    match find(s, crlf) {
        Some(i) => {
            assert(r.1@.subrange(0, 4) =~= s.subrange(k, k + 4));
        },
        None => match find(s, lf) {
            Some(j) => {
                assert(r.1@.subrange(0, 2) =~= s.subrange(k, k + 2));
            },
            None => {},
        },
    }
}

/// A line is a field of the name exactly if it is the name, in either case, and a colon
/// before anything else.
pub proof fn law_field_begins_with_its_name(line: &[u8], name_lc: &str, r: bool)
    requires
        call_ensures(line_starts_with_header, (line, name_lc), r),
        !encode_utf8(name_lc@).contains(58),
        forall|i: int|
            0 <= i < encode_utf8(name_lc@).len() ==> byte_lower(#[trigger] encode_utf8(name_lc@)[i])
                == encode_utf8(name_lc@)[i],
    ensures
        ({
            let name = encode_utf8(name_lc@);
            r <==> name.len() < line@.len() && line@[name.len() as int] == 58 && forall|i: int|
                0 <= i < name.len() ==> byte_lower(#[trigger] line@[i]) == name[i]
        }),
{
    let name = encode_utf8(name_lc@);
    let s = line@;
    let n = name.len() as int;
    let colon = seq![58u8];
    lemma_find(s, colon);
    if r {
        assert(s.subrange(n, n + 1) =~= colon);
        assert(s[n] == s.subrange(n, n + 1)[0]);
    }
    if n < s.len() && s[n] == 58 && forall|i: int|
        0 <= i < n ==> byte_lower(#[trigger] s[i]) == name[i] {
        assert(s.subrange(n, n + 1) =~= colon);
        assert forall|j: int| j < n implies !occurs_at(s, colon, j) by {
            if occurs_at(s, colon, j) {
                assert(s.subrange(j, j + 1)[0] == 58);
                assert(s[j] == 58);
                assert(byte_lower(s[j]) == name[j]);
                assert(name.contains(name[j]));
            }
        }
        lemma_find_is(s, colon, n);
    }
}

/// The address in a value is what stands in angle brackets, whatever stands before and
/// behind, and the whole value where there are none, without the white space around it.
pub proof fn law_address_stands_in_brackets(a: Seq<char>, b: Seq<char>, c: Seq<char>)
    requires
        !a.contains('<'),
        !c.contains('>'),
    ensures
        address_of(a + seq!['<'] + b + seq!['>'] + c) == trimmed(b),
        address_of(a) == trimmed(a),
        address_of(c) == trimmed(c),
{
    let s = a + seq!['<'] + b + seq!['>'] + c;
    let lt = seq!['<'];
    let gt = seq!['>'];
    let n = a.len() as int;
    let m = n + 1 + b.len();
    assert(s.subrange(n, n + 1) =~= lt);
    assert forall|j: int| j < n implies !occurs_at(s, lt, j) by {
        if occurs_at(s, lt, j) {
            assert(s.subrange(j, j + 1)[0] == '<');
            assert(s[j] == a[j]);
        }
    }
    lemma_find_is(s, lt, n);
    assert(s.subrange(m, m + 1) =~= gt);
    assert forall|j: int| m < j implies !occurs_at(s, gt, j) by {
        if occurs_at(s, gt, j) {
            assert(s.subrange(j, j + 1)[0] == '>');
            assert(s[j] == c[j - m - 1]);
        }
    }
    lemma_rfind_is(s, gt, m);
    assert(s.subrange(n + 1, m) =~= b);
    assert forall|j: int| !occurs_at(a, lt, j) by {
        if occurs_at(a, lt, j) {
            assert(a.subrange(j, j + 1)[0] == '<');
            assert(a[j] == '<');
        }
    }
    lemma_find(a, lt);
    assert forall|j: int| !occurs_at(c, gt, j) by {
        if occurs_at(c, gt, j) {
            assert(c.subrange(j, j + 1)[0] == '>');
            assert(c[j] == '>');
        }
    }
    lemma_rfind(c, gt);
}

/// A field is found by its name in either case, the first of that name, and is not found
/// only if there is none.
pub proof fn law_first_field_of_the_name_counts(
    headers: Seq<(Seq<char>, Seq<char>)>,
    name: Seq<char>,
)
    ensures
        first_value(headers, name) is Some <==> exists|k: int|
            0 <= k < headers.len() && same_ignoring_case((#[trigger] headers[k]).0, name),
        first_value(headers, name) is Some ==> exists|k: int|
            0 <= k < headers.len() && same_ignoring_case((#[trigger] headers[k]).0, name)
                && first_value(headers, name) == Some(headers[k].1) && forall|j: int|
                0 <= j < k ==> !same_ignoring_case((#[trigger] headers[j]).0, name),
{
    let p = |h: (Seq<char>, Seq<char>)| same_ignoring_case(h.0, name);
    crate::search::lemma_first_from(headers, p, 0);
    match first_where(headers, p) {
        Some(k) => {
            assert(p(headers[k]));
            assert forall|j: int| 0 <= j < k implies !same_ignoring_case(
                (#[trigger] headers[j]).0,
                name,
            ) by {
                assert(!p(headers[j]));
            }
        },
        None => {
            assert forall|k: int| 0 <= k < headers.len() implies !same_ignoring_case(
                (#[trigger] headers[k]).0,
                name,
            ) by {
                assert(!p(headers[k]));
            }
        },
    }
}

/// An account that is asked for by name is the first of that name, whether or not it sends
/// for the sender; it is an error only if there is none. Without one it is the first account
/// that sends for the sender, and an error only if none does.
pub proof fn law_account_is_the_one_meant<'c>(
    config: &'c Config,
    explicit_name: Option<&str>,
    from: &str,
    r: Result<&'c Account, QueueError>,
)
    requires
        call_ensures(pick_account, (config, explicit_name, from), r),
    ensures
        explicit_name is Some ==> (r is Ok <==> exists|k: int|
            0 <= k < config.accounts@.len() && (#[trigger] config.accounts@[k]).name@
                == explicit_name->0@),
        explicit_name is Some && r is Ok ==> r->Ok_0.name@ == explicit_name->0@,
        explicit_name is Some && r is Err ==> r->Err_0@ == QueueError::UnknownAccount(
            explicit_name->0@,
        ),
        explicit_name is None ==> (r is Ok <==> exists|k: int|
            0 <= k < config.accounts@.len() && (#[trigger] config.accounts@[k]).submit is Some
                && same_ignoring_case(config.accounts@[k].submit->0.from_address@, from@)),
        explicit_name is None && r is Ok ==> r->Ok_0.submit is Some && same_ignoring_case(
            r->Ok_0.submit->0.from_address@,
            from@,
        ),
        explicit_name is None && r is Err ==> r->Err_0@ == QueueError::NoAccountFor(from@),
{
    let accounts = config.accounts@;
    match explicit_name {
        Some(name) => {
            let p = |a: Account| goes_by(a, name@);
            crate::search::lemma_first_from(accounts, p, 0);
            match first_where(accounts, p) {
                Some(k) => {
                    assert(p(accounts[k]));
                },
                None => {
                    assert forall|k: int| 0 <= k < accounts.len() implies (#[trigger] accounts[k]).name@
                        != name@ by {
                        assert(!p(accounts[k]));
                    }
                },
            }
        },
        None => {
            let p = |a: Account| sends_for(a, from@);
            crate::search::lemma_first_from(accounts, p, 0);
            match first_where(accounts, p) {
                Some(k) => {
                    assert(p(accounts[k]));
                },
                None => {
                    assert forall|k: int|
                        0 <= k < accounts.len() && (#[trigger] accounts[k]).submit is Some implies
                        !same_ignoring_case(accounts[k].submit->0.from_address@, from@) by {
                        assert(!p(accounts[k]));
                    }
                },
            }
        },
    }
}

/// What the options ask for comes before what the header says. The header counts only where
/// the options say nothing, and then as it is.
pub proof fn law_options_come_first(
    args: &QueueArgs,
    headers: &Vec<(String, String)>,
    config: &Config,
    r: Result<Route, QueueError>,
)
    requires
        call_ensures(route, (args, headers, config), r),
    ensures
        args.from is None && header_from(pair_views(headers@)) is None <==> r is Err
            && r->Err_0 is NoFrom,
        r is Ok && args.from is Some ==> r->Ok_0.from@ == args.from->0@,
        r is Ok && args.from is None ==> Some(r->Ok_0.from@) == header_from(pair_views(headers@)),
        r is Ok && args.send_at is Some ==> opt_view(r->Ok_0.send_at) == Some(args.send_at->0@),
        r is Ok && args.send_at is None ==> opt_view(r->Ok_0.send_at) == header_send_at(
            pair_views(headers@),
        ),
{
    assert(route_view(r) == routed(args@, pair_views(headers@), config.accounts@));
    match r {
        Ok(x) => {
            assert(x@.from == x.from@);
        },
        Err(e) => {},
    }
}

/// A message can be queued exactly if somebody is to get it and there is something to get.
pub proof fn law_nothing_for_nobody(recipients: &Vec<String>, raw: &[u8], r: Result<(), QueueError>)
    requires
        call_ensures(check_message, (recipients, raw), r),
    ensures
        r is Ok <==> recipients@.len() > 0 && raw@.len() > 0,
        recipients@.len() == 0 ==> r is Err && r->Err_0 is NoRecipients,
        recipients@.len() > 0 && raw@.len() == 0 ==> r is Err && r->Err_0 is EmptyMessage,
{
}

/// The name of a message's file begins with the time and ends with the machine, and two
/// messages of one process and one second have different names if they have different
/// labels.
pub proof fn law_file_names_differ_by_label(
    epoch: u64,
    pid: u32,
    one: &str,
    other: &str,
    host: Option<&str>,
    a: String,
    b: String,
)
    requires
        call_ensures(maildir_filename, (epoch, pid, one, host), a),
        call_ensures(maildir_filename, (epoch, pid, other, host), b),
    ensures
        a@ == b@ ==> one@ == other@,
        occurs_at(a@, decimal(epoch as nat) + ".jmq"@ + decimal(pid as nat) + "_"@ + one@ + "."@, 0),
        host is Some ==> a@ == decimal(epoch as nat) + ".jmq"@ + decimal(pid as nat) + "_"@ + one@
            + "."@ + host->0@,
        host is None ==> a@ == decimal(epoch as nat) + ".jmq"@ + decimal(pid as nat) + "_"@ + one@
            + "."@ + "localhost"@,
{
    let head = decimal(epoch as nat) + ".jmq"@ + decimal(pid as nat) + "_"@;
    let tail = "."@ + (match ref_view(host) {
        Some(h) => h,
        None => "localhost"@,
    });
    assert(a@ =~= head + one@ + tail);
    assert(b@ =~= head + other@ + tail);
    if a@ == b@ {
        assert(one@.len() == other@.len());
        assert forall|i: int| 0 <= i < one@.len() implies one@[i] == other@[i] by {
            assert(a@[head.len() + i] == one@[i]);
            assert(b@[head.len() + i] == other@[i]);
        }
        assert(one@ =~= other@);
    }
    let front = head + one@ + "."@;
    assert(a@.subrange(0, front.len() as int) =~= front);
}

/// The sender that a header names is the address in its first field of that name, and there
/// is one exactly if there is such a field; so it is with the sending time, without the white
/// space around it.
pub proof fn law_header_names_sender_and_time(headers: Seq<(Seq<char>, Seq<char>)>)
    ensures
        header_from(headers) is Some <==> exists|k: int|
            0 <= k < headers.len() && same_ignoring_case((#[trigger] headers[k]).0, "from"@),
        header_from(headers) is Some ==> exists|k: int|
            0 <= k < headers.len() && same_ignoring_case((#[trigger] headers[k]).0, "from"@)
                && header_from(headers) == Some(address_of(headers[k].1)) && forall|j: int|
                0 <= j < k ==> !same_ignoring_case((#[trigger] headers[j]).0, "from"@),
        header_send_at(headers) is Some <==> exists|k: int|
            0 <= k < headers.len() && same_ignoring_case(
                (#[trigger] headers[k]).0,
                "x-jmap-send-at"@,
            ),
        header_send_at(headers) is Some ==> exists|k: int|
            0 <= k < headers.len() && same_ignoring_case(
                (#[trigger] headers[k]).0,
                "x-jmap-send-at"@,
            ) && header_send_at(headers) == Some(trimmed(headers[k].1)) && forall|j: int|
                0 <= j < k ==> !same_ignoring_case((#[trigger] headers[j]).0, "x-jmap-send-at"@),
{
    law_first_field_of_the_name_counts(headers, "from"@);
    law_first_field_of_the_name_counts(headers, "x-jmap-send-at"@);
    if header_from(headers) is Some {
        let k = choose|k: int|
            0 <= k < headers.len() && same_ignoring_case((#[trigger] headers[k]).0, "from"@)
                && first_value(headers, "from"@) == Some(headers[k].1) && forall|j: int|
                0 <= j < k ==> !same_ignoring_case((#[trigger] headers[j]).0, "from"@);
        assert(header_from(headers) == Some(address_of(headers[k].1)));
    }
    if header_send_at(headers) is Some {
        let k = choose|k: int|
            0 <= k < headers.len() && same_ignoring_case(
                (#[trigger] headers[k]).0,
                "x-jmap-send-at"@,
            ) && first_value(headers, "x-jmap-send-at"@) == Some(headers[k].1) && forall|j: int|
                0 <= j < k ==> !same_ignoring_case((#[trigger] headers[j]).0, "x-jmap-send-at"@);
        assert(header_send_at(headers) == Some(trimmed(headers[k].1)));
    }
}

/// The user reads what was asked for and not found, and why a value was refused.
pub proof fn law_error_quotes_what_is_wrong(e: QueueError<Seq<char>>)
    ensures
        e is BadHeaders ==> has_suffix(error_text(e), e->BadHeaders_0),
        e is UnknownAccount ==> occurs(error_text(e), debug_text(e->UnknownAccount_0)),
        e is NoAccountFor ==> occurs(error_text(e), debug_text(e->NoAccountFor_0)),
        e is NoSubmit ==> occurs(error_text(e), debug_text(e->NoSubmit_0)),
        e is NoMail ==> occurs(error_text(e), debug_text(e->NoMail_0)),
        e is BadSendAt ==> occurs(error_text(e), debug_text(e->value)) && has_suffix(
            error_text(e),
            e->reason,
        ),
{
    let t = error_text(e);
    match e {
        QueueError::BadHeaders(s) => {
            assert(t.subrange(t.len() - s.len(), t.len() as int) =~= s);
        },
        QueueError::UnknownAccount(n) => lemma_stands_in(
            "--account "@,
            debug_text(n),
            " not found in config"@,
        ),
        QueueError::NoAccountFor(a) => lemma_stands_in(
            "no account whose [accounts.submit].from_address matches From: "@,
            debug_text(a),
            " (use --account to override)"@,
        ),
        QueueError::NoSubmit(n) => lemma_stands_in(
            "account "@,
            debug_text(n),
            " has no [accounts.submit] block; jmapqueue refuses to route mail through a receive-only account"@,
        ),
        QueueError::NoMail(n) => lemma_stands_in(
            "account "@,
            debug_text(n),
            " has no [accounts.mail] block; nowhere to write Outbox"@,
        ),
        QueueError::BadSendAt { value, reason } => {
            let tail = " (expected RFC 3339, e.g. 2026-08-01T09:00:00-07:00): "@ + reason;
            lemma_stands_in(
                "invalid --send-at / X-JMAP-Send-At value "@,
                debug_text(value),
                tail,
            );
            assert(t =~= "invalid --send-at / X-JMAP-Send-At value "@ + debug_text(value) + tail);
            assert(t.subrange(t.len() - reason.len(), t.len() as int) =~= reason);
        },
        _ => {},
    }
}

proof fn lemma_stands_in(a: Seq<char>, b: Seq<char>, c: Seq<char>)
    ensures
        occurs(a + b + c, b),
{
    let s = a + b + c;
    let n = a.len() as int;
    assert(s.subrange(n, n + b.len()) =~= b);
    assert(occurs_at(s, b, n));
}

/// The identifier of a message is the value of the first field of that name in its header,
/// and there is none exactly if there is no such field or the header cannot be read.
pub proof fn law_message_is_identified_by_its_header(raw: &[u8], r: Option<String>)
    requires
        call_ensures(message_id, (raw,), r),
    ensures
        headers_parsed(raw@) is Err ==> r is None,
        headers_parsed(raw@) is Ok ==> {
            let h = headers_parsed(raw@)->Ok_0;
            &&& r is Some <==> exists|k: int|
                0 <= k < h.len() && same_ignoring_case((#[trigger] h[k]).0, "message-id"@)
            &&& r is Some ==> exists|k: int|
                0 <= k < h.len() && same_ignoring_case((#[trigger] h[k]).0, "message-id"@) && r->0@
                    == h[k].1 && forall|j: int|
                    0 <= j < k ==> !same_ignoring_case((#[trigger] h[j]).0, "message-id"@)
        },
{
    match headers_parsed(raw@) {
        Ok(h) => {
            law_first_field_of_the_name_counts(h, "message-id"@);
            assert(opt_view(r) == first_value(h, "message-id"@));
            if r is Some {
                let k = choose|k: int|
                    0 <= k < h.len() && same_ignoring_case((#[trigger] h[k]).0, "message-id"@)
                        && first_value(h, "message-id"@) == Some(h[k].1) && forall|j: int|
                        0 <= j < k ==> !same_ignoring_case((#[trigger] h[j]).0, "message-id"@);
                assert(r->0@ == h[k].1);
            }
        },
        Err(_) => {},
    }
}

/// Brackets that close before they open are none.
pub proof fn law_brackets_the_wrong_way_are_none(a: Seq<char>, b: Seq<char>, c: Seq<char>)
    requires
        !a.contains('<'),
        !b.contains('<') && !b.contains('>'),
        !c.contains('>'),
    ensures
        ({
            let s = a + seq!['>'] + b + seq!['<'] + c;
            address_of(s) == trimmed(s)
        }),
{
    let s = a + seq!['>'] + b + seq!['<'] + c;
    let lt = seq!['<'];
    let gt = seq!['>'];
    let n = a.len() as int;
    let m = n + 1 + b.len();
    assert(s.subrange(m, m + 1) =~= lt);
    assert forall|j: int| j < m implies !occurs_at(s, lt, j) by {
        if occurs_at(s, lt, j) {
            assert(s.subrange(j, j + 1)[0] == '<');
            if j < n {
                assert(s[j] == a[j]);
            } else if j > n {
                assert(s[j] == b[j - n - 1]);
            }
        }
    }
    lemma_find_is(s, lt, m);
    assert(s.subrange(n, n + 1) =~= gt);
    assert forall|j: int| n < j implies !occurs_at(s, gt, j) by {
        if occurs_at(s, gt, j) {
            assert(s.subrange(j, j + 1)[0] == '>');
            if j < m {
                assert(s[j] == b[j - n - 1]);
            } else if j > m {
                assert(s[j] == c[j - m - 1]);
            }
        }
    }
    lemma_rfind_is(s, gt, n);
}

} // verus!
