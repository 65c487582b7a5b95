//! What the library takes from elsewhere: the calls into other crates and into
//! the parts of the standard library that carry no contract of their own.
//!
//! Nothing here is proved. Each contract says what the callee's documentation
//! and source show, and no more. A result that would take pages to describe has
//! a name instead, a spec function without a body.

use std::collections::BTreeMap;
use std::time::{SystemTime, UNIX_EPOCH};

use vstd::prelude::*;
use vstd::string::*;

use crate::sorting::strictly_in_order;
use crate::text::{opt_view, views};

verus! {

// ---------------------------------------------------------------------------
// chrono
// ---------------------------------------------------------------------------

/// What `chrono::DateTime::parse_from_rfc3339` makes of a text: the seconds since
/// the epoch and the nanoseconds within the second, or the text of its error.
pub uninterp spec fn rfc3339_parsed(s: Seq<char>) -> Result<(i64, u32), Seq<char>>;

/// Calls `chrono::DateTime::parse_from_rfc3339`. The result is the instant's
/// `timestamp` and `timestamp_subsec_nanos`, or the error as text; it depends on
/// the text alone.
#[verifier::external_body]
pub(crate) fn parse_rfc3339(s: &str) -> (r: Result<(i64, u32), String>)
    ensures
        match r {
            Ok(t) => rfc3339_parsed(s@) == Ok::<(i64, u32), Seq<char>>(t),
            Err(e) => rfc3339_parsed(s@) == Err::<(i64, u32), Seq<char>>(e@),
        },
{
    match chrono::DateTime::parse_from_rfc3339(s) {
        Ok(t) => Ok((t.timestamp(), t.timestamp_subsec_nanos())),
        Err(e) => Err(e.to_string()),
    }
}

/// How `chrono::DateTime::from_timestamp` and `to_rfc3339_opts` show a number of
/// seconds since the epoch; nothing where the calendar does not reach.
pub uninterp spec fn iso_text(secs: i64) -> Option<Seq<char>>;

/// The text reads as a whole second.
pub open spec fn reads_as(s: Seq<char>, secs: i64) -> bool {
    rfc3339_parsed(s) == Ok::<(i64, u32), Seq<char>>((secs, 0))
}

/// The last second of the year 9999, in seconds since the epoch.
pub const LAST_FOUR_DIGIT_SECOND: i64 = 253_402_300_799;

/// Calls `chrono::DateTime::from_timestamp` and shows the instant with
/// `to_rfc3339_opts`, to the second and with a `Z`. Up to the end of the year
/// 9999 there is a text, and `parse_from_rfc3339` reads the same instant from it.
#[verifier::external_body]
pub(crate) fn iso_from_timestamp(secs: i64) -> (r: Option<String>)
    ensures
        opt_view(r) == iso_text(secs),
        0 <= secs <= LAST_FOUR_DIGIT_SECOND ==> r is Some && reads_as(r->0@, secs),
{
    match chrono::DateTime::<chrono::Utc>::from_timestamp(secs, 0) {
        Some(t) => Some(t.to_rfc3339_opts(chrono::SecondsFormat::Secs, true)),
        None => None,
    }
}

/// The characters that a time is shown with.
pub open spec fn is_time_char(c: char) -> bool {
    '0' <= c <= '9' || c == '-' || c == '+' || c == ':' || c == 'T' || c == 'Z'
}

/// The text is how some second is shown. Up to the end of the year 9999 it reads as
/// that second.
pub open spec fn shows_a_second(s: Seq<char>) -> bool {
    exists|secs: i64|
        (#[trigger] iso_text(secs)) == Some(s) && (0 <= secs <= LAST_FOUR_DIGIT_SECOND ==> reads_as(
            s,
            secs,
        ))
}

/// Calls `chrono::Utc::now`, which makes the instant with `from_timestamp`, and shows it
/// with `to_rfc3339_opts`, to the second and with a `Z`. So it shows a second just as
/// `iso_from_timestamp` does, in digits and the marks of a date. Which second depends
/// on the clock; nothing is said of it. `Utc::now` does not return where the clock
/// stands before the epoch or beyond the calendar, which no argument can rule out.
#[verifier::external_body]
pub(crate) fn utc_now() -> (r: String)
    ensures
        forall|i: int| 0 <= i < r@.len() ==> is_time_char(#[trigger] r@[i]),
        shows_a_second(r@),
{
    chrono::Utc::now().to_rfc3339_opts(chrono::SecondsFormat::Secs, true)
}

// ---------------------------------------------------------------------------
// The clock
// ---------------------------------------------------------------------------

/// Reads `std::time::SystemTime::now`, as the seconds since the epoch and the
/// nanoseconds within the second; nothing where the clock stands before the epoch.
#[verifier::external_body]
pub(crate) fn wall_clock() -> (r: Option<(u64, u32)>)
    ensures
        match r {
            Some(t) => t.1 < 1_000_000_000,
            None => true,
        },
{
    match SystemTime::now().duration_since(UNIX_EPOCH) {
        Ok(d) => Some((d.as_secs(), d.subsec_nanos())),
        Err(_) => None,
    }
}

// ---------------------------------------------------------------------------
// mailparse
// ---------------------------------------------------------------------------

/// What `mailparse::parse_headers` finds at the front of a message: the name and
/// the decoded value of each field, in order, or the text of its error.
pub uninterp spec fn headers_parsed(raw: Seq<u8>) -> Result<Seq<(Seq<char>, Seq<char>)>, Seq<char>>;

/// The views of a list of pairs.
pub open spec fn pair_views(v: Seq<(String, String)>) -> Seq<(Seq<char>, Seq<char>)> {
    v.map_values(|p: (String, String)| (p.0@, p.1@))
}

/// Calls `mailparse::parse_headers`. Each field comes back as what its `get_key`
/// and `get_value` give; the result depends on the bytes alone.
#[verifier::external_body]
pub(crate) fn parse_headers(raw: &[u8]) -> (r: Result<Vec<(String, String)>, String>)
    ensures
        match r {
            Ok(v) => headers_parsed(raw@) == Ok::<Seq<(Seq<char>, Seq<char>)>, Seq<char>>(
                pair_views(v@),
            ),
            Err(e) => headers_parsed(raw@) == Err::<Seq<(Seq<char>, Seq<char>)>, Seq<char>>(e@),
        },
{
    match mailparse::parse_headers(raw) {
        Ok((headers, _)) => Ok(headers.iter().map(|h| (h.get_key(), h.get_value())).collect()),
        Err(e) => Err(e.to_string()),
    }
}

// ---------------------------------------------------------------------------
// globset
// ---------------------------------------------------------------------------

/// A compiled glob pattern.
#[verifier::external_type_specification]
#[verifier::external_body]
pub struct ExGlob(globset::Glob);

/// Patterns on their way to a set.
#[verifier::external_type_specification]
#[verifier::external_body]
pub struct ExGlobSetBuilder(globset::GlobSetBuilder);

/// A set of glob patterns that are matched together.
#[verifier::external_type_specification]
#[verifier::external_body]
pub struct ExGlobSet(globset::GlobSet);

/// The text that a pattern was compiled from.
pub uninterp spec fn glob_source(g: globset::Glob) -> Seq<char>;

/// The patterns that a builder holds, in the order in which they came.
pub uninterp spec fn builder_globs(b: globset::GlobSetBuilder) -> Seq<Seq<char>>;

/// The patterns that a set holds.
pub uninterp spec fn set_globs(s: globset::GlobSet) -> Seq<Seq<char>>;

/// The error of `globset::Glob::new` on a text that is no pattern.
pub uninterp spec fn glob_error(pattern: Seq<char>) -> Option<Seq<char>>;

/// The error of `globset::GlobSetBuilder::build` on patterns that make no set.
pub uninterp spec fn set_error(globs: Seq<Seq<char>>) -> Option<Seq<char>>;

/// What `globset::GlobSet::is_match` says of a path and a set of one pattern.
pub uninterp spec fn glob_matches(pattern: Seq<char>, path: Seq<char>) -> bool;

/// Calls `globset::Glob::new`: a pattern compiled from the text, or an error that
/// depends on the text alone.
#[verifier::external_body]
pub(crate) fn new_glob(pattern: &str) -> (r: Result<globset::Glob, String>)
    ensures
        match r {
            Ok(g) => glob_error(pattern@) is None && glob_source(g) == pattern@,
            Err(e) => glob_error(pattern@) == Some(e@),
        },
{
    globset::Glob::new(pattern).map_err(|e| e.to_string())
}

/// Calls `globset::GlobSetBuilder::new`: a builder without patterns.
#[verifier::external_body]
pub(crate) fn new_glob_set_builder() -> (b: globset::GlobSetBuilder)
    ensures
        builder_globs(b) == Seq::<Seq<char>>::empty(),
{
    globset::GlobSetBuilder::new()
}

/// Calls `globset::GlobSetBuilder::add`: the pattern joins those that are there.
#[verifier::external_body]
pub(crate) fn add_glob(b: &mut globset::GlobSetBuilder, g: globset::Glob)
    ensures
        builder_globs(*final(b)) == builder_globs(*old(b)).push(glob_source(g)),
{
    b.add(g);
}

/// Calls `globset::GlobSetBuilder::build`: a set of the builder's patterns, or an
/// error that depends on these alone.
#[verifier::external_body]
pub(crate) fn build_glob_set(b: &globset::GlobSetBuilder) -> (r: Result<globset::GlobSet, String>)
    ensures
        match r {
            Ok(s) => set_error(builder_globs(*b)) is None && set_globs(s) == builder_globs(*b),
            Err(e) => set_error(builder_globs(*b)) == Some(e@),
        },
{
    b.build().map_err(|e| e.to_string())
}

/// Calls `globset::GlobSet::is_match`: true if some pattern of the set matches.
#[verifier::external_body]
pub(crate) fn glob_set_matches(s: &globset::GlobSet, path: &str) -> (r: bool)
    ensures
        r == (exists|i: int|
            0 <= i < set_globs(*s).len() && glob_matches(#[trigger] set_globs(*s)[i], path@)),
{
    s.is_match(path)
}

// ---------------------------------------------------------------------------
// serde_json
// ---------------------------------------------------------------------------

/// The JSON object that `serde_json::to_string` writes for a map of these keys,
/// each with its value; nothing where it fails.
pub uninterp spec fn json_object(keys: Seq<Seq<char>>, value: bool) -> Option<Seq<char>>;

/// Calls `serde_json::to_string` on an ordered map that gives each of the keys
/// the same value. The text depends on the keys and the value alone.
#[verifier::external_body]
pub(crate) fn to_json_object(keys: &Vec<String>, value: bool) -> (r: Option<String>)
    requires
        strictly_in_order(views(keys@)),
    ensures
        opt_view(r) == json_object(views(keys@), value),
{
    let map: BTreeMap<&str, bool> = keys.iter().map(|k| (k.as_str(), value)).collect();
    serde_json::to_string(&map).ok()
}

// ---------------------------------------------------------------------------
// uuid and ulid
// ---------------------------------------------------------------------------

/// The digits of a UUID as text.
pub open spec fn is_uuid_digit(c: char) -> bool {
    '0' <= c <= '9' || 'a' <= c <= 'f'
}

/// The text is a UUID that was made at random: lower-case hexadecimal digits in five
/// groups with hyphens between them, with the marks of the version and of the variant.
pub open spec fn is_random_uuid(s: Seq<char>) -> bool {
    &&& s.len() == 36
    &&& forall|i: int|
        0 <= i < 36 ==> if i == 8 || i == 13 || i == 18 || i == 23 {
            #[trigger] s[i] == '-'
        } else {
            is_uuid_digit(s[i])
        }
    &&& s[14] == '4'
    &&& s[19] == '8' || s[19] == '9' || s[19] == 'a' || s[19] == 'b'
}

/// Calls `uuid::Uuid::new_v4` and shows the UUID, hyphenated and in lower case. The
/// version and the variant are those of a random UUID; the other digits are left to
/// chance.
#[verifier::external_body]
pub(crate) fn random_uuid() -> (r: String)
    ensures
        is_random_uuid(r@),
{
    uuid::Uuid::new_v4().to_string()
}

/// The characters of a ULID as text.
pub open spec fn is_ulid_char(c: char) -> bool {
    '0' <= c <= '9' || 'A' <= c <= 'Z' && c != 'I' && c != 'L' && c != 'O' && c != 'U'
}

/// Calls `ulid::Ulid::generate` and shows the ULID: 26 characters, digits and
/// capital letters. Which ones is left to the clock and to chance.
#[verifier::external_body]
pub(crate) fn random_ulid() -> (r: String)
    ensures
        r@.len() == 26,
        forall|i: int| 0 <= i < r@.len() ==> is_ulid_char(#[trigger] r@[i]),
{
    ulid::Ulid::generate().to_string()
}

// ---------------------------------------------------------------------------
// Characters and how values are shown
// ---------------------------------------------------------------------------

/// The upper-case mapping of a character.
pub uninterp spec fn upper_case(c: char) -> Seq<char>;

/// Calls `char::to_uppercase`, as text. An ASCII letter maps to its capital, and
/// every other ASCII character to itself.
#[verifier::external_body]
pub(crate) fn to_upper(c: char) -> (r: String)
    ensures
        r@ == upper_case(c),
        'a' <= c <= 'z' ==> r@ == seq![(c as u32 - 32) as char],
        c <= '\u{7f}' && !('a' <= c <= 'z') ==> r@ == seq![c],
{
    c.to_uppercase().collect()
}

/// How `{:?}` shows a text: in quotes, with escapes.
pub uninterp spec fn debug_text(s: Seq<char>) -> Seq<char>;

/// Shows a text with `{:?}`.
#[verifier::external_body]
pub(crate) fn debug_str(s: &str) -> (r: String)
    ensures
        r@ == debug_text(s@),
{
    format!("{:?}", s)
}

} // verus!
