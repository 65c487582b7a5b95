//! The diagnostic fields of a message that could not be sent.
//!
//! A message that moves to Failed gets three fields in front of its header
//! (why, when, and a label). They come off again when the message is moved back
//! to be sent, and never leave the machine.

use vstd::prelude::*;
use vstd::string::*;
use vstd::utf8::*;

use crate::clock::{is_present, is_time, iso_now};
use crate::lines::{append_bytes, byte_lower, find_line_end, find_subseq, has_line, is_folded, kept, lemma_kept_all, lemma_kept_clean, lemma_kept_line, lemma_kept_shorter, lemma_kept_step, lemma_line_len, lemma_line_len_is, line_len, lower_byte, starts_with_folded_continuation};
use crate::outside::{is_time_char, is_ulid_char, random_ulid};
use crate::search::{find, lemma_find, lemma_find_append, lemma_find_is, occurs_at};
use crate::text::{chars_of, control, is_control, is_white, lemma_encode_concat, lemma_encode_no_feed, white};

verus! {

// ---------------------------------------------------------------------------
// Header and body
// ---------------------------------------------------------------------------

/// A blank line with carriage returns.
pub open spec fn crlf_blank() -> Seq<u8> {
    seq![13u8, 10u8, 13u8, 10u8]
}

/// A blank line without carriage returns.
pub open spec fn lf_blank() -> Seq<u8> {
    seq![10u8, 10u8]
}

/// The length of the header: it ends with the first blank line, in either form,
/// and takes in the whole of a message that has none.
pub open spec fn header_len(s: Seq<u8>) -> int {
    match (find(s, crlf_blank()), find(s, lf_blank())) {
        (Some(i), Some(j)) => if i < j {
            i + 4
        } else {
            j + 2
        },
        (Some(i), None) => i + 4,
        (None, Some(j)) => j + 2,
        (None, None) => s.len() as int,
    }
}

proof fn lemma_header_len(s: Seq<u8>)
    ensures
        0 <= header_len(s) <= s.len(),
{
    lemma_find(s, crlf_blank());
    lemma_find(s, lf_blank());
}

/// Splits a message at its first blank line, which stays with the header.
pub fn split_header_body(bytes: &[u8]) -> (r: (&[u8], &[u8]))
    ensures
        r.0@ == bytes@.take(header_len(bytes@)),
        r.1@ == bytes@.skip(header_len(bytes@)),
{
    let crlf: [u8; 4] = [13, 10, 13, 10];
    let lf: [u8; 2] = [10, 10];
    assert(crlf@ =~= crlf_blank());
    assert(lf@ =~= lf_blank());
    let a = find_subseq(bytes, &crlf);
    let b = find_subseq(bytes, &lf);
    let end: usize = match (a, b) {
        (Some(i), Some(j)) => if i < j {
            i + 4
        } else {
            j + 2
        },
        (Some(i), None) => i + 4,
        (None, Some(j)) => j + 2,
        (None, None) => bytes.len(),
    };
    assert(end == header_len(bytes@));
    let head = vstd::slice::slice_subrange(bytes, 0, end);
    let body = vstd::slice::slice_subrange(bytes, end, bytes.len());
    assert(head@ =~= bytes@.take(end as int));
    assert(body@ =~= bytes@.skip(end as int));
    (head, body)
}

// ---------------------------------------------------------------------------
// The three fields
// ---------------------------------------------------------------------------

/// The line begins with the name, whatever the case of its letters.
pub open spec fn names_field(line: Seq<u8>, name: Seq<u8>) -> bool {
    &&& name.len() <= line.len()
    &&& forall|i: int|
        0 <= i < name.len() ==> byte_lower(#[trigger] line[i]) == byte_lower(name[i])
}

/// The line is one of the three diagnostic fields.
pub open spec fn is_family2(line: Seq<u8>) -> bool {
    ||| names_field(line, encode_utf8("X-JMAP-Failure:"@))
    ||| names_field(line, encode_utf8("X-JMAP-Failed-At:"@))
    ||| names_field(line, encode_utf8("X-JMAP-Ulid:"@))
}

/// `is_family2` as a predicate on lines.
pub open spec fn family2() -> spec_fn(Seq<u8>) -> bool {
    |line: Seq<u8>| is_family2(line)
}

/// Whether a line begins with a field name (colon included), whatever the case
/// of its letters.
pub fn line_starts_with_header_ci(line: &[u8], name_with_colon: &[u8]) -> (r: bool)
    ensures
        r == names_field(line@, name_with_colon@),
{
    if line.len() < name_with_colon.len() {
        return false;
    }
    let mut i: usize = 0;
    while i < name_with_colon.len()
        invariant
            i <= name_with_colon@.len() <= line@.len(),
            forall|j: int|
                0 <= j < i ==> byte_lower(#[trigger] line@[j]) == byte_lower(name_with_colon@[j]),
        decreases name_with_colon@.len() - i,
    {
        if lower_byte(line[i]) != lower_byte(name_with_colon[i]) {
            return false;
        }
        i += 1;
    }
    true
}

/// Whether a line is one of the three diagnostic fields.
pub fn is_family2_header_line(line: &[u8]) -> (r: bool)
    ensures
        r == is_family2(line@),
{
    line_starts_with_header_ci(line, "X-JMAP-Failure:".as_bytes()) || line_starts_with_header_ci(
        line,
        "X-JMAP-Failed-At:".as_bytes(),
    ) || line_starts_with_header_ci(line, "X-JMAP-Ulid:".as_bytes())
}

// ---------------------------------------------------------------------------
// Taking them off
// ---------------------------------------------------------------------------

/// The message without the diagnostic fields of its header, with the lines that
/// continue them. The body stays as it is.
pub open spec fn stripped(s: Seq<u8>) -> Seq<u8> {
    kept(s.take(header_len(s)), family2(), false) + s.skip(header_len(s))
}

/// Takes the diagnostic fields off a message.
pub fn strip_family2_headers(bytes: &[u8]) -> (r: Vec<u8>)
    ensures
        r@ == stripped(bytes@),
{
    let (header, body) = split_header_body(bytes);
    let mut out: Vec<u8> = Vec::new();
    let mut i: usize = 0;
    let mut skip = false;
    assert(header@.skip(0) =~= header@);
    assert(out@ + kept(header@, family2(), false) =~= kept(header@, family2(), false));
    while i < header.len()
        invariant
            i <= header@.len(),
            out@ + kept(header@.skip(i as int), family2(), skip) == kept(header@, family2(), false),
        decreases header@.len() - i,
    {
        let rest = vstd::slice::slice_subrange(header, i, header.len());
        assert(rest@ =~= header@.skip(i as int));
        let n = find_line_end(rest);
        let line = vstd::slice::slice_subrange(rest, 0, n);
        assert(line@ =~= rest@.take(n as int));
        proof {
            lemma_kept_step(rest@, family2(), skip);
        }
        if !starts_with_folded_continuation(line) {
            skip = is_family2_header_line(line);
        }
        let ghost before = out@;
        let ghost tail = kept(rest@.skip(n as int), family2(), skip);
        if !skip {
            append_bytes(&mut out, line);
            assert(before + (line@ + tail) =~= out@ + tail);
        } else {
            assert(before + (Seq::<u8>::empty() + tail) =~= out@ + tail);
        }
        assert(rest@.skip(n as int) =~= header@.skip(i + n));
        i += n;
    }
    assert(out@ =~= kept(header@, family2(), false));
    append_bytes(&mut out, body);
    out
}

// ---------------------------------------------------------------------------
// Putting them on
// ---------------------------------------------------------------------------

/// White space, or a control character.
pub open spec fn is_gap(c: char) -> bool {
    is_control(c) || is_white(c)
}

/// The words of a text with one space between each two: every run of white space
/// and control characters counts as one gap, and none is left at the ends.
pub open spec fn single_line(s: Seq<char>) -> Seq<char>
    decreases s.len(),
{
    if s.len() == 0 {
        Seq::empty()
    } else {
        let before = single_line(s.drop_last());
        if is_gap(s.last()) {
            before
        } else if before.len() > 0 && is_gap(s[s.len() - 2]) {
            before.push(' ').push(s.last())
        } else {
            before.push(s.last())
        }
    }
}

/// One line of a text, whatever it held.
fn sanitize(s: &str) -> (r: String)
    ensures
        r@ == single_line(s@),
{
    let v = chars_of(s);
    let mut out = String::new();
    let mut any = false;
    let mut i: usize = 0;
    while i < v.len()
        invariant
            i <= v@.len(),
            out@ == single_line(v@.take(i as int)),
            any == (out@.len() > 0),
        decreases v@.len() - i,
    {
        let c = v[i];
        let t = Ghost(v@.take(i + 1));
        assert(t@.drop_last() =~= v@.take(i as int));
        assert(t@.last() == c);
        if !(control(c) || white(c)) {
            if any && (control(v[i - 1]) || white(v[i - 1])) {
                out.push(' ');
            }
            out.push(c);
            any = true;
        }
        i += 1;
    }
    assert(v@.take(i as int) =~= s@);
    out
}

/// One field on a line of its own.
pub open spec fn field_line(name: Seq<char>, value: Seq<char>) -> Seq<char> {
    name + " "@ + value + "\r\n"@
}

/// The three fields: why sending failed, when, and under which label.
pub open spec fn diagnosis(reason: Seq<char>, now: Seq<char>, ulid: Seq<char>) -> Seq<char> {
    field_line("X-JMAP-Failure:"@, single_line(reason)) + field_line("X-JMAP-Failed-At:"@, now)
        + field_line("X-JMAP-Ulid:"@, ulid)
}

/// The message with the three fields in front of its header.
pub open spec fn injected(s: Seq<u8>, reason: Seq<char>, now: Seq<char>, ulid: Seq<char>) -> Seq<u8> {
    encode_utf8(diagnosis(reason, now, ulid)) + s
}

fn push_field(out: &mut String, name: &str, value: &str)
    ensures
        final(out)@ == old(out)@ + field_line(name@, value@),
{
    let ghost before = out@;
    out.append(name);
    out.append(" ");
    out.append(value);
    out.append("\r\n");
    assert(out@ =~= before + field_line(name@, value@));
}

/// Puts the diagnostic fields in front of a message that failed at `now`.
pub fn inject_family2_headers_at(bytes: &[u8], reason: &str, now: &str, ulid: &str) -> (r: Vec<u8>)
    ensures
        r@ == injected(bytes@, reason@, now@, ulid@),
{
    let mut prefix = String::new();
    let one_line = sanitize(reason);
    push_field(&mut prefix, "X-JMAP-Failure:", one_line.as_str());
    push_field(&mut prefix, "X-JMAP-Failed-At:", now);
    push_field(&mut prefix, "X-JMAP-Ulid:", ulid);
    assert(prefix@ =~= diagnosis(reason@, now@, ulid@));
    let mut out: Vec<u8> = Vec::new();
    append_bytes(&mut out, prefix.as_str().as_bytes());
    append_bytes(&mut out, bytes);
    out
}

/// Puts the diagnostic fields in front of a message that fails at this moment.
pub fn inject_family2_headers(bytes: &[u8], reason: &str, ulid: &str) -> (r: Vec<u8>)
    ensures
        exists|now: Seq<char>|
            is_time(now) && is_present(now) && r@ == #[trigger] injected(bytes@, reason@, now, ulid@),
{
    let now = iso_now();
    inject_family2_headers_at(bytes, reason, now.as_str(), ulid)
}

/// What of a message goes out: all but the diagnostic fields, which are for the user
/// alone. A message that is moved back while nobody watches still has them on disk.
pub fn bytes_to_send(bytes: &[u8]) -> (r: Vec<u8>)
    ensures
        r@ == stripped(bytes@),
{
    strip_family2_headers(bytes)
}

/// The name of the file that a message is rewritten in before it takes the
/// message's place.
pub open spec fn tmp_name(name: Option<Seq<char>>) -> Seq<char> {
    (match name {
        Some(n) => n,
        None => "message"@,
    }) + ".tmp"@
}

/// The name beside a message's file that its new contents are written under. A
/// file without a readable name counts as `message`.
///
/// The name is not hidden, so a watcher reports the file. It has taken the message's
/// place by the time that the report is looked at, and an attempt that finds no file of
/// that name drops it. One that is left behind by a crash is found at the next start
/// like any other file.
pub fn tmp_neighbour(name: Option<&str>) -> (r: String)
    ensures
        r@ == tmp_name(match name {
            Some(n) => Some(n@),
            None => None,
        }),
{
    let mut out = String::new();
    match name {
        Some(n) => out.append(n),
        None => out.append("message"),
    }
    out.append(".tmp");
    assert(out@ =~= tmp_name(match name {
        Some(n) => Some(n@),
        None => None,
    }));
    out
}

// ---------------------------------------------------------------------------
// Laws
// ---------------------------------------------------------------------------

/// The text holds no line feed.
pub open spec fn one_line(s: Seq<char>) -> bool {
    forall|i: int| 0 <= i < s.len() ==> s[i] != '\n'
}

/// A time keeps to one line.
proof fn lemma_time_is_one_line(s: Seq<char>)
    requires
        is_time(s),
    ensures
        one_line(s),
{
    assert forall|i: int| 0 <= i < s.len() implies s[i] != '\n' by {
        assert(is_time_char(s[i]));
    }
}

/// A reason shown in a field holds no control character, so it stays on its line.
pub proof fn law_single_line(s: Seq<char>)
    ensures
        forall|i: int| 0 <= i < single_line(s).len() ==> !is_control(#[trigger] single_line(s)[i]),
        one_line(single_line(s)),
    decreases s.len(),
{
    if s.len() > 0 {
        law_single_line(s.drop_last());
        assert forall|i: int| 0 <= i < single_line(s).len() implies !is_control(
            #[trigger] single_line(s)[i],
        ) by {
            let before = single_line(s.drop_last());
            if i < before.len() {
                assert(single_line(s)[i] == before[i]);
            }
        }
    }
    assert(is_control('\n'));
    assert forall|i: int| 0 <= i < single_line(s).len() implies single_line(s)[i] != '\n' by {
        assert(!is_control(single_line(s)[i]));
    }
}

/// What taking the fields off leaves of the header holds none of them.
pub proof fn law_stripped_header_is_clean(s: Seq<u8>)
    ensures
        !has_line(kept(s.take(header_len(s)), family2(), false), family2()),
{
    lemma_kept_clean(s.take(header_len(s)), family2(), false);
}

/// A header that holds none of the fields is left as it is, and so is the message.
pub proof fn law_strip_leaves_others_alone(s: Seq<u8>)
    requires
        !has_line(s.take(header_len(s)), family2()),
    ensures
        stripped(s) == s,
{
    lemma_header_len(s);
    lemma_kept_all(s.take(header_len(s)), family2());
    assert(s.take(header_len(s)) + s.skip(header_len(s)) =~= s);
}

/// The body comes through unchanged: what is left ends with it.
pub proof fn law_strip_keeps_body(s: Seq<u8>)
    ensures
        ({
            let body = s.skip(header_len(s));
            body.len() <= stripped(s).len() && stripped(s).skip(stripped(s).len() - body.len())
                == body
        }),
{
    let body = s.skip(header_len(s));
    assert(stripped(s).skip(stripped(s).len() - body.len()) =~= body);
}

/// A field line as bytes: one unfolded line that ends in CRLF.
proof fn lemma_field_line(name: Seq<char>, value: Seq<char>) -> (line: Seq<u8>)
    requires
        name == "X-JMAP-Failure:"@ || name == "X-JMAP-Failed-At:"@ || name == "X-JMAP-Ulid:"@,
        one_line(value),
    ensures
        line == encode_utf8(field_line(name, value)),
        line.len() > 2,
        line_len(line) == line.len(),
        line.last() == 10,
        line[line.len() - 2] == 13,
        line[0] == 88,
        forall|i: int| 0 <= i < line.len() - 1 ==> line[i] != 10,
        is_family2(line),
{
    reveal_strlit("X-JMAP-Failure:");
    reveal_strlit("X-JMAP-Failed-At:");
    reveal_strlit("X-JMAP-Ulid:");
    reveal_strlit(" ");
    reveal_strlit("\r\n");
    let line = encode_utf8(field_line(name, value));
    lemma_encode_concat(name + " "@ + value, "\r\n"@);
    lemma_encode_concat(name + " "@, value);
    lemma_encode_concat(name, " "@);
    assert(is_ascii_chars(name));
    assert(is_ascii_chars(" "@));
    assert(is_ascii_chars("\r\n"@));
    is_ascii_chars_encode_utf8(name);
    is_ascii_chars_encode_utf8(" "@);
    is_ascii_chars_encode_utf8("\r\n"@);
    let n = encode_utf8(name);
    let e = encode_utf8("\r\n"@);
    let w = encode_utf8(value);
    lemma_encode_no_feed(value);
    assert(e.len() == 2 && e[0] == 13 && e[1] == 10) by {
        assert("\r\n"@[0] as u8 == e[0]);
        assert("\r\n"@[1] as u8 == e[1]);
    }
    assert(n[0] == 88) by {
        assert(name[0] == 'X');
    }
    let sp = encode_utf8(" "@);
    assert(sp.len() == 1 && sp[0] == 32) by {
        assert(" "@[0] as u8 == sp[0]);
    }
    assert(line == n + sp + w + e);
    assert forall|i: int| 0 <= i < n.len() implies n[i] != 10 by {
        assert(name[i] as u8 == n[i]);
        assert(name[i] != '\n');
    }
    assert forall|i: int| 0 <= i < line.len() - 1 implies line[i] != 10 by {
        if i < n.len() {
            assert(line[i] == n[i]);
        } else if i < n.len() + 1 {
            assert(line[i] == sp[0]);
        } else if i < n.len() + 1 + w.len() {
            assert(line[i] == w[i - n.len() - 1]);
        } else {
            assert(line[i] == e[0]);
        }
    }
    lemma_line_len_is(line, line.len() as int);
    assert(names_field(line, n)) by {
        assert forall|i: int| 0 <= i < n.len() implies byte_lower(#[trigger] line[i]) == byte_lower(
            n[i],
        ) by {
            assert(line[i] == n[i]);
        }
    }
    line
}

/// Three field lines before a text make no blank line of their own.
proof fn lemma_prefix_blank(a: Seq<u8>, b: Seq<u8>, c: Seq<u8>, t: Seq<u8>, j: int)
    requires
        a.len() > 2,
        b.len() > 2,
        c.len() > 2,
        a[0] == 88,
        b[0] == 88,
        c[0] == 88,
        forall|i: int| 0 <= i < a.len() - 1 ==> a[i] != 10,
        forall|i: int| 0 <= i < b.len() - 1 ==> b[i] != 10,
        forall|i: int| 0 <= i < c.len() - 1 ==> c[i] != 10,
        a.last() == 10,
        b.last() == 10,
        c.last() == 10,
        0 <= j < a.len() + b.len() + c.len(),
    ensures
        occurs_at(a + b + c + t, lf_blank(), j) ==> j == a.len() + b.len() + c.len() - 1 && t.len()
            > 0 && t[0] == 10,
        occurs_at(a + b + c + t, crlf_blank(), j) ==> j == a.len() + b.len() + c.len() - 2
            && t.len() > 1 && t[0] == 13 && t[1] == 10,
{
    let s = a + b + c + t;
    let n = (a.len() + b.len() + c.len()) as int;
    assert forall|i: int| 0 <= i < n && s[i] == 10 implies i == a.len() - 1 || i == a.len()
        + b.len() - 1 || i == n - 1 by {
        if i < a.len() {
            assert(s[i] == a[i]);
        } else if i < a.len() + b.len() {
            assert(s[i] == b[i - a.len()]);
        } else {
            assert(s[i] == c[i - a.len() - b.len()]);
        }
    }
    assert(s[a.len() as int] == b[0]);
    assert(s[(a.len() + b.len()) as int] == c[0]);
    if occurs_at(s, lf_blank(), j) {
        let w = s.subrange(j, j + 2);
        assert(w[0] == 10 && w[1] == 10);
        assert(s[j] == w[0] && s[j + 1] == w[1]);
        if j + 1 == n {
            assert(s[n] == t[0]);
        }
    }
    if occurs_at(s, crlf_blank(), j) {
        let w = s.subrange(j, j + 4);
        assert(w[0] == 13 && w[1] == 10 && w[2] == 13 && w[3] == 10);
        assert(s[j] == w[0] && s[j + 1] == w[1] && s[j + 2] == w[2] && s[j + 3] == w[3]);
        if j + 1 == n {
            assert(s[j] == c[c.len() - 1]);
            assert(false);
        }
        assert(j + 2 == n);
        assert(s[n] == t[0]);
        assert(s[n + 1] == t[1]);
    }
}

/// The header of a message with three field lines in front of it: the lines and
/// the header that was there, or the lines and the blank line that a message
/// without a header begins with.
proof fn lemma_prefix_header(a: Seq<u8>, b: Seq<u8>, c: Seq<u8>, t: Seq<u8>)
    requires
        a.len() > 2,
        b.len() > 2,
        c.len() > 2,
        a[0] == 88,
        b[0] == 88,
        c[0] == 88,
        forall|i: int| 0 <= i < a.len() - 1 ==> a[i] != 10,
        forall|i: int| 0 <= i < b.len() - 1 ==> b[i] != 10,
        forall|i: int| 0 <= i < c.len() - 1 ==> c[i] != 10,
        a.last() == 10,
        b.last() == 10,
        c.last() == 10,
        c[c.len() - 2] == 13,
    ensures
        ({
            let n = a.len() + b.len() + c.len();
            header_len(a + b + c + t) == n + (if t.len() > 0 && t[0] == 10 {
                1
            } else if t.len() > 1 && t[0] == 13 && t[1] == 10 {
                2
            } else {
                header_len(t)
            })
        }),
{
    let p = a + b + c;
    let s = p + t;
    let n = (a.len() + b.len() + c.len()) as int;
    assert(p.len() == n);
    assert forall|j: int| 0 <= j < n implies (occurs_at(s, lf_blank(), j) ==> j == n - 1 && t.len()
        > 0 && t[0] == 10) && (occurs_at(s, crlf_blank(), j) ==> j == n - 2 && t.len() > 1 && t[0]
        == 13 && t[1] == 10) by {
        lemma_prefix_blank(a, b, c, t, j);
    }
    assert(s[n - 1] == c[c.len() - 1]);
    assert(s[n - 2] == c[c.len() - 2]);
    lemma_find(s, crlf_blank());
    lemma_find(s, lf_blank());
    if t.len() > 0 && t[0] == 10 {
        assert(s[n] == t[0]);
        assert(s.subrange(n - 1, n + 1) =~= lf_blank());
        lemma_find_is(s, lf_blank(), n - 1);
    } else if t.len() > 1 && t[0] == 13 && t[1] == 10 {
        assert(s[n] == t[0]);
        assert(s[n + 1] == t[1]);
        assert(s.subrange(n - 2, n + 2) =~= crlf_blank());
        lemma_find_is(s, crlf_blank(), n - 2);
    } else {
        lemma_find_append(p, t, crlf_blank());
        lemma_find_append(p, t, lf_blank());
    }
}

/// What follows a line that was left out is kept as it would be on its own,
/// unless it begins by continuing that line.
proof fn lemma_kept_after(h: Seq<u8>)
    requires
        !is_folded(h),
    ensures
        kept(h, family2(), true) == kept(h, family2(), false),
{
    if h.len() > 0 {
        lemma_line_len(h);
        lemma_kept_step(h, family2(), true);
        lemma_kept_step(h, family2(), false);
        assert(h.take(line_len(h))[0] == h[0]);
    }
}

/// Taking the diagnostic fields off undoes putting them on: the message that
/// comes back is the message that failed, byte for byte.
///
/// This holds of every message that had none of the fields and whose first line
/// is not a continuation line, for a time and a label that keep to one line.
pub proof fn law_strip_undoes_inject(
    s: Seq<u8>,
    reason: Seq<char>,
    now: Seq<char>,
    ulid: Seq<char>,
)
    requires
        stripped(s) == s,
        !is_folded(s),
        one_line(now),
        one_line(ulid),
    ensures
        stripped(injected(s, reason, now, ulid)) == s,
{
    law_single_line(reason);
    let fa = field_line("X-JMAP-Failure:"@, single_line(reason));
    let fb = field_line("X-JMAP-Failed-At:"@, now);
    let fc = field_line("X-JMAP-Ulid:"@, ulid);
    let a = lemma_field_line("X-JMAP-Failure:"@, single_line(reason));
    let b = lemma_field_line("X-JMAP-Failed-At:"@, now);
    let c = lemma_field_line("X-JMAP-Ulid:"@, ulid);
    lemma_encode_concat(fa + fb, fc);
    lemma_encode_concat(fa, fb);
    let p = a + b + c;
    let t = injected(s, reason, now, ulid);
    assert(t == p + s);
    lemma_prefix_header(a, b, c, s);
    lemma_header_len(s);
    let k = header_len(t) - p.len();
    assert(0 <= k <= s.len());
    let h = s.take(k);
    assert(t.take(header_len(t)) =~= a + (b + (c + h)));
    assert(t.skip(header_len(t)) =~= s.skip(k));
    lemma_kept_line(a, b + (c + h), family2(), false);
    lemma_kept_line(b, c + h, family2(), true);
    lemma_kept_line(c, h, family2(), true);
    if h.len() > 0 {
        assert(h[0] == s[0]);
    }
    lemma_kept_after(h);
    let left = kept(h, family2(), false);
    assert(kept(t.take(header_len(t)), family2(), false) =~= left);
    if s.len() > 0 && s[0] == 10 {
        lemma_blank_kept(h);
        assert(h + s.skip(k) =~= s);
    } else if s.len() > 1 && s[0] == 13 && s[1] == 10 {
        lemma_blank_kept(h);
        assert(h + s.skip(k) =~= s);
    }
    assert(stripped(t) == left + s.skip(k));
}

/// The text is a ULID.
pub open spec fn is_ulid(s: Seq<char>) -> bool {
    s.len() == 26 && forall|i: int| 0 <= i < s.len() ==> is_ulid_char(#[trigger] s[i])
}

/// The text is a label that was drawn.
pub closed spec fn is_drawn_ulid(s: Seq<char>) -> bool {
    exists|u: String| #[trigger] call_ensures(random_ulid, (), u) && u@ == s
}

/// A new label.
pub(crate) fn fresh_ulid() -> (r: String)
    ensures
        is_ulid(r@),
        is_drawn_ulid(r@),
{
    random_ulid()
}

/// A message that failed, at whatever time and under whatever label, and is moved back
/// to the outbox, is again the message that was queued.
pub proof fn law_drag_back_restores(
    s: Seq<u8>,
    reason: Seq<char>,
    now: Seq<char>,
    ulid: Seq<char>,
)
    requires
        stripped(s) == s,
        !is_folded(s),
        is_time(now),
        is_ulid(ulid),
    ensures
        stripped(injected(s, reason, now, ulid)) == s,
{
    lemma_time_is_one_line(now);
    assert forall|i: int| 0 <= i < ulid.len() implies ulid[i] != '\n' by {
        assert(is_ulid_char(ulid[i]));
    }
    law_strip_undoes_inject(s, reason, now, ulid);
}

/// A blank line alone is kept.
proof fn lemma_blank_kept(h: Seq<u8>)
    requires
        h.len() == 1 && h[0] == 10 || h.len() == 2 && h[0] == 13 && h[1] == 10,
    ensures
        kept(h, family2(), false) == h,
{
    lemma_line_len_is(h, h.len() as int);
    lemma_kept_step(h, family2(), false);
    let line = h.take(h.len() as int);
    assert(line =~= h);
    reveal_strlit("X-JMAP-Failure:");
    reveal_strlit("X-JMAP-Failed-At:");
    reveal_strlit("X-JMAP-Ulid:");
    assert(is_ascii_chars("X-JMAP-Failure:"@));
    assert(is_ascii_chars("X-JMAP-Failed-At:"@));
    assert(is_ascii_chars("X-JMAP-Ulid:"@));
    is_ascii_chars_encode_utf8("X-JMAP-Failure:"@);
    is_ascii_chars_encode_utf8("X-JMAP-Failed-At:"@);
    is_ascii_chars_encode_utf8("X-JMAP-Ulid:"@);
    assert(!is_family2(line));
    assert(h.skip(h.len() as int).len() == 0);
    assert(kept(h, family2(), false) =~= h);
}

/// Header and body are the whole message. The header ends with a blank line if there is one,
/// and no blank line ends before; without one there is no body. `lf` and `crlf` are the two
/// forms of a blank line.
pub proof fn law_header_ends_with_the_first_blank_line(
    bytes: &[u8],
    r: (&[u8], &[u8]),
    lf: Seq<u8>,
    crlf: Seq<u8>,
)
    requires
        call_ensures(split_header_body, (bytes,), r),
        lf == seq![10u8, 10u8],
        crlf == seq![13u8, 10u8, 13u8, 10u8],
    ensures
        r.0@ + r.1@ == bytes@,
        forall|i: int| #[trigger] occurs_at(bytes@, lf, i) ==> r.0@.len() <= i + 2,
        forall|i: int| #[trigger] occurs_at(bytes@, crlf, i) ==> r.0@.len() <= i + 4,
        r.1@.len() > 0 ==> occurs_at(r.0@, lf, r.0@.len() - 2) || occurs_at(
            r.0@,
            crlf,
            r.0@.len() - 4,
        ),
{
    let s = bytes@;
    assert(lf =~= lf_blank());
    assert(crlf =~= crlf_blank());
    lemma_header_len(s);
    lemma_find(s, crlf);
    lemma_find(s, lf);
    let n = header_len(s);
    assert(r.0@ + r.1@ =~= s);
    assert forall|i: int| #[trigger] occurs_at(s, lf, i) implies n <= i + 2 by {
        let j = find(s, lf)->0;
        assert(j <= i);
        lemma_lf_at(s, j);
        match find(s, crlf) {
            Some(k) => {
                if k < j {
                    lemma_crlf_at(s, k);
                    assert(j != k + 1 && j != k + 2);
                }
            },
            None => {},
        }
    }
    assert forall|i: int| #[trigger] occurs_at(s, crlf, i) implies n <= i + 4 by {
        let k = find(s, crlf)->0;
        assert(k <= i);
    }
    if r.1@.len() > 0 {
        match (find(s, crlf), find(s, lf)) {
            (Some(k), Some(j)) => {
                if k < j {
                    assert(r.0@.subrange(k, k + 4) =~= s.subrange(k, k + 4));
                } else {
                    assert(r.0@.subrange(j, j + 2) =~= s.subrange(j, j + 2));
                }
            },
            (Some(k), None) => {
                assert(r.0@.subrange(k, k + 4) =~= s.subrange(k, k + 4));
            },
            (None, Some(j)) => {
                assert(r.0@.subrange(j, j + 2) =~= s.subrange(j, j + 2));
            },
            (None, None) => {},
        }
    }
}

proof fn lemma_crlf_at(s: Seq<u8>, k: int)
    requires
        occurs_at(s, crlf_blank(), k),
    ensures
        s[k] == 13 && s[k + 1] == 10 && s[k + 2] == 13 && s[k + 3] == 10,
{
    let w = s.subrange(k, k + 4);
    assert(w[0] == 13 && w[1] == 10 && w[2] == 13 && w[3] == 10);
}

proof fn lemma_lf_at(s: Seq<u8>, j: int)
    requires
        occurs_at(s, lf_blank(), j),
    ensures
        s[j] == 10 && s[j + 1] == 10,
{
    let w = s.subrange(j, j + 2);
    assert(w[0] == 10 && w[1] == 10);
}

/// A line is one of the diagnostic fields only if it begins with the whole name of one of
/// the three, colon included. The case of its letters and what follows the name make no
/// difference.
pub proof fn law_diagnostic_field_begins_with_its_name(line: Seq<u8>, other: Seq<u8>)
    ensures
        is_family2(line) ==> exists|n: int|
            #![trigger line.take(n)]
            0 < n <= line.len() && line[n - 1] == 58 && (n == 15 || n == 17 || n == 12),
        is_family2(line) && line.len() <= other.len() && (forall|i: int|
            0 <= i < line.len() ==> byte_lower(#[trigger] other[i]) == byte_lower(line[i]))
            ==> is_family2(other),
        names_field(line, encode_utf8("X-JMAP-Failure:"@)) ==> is_family2(line),
        names_field(line, encode_utf8("X-JMAP-Failed-At:"@)) ==> is_family2(line),
        names_field(line, encode_utf8("X-JMAP-Ulid:"@)) ==> is_family2(line),
{
    reveal_strlit("X-JMAP-Failure:");
    reveal_strlit("X-JMAP-Failed-At:");
    reveal_strlit("X-JMAP-Ulid:");
    assert(is_ascii_chars("X-JMAP-Failure:"@));
    assert(is_ascii_chars("X-JMAP-Failed-At:"@));
    assert(is_ascii_chars("X-JMAP-Ulid:"@));
    is_ascii_chars_encode_utf8("X-JMAP-Failure:"@);
    is_ascii_chars_encode_utf8("X-JMAP-Failed-At:"@);
    is_ascii_chars_encode_utf8("X-JMAP-Ulid:"@);
    let a = encode_utf8("X-JMAP-Failure:"@);
    let b = encode_utf8("X-JMAP-Failed-At:"@);
    let c = encode_utf8("X-JMAP-Ulid:"@);
    assert(a.len() == 15 && b.len() == 17 && c.len() == 12);
    assert("X-JMAP-Failure:"@[14] == ':');
    assert("X-JMAP-Failed-At:"@[16] == ':');
    assert("X-JMAP-Ulid:"@[11] == ':');
    assert(a[14] == 58 && b[16] == 58 && c[11] == 58);
    if names_field(line, a) {
        assert(byte_lower(line[14]) == byte_lower(a[14]));
        assert(line.take(15).len() == 15);
        if line.len() <= other.len() && (forall|i: int|
            0 <= i < line.len() ==> byte_lower(#[trigger] other[i]) == byte_lower(line[i])) {
            assert forall|i: int| 0 <= i < a.len() implies byte_lower(#[trigger] other[i])
                == byte_lower(a[i]) by {
                assert(byte_lower(line[i]) == byte_lower(a[i]));
            }
            assert(names_field(other, a));
        }
    }
    if names_field(line, b) {
        assert(byte_lower(line[16]) == byte_lower(b[16]));
        assert(line.take(17).len() == 17);
        if line.len() <= other.len() && (forall|i: int|
            0 <= i < line.len() ==> byte_lower(#[trigger] other[i]) == byte_lower(line[i])) {
            assert forall|i: int| 0 <= i < b.len() implies byte_lower(#[trigger] other[i])
                == byte_lower(b[i]) by {
                assert(byte_lower(line[i]) == byte_lower(b[i]));
            }
            assert(names_field(other, b));
        }
    }
    if names_field(line, c) {
        assert(byte_lower(line[11]) == byte_lower(c[11]));
        assert(line.take(12).len() == 12);
        if line.len() <= other.len() && (forall|i: int|
            0 <= i < line.len() ==> byte_lower(#[trigger] other[i]) == byte_lower(line[i])) {
            assert forall|i: int| 0 <= i < c.len() implies byte_lower(#[trigger] other[i])
                == byte_lower(c[i]) by {
                assert(byte_lower(line[i]) == byte_lower(c[i]));
            }
            assert(names_field(other, c));
        }
    }
}

/// What goes out is the message but for the diagnostic fields: the body is as it was, none
/// of the fields stands before it, and a message without them goes out byte for byte.
pub proof fn law_only_the_diagnosis_stays_here(bytes: &[u8], r: Vec<u8>)
    requires
        call_ensures(bytes_to_send, (bytes,), r),
    ensures
        ({
            let body = bytes@.skip(header_len(bytes@));
            &&& body.len() <= r@.len() <= bytes@.len()
            &&& r@.skip(r@.len() - body.len()) == body
            &&& !has_line(r@.take(r@.len() - body.len()), family2())
        }),
        !has_line(bytes@.take(header_len(bytes@)), family2()) ==> r@ == bytes@,
{
    let s = bytes@;
    lemma_header_len(s);
    let head = s.take(header_len(s));
    let body = s.skip(header_len(s));
    let k = kept(head, family2(), false);
    lemma_kept_clean(head, family2(), false);
    lemma_kept_shorter(head, family2(), false);
    assert(r@.take(r@.len() - body.len()) =~= k);
    assert(r@.skip(r@.len() - body.len()) =~= body);
    if !has_line(head, family2()) {
        law_strip_leaves_others_alone(s);
    }
}

/// A message that failed is all there behind the diagnosis, and the diagnosis tells the
/// reason, the time and the label, in this order.
pub proof fn law_diagnosis_stands_before_the_message(
    bytes: &[u8],
    reason: &str,
    now: &str,
    ulid: &str,
    r: Vec<u8>,
)
    requires
        call_ensures(inject_family2_headers_at, (bytes, reason, now, ulid), r),
    ensures
        r@.len() >= bytes@.len(),
        r@.skip(r@.len() - bytes@.len()) == bytes@,
        r@.take(r@.len() - bytes@.len()) == encode_utf8(
            "X-JMAP-Failure: "@ + single_line(reason@) + "\r\nX-JMAP-Failed-At: "@ + now@
                + "\r\nX-JMAP-Ulid: "@ + ulid@ + "\r\n"@,
        ),
{
    let d = diagnosis(reason@, now@, ulid@);
    assert(r@.skip(r@.len() - bytes@.len()) =~= bytes@);
    assert(r@.take(r@.len() - bytes@.len()) =~= encode_utf8(d));
    reveal_strlit("X-JMAP-Failure:");
    reveal_strlit("X-JMAP-Failed-At:");
    reveal_strlit("X-JMAP-Ulid:");
    reveal_strlit(" ");
    reveal_strlit("\r\n");
    reveal_strlit("X-JMAP-Failure: ");
    reveal_strlit("\r\nX-JMAP-Failed-At: ");
    reveal_strlit("\r\nX-JMAP-Ulid: ");
    assert("X-JMAP-Failure:"@ + " "@ =~= "X-JMAP-Failure: "@);
    assert("\r\n"@ + "X-JMAP-Failed-At:"@ + " "@ =~= "\r\nX-JMAP-Failed-At: "@);
    assert("\r\n"@ + "X-JMAP-Ulid:"@ + " "@ =~= "\r\nX-JMAP-Ulid: "@);
    assert(d =~= ("X-JMAP-Failure:"@ + " "@) + single_line(reason@) + ("\r\n"@
        + "X-JMAP-Failed-At:"@ + " "@) + now@ + ("\r\n"@ + "X-JMAP-Ulid:"@ + " "@) + ulid@
        + "\r\n"@);
}

/// Two parts of a text with a gap between them have one space between them, and parts that
/// are nothing but gap leave no trace.
pub proof fn law_words_are_kept_apart(a: Seq<char>, b: Seq<char>)
    requires
        a.len() > 0,
        is_gap(a.last()),
        single_line(a).len() > 0,
    ensures
        single_line(b).len() > 0 ==> single_line(a + b) == single_line(a) + seq![' '] + single_line(b),
        single_line(b).len() == 0 ==> single_line(a + b) == single_line(a),
        single_line(a) == single_line(a.drop_last()),
    decreases b.len(),
{
    let s = a + b;
    if b.len() == 0 {
        assert(s =~= a);
    } else {
        let f = b.drop_last();
        let c = b.last();
        law_words_are_kept_apart(a, f);
        assert(s.drop_last() =~= a + f);
        assert(s.last() == c);
        if f.len() > 0 {
            assert(s[s.len() - 2] == f.last());
            assert(b[b.len() - 2] == f.last());
        } else {
            assert(s[s.len() - 2] == a.last());
        }
        if !is_gap(c) {
            if single_line(f).len() == 0 {
                if f.len() > 0 && !is_gap(f.last()) {
                    assert(single_line(f).len() > 0);
                }
                assert(single_line(b) =~= seq![c]);
                assert(single_line(s) =~= single_line(a) + seq![' '] + seq![c]);
            } else {
                assert(single_line(s) =~= single_line(a) + seq![' '] + single_line(b));
            }
        }
    }
}

/// A text without gaps is left as it is.
pub proof fn law_word_is_left_alone(s: Seq<char>)
    requires
        forall|i: int| 0 <= i < s.len() ==> !is_gap(#[trigger] s[i]),
    ensures
        single_line(s) == s,
    decreases s.len(),
{
    if s.len() > 0 {
        let f = s.drop_last();
        assert forall|i: int| 0 <= i < f.len() implies !is_gap(#[trigger] f[i]) by {
            assert(!is_gap(s[i]));
        }
        law_word_is_left_alone(f);
        assert(!is_gap(s[s.len() - 1]));
        if s.len() > 1 {
            assert(!is_gap(s[s.len() - 2]));
        }
        assert(f.push(s.last()) =~= s);
    }
}

/// White space in front of a text leaves no trace.
pub proof fn law_gap_in_front_goes(g: Seq<char>, s: Seq<char>)
    requires
        forall|i: int| 0 <= i < g.len() ==> is_gap(#[trigger] g[i]),
    ensures
        single_line(g + s) == single_line(s),
    decreases g.len() + s.len(),
{
    let t = g + s;
    if s.len() == 0 {
        assert(t =~= g);
        if g.len() > 0 {
            let f = g.drop_last();
            assert forall|i: int| 0 <= i < f.len() implies is_gap(#[trigger] f[i]) by {
                assert(is_gap(g[i]));
            }
            law_gap_in_front_goes(f, s);
            assert(f + s =~= f);
            assert(is_gap(g[g.len() - 1]));
        }
    } else {
        let f = s.drop_last();
        law_gap_in_front_goes(g, f);
        assert(t.drop_last() =~= g + f);
        assert(t.last() == s.last());
        if single_line(f).len() > 0 {
            assert(f.len() > 0);
            assert(t[t.len() - 2] == s[s.len() - 2]);
        }
    }
}

/// The file that a message is rewritten in has another name than the message, and two
/// messages have two such files.
pub proof fn law_rewriting_spares_the_message(one: &str, other: &str, a: String, b: String)
    requires
        call_ensures(tmp_neighbour, (Some(one),), a),
        call_ensures(tmp_neighbour, (Some(other),), b),
    ensures
        a@ != one@,
        a@ == b@ <==> one@ == other@,
{
    reveal_strlit(".tmp");
    let ending = ".tmp"@;
    assert(a@ == one@ + ending);
    assert(b@ == other@ + ending);
    assert(a@.len() == one@.len() + 4);
    assert(b@.len() == other@.len() + 4);
    if a@ == b@ {
        assert(a@.take(one@.len() as int) =~= one@);
        assert(b@.take(one@.len() as int) =~= other@);
    }
}

/// A line begins with a name if the name is all that it holds, and whatever follows the name;
/// a line that is shorter than the name does not.
pub proof fn law_name_may_stand_alone(name: Seq<u8>, rest: Seq<u8>)
    ensures
        names_field(name, name),
        names_field(name + rest, name),
        rest.len() > 0 ==> !names_field(name, name + rest),
{
    assert forall|i: int| 0 <= i < name.len() implies byte_lower(#[trigger] (name + rest)[i])
        == byte_lower(name[i]) by {}
}

} // verus!
