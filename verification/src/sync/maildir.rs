//! Names of message files, and the flags in them.
//!
//! A message stands in its mailbox's directory under `cur/`, in a file whose name
//! holds when it was received, an identifier of its own, and its flags.

use vstd::prelude::*;
use vstd::string::*;

use crate::numbers::{decimal, digit, push_signed_decimal, signed_decimal};
use crate::outside::{is_random_uuid, random_uuid};
use crate::search::{before_first, find, lemma_find, lemma_find_is, lemma_rfind, lemma_rfind_is, occurs, occurs_at, rfind, split_first, split_last};
use crate::text::{before, list_contains, opt_view, rsplit_once, split_once, views};

verus! {

// ---------------------------------------------------------------------------
// Flags
// ---------------------------------------------------------------------------

/// A flag if the keyword is there.
pub open spec fn flag_for(keywords: Seq<Seq<char>>, keyword: Seq<char>, flag: char) -> Seq<char> {
    if keywords.contains(keyword) {
        seq![flag]
    } else {
        Seq::empty()
    }
}

/// The flags of a message with these keywords, in alphabetical order, each once.
/// Other keywords have no flag.
pub open spec fn flags_of(keywords: Seq<Seq<char>>) -> Seq<char> {
    flag_for(keywords, "$draft"@, 'D') + flag_for(keywords, "$flagged"@, 'F') + flag_for(
        keywords,
        "$answered"@,
        'R',
    ) + flag_for(keywords, "$seen"@, 'S')
}

/// The flags of a message with these keywords.
pub fn keywords_to_flag_string(keywords: &Vec<String>) -> (r: String)
    ensures
        r@ == flags_of(views(keywords@)),
{
    let mut out = String::new();
    if list_contains(keywords, "$draft") {
        out.push('D');
    }
    if list_contains(keywords, "$flagged") {
        out.push('F');
    }
    if list_contains(keywords, "$answered") {
        out.push('R');
    }
    if list_contains(keywords, "$seen") {
        out.push('S');
    }
    assert(out@ =~= flags_of(views(keywords@)));
    out
}

// ---------------------------------------------------------------------------
// File names
// ---------------------------------------------------------------------------

/// The flags at the end of a path: what follows the last `:2,`.
pub open spec fn flags_in(path: Seq<char>) -> Seq<char> {
    match split_last(path, ":2,"@) {
        Some(p) => p.1,
        None => Seq::empty(),
    }
}

/// The flags at the end of a path.
pub fn current_flags_from_path(path: &str) -> (r: String)
    ensures
        r@ == flags_in(path@),
{
    match rsplit_once(path, ":2,") {
        Some((_, tail)) => tail,
        None => String::new(),
    }
}

/// The path without its flags.
pub open spec fn flagless(path: Seq<char>) -> Seq<char> {
    match split_last(path, ":2,"@) {
        Some(p) => p.0,
        None => path,
    }
}

/// The path with these flags in place of its own.
pub open spec fn with_flags(path: Seq<char>, flags: Seq<char>) -> Seq<char> {
    flagless(path) + ":2,"@ + flags
}

/// The path with these flags in place of its own.
pub fn rebuild_path_with_flags(path: &str, flags: &str) -> (r: String)
    ensures
        r@ == with_flags(path@, flags@),
{
    let mut out = match rsplit_once(path, ":2,") {
        Some((base, _)) => base,
        None => path.to_owned(),
    };
    out.append(":2,");
    out.append(flags);
    out
}

/// What follows the last slash.
pub open spec fn file_name(path: Seq<char>) -> Seq<char> {
    match split_last(path, "/"@) {
        Some(p) => p.1,
        None => path,
    }
}

/// The identifier in a path: in the file name without flags, what follows the
/// first dot.
pub open spec fn uuid_in(path: Seq<char>) -> Option<Seq<char>> {
    match split_first(before_first(file_name(path), ":2,"@), "."@) {
        Some(p) => Some(p.1),
        None => None,
    }
}

/// The identifier in a path.
pub fn extract_uuid(path: &str) -> (r: Option<String>)
    ensures
        opt_view(r) == uuid_in(path@),
{
    let name = match rsplit_once(path, "/") {
        Some((_, tail)) => tail,
        None => path.to_owned(),
    };
    let base = before(name.as_str(), ":2,");
    match split_once(base.as_str(), ".") {
        Some((_, uuid)) => Some(uuid),
        None => None,
    }
}

/// The path of a message file in the mailbox directory `dir`.
pub open spec fn message_path(dir: Seq<char>, ts: int, uuid: Seq<char>, flags: Seq<char>) -> Seq<char> {
    dir + "/cur/"@ + signed_decimal(ts) + "."@ + uuid + ":2,"@ + flags
}

/// The name of a message file before it has flags.
pub fn message_basename(ts: i64, uuid: &str) -> (r: String)
    ensures
        r@ == signed_decimal(ts as int) + "."@ + uuid@,
{
    let mut out = String::new();
    push_signed_decimal(&mut out, ts);
    out.append(".");
    out.append(uuid);
    assert(out@ =~= signed_decimal(ts as int) + "."@ + uuid@);
    out
}

/// The path of a message file in the mailbox directory `dir`.
pub fn build_message_path(dir: &str, ts: i64, uuid: &str, flags: &str) -> (r: String)
    ensures
        r@ == message_path(dir@, ts as int, uuid@, flags@),
{
    let mut out: String = dir.to_owned();
    out.append("/cur/");
    push_signed_decimal(&mut out, ts);
    out.append(".");
    out.append(uuid);
    out.append(":2,");
    out.append(flags);
    out
}

/// The text is one that an identifier can be: what `uuid_in` gives back as it is.
pub open spec fn is_file_id(uuid: Seq<char>) -> bool {
    !uuid.contains('/') && !occurs(uuid, ":2,"@)
}

/// The text is an identifier that was drawn.
pub closed spec fn is_drawn(s: Seq<char>) -> bool {
    exists|u: String| #[trigger] call_ensures(random_uuid, (), u) && u@ == s
}

/// A new identifier: a random UUID as text.
pub fn new_uuid_string() -> (r: String)
    ensures
        is_random_uuid(r@),
        is_drawn(r@),
        is_file_id(r@),
{
    let r = random_uuid();
    proof {
        reveal_strlit(":2,");
        assert(!r@.contains('/')) by {
            assert forall|i: int| 0 <= i < r@.len() implies r@[i] != '/' by {}
        }
        assert forall|i: int| !occurs_at(r@, ":2,"@, i) by {
            if occurs_at(r@, ":2,"@, i) {
                assert(r@.subrange(i, i + 3)[0] == ':');
                assert(r@[i] == ':');
            }
        }
    }
    r
}

// ---------------------------------------------------------------------------
// Laws
// ---------------------------------------------------------------------------

/// Where `:2,` stands in a text that is put together around it.
proof fn lemma_marker(a: Seq<char>, b: Seq<char>, i: int)
    ensures
        occurs_at(a + ":2,"@ + b, ":2,"@, i) ==> i + 3 <= a.len() && occurs_at(a, ":2,"@, i) || i
            == a.len() || i >= a.len() + 3 && occurs_at(b, ":2,"@, i - a.len() - 3),
        occurs_at(a + ":2,"@ + b, ":2,"@, a.len() as int),
{
    reveal_strlit(":2,");
    let m = ":2,"@;
    let s = a + m + b;
    let n = a.len() as int;
    assert(s.subrange(n, n + 3) =~= m);
    if occurs_at(s, m, i) {
        let w = s.subrange(i, i + 3);
        assert(w[0] == ':' && w[1] == '2' && w[2] == ',');
        assert(s[i] == ':' && s[i + 1] == '2' && s[i + 2] == ',');
        assert(s[n] == ':' && s[n + 1] == '2' && s[n + 2] == ',');
        if i + 3 <= n {
            assert(a.subrange(i, i + 3) =~= w);
        } else if i >= n + 3 {
            assert(b.subrange(i - n - 3, i - n) =~= w);
        }
    }
}

/// Flags at the end of a path are found, and so is what stands before them.
pub proof fn lemma_flags_at_end(a: Seq<char>, flags: Seq<char>)
    requires
        !occurs(flags, ":2,"@),
    ensures
        flags_in(a + ":2,"@ + flags) == flags,
        flagless(a + ":2,"@ + flags) == a,
{
    let s = a + ":2,"@ + flags;
    let n = a.len() as int;
    lemma_marker(a, flags, n);
    assert forall|j: int| n < j implies !occurs_at(s, ":2,"@, j) by {
        lemma_marker(a, flags, j);
    }
    lemma_rfind_is(s, ":2,"@, n);
    reveal_strlit(":2,");
    assert(s.take(n) =~= a);
    assert(s.skip(n + 3) =~= flags);
}

/// Flags that are written to a path are read back from it, and the rest of the
/// path stays.
pub proof fn law_flags_read_back(path: Seq<char>, flags: Seq<char>)
    requires
        !occurs(flags, ":2,"@),
    ensures
        flags_in(with_flags(path, flags)) == flags,
        flagless(with_flags(path, flags)) == flagless(path),
{
    lemma_flags_at_end(flagless(path), flags);
}

/// The flags of keywords can be written to a path and read back.
pub proof fn law_keyword_flags_are_plain(keywords: Seq<Seq<char>>)
    ensures
        !occurs(flags_of(keywords), ":2,"@),
        !flags_of(keywords).contains('/'),
{
    reveal_strlit(":2,");
    let f = flags_of(keywords);
    assert forall|i: int| 0 <= i < f.len() implies f[i] == 'D' || f[i] == 'F' || f[i] == 'R'
        || f[i] == 'S' by {}
    assert forall|i: int| !occurs_at(f, ":2,"@, i) by {
        if occurs_at(f, ":2,"@, i) {
            assert(f.subrange(i, i + 3)[0] == ':');
            assert(f[i] == ':');
        }
    }
}

/// A text in which the last slash stands before `b`.
proof fn lemma_last_slash(a: Seq<char>, b: Seq<char>)
    requires
        !b.contains('/'),
    ensures
        file_name(a + "/"@ + b) == b,
{
    reveal_strlit("/");
    let s = a + "/"@ + b;
    let n = a.len() as int;
    assert(s.subrange(n, n + 1) =~= "/"@);
    assert forall|j: int| n < j implies !occurs_at(s, "/"@, j) by {
        if occurs_at(s, "/"@, j) {
            assert(s.subrange(j, j + 1)[0] == '/');
            assert(s[j] == b[j - n - 1]);
        }
    }
    lemma_rfind_is(s, "/"@, n);
    assert(s.skip(n + 1) =~= b);
}

proof fn lemma_decimal_chars(n: nat)
    ensures
        forall|i: int| 0 <= i < decimal(n).len() ==> '0' <= #[trigger] decimal(n)[i] <= '9',
    decreases n,
{
    assert forall|d: nat| d < 10 implies '0' <= #[trigger] digit(d) <= '9' by {}
    if n >= 10 {
        lemma_decimal_chars(n / 10);
        assert forall|i: int| 0 <= i < decimal(n).len() implies '0' <= #[trigger] decimal(n)[i]
            <= '9' by {
            if i < decimal(n / 10).len() {
                assert(decimal(n)[i] == decimal(n / 10)[i]);
            } else {
                assert(decimal(n)[i] == digit(n % 10));
            }
        }
    } else {
        assert(decimal(n)[0] == digit(n));
    }
}

/// The characters of a number in decimal.
spec fn is_number_text(s: Seq<char>) -> bool {
    forall|i: int| 0 <= i < s.len() ==> #[trigger] s[i] == '-' || '0' <= s[i] <= '9'
}

proof fn lemma_number_text(n: int)
    ensures
        is_number_text(signed_decimal(n)),
{
    let s = signed_decimal(n);
    if n < 0 {
        lemma_decimal_chars((-n) as nat);
        assert forall|i: int| 0 <= i < s.len() implies #[trigger] s[i] == '-' || '0' <= s[i]
            <= '9' by {
            if i > 0 {
                assert(s[i] == decimal((-n) as nat)[i - 1]);
            }
        }
    } else {
        lemma_decimal_chars(n as nat);
    }
}

/// A file name without flags holds no marker of flags.
proof fn lemma_base_plain(digits: Seq<char>, uuid: Seq<char>)
    requires
        is_number_text(digits),
        !occurs(uuid, ":2,"@),
    ensures
        !occurs(digits + "."@ + uuid, ":2,"@),
{
    reveal_strlit(".");
    reveal_strlit(":2,");
    let base = digits + "."@ + uuid;
    assert forall|j: int| !occurs_at(base, ":2,"@, j) by {
        if occurs_at(base, ":2,"@, j) {
            let w = base.subrange(j, j + 3);
            assert(w[0] == ':');
            assert(base[j] == ':');
            if j < digits.len() {
                assert(base[j] == digits[j]);
            } else if j > digits.len() {
                let k = j - digits.len() - 1;
                assert(uuid.subrange(k, k + 3) =~= w);
                assert(occurs_at(uuid, ":2,"@, k));
            }
        }
    }
}

/// What stands before the flags.
proof fn lemma_before_flags(base: Seq<char>, flags: Seq<char>)
    requires
        !occurs(base, ":2,"@),
    ensures
        before_first(base + ":2,"@ + flags, ":2,"@) == base,
{
    let name = base + ":2,"@ + flags;
    let n = base.len() as int;
    lemma_marker(base, flags, n);
    assert forall|j: int| j < n implies !occurs_at(name, ":2,"@, j) by {
        lemma_marker(base, flags, j);
    }
    lemma_find_is(name, ":2,"@, n);
    assert(name.take(n) =~= base);
}

/// What follows the first dot.
proof fn lemma_after_dot(digits: Seq<char>, uuid: Seq<char>)
    requires
        is_number_text(digits),
    ensures
        split_first(digits + "."@ + uuid, "."@) == Some((digits, uuid)),
{
    reveal_strlit(".");
    let base = digits + "."@ + uuid;
    let d = digits.len() as int;
    assert(base.subrange(d, d + 1) =~= "."@);
    assert forall|j: int| j < d implies !occurs_at(base, "."@, j) by {
        if occurs_at(base, "."@, j) {
            assert(base.subrange(j, j + 1)[0] == '.');
            assert(base[j] == digits[j]);
        }
    }
    lemma_find_is(base, "."@, d);
    assert(base.take(d) =~= digits);
    assert(base.skip(d + 1) =~= uuid);
}

/// A file name holds no slash.
proof fn lemma_name_plain(digits: Seq<char>, uuid: Seq<char>, flags: Seq<char>)
    requires
        is_number_text(digits),
        !uuid.contains('/'),
        !flags.contains('/'),
    ensures
        !(digits + "."@ + uuid + ":2,"@ + flags).contains('/'),
{
    reveal_strlit(".");
    reveal_strlit(":2,");
    let base = digits + "."@ + uuid;
    let name = base + ":2,"@ + flags;
    assert forall|i: int| 0 <= i < name.len() implies name[i] != '/' by {
        if i < digits.len() {
            assert(name[i] == digits[i]);
        } else if i == digits.len() {
            assert(name[i] == '.');
        } else if i < base.len() {
            assert(name[i] == uuid[i - digits.len() - 1]);
        } else if i < base.len() + 3 {
            assert(name[i] == ":2,"@[i - base.len()]);
        } else {
            assert(name[i] == flags[i - base.len() - 3]);
        }
    }
}

/// The identifier that a path is built with is the one that is found in it.
pub proof fn law_uuid_read_back(dir: Seq<char>, ts: int, uuid: Seq<char>, flags: Seq<char>)
    requires
        is_file_id(uuid),
        !flags.contains('/'),
    ensures
        uuid_in(message_path(dir, ts, uuid, flags)) == Some(uuid),
{
    let digits = signed_decimal(ts);
    lemma_number_text(ts);
    let base = digits + "."@ + uuid;
    let name = base + ":2,"@ + flags;
    let head = dir + seq!['/', 'c', 'u', 'r'];
    assert(message_path(dir, ts, uuid, flags) =~= head + "/"@ + name) by {
        reveal_strlit("/cur/");
        reveal_strlit("/");
        assert("/cur/"@ =~= seq!['/', 'c', 'u', 'r'] + "/"@);
    }
    lemma_name_plain(digits, uuid, flags);
    lemma_last_slash(head, name);
    lemma_base_plain(digits, uuid);
    lemma_before_flags(base, flags);
    lemma_after_dot(digits, uuid);
}

/// An identifier that is found in a path can stand in another.
pub proof fn law_found_uuid_is_file_id(path: Seq<char>)
    requires
        uuid_in(path) is Some,
    ensures
        is_file_id(uuid_in(path)->0),
{
    reveal_strlit("/");
    reveal_strlit(".");
    reveal_strlit(":2,");
    let name = file_name(path);
    lemma_rfind(path, "/"@);
    assert(!name.contains('/')) by {
        assert forall|i: int| 0 <= i < name.len() implies name[i] != '/' by {
            match rfind(path, "/"@) {
                Some(k) => {
                    assert(name[i] == path[k + 1 + i]);
                    if path[k + 1 + i] == '/' {
                        assert(path.subrange(k + 1 + i, k + 2 + i) =~= "/"@);
                        assert(occurs_at(path, "/"@, k + 1 + i));
                    }
                },
                None => {
                    if path[i] == '/' {
                        assert(path.subrange(i, i + 1) =~= "/"@);
                        assert(occurs_at(path, "/"@, i));
                    }
                },
            }
        }
    }
    let base = before_first(name, ":2,"@);
    lemma_find(name, ":2,"@);
    assert forall|j: int| !occurs_at(base, ":2,"@, j) by {
        if occurs_at(base, ":2,"@, j) {
            assert(base.subrange(j, j + 3) =~= name.subrange(j, j + 3));
            assert(occurs_at(name, ":2,"@, j));
        }
    }
    lemma_find(base, "."@);
    let k = find(base, "."@)->0;
    let uuid = base.skip(k + 1);
    assert(!uuid.contains('/')) by {
        assert forall|i: int| 0 <= i < uuid.len() implies uuid[i] != '/' by {
            assert(uuid[i] == name[k + 1 + i]);
            assert(name.contains(name[k + 1 + i]));
        }
    }
    assert forall|j: int| !occurs_at(uuid, ":2,"@, j) by {
        if occurs_at(uuid, ":2,"@, j) {
            assert(uuid.subrange(j, j + 3) =~= base.subrange(k + 1 + j, k + 4 + j));
            assert(occurs_at(base, ":2,"@, k + 1 + j));
        }
    }
}

/// Each letter is among the flags exactly if its own keyword is listed, whatever else is
/// listed and wherever it stands. No other letter occurs, and none stands twice or out of
/// order.
pub proof fn law_flags_tell_the_keywords(keywords: &Vec<String>, r: String)
    requires
        call_ensures(keywords_to_flag_string, (keywords,), r),
    ensures
        r@.contains('S') <==> views(keywords@).contains("$seen"@),
        r@.contains('F') <==> views(keywords@).contains("$flagged"@),
        r@.contains('R') <==> views(keywords@).contains("$answered"@),
        r@.contains('D') <==> views(keywords@).contains("$draft"@),
        forall|c: char| #[trigger]
            r@.contains(c) ==> c == 'D' || c == 'F' || c == 'R' || c == 'S',
        forall|i: int, j: int| 0 <= i < j < r@.len() ==> #[trigger] r@[i] < #[trigger] r@[j],
{
    let k = views(keywords@);
    let d = flag_for(k, "$draft"@, 'D');
    let f = d + flag_for(k, "$flagged"@, 'F');
    let a = f + flag_for(k, "$answered"@, 'R');
    let s = a + flag_for(k, "$seen"@, 'S');
    assert(r@ == s);
    if k.contains("$draft"@) {
        assert(s[0] == 'D');
    }
    if k.contains("$flagged"@) {
        assert(s[d.len() as int] == 'F');
    }
    if k.contains("$answered"@) {
        assert(s[f.len() as int] == 'R');
    }
    if k.contains("$seen"@) {
        assert(s[a.len() as int] == 'S');
    }
}

/// Two lists that hold the same keywords have the same flags: neither the order of a list
/// nor what stands in it twice counts, and keywords without a flag do not count either.
pub proof fn law_flags_go_by_four_keywords(
    a: &Vec<String>,
    b: &Vec<String>,
    ra: String,
    rb: String,
)
    requires
        call_ensures(keywords_to_flag_string, (a,), ra),
        call_ensures(keywords_to_flag_string, (b,), rb),
        views(a@).contains("$draft"@) == views(b@).contains("$draft"@),
        views(a@).contains("$flagged"@) == views(b@).contains("$flagged"@),
        views(a@).contains("$answered"@) == views(b@).contains("$answered"@),
        views(a@).contains("$seen"@) == views(b@).contains("$seen"@),
    ensures
        ra@ == rb@,
{
}

/// A path falls apart into what stands before its flags, the mark and the flags, of which
/// the mark is the last one; a path without the mark has no flags and is all there is.
pub proof fn law_path_and_flags_are_the_whole(path: Seq<char>)
    ensures
        occurs(path, ":2,"@) ==> flagless(path) + ":2,"@ + flags_in(path) == path,
        !occurs(path, ":2,"@) ==> flagless(path) == path && flags_in(path).len() == 0,
        !occurs(flags_in(path), ":2,"@),
{
    reveal_strlit(":2,");
    lemma_rfind(path, ":2,"@);
    match rfind(path, ":2,"@) {
        Some(k) => {
            let f = path.skip(k + 3);
            assert(path.subrange(k, k + 3) == ":2,"@);
            assert(path.take(k) + ":2,"@ + f =~= path);
            assert forall|j: int| !occurs_at(f, ":2,"@, j) by {
                if occurs_at(f, ":2,"@, j) {
                    assert(f.subrange(j, j + 3) =~= path.subrange(k + 3 + j, k + 6 + j));
                    assert(occurs_at(path, ":2,"@, k + 3 + j));
                }
            }
        },
        None => {
            assert forall|j: int| !occurs_at(Seq::<char>::empty(), ":2,"@, j) by {}
        },
    }
}

/// A message's file stands in the `cur` directory of its mailbox, and its name tells the
/// time, the identifier and the flags: what is built of two different times, identifiers
/// or flags differs.
pub proof fn law_message_path_tells_its_parts(
    dir: Seq<char>,
    ts: int,
    uuid: Seq<char>,
    flags: Seq<char>,
)
    requires
        is_file_id(uuid),
        !flags.contains('/'),
        !occurs(flags, ":2,"@),
    ensures
        flags_in(message_path(dir, ts, uuid, flags)) == flags,
        uuid_in(message_path(dir, ts, uuid, flags)) == Some(uuid),
        message_path(dir, ts, uuid, flags) == dir + "/cur/"@ + file_name(
            message_path(dir, ts, uuid, flags),
        ),
        before_first(file_name(message_path(dir, ts, uuid, flags)), "."@) == signed_decimal(ts),
{
    law_uuid_read_back(dir, ts, uuid, flags);
    lemma_flags_at_end(dir + "/cur/"@ + signed_decimal(ts) + "."@ + uuid, flags);
    let digits = signed_decimal(ts);
    lemma_number_text(ts);
    let name = digits + "."@ + uuid + ":2,"@ + flags;
    let head = dir + seq!['/', 'c', 'u', 'r'];
    assert(message_path(dir, ts, uuid, flags) =~= head + "/"@ + name) by {
        reveal_strlit("/cur/");
        reveal_strlit("/");
        assert("/cur/"@ =~= seq!['/', 'c', 'u', 'r'] + "/"@);
    }
    lemma_name_plain(digits, uuid, flags);
    lemma_last_slash(head, name);
    lemma_after_dot(digits, uuid + ":2,"@ + flags);
    assert(name =~= digits + "."@ + (uuid + ":2,"@ + flags));
    assert(dir + "/cur/"@ + name =~= message_path(dir, ts, uuid, flags));
}

} // verus!
