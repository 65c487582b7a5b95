//! A header block as lines of bytes: where a line ends, which lines continue
//! the one before (folding), and what is left when unwanted fields are taken out.

use vstd::prelude::*;

use crate::search::{find, lemma_find_is, lemma_find_none, occurs_at};

verus! {

/// The length of the first line, its line feed included. What has no line feed
/// is one line.
pub open spec fn line_len(s: Seq<u8>) -> int
    decreases s.len(),
{
    if s.len() == 0 {
        0
    } else if s[0] == 10 {
        1
    } else {
        1 + line_len(s.skip(1))
    }
}

/// A line that begins with a space or a tab continues the line before it.
pub open spec fn is_folded(s: Seq<u8>) -> bool {
    s.len() > 0 && (s[0] == 32 || s[0] == 9)
}

/// The lines of `h` without those that `unwanted` names, and without the lines
/// that continue one of these. `skip` says whether the line before `h` was left
/// out.
pub open spec fn kept(h: Seq<u8>, unwanted: spec_fn(Seq<u8>) -> bool, skip: bool) -> Seq<u8>
    decreases h.len(),
{
    proof {
        lemma_line_len(h);
    }
    if h.len() == 0 {
        Seq::empty()
    } else {
        let line = h.take(line_len(h));
        let out = if is_folded(line) {
            skip
        } else {
            unwanted(line)
        };
        (if out {
            Seq::empty()
        } else {
            line
        }) + kept(h.skip(line_len(h)), unwanted, out)
    }
}

/// Some line of `h` that continues no other is one that `unwanted` names.
pub open spec fn has_line(h: Seq<u8>, unwanted: spec_fn(Seq<u8>) -> bool) -> bool
    decreases h.len(),
{
    proof {
        lemma_line_len(h);
    }
    if h.len() == 0 {
        false
    } else {
        let line = h.take(line_len(h));
        (!is_folded(line) && unwanted(line)) || has_line(h.skip(line_len(h)), unwanted)
    }
}

pub proof fn lemma_line_len(s: Seq<u8>)
    ensures
        0 <= line_len(s) <= s.len(),
        s.len() > 0 ==> line_len(s) > 0,
        forall|i: int| 0 <= i < line_len(s) - 1 ==> s[i] != 10,
        s.len() > 0 && s[line_len(s) - 1] != 10 ==> line_len(s) == s.len(),
    decreases s.len(),
{
    if s.len() > 0 && s[0] != 10 {
        lemma_line_len(s.skip(1));
        let t = s.skip(1);
        assert forall|i: int| 0 <= i < line_len(s) - 1 implies s[i] != 10 by {
            if i > 0 {
                assert(t[i - 1] == s[i]);
            }
        }
        if t.len() > 0 {
            assert(t[line_len(t) - 1] == s[line_len(s) - 1]);
        }
    }
}

/// A line feed with none before it ends the first line.
pub proof fn lemma_line_len_is(s: Seq<u8>, n: int)
    requires
        0 < n <= s.len(),
        forall|i: int| 0 <= i < n - 1 ==> s[i] != 10,
        s[n - 1] == 10,
    ensures
        line_len(s) == n,
{
    lemma_line_len(s);
    let m = line_len(s);
    if m < n {
        assert(s[m - 1] == 10);
    } else if m > n {
        assert(s[n - 1] != 10);
    }
}

proof fn lemma_line_len_no_feed(s: Seq<u8>)
    requires
        forall|i: int| 0 <= i < s.len() ==> s[i] != 10,
    ensures
        line_len(s) == s.len(),
{
    lemma_line_len(s);
}

/// A line keeps its length when more text follows it, if it ends in a line feed.
pub proof fn lemma_line_len_append(line: Seq<u8>, rest: Seq<u8>)
    requires
        line.len() > 0,
        line_len(line) == line.len(),
        line.last() == 10 || rest.len() == 0,
    ensures
        line_len(line + rest) == line.len(),
        (line + rest).take(line.len() as int) == line,
        (line + rest).skip(line.len() as int) == rest,
{
    lemma_line_len(line);
    let s = line + rest;
    assert(s.take(line.len() as int) =~= line);
    assert(s.skip(line.len() as int) =~= rest);
    if line.last() == 10 {
        assert forall|i: int| 0 <= i < line.len() - 1 implies s[i] != 10 by {
            assert(s[i] == line[i]);
        }
        lemma_line_len_is(s, line.len() as int);
    } else {
        assert(s =~= line);
    }
}

/// The first line of a text is itself one line.
pub proof fn lemma_first_line(s: Seq<u8>)
    requires
        s.len() > 0,
    ensures
        line_len(s.take(line_len(s))) == line_len(s),
        s.take(line_len(s)).last() == 10 || s.skip(line_len(s)).len() == 0,
{
    lemma_line_len(s);
    let n = line_len(s);
    let line = s.take(n);
    if s[n - 1] == 10 {
        lemma_line_len_is(line, n);
    } else {
        assert forall|i: int| 0 <= i < line.len() implies line[i] != 10 by {
            assert(line[i] == s[i]);
        }
        lemma_line_len_no_feed(line);
    }
}

/// One step of `kept`.
pub proof fn lemma_kept_step(h: Seq<u8>, unwanted: spec_fn(Seq<u8>) -> bool, skip: bool)
    requires
        h.len() > 0,
    ensures
        ({
            let line = h.take(line_len(h));
            let out = if is_folded(line) {
                skip
            } else {
                unwanted(line)
            };
            kept(h, unwanted, skip) == (if out {
                Seq::empty()
            } else {
                line
            }) + kept(h.skip(line_len(h)), unwanted, out)
        }),
{
    lemma_line_len(h);
}

/// A leading line that is wanted stays, and what follows it is looked at on its own.
pub proof fn lemma_kept_line(
    line: Seq<u8>,
    rest: Seq<u8>,
    unwanted: spec_fn(Seq<u8>) -> bool,
    skip: bool,
)
    requires
        line.len() > 0,
        line_len(line) == line.len(),
        line.last() == 10 || rest.len() == 0,
    ensures
        ({
            let out = if is_folded(line) {
                skip
            } else {
                unwanted(line)
            };
            kept(line + rest, unwanted, skip) == (if out {
                Seq::empty()
            } else {
                line
            }) + kept(rest, unwanted, out)
        }),
{
    lemma_line_len_append(line, rest);
    lemma_kept_step(line + rest, unwanted, skip);
}

/// Where no line is unwanted, all of them stay.
pub proof fn lemma_kept_all(h: Seq<u8>, unwanted: spec_fn(Seq<u8>) -> bool)
    requires
        !has_line(h, unwanted),
    ensures
        kept(h, unwanted, false) == h,
    decreases h.len(),
{
    lemma_line_len(h);
    if h.len() > 0 {
        let n = line_len(h);
        lemma_kept_all(h.skip(n), unwanted);
        assert(h.take(n) + h.skip(n) =~= h);
    } else {
        assert(kept(h, unwanted, false) =~= h);
    }
}

/// What is kept holds no unwanted line.
pub proof fn lemma_kept_clean(h: Seq<u8>, unwanted: spec_fn(Seq<u8>) -> bool, skip: bool)
    ensures
        !has_line(kept(h, unwanted, skip), unwanted),
    decreases h.len(),
{
    lemma_line_len(h);
    if h.len() > 0 {
        let n = line_len(h);
        let line = h.take(n);
        let out = if is_folded(line) {
            skip
        } else {
            unwanted(line)
        };
        let rest = kept(h.skip(n), unwanted, out);
        lemma_kept_clean(h.skip(n), unwanted, out);
        if out {
            assert(Seq::<u8>::empty() + rest =~= rest);
        } else {
            lemma_first_line(h);
            if h.skip(n).len() == 0 {
                assert(rest.len() == 0);
            }
            lemma_line_len_append(line, rest);
            lemma_line_len(line + rest);
        }
    }
}

/// What is kept is no more than there was.
pub proof fn lemma_kept_shorter(h: Seq<u8>, unwanted: spec_fn(Seq<u8>) -> bool, skip: bool)
    ensures
        kept(h, unwanted, skip).len() <= h.len(),
    decreases h.len(),
{
    lemma_line_len(h);
    if h.len() > 0 {
        let n = line_len(h);
        let line = h.take(n);
        let out = if is_folded(line) {
            skip
        } else {
            unwanted(line)
        };
        lemma_kept_shorter(h.skip(n), unwanted, out);
    }
}

/// Taking the unwanted lines out twice is taking them out once.
pub proof fn law_taking_out_twice(h: Seq<u8>, unwanted: spec_fn(Seq<u8>) -> bool, skip: bool)
    ensures
        kept(kept(h, unwanted, skip), unwanted, false) == kept(h, unwanted, skip),
{
    lemma_kept_clean(h, unwanted, skip);
    lemma_kept_all(kept(h, unwanted, skip), unwanted);
}

// ---------------------------------------------------------------------------
// Bytes
// ---------------------------------------------------------------------------

/// An ASCII capital taken to lower case.
pub open spec fn byte_lower(b: u8) -> u8 {
    if 65 <= b <= 90 {
        (b + 32) as u8
    } else {
        b
    }
}

pub fn lower_byte(b: u8) -> (r: u8)
    ensures
        r == byte_lower(b),
{
    if 65 <= b && b <= 90 {
        b + 32
    } else {
        b
    }
}

/// Adds bytes at the end.
pub fn append_bytes(out: &mut Vec<u8>, s: &[u8])
    ensures
        final(out)@ == old(out)@ + s@,
{
    let ghost before = out@;
    out.extend_from_slice(s);
    assert(out@ =~= before + s@) by {
        assert forall|i: int| 0 <= i < out@.len() implies out@[i] == (before + s@)[i] by {
            if i >= before.len() {
                assert(cloned::<u8>(s@[i - before.len()], out@[i]));
            }
        }
    }
}

/// Whether a line continues the one before it.
pub fn starts_with_folded_continuation(rest: &[u8]) -> (r: bool)
    ensures
        r == is_folded(rest@),
{
    rest.len() > 0 && (rest[0] == 32 || rest[0] == 9)
}

/// The length of the first line, its line feed included.
pub fn find_line_end(bytes: &[u8]) -> (r: usize)
    ensures
        r == line_len(bytes@),
        r <= bytes@.len(),
        bytes@.len() > 0 ==> r > 0,
{
    let mut i: usize = 0;
    while i < bytes.len()
        invariant
            i <= bytes@.len(),
            forall|j: int| 0 <= j < i ==> bytes@[j] != 10,
        decreases bytes@.len() - i,
    {
        if bytes[i] == 10 {
            proof {
                lemma_line_len_is(bytes@, i + 1);
            }
            return i + 1;
        }
        i += 1;
    }
    proof {
        lemma_line_len_no_feed(bytes@);
    }
    bytes.len()
}

fn bytes_match_at(v: &[u8], pat: &[u8], at: usize) -> (r: bool)
    requires
        at <= v@.len(),
    ensures
        r == occurs_at(v@, pat@, at as int),
{
    if pat.len() > v.len() - at {
        return false;
    }
    let mut j: usize = 0;
    while j < pat.len()
        invariant
            j <= pat@.len(),
            at + pat.len() <= v.len(),
            forall|k: int| 0 <= k < j ==> v@[at + k] == #[trigger] pat@[k],
        decreases pat@.len() - j,
    {
        if v[at + j] != pat[j] {
            assert(v@.subrange(at as int, at + pat@.len())[j as int] != pat@[j as int]);
            return false;
        }
        j += 1;
    }
    assert(v@.subrange(at as int, at + pat@.len()) =~= pat@);
    true
}

/// The leftmost place where `needle` stands; nothing for an empty `needle`.
pub fn find_subseq(bytes: &[u8], needle: &[u8]) -> (r: Option<usize>)
    ensures
        match r {
            Some(i) => needle@.len() > 0 && find(bytes@, needle@) == Some(i as int) && i
                + needle.len() <= bytes.len(),
            None => needle@.len() == 0 || find(bytes@, needle@) is None,
        },
{
    if needle.len() == 0 || needle.len() > bytes.len() {
        proof {
            if needle@.len() > bytes@.len() {
                lemma_find_none(bytes@, needle@);
            }
        }
        return None;
    }
    let mut i: usize = 0;
    loop
        invariant
            i <= bytes@.len(),
            needle@.len() > 0,
            forall|j: int| j < i ==> !occurs_at(bytes@, needle@, j),
        decreases bytes@.len() - i,
    {
        if bytes_match_at(bytes, needle, i) {
            proof {
                lemma_find_is(bytes@, needle@, i as int);
            }
            return Some(i);
        }
        if i == bytes.len() {
            proof {
                lemma_find_none(bytes@, needle@);
            }
            return None;
        }
        i += 1;
    }
}

// ---------------------------------------------------------------------------
// Laws
// ---------------------------------------------------------------------------

/// A text that begins a line of its own is looked at on its own, whatever stands before it:
/// taking lines out of two texts one after the other is taking them out of each.
pub proof fn law_fields_are_looked_at_one_by_one(
    a: Seq<u8>,
    b: Seq<u8>,
    unwanted: spec_fn(Seq<u8>) -> bool,
    skip: bool,
)
    requires
        a.len() == 0 || a.last() == 10,
        b.len() == 0 || b[0] != 32 && b[0] != 9,
    ensures
        kept(a + b, unwanted, skip) == kept(a, unwanted, skip) + kept(b, unwanted, false),
    decreases a.len(),
{
    if a.len() == 0 {
        assert(a + b =~= b);
        assert(kept(a, unwanted, skip) + kept(b, unwanted, false) =~= kept(b, unwanted, false));
        if b.len() > 0 {
            lemma_line_len(b);
            lemma_kept_step(b, unwanted, skip);
            lemma_kept_step(b, unwanted, false);
        }
    } else {
        lemma_line_len(a);
        lemma_first_line(a);
        let n = line_len(a);
        let line = a.take(n);
        let rest = a.skip(n);
        if rest.len() == 0 {
            assert(line =~= a);
        } else {
            assert(rest.last() == a.last());
        }
        assert(a + b =~= line + (rest + b));
        assert(a =~= line + rest);
        lemma_kept_line(line, rest + b, unwanted, skip);
        lemma_kept_line(line, rest, unwanted, skip);
        let out = if is_folded(line) {
            skip
        } else {
            unwanted(line)
        };
        law_fields_are_looked_at_one_by_one(rest, b, unwanted, out);
        let head = if out {
            Seq::empty()
        } else {
            line
        };
        assert(head + (kept(rest, unwanted, out) + kept(b, unwanted, false)) =~= (head + kept(
            rest,
            unwanted,
            out,
        )) + kept(b, unwanted, false));
    }
}

/// A line with the lines that continue it, one field.
pub open spec fn is_field(f: Seq<u8>) -> bool {
    &&& f.len() > 0
    &&& f[0] != 32 && f[0] != 9
    &&& forall|i: int|
        0 <= i < f.len() - 1 && #[trigger] f[i] == 10 ==> f[i + 1] == 32 || f[i + 1] == 9
}

/// Lines that all continue the line before them go or stay with it.
proof fn lemma_kept_folds(h: Seq<u8>, unwanted: spec_fn(Seq<u8>) -> bool, skip: bool)
    requires
        h.len() > 0 ==> h[0] == 32 || h[0] == 9,
        forall|i: int|
            0 <= i < h.len() - 1 && #[trigger] h[i] == 10 ==> h[i + 1] == 32 || h[i + 1] == 9,
    ensures
        kept(h, unwanted, skip) == (if skip {
            Seq::empty()
        } else {
            h
        }),
    decreases h.len(),
{
    if h.len() > 0 {
        lemma_line_len(h);
        let n = line_len(h);
        let rest = h.skip(n);
        if rest.len() > 0 {
            assert(h[n - 1] == 10);
            assert(rest[0] == h[n]);
        }
        assert forall|i: int| 0 <= i < rest.len() - 1 && #[trigger] rest[i] == 10 implies rest[i + 1]
            == 32 || rest[i + 1] == 9 by {
            assert(h[n + i] == 10);
            assert(h[n + i + 1] == rest[i + 1]);
        }
        lemma_kept_folds(rest, unwanted, skip);
        assert(h.take(n) + rest =~= h);
        assert(h.take(n)[0] == h[0]);
    }
    assert(kept(h, unwanted, skip) =~= (if skip {
        Seq::empty()
    } else {
        h
    }));
}

/// A field goes as a whole if its first line is unwanted, with every line that continues
/// it, and stays as a whole otherwise. What the lines that continue it look like makes no
/// difference.
pub proof fn law_field_goes_or_stays_whole(f: Seq<u8>, unwanted: spec_fn(Seq<u8>) -> bool)
    requires
        is_field(f),
    ensures
        unwanted(f.take(line_len(f))) ==> kept(f, unwanted, false).len() == 0,
        !unwanted(f.take(line_len(f))) ==> kept(f, unwanted, false) == f,
{
    lemma_line_len(f);
    let n = line_len(f);
    let rest = f.skip(n);
    assert(f.take(n)[0] == f[0]);
    if rest.len() > 0 {
        assert(f[n - 1] == 10);
        assert(rest[0] == f[n]);
    }
    assert forall|i: int| 0 <= i < rest.len() - 1 && #[trigger] rest[i] == 10 implies rest[i + 1]
        == 32 || rest[i + 1] == 9 by {
        assert(f[n + i] == 10);
        assert(f[n + i + 1] == rest[i + 1]);
    }
    let out = unwanted(f.take(n));
    lemma_kept_folds(rest, unwanted, out);
    assert(f.take(n) + rest =~= f);
}

/// A line ends with the first line feed, and a text without one is one line.
pub proof fn law_line_ends_with_its_feed(s: Seq<u8>)
    requires
        s.len() > 0,
    ensures
        s.contains(10) ==> s[line_len(s) - 1] == 10,
        !s.contains(10) ==> line_len(s) == s.len(),
        forall|i: int| 0 <= i < line_len(s) - 1 ==> #[trigger] s[i] != 10,
{
    lemma_line_len(s);
    if s.contains(10) {
        let i = choose|i: int| 0 <= i < s.len() && s[i] == 10;
        assert(line_len(s) - 1 <= i);
    }
}

/// Only a space or a tab makes a line continue the one before.
pub proof fn law_fold_begins_with_a_blank(rest: &[u8], r: bool)
    requires
        call_ensures(starts_with_folded_continuation, (rest,), r),
    ensures
        r <==> rest@.len() > 0 && (rest@[0] == 32 || rest@[0] == 9),
{
}

/// Taking a byte to lower case moves the capitals A to Z, each to its own small letter, and
/// no other byte.
pub proof fn law_lower_case_is_for_letters(b: u8)
    ensures
        byte_lower(b) != b <==> 65 <= b <= 90,
        65 <= b <= 90 ==> byte_lower(b) == b + 32,
        byte_lower(byte_lower(b)) == byte_lower(b),
{
}

} // verus!
