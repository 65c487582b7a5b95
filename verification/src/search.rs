//! Searching a sequence for a pattern: what the leftmost and the rightmost
//! occurrence are, for sequences of characters and of bytes alike.

use vstd::prelude::*;

verus! {

/// `pat` stands in `s` at index `i`.
pub open spec fn occurs_at<T>(s: Seq<T>, pat: Seq<T>, i: int) -> bool {
    &&& 0 <= i
    &&& i + pat.len() <= s.len()
    &&& s.subrange(i, i + pat.len()) =~= pat
}

/// `pat` stands in `s` somewhere.
pub open spec fn occurs<T>(s: Seq<T>, pat: Seq<T>) -> bool {
    exists|i: int| occurs_at(s, pat, i)
}

/// The leftmost occurrence at or after `i`.
pub open spec fn find_from<T>(s: Seq<T>, pat: Seq<T>, i: int) -> Option<int>
    decreases s.len() - i,
{
    if i < 0 || i + pat.len() > s.len() {
        None
    } else if occurs_at(s, pat, i) {
        Some(i)
    } else {
        find_from(s, pat, i + 1)
    }
}

/// The leftmost occurrence.
pub open spec fn find<T>(s: Seq<T>, pat: Seq<T>) -> Option<int> {
    find_from(s, pat, 0)
}

/// The rightmost occurrence at or before `i`.
pub open spec fn rfind_to<T>(s: Seq<T>, pat: Seq<T>, i: int) -> Option<int>
    decreases i + 1,
{
    if i < 0 {
        None
    } else if occurs_at(s, pat, i) {
        Some(i)
    } else {
        rfind_to(s, pat, i - 1)
    }
}

/// The rightmost occurrence.
pub open spec fn rfind<T>(s: Seq<T>, pat: Seq<T>) -> Option<int> {
    rfind_to(s, pat, s.len() - pat.len())
}

/// What stands before the leftmost occurrence of `pat` and what stands after it.
pub open spec fn split_first<T>(s: Seq<T>, pat: Seq<T>) -> Option<(Seq<T>, Seq<T>)> {
    match find(s, pat) {
        Some(i) => Some((s.take(i), s.skip(i + pat.len()))),
        None => None,
    }
}

/// What stands before the rightmost occurrence of `pat` and what stands after it.
pub open spec fn split_last<T>(s: Seq<T>, pat: Seq<T>) -> Option<(Seq<T>, Seq<T>)> {
    match rfind(s, pat) {
        Some(i) => Some((s.take(i), s.skip(i + pat.len()))),
        None => None,
    }
}

/// The part before the leftmost occurrence of `pat`, or all of `s`.
pub open spec fn before_first<T>(s: Seq<T>, pat: Seq<T>) -> Seq<T> {
    match find(s, pat) {
        Some(i) => s.take(i),
        None => s,
    }
}

/// `find_from` gives the least index that qualifies, and nothing only where
/// none does.
pub proof fn lemma_find_from<T>(s: Seq<T>, pat: Seq<T>, i: int)
    requires
        0 <= i,
    ensures
        match find_from(s, pat, i) {
            Some(k) => i <= k && occurs_at(s, pat, k) && (forall|j: int|
                i <= j < k ==> !occurs_at(s, pat, j)),
            None => forall|j: int| i <= j ==> !occurs_at(s, pat, j),
        },
    decreases s.len() - i,
{
    if i + pat.len() <= s.len() && !occurs_at(s, pat, i) {
        lemma_find_from(s, pat, i + 1);
    }
}

pub proof fn lemma_find<T>(s: Seq<T>, pat: Seq<T>)
    ensures
        match find(s, pat) {
            Some(k) => occurs_at(s, pat, k) && (forall|j: int| j < k ==> !occurs_at(s, pat, j)),
            None => !occurs(s, pat),
        },
{
    lemma_find_from(s, pat, 0);
}

/// An occurrence with none before it is the one that `find` gives.
pub proof fn lemma_find_is<T>(s: Seq<T>, pat: Seq<T>, k: int)
    requires
        occurs_at(s, pat, k),
        forall|j: int| j < k ==> !occurs_at(s, pat, j),
    ensures
        find(s, pat) == Some(k),
{
    lemma_find(s, pat);
}

pub proof fn lemma_find_none<T>(s: Seq<T>, pat: Seq<T>)
    requires
        forall|j: int| !occurs_at(s, pat, j),
    ensures
        find(s, pat) is None,
{
    lemma_find(s, pat);
}

/// Where no occurrence begins inside `p`, searching `p + b` is searching `b`.
pub proof fn lemma_find_append<T>(p: Seq<T>, b: Seq<T>, pat: Seq<T>)
    requires
        forall|j: int| 0 <= j < p.len() ==> !occurs_at(p + b, pat, j),
    ensures
        find(p + b, pat) == (match find(b, pat) {
            Some(k) => Some(p.len() + k),
            None => None,
        }),
{
    let s = p + b;
    let n = p.len() as int;
    assert forall|j: int| 0 <= j implies occurs_at(s, pat, n + j) == occurs_at(b, pat, j) by {
        if j + pat.len() <= b.len() {
            assert(s.subrange(n + j, n + j + pat.len()) =~= b.subrange(j, j + pat.len()));
        }
    }
    lemma_find(b, pat);
    match find(b, pat) {
        Some(k) => {
            assert forall|j: int| j < n + k implies !occurs_at(s, pat, j) by {
                if j >= n {
                    assert(occurs_at(s, pat, n + (j - n)) == occurs_at(b, pat, j - n));
                }
            }
            lemma_find_is(s, pat, n + k);
        },
        None => {
            assert forall|j: int| !occurs_at(s, pat, j) by {
                if j >= n {
                    assert(occurs_at(s, pat, n + (j - n)) == occurs_at(b, pat, j - n));
                }
            }
            lemma_find_none(s, pat);
        },
    }
}

pub proof fn lemma_rfind_to<T>(s: Seq<T>, pat: Seq<T>, i: int)
    ensures
        match rfind_to(s, pat, i) {
            Some(k) => k <= i && occurs_at(s, pat, k) && (forall|j: int|
                k < j <= i ==> !occurs_at(s, pat, j)),
            None => forall|j: int| j <= i ==> !occurs_at(s, pat, j),
        },
    decreases i + 1,
{
    if i >= 0 && !occurs_at(s, pat, i) {
        lemma_rfind_to(s, pat, i - 1);
    }
}

pub proof fn lemma_rfind<T>(s: Seq<T>, pat: Seq<T>)
    ensures
        match rfind(s, pat) {
            Some(k) => occurs_at(s, pat, k) && (forall|j: int| k < j ==> !occurs_at(s, pat, j)),
            None => !occurs(s, pat),
        },
{
    lemma_rfind_to(s, pat, s.len() - pat.len());
}

/// An occurrence with none after it is the one that `rfind` gives.
pub proof fn lemma_rfind_is<T>(s: Seq<T>, pat: Seq<T>, k: int)
    requires
        occurs_at(s, pat, k),
        forall|j: int| k < j ==> !occurs_at(s, pat, j),
    ensures
        rfind(s, pat) == Some(k),
{
    lemma_rfind(s, pat);
}

pub proof fn lemma_rfind_none<T>(s: Seq<T>, pat: Seq<T>)
    requires
        forall|j: int| !occurs_at(s, pat, j),
    ensures
        rfind(s, pat) is None,
{
    lemma_rfind(s, pat);
}

/// The leftmost index at or after `i` whose element qualifies.
pub open spec fn first_from<T>(s: Seq<T>, p: spec_fn(T) -> bool, i: int) -> Option<int>
    decreases s.len() - i,
{
    if i < 0 || i >= s.len() {
        None
    } else if p(s[i]) {
        Some(i)
    } else {
        first_from(s, p, i + 1)
    }
}

/// The leftmost index whose element qualifies.
pub open spec fn first_where<T>(s: Seq<T>, p: spec_fn(T) -> bool) -> Option<int> {
    first_from(s, p, 0)
}

pub proof fn lemma_first_from<T>(s: Seq<T>, p: spec_fn(T) -> bool, i: int)
    requires
        0 <= i,
    ensures
        match first_from(s, p, i) {
            Some(k) => i <= k < s.len() && p(s[k]) && (forall|j: int| i <= j < k ==> !p(#[trigger] s[j])),
            None => forall|j: int| i <= j < s.len() ==> !p(#[trigger] s[j]),
        },
    decreases s.len() - i,
{
    if i < s.len() && !p(s[i]) {
        lemma_first_from(s, p, i + 1);
    }
}

/// An element that qualifies, with none before it that does, is the first.
pub proof fn lemma_first_is<T>(s: Seq<T>, p: spec_fn(T) -> bool, k: int)
    requires
        0 <= k < s.len(),
        p(s[k]),
        forall|j: int| 0 <= j < k ==> !p(#[trigger] s[j]),
    ensures
        first_where(s, p) == Some(k),
{
    lemma_first_from(s, p, 0);
}

pub proof fn lemma_first_none<T>(s: Seq<T>, p: spec_fn(T) -> bool)
    requires
        forall|j: int| 0 <= j < s.len() ==> !p(#[trigger] s[j]),
    ensures
        first_where(s, p) is None,
{
    lemma_first_from(s, p, 0);
}

/// One element more.
pub proof fn lemma_push_contains<T>(s: Seq<T>, x: T, y: T)
    ensures
        s.push(x).contains(y) <==> s.contains(y) || y == x,
{
    if s.contains(y) {
        let i = choose|i: int| 0 <= i < s.len() && s[i] == y;
        assert(s.push(x)[i] == y);
    }
    if y == x {
        assert(s.push(x)[s.len() as int] == y);
    }
    if s.push(x).contains(y) {
        let i = choose|i: int| 0 <= i < s.push(x).len() && s.push(x)[i] == y;
        if i < s.len() {
            assert(s[i] == y);
        }
    }
}

} // verus!
