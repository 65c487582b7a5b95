//! Putting texts in order.

use vstd::prelude::*;
use vstd::seq_lib::*;

use crate::text::{lemma_text_le_transitive, lemma_text_lt_irreflexive, lemma_text_lt_transitive, lemma_text_lt_total, text_le, text_less, text_lt, views};

verus! {

broadcast use group_to_multiset_ensures;

/// No text stands before one that precedes it.
pub open spec fn in_order(s: Seq<Seq<char>>) -> bool {
    forall|i: int, j: int| 0 <= i < j < s.len() ==> text_le(#[trigger] s[i], #[trigger] s[j])
}

/// Each text stands before those that follow it: in order, and none twice.
pub open spec fn strictly_in_order(s: Seq<Seq<char>>) -> bool {
    forall|i: int, j: int| 0 <= i < j < s.len() ==> text_lt(#[trigger] s[i], #[trigger] s[j])
}

proof fn lemma_take_next(s: Seq<Seq<char>>, i: int)
    requires
        0 <= i < s.len(),
    ensures
        s.take(i + 1).to_multiset() == s.take(i).to_multiset().insert(s[i]),
{
    assert(s.take(i + 1) =~= s.take(i).push(s[i]));
}

/// Two lists in order as one list in order.
fn merge(a: &Vec<String>, b: &Vec<String>) -> (r: Vec<String>)
    requires
        in_order(views(a@)),
        in_order(views(b@)),
    ensures
        in_order(views(r@)),
        views(r@).to_multiset() == views(a@).to_multiset().add(views(b@).to_multiset()),
{
    let mut out: Vec<String> = Vec::new();
    let mut i: usize = 0;
    let mut j: usize = 0;
    let ghost va = views(a@);
    let ghost vb = views(b@);
    proof {
        assert(views(out@) =~= Seq::empty());
        assert(va.take(0) =~= Seq::empty());
        assert(vb.take(0) =~= Seq::empty());
        assert(views(out@).to_multiset() =~= va.take(0).to_multiset().add(
            vb.take(0).to_multiset(),
        ));
    }
    while i < a.len() || j < b.len()
        invariant
            va == views(a@),
            vb == views(b@),
            i <= a@.len(),
            j <= b@.len(),
            in_order(va),
            in_order(vb),
            in_order(views(out@)),
            views(out@).to_multiset() == va.take(i as int).to_multiset().add(
                vb.take(j as int).to_multiset(),
            ),
            forall|k: int, x: int|
                0 <= k < views(out@).len() && i <= x < va.len() ==> text_le(
                    #[trigger] views(out@)[k],
                    #[trigger] va[x],
                ),
            forall|k: int, y: int|
                0 <= k < views(out@).len() && j <= y < vb.len() ==> text_le(
                    #[trigger] views(out@)[k],
                    #[trigger] vb[y],
                ),
        decreases a@.len() - i + b@.len() - j,
    {
        let ghost before = views(out@);
        let from_a = j == b.len() || (i < a.len() && !text_less(b[j].as_str(), a[i].as_str()));
        if from_a {
            out.push(a[i].clone());
            proof {
                lemma_take_next(va, i as int);
                assert(views(out@) =~= before.push(va[i as int]));
                assert forall|y: int| j <= y < vb.len() implies text_le(va[i as int], vb[y]) by {
                    if y > j {
                        assert(text_le(vb[j as int], vb[y]));
                        lemma_text_le_transitive(va[i as int], vb[j as int], vb[y]);
                    }
                }
                lemma_irrefl(va[i as int]);
                assert(views(out@).to_multiset() =~= va.take(i + 1).to_multiset().add(
                    vb.take(j as int).to_multiset(),
                ));
            }
            i += 1;
        } else {
            out.push(b[j].clone());
            proof {
                lemma_take_next(vb, j as int);
                assert(views(out@) =~= before.push(vb[j as int]));
                assert forall|x: int| i <= x < va.len() implies text_le(vb[j as int], va[x]) by {
                    lemma_lt_le(vb[j as int], va[i as int]);
                    if x > i {
                        assert(text_le(va[i as int], va[x]));
                        lemma_text_le_transitive(vb[j as int], va[i as int], va[x]);
                    }
                }
                assert(views(out@).to_multiset() =~= va.take(i as int).to_multiset().add(
                    vb.take(j + 1).to_multiset(),
                ));
            }
            j += 1;
        }
    }
    assert(va.take(i as int) =~= va);
    assert(vb.take(j as int) =~= vb);
    out
}

proof fn lemma_irrefl(a: Seq<char>)
    ensures
        text_le(a, a),
{
    lemma_text_lt_irreflexive(a);
}

proof fn lemma_lt_le(a: Seq<char>, b: Seq<char>)
    requires
        text_lt(a, b),
    ensures
        text_le(a, b),
{
    if text_lt(b, a) {
        lemma_text_lt_transitive(a, b, a);
        lemma_text_lt_irreflexive(a);
    }
}

/// The same texts in order.
pub fn sort_texts(v: Vec<String>) -> (r: Vec<String>)
    ensures
        in_order(views(r@)),
        views(r@).to_multiset() == views(v@).to_multiset(),
    decreases v@.len(),
{
    if v.len() <= 1 {
        return v;
    }
    let mid: usize = v.len() / 2;
    let ghost all = views(v@);
    let mut a = v;
    let b = a.split_off(mid);
    proof {
        assert(views(a@) + views(b@) =~= all);
        lemma_multiset_commutative(views(a@), views(b@));
    }
    let x = sort_texts(a);
    let y = sort_texts(b);
    merge(&x, &y)
}

/// The distinct texts of a list that is in order.
pub fn dedup_sorted(v: &Vec<String>) -> (r: Vec<String>)
    requires
        in_order(views(v@)),
    ensures
        strictly_in_order(views(r@)),
        views(r@).to_set() == views(v@).to_set(),
{
    let mut out: Vec<String> = Vec::new();
    let mut i: usize = 0;
    while i < v.len()
        invariant
            i <= v@.len(),
            in_order(views(v@)),
            strictly_in_order(views(out@)),
            forall|k: int| 0 <= k < out@.len() ==> views(v@).take(i as int).contains(#[trigger] views(out@)[k]),
            forall|k: int| 0 <= k < i ==> views(out@).contains(#[trigger] views(v@)[k]),
            i > 0 ==> out@.len() > 0 && out@.last()@ == v@[i - 1]@,
        decreases v@.len() - i,
    {
        let ghost before = views(out@);
        let ghost vv = views(v@);
        if i == 0 || v[i - 1] != v[i] {
            out.push(v[i].clone());
            proof {
                assert(views(out@) =~= before.push(vv[i as int]));
                assert forall|k: int| 0 <= k < before.len() implies text_lt(
                    #[trigger] before[k],
                    vv[i as int],
                ) by {
                    let x = choose|x: int|
                        0 <= x < vv.take(i as int).len() && vv.take(i as int)[x] == before[k];
                    assert(vv.take(i as int).contains(before[k]));
                    assert(text_le(vv[x], vv[i as int]));
                    if before[k] == vv[i as int] {
                        assert(vv[x] == vv[i as int]);
                        assert(text_le(vv[i - 1], vv[i as int]));
                        if x < i - 1 {
                            assert(text_le(vv[x], vv[i - 1]));
                        }
                        lemma_antisymmetric(vv[i - 1], vv[i as int]);
                    }
                    lemma_text_lt_total(before[k], vv[i as int]);
                }
                assert forall|k: int| 0 <= k < out@.len() implies vv.take(i + 1).contains(
                    #[trigger] views(out@)[k],
                ) by {
                    if k < before.len() {
                        assert(vv.take(i as int).contains(before[k]));
                        let x = choose|x: int|
                            0 <= x < vv.take(i as int).len() && vv.take(i as int)[x] == before[k];
                        assert(vv.take(i + 1)[x] == before[k]);
                    } else {
                        assert(vv.take(i + 1)[i as int] == vv[i as int]);
                    }
                }
                assert forall|k: int| 0 <= k < i + 1 implies views(out@).contains(
                    #[trigger] vv[k],
                ) by {
                    if k < i {
                        let x = choose|x: int| 0 <= x < before.len() && before[x] == vv[k];
                        assert(before.contains(vv[k]));
                        assert(views(out@)[x] == vv[k]);
                    } else {
                        assert(views(out@)[before.len() as int] == vv[k]);
                    }
                }
            }
        } else {
            proof {
                assert forall|k: int| 0 <= k < out@.len() implies vv.take(i + 1).contains(
                    #[trigger] views(out@)[k],
                ) by {
                    assert(vv.take(i as int).contains(before[k]));
                    let x = choose|x: int|
                        0 <= x < vv.take(i as int).len() && vv.take(i as int)[x] == before[k];
                    assert(vv.take(i + 1)[x] == before[k]);
                }
                assert(vv[i as int] == vv[i - 1]);
            }
        }
        i += 1;
    }
    proof {
        let vv = views(v@);
        assert(vv.take(i as int) =~= vv);
        assert(views(out@).to_set() =~= vv.to_set());
    }
    out
}

proof fn lemma_antisymmetric(a: Seq<char>, b: Seq<char>)
    requires
        text_le(a, b),
        text_le(b, a),
    ensures
        a == b,
{
    lemma_text_lt_total(a, b);
}

} // verus!
