//! Stable insertion sort under a closure, for polygon corners by angle and
//! neighbours by distance.
use vstd::prelude::*;
use crate::closures::{determined2, fn_of2, lemma_fn_of2};

verus! {

/// Puts `x` into `s` just after the last member `m` from the end with
/// `before(m, x)`, or at the front where there is none.
pub open spec fn insert_spec<P>(s: Seq<P>, x: P, before: spec_fn(P, P) -> bool) -> Seq<P>
    decreases s.len(),
{
    if s.len() == 0 {
        seq![x]
    } else if before(s.last(), x) {
        s.push(x)
    } else {
        insert_spec(s.drop_last(), x, before).push(s.last())
    }
}

/// Stable insertion sort of `s` under `before`.
pub open spec fn sort_spec<P>(s: Seq<P>, before: spec_fn(P, P) -> bool) -> Seq<P>
    decreases s.len(),
{
    if s.len() == 0 {
        Seq::empty()
    } else {
        insert_spec(sort_spec(s.drop_last(), before), s.last(), before)
    }
}

proof fn lemma_insert_at<P>(s: Seq<P>, x: P, before: spec_fn(P, P) -> bool, j: int)
    requires
        0 <= j <= s.len(),
        forall|m: int| j <= m < s.len() ==> !before(#[trigger] s[m], x),
        j > 0 ==> before(s[j - 1], x),
    ensures
        insert_spec(s, x, before) == s.insert(j, x),
    decreases s.len(),
{
    if s.len() == j {
        if j == 0 {
            assert(s.insert(j, x) =~= seq![x]);
        } else {
            assert(s.insert(j, x) =~= s.push(x));
        }
    } else {
        assert(!before(s[s.len() - 1], x));
        let t = s.drop_last();
        lemma_insert_at(t, x, before, j);
        assert(t.insert(j, x).push(s.last()) =~= s.insert(j, x));
    }
}

proof fn lemma_insert_multiset<P>(s: Seq<P>, x: P, before: spec_fn(P, P) -> bool)
    ensures
        insert_spec(s, x, before).to_multiset() == s.to_multiset().insert(x),
    decreases s.len(),
{
    broadcast use vstd::seq_lib::group_to_multiset_ensures;

    if s.len() > 0 && !before(s.last(), x) {
        let t = s.drop_last();
        lemma_insert_multiset(t, x, before);
        assert(t.push(s.last()) =~= s);
        assert(s.to_multiset() == t.to_multiset().insert(s.last()));
        assert(insert_spec(s, x, before).to_multiset() =~= s.to_multiset().insert(x));
    } else if s.len() == 0 {
        assert(seq![x] =~= Seq::<P>::empty().push(x));
    }
}

/// Sorting keeps every member, each as often as it occurs.
pub proof fn lemma_sort_multiset<P>(s: Seq<P>, before: spec_fn(P, P) -> bool)
    ensures
        sort_spec(s, before).to_multiset() == s.to_multiset(),
    decreases s.len(),
{
    broadcast use vstd::seq_lib::group_to_multiset_ensures;

    if s.len() > 0 {
        let t = s.drop_last();
        lemma_sort_multiset(t, before);
        lemma_insert_multiset(sort_spec(t, before), s.last(), before);
        assert(t.push(s.last()) =~= s);
    }
}

/// Stable sort: `before(a, b)` says that `a` may come before `b`; points
/// that tie keep their input order.
pub fn stable_sort<P: Copy, A: Fn(P, P) -> bool>(points: &Vec<P>, before: &A) -> (out: Vec<P>)
    requires
        determined2(*before),
    ensures
        out@ == sort_spec(points@, fn_of2(*before)),
{
    let ghost rel = fn_of2(*before);
    let mut out: Vec<P> = Vec::new();
    let mut i: usize = 0;
    while i < points.len()
        invariant
            0 <= i <= points@.len(),
            determined2(*before),
            rel == fn_of2(*before),
            out@ == sort_spec(points@.subrange(0, i as int), rel),
        decreases points@.len() - i,
    {
        let x = points[i];
        proof {
            assert(points@.subrange(0, i + 1).drop_last() =~= points@.subrange(0, i as int));
        }
        let mut j: usize = out.len();
        let mut found = false;
        while j > 0 && !found
            invariant
                0 <= j <= out@.len(),
                determined2(*before),
                rel == fn_of2(*before),
                forall|m: int| j <= m < out@.len() ==> !rel(#[trigger] out@[m], x),
                found ==> j > 0 && rel(out@[j - 1], x),
            decreases j + (if found { 0int } else { 1int }),
        {
            let ok = before(out[j - 1], x);
            proof {
                lemma_fn_of2(*before, out@[j - 1], x, ok);
            }
            if ok {
                found = true;
            } else {
                j = j - 1;
            }
        }
        proof {
            lemma_insert_at(out@, x, rel, j as int);
        }
        out.insert(j, x);
        i = i + 1;
    }
    proof {
        assert(points@.subrange(0, points@.len() as int) =~= points@);
    }
    out
}


/// Orders the corners of a polygon for its boundary; `before(a, b)` tells
/// whether the polar angle of `a` is not larger than that of `b`.
pub fn sort_vertices_by_angle<P: Copy, A: Fn(P, P) -> bool>(points: &Vec<P>, before: &A) -> (out:
    Vec<P>)
    requires
        determined2(*before),
    ensures
        out@ == sort_spec(points@, fn_of2(*before)),
{
    stable_sort(points, before)
}

/// `before` orders any two values, and does so transitively.
pub open spec fn total_preorder<P>(before: spec_fn(P, P) -> bool) -> bool {
    &&& forall|a: P, b: P| #[trigger] before(a, b) || before(b, a)
    &&& forall|a: P, b: P, c: P| #[trigger] before(a, b) && #[trigger] before(b, c) ==> before(a, c)
}

/// Each member of `s` may come before every later one.
pub open spec fn sorted_by<P>(s: Seq<P>, before: spec_fn(P, P) -> bool) -> bool {
    forall|i: int, j: int| 0 <= i < j < s.len() ==> before(#[trigger] s[i], #[trigger] s[j])
}

proof fn lemma_insert_sorted<P>(s: Seq<P>, x: P, before: spec_fn(P, P) -> bool)
    requires
        total_preorder(before),
        sorted_by(s, before),
    ensures
        sorted_by(insert_spec(s, x, before), before),
    decreases s.len(),
{
    broadcast use vstd::seq_lib::group_to_multiset_ensures;

    if s.len() == 0 {
    } else if before(s.last(), x) {
        let r = s.push(x);
        assert forall|i: int, j: int| 0 <= i < j < r.len() implies before(
            #[trigger] r[i],
            #[trigger] r[j],
        ) by {
            if j == s.len() {
                if i < s.len() - 1 {
                    assert(before(s[i], s[s.len() - 1]));
                }
            }
        }
    } else {
        let t = s.drop_last();
        let last = s.last();
        assert(before(x, last));
        assert(sorted_by(t, before));
        lemma_insert_sorted(t, x, before);
        lemma_insert_multiset(t, x, before);
        let u = insert_spec(t, x, before);
        let r = u.push(last);
        assert forall|i: int, j: int| 0 <= i < j < r.len() implies before(
            #[trigger] r[i],
            #[trigger] r[j],
        ) by {
            if j == u.len() {
                let y = u[i];
                assert(u.contains(y));
                assert(u.to_multiset().count(y) > 0);
                if y != x {
                    assert(t.to_multiset().count(y) > 0);
                    assert(t.contains(y));
                    let w = choose|w: int| 0 <= w < t.len() && t[w] == y;
                    assert(s[w] == y);
                    assert(before(s[w], s[s.len() - 1]));
                }
            }
        }
    }
}

/// Under a total preorder the sort puts each member before every later one.
pub proof fn lemma_sort_sorted<P>(s: Seq<P>, before: spec_fn(P, P) -> bool)
    requires
        total_preorder(before),
    ensures
        sorted_by(sort_spec(s, before), before),
    decreases s.len(),
{
    if s.len() > 0 {
        lemma_sort_sorted(s.drop_last(), before);
        lemma_insert_sorted(sort_spec(s.drop_last(), before), s.last(), before);
    }
}

/// Every member of the sorted sequence is a member of the input.
pub proof fn lemma_sort_members<P>(s: Seq<P>, before: spec_fn(P, P) -> bool)
    ensures
        sort_spec(s, before).len() == s.len(),
        forall|m: int|
            0 <= m < sort_spec(s, before).len() ==> s.contains(#[trigger] sort_spec(s, before)[m]),
{
    broadcast use vstd::seq_lib::group_to_multiset_ensures;

    lemma_sort_multiset(s, before);
    let t = sort_spec(s, before);
    assert(t.len() == t.to_multiset().len());
    assert(s.len() == s.to_multiset().len());
    assert forall|m: int| 0 <= m < t.len() implies s.contains(#[trigger] t[m]) by {
        assert(t.contains(t[m]));
        assert(t.to_multiset().count(t[m]) > 0);
    }
}

} // verus!
