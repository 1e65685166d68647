//! The polygon bounded by a set of half-planes, one per neighbour `v`
//! (`{p : v·p <= v·v/2}`): crossings of every pair of boundary lines, kept
//! where they satisfy all the half-planes, with coinciding points removed.
use vstd::prelude::*;
use crate::closures::{determined2, fn_of2, lemma_fn_of2};
use crate::zones::ZoneError;

verus! {

/// Keeps each point unless `close(kept, point)` holds for a point kept
/// before it; the first of a group of coinciding points is the one kept.
pub open spec fn dedup_spec<P>(s: Seq<P>, close: spec_fn(P, P) -> bool) -> Seq<P>
    decreases s.len(),
{
    if s.len() == 0 {
        Seq::empty()
    } else {
        let u = dedup_spec(s.drop_last(), close);
        if exists|k: int| 0 <= k < u.len() && close(u[k], s.last()) {
            u
        } else {
            u.push(s.last())
        }
    }
}

/// No point of `s` is close to a point that comes after it.
pub open spec fn pairwise_apart<P>(s: Seq<P>, close: spec_fn(P, P) -> bool) -> bool {
    forall|i: int, j: int| 0 <= i < j < s.len() ==> !close(#[trigger] s[i], #[trigger] s[j])
}

proof fn lemma_dedup_apart<P>(s: Seq<P>, close: spec_fn(P, P) -> bool)
    ensures
        pairwise_apart(dedup_spec(s, close), close),
    decreases s.len(),
{
    if s.len() > 0 {
        lemma_dedup_apart(s.drop_last(), close);
    }
}

proof fn lemma_dedup_of_apart<P>(s: Seq<P>, close: spec_fn(P, P) -> bool)
    requires
        pairwise_apart(s, close),
    ensures
        dedup_spec(s, close) == s,
    decreases s.len(),
{
    if s.len() > 0 {
        let t = s.drop_last();
        assert(pairwise_apart(t, close));
        lemma_dedup_of_apart(t, close);
        assert forall|k: int| 0 <= k < t.len() implies !close(t[k], s.last()) by {
            assert(s[k] == t[k]);
            assert(s[s.len() - 1] == s.last());
        }
        assert(t.push(s.last()) =~= s);
    }
}

/// Removing coinciding points a second time changes nothing.
pub proof fn lemma_dedup_idempotent<P>(s: Seq<P>, close: spec_fn(P, P) -> bool)
    ensures
        dedup_spec(dedup_spec(s, close), close) == dedup_spec(s, close),
{
    lemma_dedup_apart(s, close);
    lemma_dedup_of_apart(dedup_spec(s, close), close);
}

/// Drops every point that lies within tolerance of a point kept before it.
/// `close(kept, p)` decides whether `p` coincides with `kept`.
pub fn remove_duplicates<P: Copy, C: Fn(P, P) -> bool>(points: &Vec<P>, close: &C) -> (out: Vec<P>)
    requires
        determined2(*close),
    ensures
        out@ == dedup_spec(points@, fn_of2(*close)),
{
    let ghost rel = fn_of2(*close);
    let mut out: Vec<P> = Vec::new();
    let mut i: usize = 0;
    while i < points.len()
        invariant
            0 <= i <= points@.len(),
            determined2(*close),
            rel == fn_of2(*close),
            out@ == dedup_spec(points@.subrange(0, i as int), rel),
        decreases points@.len() - i,
    {
        let p = points[i];
        let ghost pre = points@.subrange(0, i as int);
        proof {
            assert(points@.subrange(0, i + 1).drop_last() =~= pre);
        }
        let mut dup = false;
        let mut k: usize = 0;
        while k < out.len()
            invariant
                0 <= k <= out@.len(),
                determined2(*close),
                rel == fn_of2(*close),
                dup == (exists|m: int| 0 <= m < k && rel(out@[m], p)),
            decreases out@.len() - k,
        {
            let hit = close(out[k], p);
            proof {
                lemma_fn_of2(*close, out@[k as int], p, hit);
            }
            if hit {
                dup = true;
            }
            k = k + 1;
        }
        if !dup {
            out.push(p);
        }
        i = i + 1;
    }
    proof {
        assert(points@.subrange(0, points@.len() as int) =~= points@);
    }
    out
}

/// `p` lies in the half-plane of every neighbour of `ns`, as `within(v, p)` judges.
pub open spec fn feasible_spec<P>(ns: Seq<P>, within: spec_fn(P, P) -> bool, p: P) -> bool {
    forall|k: int| 0 <= k < ns.len() ==> within(#[trigger] ns[k], p)
}

/// Feasible boundary crossings of neighbour `i` with neighbours `i+1 .. j_end`,
/// in that order.
pub open spec fn row_candidates<P>(
    ns: Seq<P>,
    meet: spec_fn(P, P) -> Option<P>,
    within: spec_fn(P, P) -> bool,
    i: int,
    j_end: int,
) -> Seq<P>
    decreases j_end - i,
{
    if j_end <= i + 1 {
        Seq::empty()
    } else {
        let prev = row_candidates(ns, meet, within, i, j_end - 1);
        match meet(ns[i], ns[j_end - 1]) {
            Some(p) => if feasible_spec(ns, within, p) {
                prev.push(p)
            } else {
                prev
            },
            None => prev,
        }
    }
}

/// Feasible boundary crossings of every pair `i < j` with `i < i_end`, pairs
/// taken in lexicographic order.
pub open spec fn candidates<P>(
    ns: Seq<P>,
    meet: spec_fn(P, P) -> Option<P>,
    within: spec_fn(P, P) -> bool,
    i_end: int,
) -> Seq<P>
    decreases i_end,
{
    if i_end <= 0 {
        Seq::empty()
    } else {
        candidates(ns, meet, within, i_end - 1) + row_candidates(
            ns,
            meet,
            within,
            i_end - 1,
            ns.len() as int,
        )
    }
}

/// The distinct corners of the region bounded by the half-planes of `ns`.
pub open spec fn corner_set<P>(
    ns: Seq<P>,
    meet: spec_fn(P, P) -> Option<P>,
    within: spec_fn(P, P) -> bool,
    close: spec_fn(P, P) -> bool,
) -> Seq<P> {
    dedup_spec(candidates(ns, meet, within, ns.len() as int), close)
}

/// Whether `p` satisfies the half-plane of every neighbour; stops at the
/// first one it violates.
pub fn is_feasible<P: Copy, W: Fn(P, P) -> bool>(neighbors: &Vec<P>, p: P, within: &W) -> (r: bool)
    requires
        determined2(*within),
    ensures
        r == feasible_spec(neighbors@, fn_of2(*within), p),
{
    let mut k: usize = 0;
    while k < neighbors.len()
        invariant
            0 <= k <= neighbors@.len(),
            determined2(*within),
            forall|m: int| 0 <= m < k ==> fn_of2(*within)(#[trigger] neighbors@[m], p),
        decreases neighbors@.len() - k,
    {
        let ok = within(neighbors[k], p);
        proof {
            lemma_fn_of2(*within, neighbors@[k as int], p, ok);
        }
        if !ok {
            return false;
        }
        k = k + 1;
    }
    true
}

/// Crossings of every pair of half-plane boundaries that satisfy all the
/// half-planes. `meet(u, v)` is the crossing of the boundaries of `u` and
/// `v`, or `None` where they are parallel.
pub fn candidate_corners<P: Copy, M: Fn(P, P) -> Option<P>, W: Fn(P, P) -> bool>(
    neighbors: &Vec<P>,
    meet: &M,
    within: &W,
) -> (out: Vec<P>)
    requires
        determined2(*meet),
        determined2(*within),
    ensures
        out@ == candidates(neighbors@, fn_of2(*meet), fn_of2(*within), neighbors@.len() as int),
{
    let ghost ns = neighbors@;
    let ghost mf = fn_of2(*meet);
    let ghost wf = fn_of2(*within);
    let n = neighbors.len();
    let mut out: Vec<P> = Vec::new();
    let mut i: usize = 0;
    while i < n
        invariant
            0 <= i <= n,
            n == ns.len(),
            ns == neighbors@,
            mf == fn_of2(*meet),
            wf == fn_of2(*within),
            determined2(*meet),
            determined2(*within),
            out@ == candidates(ns, mf, wf, i as int),
        decreases n - i,
    {
        let ghost before = out@;
        let mut j: usize = i + 1;
        while j < n
            invariant
                i < n,
                i + 1 <= j <= n,
                n == ns.len(),
                ns == neighbors@,
                mf == fn_of2(*meet),
                wf == fn_of2(*within),
                determined2(*meet),
                determined2(*within),
                out@ == before + row_candidates(ns, mf, wf, i as int, j as int),
            decreases n - j,
        {
            let crossing = meet(neighbors[i], neighbors[j]);
            proof {
                lemma_fn_of2(*meet, ns[i as int], ns[j as int], crossing);
            }
            let ghost prev = out@;
            match crossing {
                Some(p) => {
                    if is_feasible(neighbors, p, within) {
                        out.push(p);
                        proof {
                            assert(out@ =~= before + row_candidates(ns, mf, wf, i as int, j + 1));
                        }
                    }
                },
                None => {},
            }
            j = j + 1;
        }
        proof {
            if i + 1 >= n {
                assert(row_candidates(ns, mf, wf, i as int, n as int) =~= Seq::<P>::empty());
            }
            assert(candidates(ns, mf, wf, i + 1) == before + row_candidates(ns, mf, wf, i as int, n as int));
        }
        i = i + 1;
    }
    out
}

/// The distinct corners of the region where every neighbour's half-plane
/// holds, or `DegenerateGeometry` where no crossing of two boundaries
/// satisfies them all.
pub fn halfspace_corners<P: Copy, M: Fn(P, P) -> Option<P>, W: Fn(P, P) -> bool, C: Fn(P, P) -> bool>(
    neighbors: &Vec<P>,
    meet: &M,
    within: &W,
    close: &C,
) -> (r: Result<Vec<P>, ZoneError>)
    requires
        determined2(*meet),
        determined2(*within),
        determined2(*close),
    ensures
        match r {
            Ok(v) => v@ == corner_set(neighbors@, fn_of2(*meet), fn_of2(*within), fn_of2(*close))
                && v@.len() > 0,
            Err(e) => e == ZoneError::DegenerateGeometry && corner_set(
                neighbors@,
                fn_of2(*meet),
                fn_of2(*within),
                fn_of2(*close),
            ).len() == 0,
        },
{
    let found = candidate_corners(neighbors, meet, within);
    let unique = remove_duplicates(&found, close);
    if unique.len() == 0 {
        Err(ZoneError::DegenerateGeometry)
    } else {
        Ok(unique)
    }
}


proof fn lemma_row_feasible<P>(
    ns: Seq<P>,
    meet: spec_fn(P, P) -> Option<P>,
    within: spec_fn(P, P) -> bool,
    i: int,
    j_end: int,
)
    ensures
        forall|m: int|
            0 <= m < row_candidates(ns, meet, within, i, j_end).len() ==> feasible_spec(
                ns,
                within,
                #[trigger] row_candidates(ns, meet, within, i, j_end)[m],
            ),
    decreases j_end - i,
{
    if j_end > i + 1 {
        lemma_row_feasible(ns, meet, within, i, j_end - 1);
        let prev = row_candidates(ns, meet, within, i, j_end - 1);
        let cur = row_candidates(ns, meet, within, i, j_end);
        assert forall|m: int| 0 <= m < cur.len() implies feasible_spec(
            ns,
            within,
            #[trigger] cur[m],
        ) by {
            if m < prev.len() {
                assert(cur[m] == prev[m]);
            }
        }
    }
}

proof fn lemma_candidates_feasible<P>(
    ns: Seq<P>,
    meet: spec_fn(P, P) -> Option<P>,
    within: spec_fn(P, P) -> bool,
    i_end: int,
)
    ensures
        forall|m: int|
            0 <= m < candidates(ns, meet, within, i_end).len() ==> feasible_spec(
                ns,
                within,
                #[trigger] candidates(ns, meet, within, i_end)[m],
            ),
    decreases i_end,
{
    if i_end > 0 {
        lemma_candidates_feasible(ns, meet, within, i_end - 1);
        lemma_row_feasible(ns, meet, within, i_end - 1, ns.len() as int);
        let a = candidates(ns, meet, within, i_end - 1);
        let b = row_candidates(ns, meet, within, i_end - 1, ns.len() as int);
        assert forall|m: int| 0 <= m < (a + b).len() implies feasible_spec(
            ns,
            within,
            #[trigger] (a + b)[m],
        ) by {
            if m >= a.len() {
                assert((a + b)[m] == b[m - a.len()]);
            }
        }
    }
}

/// Every point that deduplication keeps comes from its input.
pub proof fn lemma_dedup_subset<P>(s: Seq<P>, close: spec_fn(P, P) -> bool)
    ensures
        forall|m: int|
            0 <= m < dedup_spec(s, close).len() ==> s.contains(#[trigger] dedup_spec(s, close)[m]),
    decreases s.len(),
{
    if s.len() > 0 {
        let t = s.drop_last();
        lemma_dedup_subset(t, close);
        assert forall|m: int| 0 <= m < dedup_spec(s, close).len() implies s.contains(
            #[trigger] dedup_spec(s, close)[m],
        ) by {
            let u = dedup_spec(t, close);
            if m < u.len() {
                let x = u[m];
                assert(t.contains(x));
                let w = choose|w: int| 0 <= w < t.len() && t[w] == x;
                assert(s[w] == x);
            } else {
                assert(s[s.len() - 1] == s.last());
            }
        }
    }
}

/// Every corner found for a neighbour set satisfies the half-plane of each
/// neighbour of the set.
pub proof fn lemma_corners_feasible<P>(
    ns: Seq<P>,
    meet: spec_fn(P, P) -> Option<P>,
    within: spec_fn(P, P) -> bool,
    close: spec_fn(P, P) -> bool,
)
    ensures
        forall|m: int|
            0 <= m < corner_set(ns, meet, within, close).len() ==> feasible_spec(
                ns,
                within,
                #[trigger] corner_set(ns, meet, within, close)[m],
            ),
{
    let c = candidates(ns, meet, within, ns.len() as int);
    lemma_candidates_feasible(ns, meet, within, ns.len() as int);
    lemma_dedup_subset(c, close);
    assert forall|m: int| 0 <= m < corner_set(ns, meet, within, close).len() implies feasible_spec(
        ns,
        within,
        #[trigger] corner_set(ns, meet, within, close)[m],
    ) by {
        let x = corner_set(ns, meet, within, close)[m];
        assert(c.contains(x));
        let w = choose|w: int| 0 <= w < c.len() && c[w] == x;
        assert(feasible_spec(ns, within, c[w]));
    }
}

} // verus!
