//! Separation of nested zone polygons: each zone is clipped against the
//! edges of the zone inside it, keeping what lies outside, and falls back to
//! the unclipped polygon where the result degenerates.
use vstd::prelude::*;
use crate::closures::{determined2, fn_of2, lemma_fn_of2};
use crate::shells::seqs_of;
use crate::zones::append_copies;

verus! {

/// Directed edge `i` of a closed polygon: from vertex `i` to the next one,
/// the last vertex joining the first.
pub open spec fn edge_of<P>(poly: Seq<P>, i: int) -> (P, P) {
    (poly[i], poly[(i + 1) % (poly.len() as int)])
}

/// What one polygon edge `(cur, nxt)` contributes when the part of the
/// polygon outside the clip line `clip` is kept. `outside(p, clip)` tells on
/// which side of the line `p` lies, `cross(edge, clip)` where the edge
/// crosses the line (`None` where they are parallel).
pub open spec fn edge_output<P>(
    cur: P,
    nxt: P,
    clip: (P, P),
    outside: spec_fn(P, (P, P)) -> bool,
    cross: spec_fn((P, P), (P, P)) -> Option<P>,
) -> Seq<P> {
    let crossing = match cross((cur, nxt), clip) {
        Some(q) => seq![q],
        None => Seq::empty(),
    };
    if outside(cur, clip) && outside(nxt, clip) {
        seq![nxt]
    } else if !outside(cur, clip) && outside(nxt, clip) {
        crossing.push(nxt)
    } else if outside(cur, clip) && !outside(nxt, clip) {
        crossing
    } else {
        Seq::empty()
    }
}

/// Output of the first `i_end` edges of `poly` clipped against `clip`.
pub open spec fn clip_prefix<P>(
    poly: Seq<P>,
    clip: (P, P),
    outside: spec_fn(P, (P, P)) -> bool,
    cross: spec_fn((P, P), (P, P)) -> Option<P>,
    i_end: int,
) -> Seq<P>
    decreases i_end,
{
    if i_end <= 0 {
        Seq::empty()
    } else {
        clip_prefix(poly, clip, outside, cross, i_end - 1) + edge_output(
            edge_of(poly, i_end - 1).0,
            edge_of(poly, i_end - 1).1,
            clip,
            outside,
            cross,
        )
    }
}

/// The part of `poly` that lies outside the clip line, walked edge by edge.
pub open spec fn clip_spec<P>(
    poly: Seq<P>,
    clip: (P, P),
    outside: spec_fn(P, (P, P)) -> bool,
    cross: spec_fn((P, P), (P, P)) -> Option<P>,
) -> Seq<P> {
    clip_prefix(poly, clip, outside, cross, poly.len() as int)
}

/// Clips `work` against the edges `i ..` of `inner` in turn, stopping once
/// fewer than three vertices are left.
pub open spec fn difference_from<P>(
    work: Seq<P>,
    inner: Seq<P>,
    i: int,
    outside: spec_fn(P, (P, P)) -> bool,
    cross: spec_fn((P, P), (P, P)) -> Option<P>,
) -> Seq<P>
    decreases inner.len() - i,
{
    if i < 0 || i >= inner.len() {
        work
    } else {
        let w = clip_spec(work, edge_of(inner, i), outside, cross);
        if w.len() < 3 {
            w
        } else {
            difference_from(w, inner, i + 1, outside, cross)
        }
    }
}

/// The part of `outer` outside the convex polygon `inner`, as the clip
/// against every edge of `inner` gives it.
pub open spec fn difference_spec<P>(
    outer: Seq<P>,
    inner: Seq<P>,
    outside: spec_fn(P, (P, P)) -> bool,
    cross: spec_fn((P, P), (P, P)) -> Option<P>,
) -> Seq<P> {
    difference_from(outer, inner, 0, outside, cross)
}

/// Zone `k` after separation: zone 0 as it is; a later zone as its
/// difference with the zone inside it, or unchanged where that difference
/// has fewer than three vertices.
pub open spec fn separated_spec<P>(
    zones: Seq<Seq<P>>,
    k: int,
    outside: spec_fn(P, (P, P)) -> bool,
    cross: spec_fn((P, P), (P, P)) -> Option<P>,
) -> Seq<P> {
    if k == 0 {
        zones[0]
    } else {
        let d = difference_spec(zones[k], zones[k - 1], outside, cross);
        if d.len() >= 3 {
            d
        } else {
            zones[k]
        }
    }
}

/// Keeps the part of `poly` outside the line through `clip` (one step of a
/// keep-outside Sutherland-Hodgman clip).
pub fn clip_polygon<P: Copy, O: Fn(P, (P, P)) -> bool, X: Fn((P, P), (P, P)) -> Option<P>>(
    poly: &Vec<P>,
    clip: (P, P),
    outside: &O,
    cross: &X,
) -> (out: Vec<P>)
    requires
        determined2(*outside),
        determined2(*cross),
    ensures
        out@ == clip_spec(poly@, clip, fn_of2(*outside), fn_of2(*cross)),
{
    let ghost of = fn_of2(*outside);
    let ghost cf = fn_of2(*cross);
    let mut out: Vec<P> = Vec::new();
    let len = poly.len();
    let mut i: usize = 0;
    while i < len
        invariant
            0 <= i <= len,
            len == poly@.len(),
            determined2(*outside),
            determined2(*cross),
            of == fn_of2(*outside),
            cf == fn_of2(*cross),
            out@ == clip_prefix(poly@, clip, of, cf, i as int),
        decreases len - i,
    {
        let cur = poly[i];
        let nxt = poly[(i + 1) % len];
        let cur_out = outside(cur, clip);
        let nxt_out = outside(nxt, clip);
        let ip = cross((cur, nxt), clip);
        proof {
            lemma_fn_of2(*outside, cur, clip, cur_out);
            lemma_fn_of2(*outside, nxt, clip, nxt_out);
            lemma_fn_of2(*cross, (cur, nxt), clip, ip);
        }
        let ghost before = out@;
        if cur_out && nxt_out {
            out.push(nxt);
        } else if !cur_out && nxt_out {
            match ip {
                Some(q) => out.push(q),
                None => {},
            }
            out.push(nxt);
        } else if cur_out && !nxt_out {
            match ip {
                Some(q) => out.push(q),
                None => {},
            }
        }
        proof {
            assert(out@ =~= before + edge_output(cur, nxt, clip, of, cf));
        }
        i = i + 1;
    }
    out
}

/// The part of `outer` outside the convex, counter-clockwise polygon
/// `inner`: `outer` clipped against each edge of `inner` in turn, stopping
/// early once fewer than three vertices remain.
pub fn polygon_difference<P: Copy, O: Fn(P, (P, P)) -> bool, X: Fn((P, P), (P, P)) -> Option<P>>(
    outer: &Vec<P>,
    inner: &Vec<P>,
    outside: &O,
    cross: &X,
) -> (out: Vec<P>)
    requires
        determined2(*outside),
        determined2(*cross),
    ensures
        out@ == difference_spec(outer@, inner@, fn_of2(*outside), fn_of2(*cross)),
{
    let ghost of = fn_of2(*outside);
    let ghost cf = fn_of2(*cross);
    let mut result: Vec<P> = Vec::new();
    append_copies(&mut result, outer);
    proof {
        assert(result@ =~= outer@);
    }
    let len = inner.len();
    let mut i: usize = 0;
    while i < len
        invariant
            0 <= i <= len,
            len == inner@.len(),
            determined2(*outside),
            determined2(*cross),
            of == fn_of2(*outside),
            cf == fn_of2(*cross),
            difference_from(result@, inner@, i as int, of, cf) == difference_spec(
                outer@,
                inner@,
                of,
                cf,
            ),
        decreases len - i,
    {
        let clip = (inner[i], inner[(i + 1) % len]);
        result = clip_polygon(&result, clip, outside, cross);
        if result.len() < 3 {
            return result;
        }
        i = i + 1;
    }
    result
}

/// Separates nested zone polygons (innermost first) so that they no longer
/// overlap: zone 0 stays as it is, and each later zone becomes its part
/// outside the zone before it, or stays whole where that part has fewer than
/// three vertices.
pub fn separate_brillouin_zones<
    P: Copy,
    O: Fn(P, (P, P)) -> bool,
    X: Fn((P, P), (P, P)) -> Option<P>,
>(zones: &Vec<Vec<P>>, outside: &O, cross: &X) -> (out: Vec<Vec<P>>)
    requires
        determined2(*outside),
        determined2(*cross),
    ensures
        out@.len() == zones@.len(),
        forall|k: int|
            0 <= k < zones@.len() ==> #[trigger] out@[k]@ == separated_spec(
                seqs_of(zones@),
                k,
                fn_of2(*outside),
                fn_of2(*cross),
            ),
{
    let ghost zs = seqs_of(zones@);
    let mut out: Vec<Vec<P>> = Vec::new();
    let mut idx: usize = 0;
    while idx < zones.len()
        invariant
            0 <= idx <= zones@.len(),
            zs == seqs_of(zones@),
            determined2(*outside),
            determined2(*cross),
            out@.len() == idx,
            forall|k: int|
                0 <= k < idx ==> #[trigger] out@[k]@ == separated_spec(
                    zs,
                    k,
                    fn_of2(*outside),
                    fn_of2(*cross),
                ),
        decreases zones@.len() - idx,
    {
        let mut whole: Vec<P> = Vec::new();
        append_copies(&mut whole, &zones[idx]);
        let next = if idx == 0 {
            whole
        } else {
            let diff = polygon_difference(&zones[idx], &zones[idx - 1], outside, cross);
            if diff.len() >= 3 {
                diff
            } else {
                whole
            }
        };
        let ghost prev = out@;
        out.push(next);
        proof {
            assert forall|k: int| 0 <= k < idx + 1 implies #[trigger] out@[k]@ == separated_spec(
                zs,
                k,
                fn_of2(*outside),
                fn_of2(*cross),
            ) by {
                if k < idx {
                    assert(out@[k] == prev[k]);
                }
            }
        }
        idx = idx + 1;
    }
    out
}


/// Separation never loses a zone: zone 0, and every later zone whose
/// difference with the zone inside it has fewer than three vertices, come
/// back exactly as they went in.
pub proof fn lemma_degenerate_difference_keeps_zone<P>(
    zones: Seq<Seq<P>>,
    k: int,
    outside: spec_fn(P, (P, P)) -> bool,
    cross: spec_fn((P, P), (P, P)) -> Option<P>,
)
    requires
        0 <= k < zones.len(),
        k == 0 || difference_spec(zones[k], zones[k - 1], outside, cross).len() < 3,
    ensures
        separated_spec(zones, k, outside, cross) == zones[k],
{
}


proof fn lemma_clip_prefix_all_outside<P>(
    poly: Seq<P>,
    clip: (P, P),
    outside: spec_fn(P, (P, P)) -> bool,
    cross: spec_fn((P, P), (P, P)) -> Option<P>,
    i: int,
)
    requires
        0 <= i < poly.len(),
        forall|m: int| 0 <= m < poly.len() ==> outside(#[trigger] poly[m], clip),
    ensures
        clip_prefix(poly, clip, outside, cross, i) == poly.subrange(1, i + 1),
    decreases i,
{
    if i > 0 {
        lemma_clip_prefix_all_outside(poly, clip, outside, cross, i - 1);
        let e = edge_of(poly, i - 1);
        assert(i % (poly.len() as int) == i) by {
            vstd::arithmetic::div_mod::lemma_small_mod(i as nat, poly.len() as nat);
        }
        assert(e.1 == poly[i]);
        assert(outside(poly[i - 1], clip));
        assert(poly.subrange(1, i) + seq![poly[i]] =~= poly.subrange(1, i + 1));
    } else {
        assert(poly.subrange(1, 1) =~= Seq::<P>::empty());
    }
}

/// A clip line that has the whole polygon on its outside keeps the polygon:
/// the same vertices, starting from the second.
pub proof fn lemma_clip_all_outside<P>(
    poly: Seq<P>,
    clip: (P, P),
    outside: spec_fn(P, (P, P)) -> bool,
    cross: spec_fn((P, P), (P, P)) -> Option<P>,
)
    requires
        poly.len() > 0,
        forall|m: int| 0 <= m < poly.len() ==> outside(#[trigger] poly[m], clip),
    ensures
        clip_spec(poly, clip, outside, cross) == poly.subrange(1, poly.len() as int).push(poly[0]),
{
    let n = poly.len() as int;
    lemma_clip_prefix_all_outside(poly, clip, outside, cross, n - 1);
    assert(n % n == 0) by {
        vstd::arithmetic::div_mod::lemma_mod_self_0(n);
    }
    assert(edge_of(poly, n - 1).1 == poly[0]);
    assert(outside(poly[n - 1], clip));
    assert(poly.subrange(1, n) =~= poly.subrange(1, n - 1 + 1));
    assert(poly.subrange(1, n) + seq![poly[0]] =~= poly.subrange(1, n).push(poly[0]));
}

/// A clip line that has no vertex on its outside leaves nothing.
pub proof fn lemma_clip_none_outside<P>(
    poly: Seq<P>,
    clip: (P, P),
    outside: spec_fn(P, (P, P)) -> bool,
    cross: spec_fn((P, P), (P, P)) -> Option<P>,
)
    requires
        forall|m: int| 0 <= m < poly.len() ==> !outside(#[trigger] poly[m], clip),
    ensures
        clip_spec(poly, clip, outside, cross).len() == 0,
{
    lemma_clip_prefix_none_outside(poly, clip, outside, cross, poly.len() as int);
}

proof fn lemma_clip_prefix_none_outside<P>(
    poly: Seq<P>,
    clip: (P, P),
    outside: spec_fn(P, (P, P)) -> bool,
    cross: spec_fn((P, P), (P, P)) -> Option<P>,
    i: int,
)
    requires
        0 <= i <= poly.len(),
        forall|m: int| 0 <= m < poly.len() ==> !outside(#[trigger] poly[m], clip),
    ensures
        clip_prefix(poly, clip, outside, cross, i).len() == 0,
    decreases i,
{
    if i > 0 {
        lemma_clip_prefix_none_outside(poly, clip, outside, cross, i - 1);
        let n = poly.len() as int;
        let k = i % n;
        assert(0 <= k < n) by {
            vstd::arithmetic::div_mod::lemma_mod_bound(i, n);
        }
        assert(!outside(poly[i - 1], clip));
        assert(!outside(poly[k], clip));
    }
}

} // verus!
