//! The zone builder: one polygon per zone, taking in outer shells while a
//! zone's half-planes bound no region.
use vstd::prelude::*;
use crate::closures::{determined2, fn_of2};
use crate::halfspace::{corner_set, feasible_spec, lemma_corners_feasible};
use crate::ordering::{lemma_sort_members, sort_spec, sort_vertices_by_angle};
use crate::shells::seqs_of;

verus! {

/// Ways in which building the zones of a lattice can fail.
#[derive(Debug, Clone, Copy, PartialEq, Eq, Structural)]
pub enum ZoneError {
    /// The requested number of zones is zero.
    InvalidRequest,
    /// A zone's half-planes bound no region, even with every outer shell added.
    DegenerateGeometry,
    /// There are fewer shells than the next zone index needs. `build_zones`
    /// does not fail with it: it stops there and returns the zones built.
    InsufficientShells,
    /// Not even the innermost zone could be built.
    NoZonesProduced,
}

/// Largest half-width of the index window searched for neighbours.
pub const MAX_SEARCH_RANGE: usize = 25;

/// `min(5 * max_zone, MAX_SEARCH_RANGE)`.
pub open spec fn search_range_spec(max_zone: int) -> int {
    if 5 * max_zone < MAX_SEARCH_RANGE as int { 5 * max_zone } else { MAX_SEARCH_RANGE as int }
}

/// Half-width `R` of the index window `[-R, R]` searched for neighbours:
/// five per requested zone, capped.
pub fn search_range(max_zone: usize) -> (r: usize)
    ensures
        r as int == search_range_spec(max_zone as int),
        r <= MAX_SEARCH_RANGE,
{
    if max_zone < 5 {
        5 * max_zone
    } else {
        MAX_SEARCH_RANGE
    }
}


/// The neighbours of shells `k ..= e`, shell by shell.
pub open spec fn shell_union<P>(shells: Seq<Seq<P>>, k: int, e: int) -> Seq<P> {
    shells.subrange(k, e + 1).flatten()
}

/// Zone `k`'s attempt that ends at shell `e` finds corners.
pub open spec fn bounded_at<P>(
    shells: Seq<Seq<P>>,
    k: int,
    e: int,
    meet: spec_fn(P, P) -> Option<P>,
    within: spec_fn(P, P) -> bool,
    close: spec_fn(P, P) -> bool,
) -> bool {
    corner_set(shell_union(shells, k, e), meet, within, close).len() > 0
}

/// `e` is the first shell at which zone `k`'s growing neighbour set bounds a region.
pub open spec fn first_bounded<P>(
    shells: Seq<Seq<P>>,
    k: int,
    e: int,
    meet: spec_fn(P, P) -> Option<P>,
    within: spec_fn(P, P) -> bool,
    close: spec_fn(P, P) -> bool,
) -> bool {
    &&& k <= e < shells.len()
    &&& bounded_at(shells, k, e, meet, within, close)
    &&& forall|f: int| k <= f < e ==> !#[trigger] bounded_at(shells, k, f, meet, within, close)
}

/// No attempt for zone `k`, whatever outer shells it takes in, bounds a region.
pub open spec fn never_bounded<P>(
    shells: Seq<Seq<P>>,
    k: int,
    meet: spec_fn(P, P) -> Option<P>,
    within: spec_fn(P, P) -> bool,
    close: spec_fn(P, P) -> bool,
) -> bool {
    forall|f: int| k <= f < shells.len() ==> !#[trigger] bounded_at(shells, k, f, meet, within, close)
}

/// `poly` is zone `k`'s polygon: the corners, ordered by `before`, of the
/// first neighbour set from shell `k` outwards that bounds a region.
pub open spec fn zone_built<P>(
    shells: Seq<Seq<P>>,
    k: int,
    poly: Seq<P>,
    meet: spec_fn(P, P) -> Option<P>,
    within: spec_fn(P, P) -> bool,
    close: spec_fn(P, P) -> bool,
    before: spec_fn(P, P) -> bool,
) -> bool {
    exists|e: int|
        #[trigger] first_bounded(shells, k, e, meet, within, close) && poly == sort_spec(
            corner_set(shell_union(shells, k, e), meet, within, close),
            before,
        )
}

/// Number of zones attempted: those requested, as far as there are shells.
pub open spec fn zone_count(max_zone: int, n_shells: int) -> int {
    if max_zone < n_shells { max_zone } else { n_shells }
}

/// Appends a copy of each member of `src` to `dst`.
pub fn append_copies<P: Copy>(dst: &mut Vec<P>, src: &Vec<P>)
    ensures
        final(dst)@ == old(dst)@ + src@,
{
    let ghost start = dst@;
    let mut i: usize = 0;
    while i < src.len()
        invariant
            0 <= i <= src@.len(),
            dst@ == start + src@.subrange(0, i as int),
        decreases src@.len() - i,
    {
        dst.push(src[i]);
        proof {
            assert(start + src@.subrange(0, i + 1) =~= (start + src@.subrange(0, i as int)).push(
                src@[i as int],
            ));
        }
        i = i + 1;
    }
    proof {
        assert(src@.subrange(0, src@.len() as int) =~= src@);
    }
}


/// Builds the polygon of each zone `0 .. max_zone` from distance shells
/// (innermost first), as far as there are shells.
///
/// Zone `k` first takes the half-planes of shell `k` alone; while they bound
/// no region it takes in the next outer shell. Its polygon is the corner set
/// of the first neighbour set that bounds one, ordered by `before`. Where no
/// set does, the whole build fails with `DegenerateGeometry`.
pub fn build_zones<
    P: Copy,
    M: Fn(P, P) -> Option<P>,
    W: Fn(P, P) -> bool,
    C: Fn(P, P) -> bool,
    A: Fn(P, P) -> bool,
>(shells: &Vec<Vec<P>>, max_zone: usize, meet: &M, within: &W, close: &C, before: &A) -> (r: Result<
    Vec<Vec<P>>,
    ZoneError,
>)
    requires
        determined2(*meet),
        determined2(*within),
        determined2(*close),
        determined2(*before),
    ensures
        max_zone == 0 <==> r == Err::<Vec<Vec<P>>, ZoneError>(ZoneError::InvalidRequest),
        (max_zone > 0 && shells@.len() == 0) <==> r == Err::<Vec<Vec<P>>, ZoneError>(
            ZoneError::NoZonesProduced,
        ),
        r == Err::<Vec<Vec<P>>, ZoneError>(ZoneError::DegenerateGeometry) <==> (max_zone > 0
            && exists|k: int|
            0 <= k < zone_count(max_zone as int, shells@.len() as int) && #[trigger] never_bounded(
                seqs_of(shells@),
                k,
                fn_of2(*meet),
                fn_of2(*within),
                fn_of2(*close),
            )),
        r != Err::<Vec<Vec<P>>, ZoneError>(ZoneError::InsufficientShells),
        r matches Ok(z) ==> z@.len() == zone_count(max_zone as int, shells@.len() as int),
        r matches Ok(z) ==> forall|k: int|
            0 <= k < z@.len() ==> #[trigger] zone_built(
                seqs_of(shells@),
                k,
                z@[k]@,
                fn_of2(*meet),
                fn_of2(*within),
                fn_of2(*close),
                fn_of2(*before),
            ),
{
    if max_zone == 0 {
        return Err(ZoneError::InvalidRequest);
    }
    let ghost sh = seqs_of(shells@);
    let ghost (mf, wf, cf) = (fn_of2(*meet), fn_of2(*within), fn_of2(*close));
    let limit = if max_zone < shells.len() {
        max_zone
    } else {
        shells.len()
    };
    let mut zones: Vec<Vec<P>> = Vec::new();
    let mut zone_idx: usize = 0;
    while zone_idx < limit
        invariant
            0 <= zone_idx <= limit,
            limit == zone_count(max_zone as int, sh.len() as int),
            limit <= shells@.len(),
            sh == seqs_of(shells@),
            mf == fn_of2(*meet),
            wf == fn_of2(*within),
            cf == fn_of2(*close),
            determined2(*meet),
            determined2(*within),
            determined2(*close),
            determined2(*before),
            zones@.len() == zone_idx,
            forall|k: int|
                0 <= k < zone_idx ==> #[trigger] zone_built(
                    sh,
                    k,
                    zones@[k]@,
                    mf,
                    wf,
                    cf,
                    fn_of2(*before),
                ),
            forall|k: int| 0 <= k < zone_idx ==> !#[trigger] never_bounded(sh, k, mf, wf, cf),
        decreases limit - zone_idx,
    {
        let mut attempt_end: usize = zone_idx;
        let mut set: Vec<P> = Vec::new();
        append_copies(&mut set, &shells[zone_idx]);
        proof {
            assert(sh.subrange(zone_idx as int, zone_idx + 1) =~= seq![sh[zone_idx as int]]);
            sh.subrange(zone_idx as int, zone_idx + 1).lemma_flatten_one_element();
            assert(set@ == shell_union(sh, zone_idx as int, attempt_end as int));
        }
        let mut polygon: Vec<P> = Vec::new();
        loop
            invariant
                zone_idx < limit,
                limit == zone_count(max_zone as int, sh.len() as int),
                max_zone > 0,
                limit <= shells@.len(),
                zone_idx <= attempt_end < shells@.len(),
                sh == seqs_of(shells@),
                mf == fn_of2(*meet),
                wf == fn_of2(*within),
                cf == fn_of2(*close),
                determined2(*meet),
                determined2(*within),
                determined2(*close),
                determined2(*before),
                set@ == shell_union(sh, zone_idx as int, attempt_end as int),
                forall|f: int|
                    zone_idx <= f < attempt_end ==> !#[trigger] bounded_at(
                        sh,
                        zone_idx as int,
                        f,
                        mf,
                        wf,
                        cf,
                    ),
            ensures
                zone_built(sh, zone_idx as int, polygon@, mf, wf, cf, fn_of2(*before)),
            decreases shells@.len() - attempt_end,
        {
            match crate::halfspace::halfspace_corners(&set, meet, within, close) {
                Ok(corners) => {
                    let sorted = sort_vertices_by_angle(&corners, before);
                    proof {
                        assert(first_bounded(sh, zone_idx as int, attempt_end as int, mf, wf, cf));
                    }
                    polygon = sorted;
                    break ;
                },
                Err(_) => {
                    if attempt_end < shells.len() - 1 {
                        let ghost prev = set@;
                        attempt_end = attempt_end + 1;
                        append_copies(&mut set, &shells[attempt_end]);
                        proof {
                            let a = sh.subrange(zone_idx as int, attempt_end as int);
                            assert(sh.subrange(zone_idx as int, attempt_end + 1) =~= a.push(
                                sh[attempt_end as int],
                            ));
                            a.lemma_flatten_push(sh[attempt_end as int]);
                        }
                    } else {
                        proof {
                            assert(!bounded_at(sh, zone_idx as int, attempt_end as int, mf, wf, cf));
                            assert(never_bounded(sh, zone_idx as int, mf, wf, cf));
                            assert(0 <= zone_idx < zone_count(max_zone as int, sh.len() as int));
                            assert(never_bounded(
                                seqs_of(shells@),
                                zone_idx as int,
                                fn_of2(*meet),
                                fn_of2(*within),
                                fn_of2(*close),
                            ));
                        }
                        return Err(ZoneError::DegenerateGeometry);
                    }
                },
            }
        }
        let ghost old_zones = zones@;
        zones.push(polygon);
        proof {
            assert forall|k: int| 0 <= k < zone_idx + 1 implies !#[trigger] never_bounded(
                sh,
                k,
                mf,
                wf,
                cf,
            ) by {
                if k == zone_idx {
                    let e = choose|e: int|
                        #[trigger] first_bounded(sh, zone_idx as int, e, mf, wf, cf)
                            && polygon@ == sort_spec(
                            corner_set(shell_union(sh, zone_idx as int, e), mf, wf, cf),
                            fn_of2(*before),
                        );
                    assert(bounded_at(sh, k, e, mf, wf, cf));
                }
            }
            assert forall|k: int| 0 <= k < zone_idx + 1 implies #[trigger] zone_built(
                sh,
                k,
                zones@[k]@,
                mf,
                wf,
                cf,
                fn_of2(*before),
            ) by {
                if k < zone_idx {
                    assert(zones@[k] == old_zones[k]);
                }
            }
        }
        zone_idx = zone_idx + 1;
    }
    if zones.len() == 0 {
        return Err(ZoneError::NoZonesProduced);
    }
    Ok(zones)
}


/// Every vertex of a built zone satisfies the half-plane of each neighbour
/// that its construction used.
pub proof fn lemma_zone_vertices_within<P>(
    shells: Seq<Seq<P>>,
    k: int,
    poly: Seq<P>,
    meet: spec_fn(P, P) -> Option<P>,
    within: spec_fn(P, P) -> bool,
    close: spec_fn(P, P) -> bool,
    before: spec_fn(P, P) -> bool,
)
    requires
        zone_built(shells, k, poly, meet, within, close, before),
    ensures
        exists|e: int|
            #[trigger] first_bounded(shells, k, e, meet, within, close) && forall|m: int|
                0 <= m < poly.len() ==> feasible_spec(
                    shell_union(shells, k, e),
                    within,
                    #[trigger] poly[m],
                ),
{
    let e = choose|e: int|
        #[trigger] first_bounded(shells, k, e, meet, within, close) && poly == sort_spec(
            corner_set(shell_union(shells, k, e), meet, within, close),
            before,
        );
    let ns = shell_union(shells, k, e);
    let c = corner_set(ns, meet, within, close);
    lemma_corners_feasible(ns, meet, within, close);
    lemma_sort_members(c, before);
    assert forall|m: int| 0 <= m < poly.len() implies feasible_spec(ns, within, #[trigger] poly[m]) by {
        assert(c.contains(poly[m]));
        let w = choose|w: int| 0 <= w < c.len() && c[w] == poly[m];
        assert(feasible_spec(ns, within, c[w]));
    }
}

} // verus!
