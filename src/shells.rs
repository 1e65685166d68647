//! Neighbour generation: the index window around the origin, the lattice
//! vectors over it, and their grouping into shells of equal distance.
use vstd::prelude::*;
use vstd::seq_lib::lemma_flatten_concat;
use crate::closures::{determined2, fn_of2, lemma_fn_of2};
use crate::ordering::{lemma_sort_sorted, sort_spec, sorted_by, stable_sort, total_preorder};

verus! {

/// The contents of each inner vector, as sequences.
pub open spec fn seqs_of<P>(v: Seq<Vec<P>>) -> Seq<Seq<P>> {
    v.map_values(|x: Vec<P>| x@)
}

/// Position of the offset `(i, j)` in the row-major walk over `[-r, r]²`
/// that leaves out the origin.
pub open spec fn offset_pos(r: int, i: int, j: int) -> int {
    let w = 2 * r + 1;
    let k = (i + r) * w + (j + r);
    if i > 0 || (i == 0 && j > 0) { k - 1 } else { k }
}

/// Every index offset `(i, j)` with `-r <= i, j <= r` except `(0, 0)`, with
/// `i` the outer and `j` the inner counter, both ascending.
pub fn lattice_offsets(r: usize) -> (out: Vec<(i32, i32)>)
    requires
        r <= 1000,
    ensures
        out@.len() == (2 * r + 1) * (2 * r + 1) - 1,
        forall|i: int, j: int|
            -r <= i <= r && -r <= j <= r && !(i == 0 && j == 0) ==> {
                let p = #[trigger] offset_pos(r as int, i, j);
                0 <= p < out@.len() && out@[p] == (i as i32, j as i32)
            },
{
    let ghost w = 2 * r + 1;
    let rr = r as i32;
    let mut out: Vec<(i32, i32)> = Vec::new();
    let mut i: i32 = -rr;
    proof {
        assert(0 * w == 0) by (nonlinear_arith);
    }
    while i <= rr
        invariant
            rr == r,
            r <= 1000,
            w == 2 * r + 1,
            -rr <= i <= rr + 1,
            out@.len() == offset_pos(r as int, i as int, -r),
            forall|a: int, b: int|
                -r <= a < i && -r <= b <= r && !(a == 0 && b == 0) ==> {
                    let p = #[trigger] offset_pos(r as int, a, b);
                    0 <= p < out@.len() && out@[p] == (a as i32, b as i32)
                },
        decreases rr + 1 - i,
    {
        let mut j: i32 = -rr;
        while j <= rr
            invariant
                rr == r,
                r <= 1000,
                w == 2 * r + 1,
                -rr <= i <= rr,
                -rr <= j <= rr + 1,
                out@.len() == offset_pos(r as int, i as int, j as int),
                forall|a: int, b: int|
                    ((-r <= a < i && -r <= b <= r) || (a == i && -r <= b < j)) && !(a == 0 && b
                        == 0) ==> {
                        let p = #[trigger] offset_pos(r as int, a, b);
                        0 <= p < out@.len() && out@[p] == (a as i32, b as i32)
                    },
            decreases rr + 1 - j,
        {
            proof {
                assert(((i + r) * w + (j + 1 + r)) == (i + r) * w + (j + r) + 1);
            }
            if !(i == 0 && j == 0) {
                out.push((i, j));
            }
            j = j + 1;
        }
        proof {
            assert((i + r) * w + (r + 1 + r) == (i + 1 + r) * w + 0) by (nonlinear_arith)
                requires w == 2 * r + 1;
        }
        i = i + 1;
    }
    proof {
        assert((r + 1 + r) * w == w * w) by (nonlinear_arith)
            requires w == 2 * r + 1;
    }
    out
}

/// The lattice vector `at(i, j)` of every offset of `lattice_offsets(r)`,
/// in the same order.
pub fn neighbors_in_window<P, L: Fn(i32, i32) -> P>(r: usize, at: &L) -> (out: Vec<P>)
    requires
        r <= 1000,
        determined2(*at),
    ensures
        out@.len() == (2 * r + 1) * (2 * r + 1) - 1,
        forall|i: int, j: int|
            -r <= i <= r && -r <= j <= r && !(i == 0 && j == 0) ==> {
                let p = #[trigger] offset_pos(r as int, i, j);
                0 <= p < out@.len() && out@[p] == fn_of2(*at)(i as i32, j as i32)
            },
{
    let offsets = lattice_offsets(r);
    let mut out: Vec<P> = Vec::new();
    let mut k: usize = 0;
    while k < offsets.len()
        invariant
            0 <= k <= offsets@.len(),
            determined2(*at),
            out@.len() == k,
            forall|m: int|
                0 <= m < k ==> #[trigger] out@[m] == fn_of2(*at)(offsets@[m].0, offsets@[m].1),
        decreases offsets@.len() - k,
    {
        let (i, j) = offsets[k];
        let v = at(i, j);
        proof {
            lemma_fn_of2(*at, i, j, v);
        }
        out.push(v);
        k = k + 1;
    }
    proof {
        assert forall|i: int, j: int|
            -r <= i <= r && -r <= j <= r && !(i == 0 && j == 0) implies {
                let p = #[trigger] offset_pos(r as int, i, j);
                0 <= p < out@.len() && out@[p] == fn_of2(*at)(i as i32, j as i32)
            } by {
            let p = offset_pos(r as int, i, j);
            assert(offsets@[p] == (i as i32, j as i32));
        }
    }
    out
}

/// Splits a sequence of neighbours, sorted by distance from the origin, into
/// shells of consecutive members. `same_shell(first, p)` tells whether `p`
/// belongs to the shell whose first member is `first`; a new shell starts at
/// each member for which it answers `false`.
pub fn split_into_shells<P: Copy, F: Fn(P, P) -> bool>(sorted: &Vec<P>, same_shell: &F) -> (shells:
    Vec<Vec<P>>)
    requires
        forall|a: P, b: P| same_shell.requires((a, b)),
    ensures
        seqs_of(shells@).flatten() == sorted@,
        forall|s: int| 0 <= s < shells@.len() ==> #[trigger] shells@[s]@.len() > 0,
        forall|s: int, m: int|
            0 <= s < shells@.len() && 0 < m < shells@[s]@.len() ==> same_shell.ensures(
                (shells@[s]@[0], #[trigger] shells@[s]@[m]),
                true,
            ),
        forall|s: int|
            0 < s < shells@.len() ==> same_shell.ensures(
                (shells@[s - 1]@[0], #[trigger] shells@[s]@[0]),
                false,
            ),
{
    let mut shells: Vec<Vec<P>> = Vec::new();
    let mut current: Vec<P> = Vec::new();
    let mut k: usize = 0;
    while k < sorted.len()
        invariant
            0 <= k <= sorted@.len(),
            forall|a: P, b: P| same_shell.requires((a, b)),
            seqs_of(shells@).flatten() + current@ == sorted@.subrange(0, k as int),
            k > 0 ==> current@.len() > 0,
            k == 0 ==> current@.len() == 0 && shells@.len() == 0,
            forall|s: int| 0 <= s < shells@.len() ==> #[trigger] shells@[s]@.len() > 0,
            forall|s: int, m: int|
                0 <= s < shells@.len() && 0 < m < shells@[s]@.len() ==> same_shell.ensures(
                    (shells@[s]@[0], #[trigger] shells@[s]@[m]),
                    true,
                ),
            forall|m: int|
                0 < m < current@.len() ==> same_shell.ensures(
                    (current@[0], #[trigger] current@[m]),
                    true,
                ),
            forall|s: int|
                0 < s < shells@.len() ==> same_shell.ensures(
                    (shells@[s - 1]@[0], #[trigger] shells@[s]@[0]),
                    false,
                ),
            shells@.len() > 0 ==> same_shell.ensures(
                (shells@[shells@.len() - 1]@[0], current@[0]),
                false,
            ),
        decreases sorted@.len() - k,
    {
        let p = sorted[k];
        proof {
            assert(sorted@.subrange(0, k + 1) =~= sorted@.subrange(0, k as int).push(p));
        }
        if current.len() == 0 {
            current.push(p);
            proof {
                assert(seqs_of(shells@).flatten() =~= Seq::<P>::empty());
            }
        } else {
            let first = current[0];
            if same_shell(first, p) {
                let ghost old_cur = current@;
                current.push(p);
                proof {
                    assert(seqs_of(shells@).flatten() + current@ =~= (seqs_of(shells@).flatten()
                        + old_cur).push(p));
                }
            } else {
                let ghost before = shells@;
                let ghost old_cur = current@;
                shells.push(current);
                proof {
                    assert(seqs_of(shells@) =~= seqs_of(before).push(old_cur));
                    seqs_of(before).lemma_flatten_push(old_cur);
                }
                current = Vec::new();
                current.push(p);
                proof {
                    assert(seqs_of(shells@).flatten() + current@ =~= (seqs_of(before).flatten()
                        + old_cur).push(p));
                }
            }
        }
        k = k + 1;
    }
    if current.len() > 0 {
        let ghost before = shells@;
        let ghost old_cur = current@;
        shells.push(current);
        proof {
            assert(seqs_of(shells@) =~= seqs_of(before).push(old_cur));
            seqs_of(before).lemma_flatten_push(old_cur);
        }
    }
    proof {
        assert(sorted@.subrange(0, sorted@.len() as int) =~= sorted@);
    }
    shells
}

/// Sorts neighbours by distance from the origin with `nearer(a, b)` (`a` is
/// not farther than `b`), then splits them into shells with `same_shell`.
pub fn neighbor_shells<P: Copy, L: Fn(P, P) -> bool, F: Fn(P, P) -> bool>(
    neighbors: &Vec<P>,
    nearer: &L,
    same_shell: &F,
) -> (shells: Vec<Vec<P>>)
    requires
        determined2(*nearer),
        forall|a: P, b: P| same_shell.requires((a, b)),
    ensures
        seqs_of(shells@).flatten() == sort_spec(neighbors@, fn_of2(*nearer)),
        forall|s: int| 0 <= s < shells@.len() ==> #[trigger] shells@[s]@.len() > 0,
        forall|s: int, m: int|
            0 <= s < shells@.len() && 0 < m < shells@[s]@.len() ==> same_shell.ensures(
                (shells@[s]@[0], #[trigger] shells@[s]@[m]),
                true,
            ),
        forall|s: int|
            0 < s < shells@.len() ==> same_shell.ensures(
                (shells@[s - 1]@[0], #[trigger] shells@[s]@[0]),
                false,
            ),
{
    let sorted = stable_sort(neighbors, nearer);
    split_into_shells(&sorted, same_shell)
}

proof fn lemma_flatten_position<P>(sh: Seq<Seq<P>>, s: int, m: int)
    requires
        0 <= s < sh.len(),
        0 <= m < sh[s].len(),
    ensures
        sh.subrange(0, s).flatten().len() + m < sh.flatten().len(),
        sh.flatten()[sh.subrange(0, s).flatten().len() + m] == sh[s][m],
{
    let a = sh.subrange(0, s);
    let b = sh.subrange(s, sh.len() as int);
    assert(a + b =~= sh);
    lemma_flatten_concat(a, b);
    assert(b.flatten() == b.first() + b.drop_first().flatten());
    assert(b.first() == sh[s]);
}

proof fn lemma_flatten_offsets<P>(sh: Seq<Seq<P>>, s1: int, s2: int)
    requires
        0 <= s1 < s2 <= sh.len(),
    ensures
        sh.subrange(0, s1).flatten().len() + sh[s1].len() <= sh.subrange(0, s2).flatten().len(),
{
    let a = sh.subrange(0, s1 + 1);
    let b = sh.subrange(s1 + 1, s2);
    assert(a + b =~= sh.subrange(0, s2));
    lemma_flatten_concat(a, b);
    assert(sh.subrange(0, s1).push(sh[s1]) =~= a);
    sh.subrange(0, s1).lemma_flatten_push(sh[s1]);
}

/// Shells come in order of distance: under a total preorder `nearer`, each
/// member of a shell is not farther than any member of a later shell.
pub proof fn lemma_shells_ordered<P>(
    neighbors: Seq<P>,
    shells: Seq<Seq<P>>,
    nearer: spec_fn(P, P) -> bool,
)
    requires
        total_preorder(nearer),
        shells.flatten() == sort_spec(neighbors, nearer),
    ensures
        forall|s1: int, s2: int, a: int, b: int|
            0 <= s1 < s2 < shells.len() && 0 <= a < shells[s1].len() && 0 <= b < shells[s2].len()
                ==> nearer(#[trigger] shells[s1][a], #[trigger] shells[s2][b]),
{
    lemma_sort_sorted(neighbors, nearer);
    assert forall|s1: int, s2: int, a: int, b: int|
        0 <= s1 < s2 < shells.len() && 0 <= a < shells[s1].len() && 0 <= b < shells[
            s2
        ].len() implies nearer(#[trigger] shells[s1][a], #[trigger] shells[s2][b]) by {
        lemma_flatten_position(shells, s1, a);
        lemma_flatten_position(shells, s2, b);
        lemma_flatten_offsets(shells, s1, s2);
        let f = shells.flatten();
        let p1 = shells.subrange(0, s1).flatten().len() + a;
        let p2 = shells.subrange(0, s2).flatten().len() + b;
        assert(sorted_by(f, nearer));
        assert(nearer(f[p1], f[p2]));
    }
}

} // verus!
