use brillouin::halfspace::{candidate_corners, halfspace_corners, is_feasible, remove_duplicates};
use brillouin::ordering::{sort_vertices_by_angle, stable_sort};
use brillouin::separation::{clip_polygon, polygon_difference, separate_brillouin_zones};
use brillouin::shells::{lattice_offsets, neighbor_shells, neighbors_in_window, split_into_shells};
use brillouin::zones::{append_copies, build_zones, search_range, ZoneError};

type V = (f64, f64);

fn dot(a: V, b: V) -> f64 {
    a.0 * b.0 + a.1 * b.1
}

fn meet(vi: V, vj: V) -> Option<V> {
    let det = vi.0 * vj.1 - vi.1 * vj.0;
    if det.abs() < 1e-12 {
        return None;
    }
    let a_i = dot(vi, vi) / 2.0;
    let b_j = dot(vj, vj) / 2.0;
    Some(((a_i * vj.1 - b_j * vi.1) / det, (vi.0 * b_j - vj.0 * a_i) / det))
}

fn within(v: V, p: V) -> bool {
    dot(v, p) <= dot(v, v) / 2.0 + 1e-7
}

fn close(u: V, v: V) -> bool {
    (v.0 - u.0).powi(2) + (v.1 - u.1).powi(2) < 1e-9 * 1e-9
}

fn before(a: V, b: V) -> bool {
    a.1.atan2(a.0) <= b.1.atan2(b.0)
}

fn nearer(a: V, b: V) -> bool {
    dot(a, a) <= dot(b, b)
}

fn same_shell(first: V, p: V) -> bool {
    (dot(p, p).sqrt() - dot(first, first).sqrt()).abs() < 1e-6
}

fn outside(p: V, clip: (V, V)) -> bool {
    let (s, e) = clip;
    (e.0 - s.0) * (p.1 - s.1) - (e.1 - s.1) * (p.0 - s.0) < -1e-9
}

fn cross(edge: (V, V), clip: (V, V)) -> Option<V> {
    let ((x1, y1), (x2, y2)) = edge;
    let ((x3, y3), (x4, y4)) = clip;
    let denom = (x1 - x2) * (y3 - y4) - (y1 - y2) * (x3 - x4);
    if denom.abs() < 1e-9 {
        return None;
    }
    let a = x1 * y2 - y1 * x2;
    let b = x3 * y4 - y3 * x4;
    Some(((a * (x3 - x4) - (x1 - x2) * b) / denom, (a * (y3 - y4) - (y1 - y2) * b) / denom))
}

fn shells_of(a1: V, a2: V, max_zone: usize) -> Vec<Vec<V>> {
    let r = search_range(max_zone);
    let at = |i: i32, j: i32| (a1.0 * i as f64 + a2.0 * j as f64, a1.1 * i as f64 + a2.1 * j as f64);
    let neighbors = neighbors_in_window(r, &at);
    neighbor_shells(&neighbors, &nearer, &same_shell)
}

fn zones_of(a1: V, a2: V, max_zone: usize) -> Result<Vec<Vec<V>>, ZoneError> {
    let shells = shells_of(a1, a2, max_zone);
    build_zones(&shells, max_zone, &meet, &within, &close, &before)
}

fn area(poly: &[V]) -> f64 {
    let n = poly.len();
    let mut s = 0.0;
    for i in 0..n {
        let (a, b) = (poly[i], poly[(i + 1) % n]);
        s += a.0 * b.1 - b.0 * a.1;
    }
    (s / 2.0).abs()
}

#[test]
fn test_square_lattice() {
    let result = zones_of((1.0, 0.0), (0.0, 1.0), 1);
    assert!(result.is_ok());
    let zones = result.unwrap();
    assert_eq!(zones.len(), 1);
    assert_eq!(zones[0].len(), 4);
}

#[test]
fn test_hexagonal_lattice() {
    let result = zones_of((1.0, 0.0), (0.5, 0.866025403784), 1);
    assert!(result.is_ok());
    let zones = result.unwrap();
    assert_eq!(zones.len(), 1);
    assert_eq!(zones[0].len(), 6);
}

#[test]
fn hexagonal_exact_root_gives_six_corners() {
    let zones = zones_of((1.0, 0.0), (0.5, 3f64.sqrt() / 2.0), 1).unwrap();
    assert_eq!(zones[0].len(), 6);
}

#[test]
fn search_range_grows_and_caps() {
    assert_eq!(search_range(0), 0);
    assert_eq!(search_range(1), 5);
    assert_eq!(search_range(4), 20);
    assert_eq!(search_range(5), 25);
    assert_eq!(search_range(100), 25);
}

#[test]
fn offsets_cover_window_without_origin() {
    let offs = lattice_offsets(1);
    assert_eq!(
        offs,
        vec![(-1, -1), (-1, 0), (-1, 1), (0, -1), (0, 1), (1, -1), (1, 0), (1, 1)]
    );
    assert_eq!(lattice_offsets(25).len(), 51 * 51 - 1);
    assert!(lattice_offsets(0).is_empty());
}

#[test]
fn split_starts_shell_on_each_gap() {
    let pts: Vec<V> = vec![(1.0, 0.0), (0.0, 1.0), (1.0, 1.0), (2.0, 0.0), (0.0, 2.0)];
    let shells = split_into_shells(&pts, &same_shell);
    assert_eq!(shells.len(), 3);
    assert_eq!(shells[0], vec![(1.0, 0.0), (0.0, 1.0)]);
    assert_eq!(shells[1], vec![(1.0, 1.0)]);
    assert_eq!(shells[2], vec![(2.0, 0.0), (0.0, 2.0)]);
    assert!(split_into_shells(&Vec::<V>::new(), &same_shell).is_empty());
}

#[test]
fn square_shells_increase_in_norm() {
    let shells = shells_of((1.0, 0.0), (0.0, 1.0), 2);
    assert_eq!(shells[0].len(), 4);
    assert_eq!(shells[1].len(), 4);
    for s in 0..shells.len() - 1 {
        let far = shells[s].iter().map(|v| dot(*v, *v).sqrt()).fold(0.0, f64::max);
        let near = shells[s + 1].iter().map(|v| dot(*v, *v).sqrt()).fold(f64::MAX, f64::min);
        assert!(far <= near + 1e-6);
    }
}

#[test]
fn dedup_keeps_first_of_close_points() {
    let pts: Vec<V> = vec![(0.0, 0.0), (1.0, 0.0), (1e-12, 0.0), (1.0, 1e-11), (2.0, 2.0)];
    let once = remove_duplicates(&pts, &close);
    assert_eq!(once, vec![(0.0, 0.0), (1.0, 0.0), (2.0, 2.0)]);
    let twice = remove_duplicates(&once, &close);
    assert_eq!(twice, once);
    assert!(remove_duplicates(&Vec::<V>::new(), &close).is_empty());
}

#[test]
fn angle_sort_starts_near_minus_pi() {
    let pts: Vec<V> = vec![(1.0, 1.0), (-1.0, -1.0), (1.0, -1.0), (-1.0, 1.0)];
    let sorted = sort_vertices_by_angle(&pts, &before);
    assert_eq!(sorted, vec![(-1.0, -1.0), (1.0, -1.0), (1.0, 1.0), (-1.0, 1.0)]);
}

#[test]
fn square_cell_corners() {
    let ns: Vec<V> = vec![(1.0, 0.0), (-1.0, 0.0), (0.0, 1.0), (0.0, -1.0)];
    let corners = halfspace_corners(&ns, &meet, &within, &close).unwrap();
    let mut sorted = sort_vertices_by_angle(&corners, &before);
    for p in sorted.iter_mut() {
        *p = ((p.0 * 2.0).round() / 2.0, (p.1 * 2.0).round() / 2.0);
    }
    assert_eq!(sorted, vec![(-0.5, -0.5), (0.5, -0.5), (0.5, 0.5), (-0.5, 0.5)]);
}

#[test]
fn collinear_neighbors_are_degenerate() {
    let ns: Vec<V> = vec![(1.0, 0.0), (-1.0, 0.0), (2.0, 0.0)];
    assert_eq!(
        halfspace_corners(&ns, &meet, &within, &close),
        Err(ZoneError::DegenerateGeometry)
    );
}

#[test]
fn zero_zones_is_invalid() {
    assert_eq!(zones_of((1.0, 0.0), (0.0, 1.0), 0), Err(ZoneError::InvalidRequest));
}

#[test]
fn no_shells_gives_no_zones() {
    let shells: Vec<Vec<V>> = Vec::new();
    assert_eq!(
        build_zones(&shells, 3, &meet, &within, &close, &before),
        Err(ZoneError::NoZonesProduced)
    );
}

#[test]
fn collinear_lattice_fails_after_retries() {
    let shells = shells_of((1.0, 0.0), (2.0, 0.0), 1);
    assert_eq!(
        build_zones(&shells, 1, &meet, &within, &close, &before),
        Err(ZoneError::DegenerateGeometry)
    );
}

#[test]
fn retry_takes_in_next_shell() {
    let shells: Vec<Vec<V>> = vec![vec![(1.0, 0.0), (-1.0, 0.0)], vec![(0.0, 2.0), (0.0, -2.0)]];
    let zones = build_zones(&shells, 1, &meet, &within, &close, &before).unwrap();
    assert_eq!(zones.len(), 1);
    assert_eq!(zones[0].len(), 4);
    assert!((area(&zones[0]) - 2.0).abs() < 1e-9);
}

#[test]
fn fewer_shells_than_zones_returns_partial() {
    let shells: Vec<Vec<V>> = vec![vec![(1.0, 0.0), (-1.0, 0.0), (0.0, 1.0), (0.0, -1.0)]];
    let zones = build_zones(&shells, 3, &meet, &within, &close, &before).unwrap();
    assert_eq!(zones.len(), 1);
}

#[test]
fn square_two_zones_end_to_end() {
    let zones = zones_of((1.0, 0.0), (0.0, 1.0), 2).unwrap();
    assert_eq!(zones.len(), 2);
    assert_eq!(zones[0].len(), 4);
    assert!((area(&zones[0]) - 1.0).abs() < 1e-9);
    let cx: f64 = zones[0].iter().map(|p| p.0).sum();
    let cy: f64 = zones[0].iter().map(|p| p.1).sum();
    assert!(cx.abs() < 1e-9 && cy.abs() < 1e-9);
    assert!((area(&zones[1]) - 2.0).abs() < 1e-9);
    let separated = separate_brillouin_zones(&zones, &outside, &cross);
    assert_eq!(separated.len(), 2);
    assert_eq!(separated[0], zones[0]);
    // The keep-outside clip of the diamond against the square degenerates,
    // so zone 1 comes back whole.
    assert_eq!(separated[1], zones[1]);
}

#[test]
fn window_vectors_follow_offsets() {
    let at = |i: i32, j: i32| (2 * i + j, 10 * j);
    let vs = neighbors_in_window(1, &at);
    assert_eq!(vs, vec![(-3, -10), (-2, 0), (-1, 10), (-1, -10), (1, 10), (1, -10), (2, 0), (3, 10)]);
}

#[test]
fn zone_vertices_satisfy_every_half_plane() {
    let a1 = (1.0, 0.0);
    let a2 = (0.3, 1.1);
    let shells = shells_of(a1, a2, 3);
    let zones = build_zones(&shells, 3, &meet, &within, &close, &before).unwrap();
    for (k, zone) in zones.iter().enumerate() {
        assert!(zone.len() >= 3);
        for p in zone {
            for v in &shells[k] {
                assert!(within(*v, *p));
            }
        }
    }
}

#[test]
fn clip_keeps_outside_part() {
    let square: Vec<V> = vec![(-1.0, -1.0), (1.0, -1.0), (1.0, 1.0), (-1.0, 1.0)];
    let clip = ((-1.0, 0.0), (1.0, 0.0));
    let out = clip_polygon(&square, clip, &outside, &cross);
    assert_eq!(out, vec![(1.0, -1.0), (1.0, 0.0), (-1.0, 0.0), (-1.0, -1.0)]);
    assert!(clip_polygon(&Vec::<V>::new(), clip, &outside, &cross).is_empty());
}

#[test]
fn clip_against_far_line_drops_everything() {
    let square: Vec<V> = vec![(-1.0, -1.0), (1.0, -1.0), (1.0, 1.0), (-1.0, 1.0)];
    let clip = ((-5.0, -5.0), (5.0, -5.0));
    assert!(clip_polygon(&square, clip, &outside, &cross).is_empty());
}

#[test]
fn difference_stops_once_degenerate() {
    let outer: Vec<V> = vec![(0.0, -1.0), (1.0, 0.0), (0.0, 1.0), (-1.0, 0.0)];
    let inner: Vec<V> = vec![(-0.5, -0.5), (0.5, -0.5), (0.5, 0.5), (-0.5, 0.5)];
    let diff = polygon_difference(&outer, &inner, &outside, &cross);
    assert!(diff.len() < 3);
}

#[test]
fn separation_keeps_zone_when_difference_degenerates() {
    let inner: Vec<V> = vec![(-0.5, -0.5), (0.5, -0.5), (0.5, 0.5), (-0.5, 0.5)];
    let outer: Vec<V> = vec![(0.0, -1.0), (1.0, 0.0), (0.0, 1.0), (-1.0, 0.0)];
    let zones = vec![inner.clone(), outer.clone()];
    let separated = separate_brillouin_zones(&zones, &outside, &cross);
    assert_eq!(separated, vec![inner, outer]);
}

#[test]
fn separation_of_disjoint_zone_is_unchanged() {
    let inner: Vec<V> = vec![(-0.5, -0.5), (0.5, -0.5), (0.5, 0.5), (-0.5, 0.5)];
    let far: Vec<V> = vec![(3.0, 3.0), (4.0, 3.0), (4.0, 4.0), (3.0, 4.0)];
    let zones = vec![inner.clone(), far.clone()];
    let separated = separate_brillouin_zones(&zones, &outside, &cross);
    assert_eq!(separated[1], far);
    assert!(separate_brillouin_zones(&Vec::<Vec<V>>::new(), &outside, &cross).is_empty());
}

#[test]
fn feasibility_stops_at_violated_half_plane() {
    let ns: Vec<V> = vec![(1.0, 0.0), (0.0, 1.0)];
    assert!(is_feasible(&ns, (0.5, 0.5), &within));
    assert!(is_feasible(&ns, (-3.0, -3.0), &within));
    assert!(!is_feasible(&ns, (0.6, 0.0), &within));
    assert!(is_feasible(&Vec::<V>::new(), (9.0, 9.0), &within));
}

#[test]
fn candidates_keep_only_feasible_crossings() {
    let ns: Vec<V> = vec![(1.0, 0.0), (0.0, 1.0), (-1.0, 0.0), (2.0, 2.0)];
    let c = candidate_corners(&ns, &meet, &within);
    assert_eq!(c, vec![(0.5, 0.5), (-0.5, 0.5)]);
}

#[test]
fn stable_sort_keeps_ties_in_order() {
    let pts: Vec<(i32, i32)> = vec![(2, 0), (1, 1), (2, 2), (1, 3), (0, 4)];
    let by_first = |a: (i32, i32), b: (i32, i32)| a.0 <= b.0;
    assert_eq!(stable_sort(&pts, &by_first), vec![(0, 4), (1, 1), (1, 3), (2, 0), (2, 2)]);
}

#[test]
fn append_copies_extends() {
    let mut dst = vec![1, 2];
    append_copies(&mut dst, &vec![3, 4]);
    assert_eq!(dst, vec![1, 2, 3, 4]);
}

#[test]
fn neighbor_shells_sorts_then_splits() {
    let ns: Vec<V> = vec![(2.0, 0.0), (0.0, -1.0), (1.0, 1.0), (1.0, 0.0)];
    let shells = neighbor_shells(&ns, &nearer, &same_shell);
    assert_eq!(shells, vec![vec![(0.0, -1.0), (1.0, 0.0)], vec![(1.0, 1.0)], vec![(2.0, 0.0)]]);
}
