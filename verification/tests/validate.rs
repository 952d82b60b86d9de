use utz::clean::CleanStats;
use utz::snapped::{clean_topology, fits_counters, is_valid_topology};
use utz::validate::{
    can_measure, find_problems, measure, overlap_middle, seg_class, Class, Kind,
};

#[test]
fn bowtie_ring_crosses_once() {
    // figure-8: segments (0,0)-(10,10) and (10,0)-(0,10) properly cross
    let ring = vec![(0, 0), (10, 10), (10, 0), (0, 10)];
    let rings = [ring.clone()];
    assert!(can_measure(&rings));
    let b = measure(&rings);
    assert_eq!(b.crossings, 1);
    assert_eq!(b.locs.len(), 1);
    let l = b.locs[0];
    // the two segments, named by their first vertices, meet at (5, 5)
    let (p, q) = (ring[l.first], ring[l.first + 1]);
    let (r, s) = (ring[l.second], ring[(l.second + 1) % 4]);
    assert_eq!(meet(p, q, r, s), (5.0, 5.0));
    assert_eq!(l.kind, Kind::Cross);
}

#[test]
fn square_ring_is_clean() {
    let ring = vec![(0, 0), (10, 0), (10, 10), (0, 10)];
    let b = measure(&[ring]);
    assert_eq!((b.crossings, b.overlaps, b.touches, b.degenerate), (0, 0, 0, 0));
}

/// Where two segments meet.
fn meet(a: (i32, i32), b: (i32, i32), c: (i32, i32), d: (i32, i32)) -> (f64, f64) {
    let cross = |u: (f64, f64), v: (f64, f64)| u.0 * v.1 - u.1 * v.0;
    let f = |v: (i32, i32)| (f64::from(v.0), f64::from(v.1));
    let (a, b, c, d) = (f(a), f(b), f(c), f(d));
    let ab = (b.0 - a.0, b.1 - a.1);
    let cd = (d.0 - c.0, d.1 - c.1);
    let t = cross((c.0 - a.0, c.1 - a.1), cd) / cross(ab, cd);
    (a.0 + t * ab.0, a.1 + t * ab.1)
}

#[test]
fn find_problems_locates_bowtie_in_degrees() {
    // one feature, one ring stored as a single closed arc, bowtie shape
    // big enough to survive i16 snapping (~0.005° cells)
    let arc: Vec<(f64, f64)> = vec![
        (0.0, 0.0), (1.0, 1.0), (1.0, 0.0), (0.0, 1.0), (0.0, 0.0),
    ];
    let qmax = 32767.0;
    let snapped: Vec<(i32, i32)> = arc
        .iter()
        .map(|&(x, y)| ((x / 180.0 * qmax).round() as i32, (y / 90.0 * qmax).round() as i32))
        .collect();
    let ring_refs = vec![vec![0u32]];
    let structure = vec![vec![vec![0usize]]];
    let arcs = vec![snapped.clone()];
    assert!(is_valid_topology(&ring_refs, &structure, &arcs));
    assert!(fits_counters(&structure, &arcs));
    let p = find_problems(&ring_refs, &structure, arcs, &[true]).expect("small enough to count");
    assert_eq!(p.len(), 1);
    assert_eq!(p[0].feat, 0);
    assert!(matches!(p[0].loc.kind, Kind::Cross));
    let (i, j) = (p[0].loc.first, p[0].loc.second);
    let (x, y) = meet(snapped[i], snapped[i + 1], snapped[j], snapped[j + 1]);
    let (lon, lat) = (x / qmax * 180.0, y / qmax * 90.0);
    assert!((lon - 0.5).abs() < 0.01 && (lat - 0.5).abs() < 0.01, "{lon} {lat}");
}

#[test]
fn collapsed_rings_have_no_problems_to_find() {
    // a spur alone, and a bowtie that is the hole of a spur: both go
    let arcs = vec![
        vec![(0, 0), (9, 9), (18, 18), (9, 9), (0, 0)],
        vec![(0, 0), (182, 364), (182, 0), (0, 364), (0, 0)],
    ];
    let ring_refs = vec![vec![0u32], vec![2u32]];
    let structure = vec![vec![vec![0usize, 1]]];
    let found = find_problems(&ring_refs, &structure, arcs, &[true, true]).expect("countable");
    assert!(found.is_empty());
}

#[test]
fn problems_come_in_structure_order_once_per_owning_ring() {
    let bowtie = |x: i32| vec![(x, 0), (x + 10, 10), (x + 10, 0), (x, 10), (x, 0)];
    let arcs = vec![bowtie(0), bowtie(100)];
    let ring_refs = vec![vec![0u32], vec![2u32]];
    // the second ring is listed first, and once more by the last feature
    let structure = vec![vec![vec![1usize]], vec![vec![0]], vec![vec![1]]];
    let found = find_problems(&ring_refs, &structure, arcs, &[true, true]).expect("countable");
    let seen: Vec<_> = found.iter().map(|p| (p.loc.ring, p.ring, p.feat)).collect();
    assert_eq!(seen, vec![(0, 1, 0), (1, 0, 1), (2, 1, 2)]);
}

#[test]
fn segment_pairs_are_classed_alike_in_either_order() {
    let cases = [
        (((0, 0), (4, 4)), ((0, 4), (4, 0)), Class::Cross),
        (((0, 0), (4, 0)), ((2, 0), (8, 0)), Class::Overlap),
        (((0, 0), (4, 0)), ((4, 0), (4, 5)), Class::Touch),
        (((0, 0), (4, 0)), ((0, 1), (4, 1)), Class::Apart),
    ];
    for (p, q, class) in cases {
        assert_eq!(seg_class(p, q), class);
        assert_eq!(seg_class(q, p), class);
    }
    // twice the midpoint of the shared stretch 2..4
    assert_eq!(overlap_middle(((0, 0), (4, 0)), ((2, 0), (8, 0))), (6, 0));
}

#[test]
fn collinear_overlaps_are_counted() {
    // the last edge runs back over the first
    let ring = vec![(0, 0), (10, 0), (10, 5), (8, 0), (2, 0), (0, 5)];
    let b = measure(&[ring]);
    assert_eq!(b.overlaps, 1);
    assert_eq!(b.crossings, 0);
}

#[test]
fn collapsed_rings_are_counted_and_not_searched() {
    // a flat ring runs back over itself; only its lack of area counts
    let flat = vec![(0, 0), (10, 0), (5, 0), (8, 0)];
    let b = measure(&[flat.clone()]);
    assert_eq!((b.crossings, b.overlaps, b.touches, b.degenerate, b.verts), (0, 0, 0, 1, 4));
    assert!(b.locs.is_empty());
    // beside it, a bowtie is searched although its lobes cancel out
    let bowtie = vec![(0, 0), (10, 10), (10, 0), (0, 10)];
    let b = measure(&[flat, bowtie]);
    assert_eq!((b.crossings, b.overlaps, b.degenerate, b.verts), (1, 0, 2, 8));
    assert_eq!((b.locs.len(), b.locs[0].ring), (1, 1));
}

#[test]
fn cleaning_a_topology_counts_what_goes() {
    let arcs = vec![
        vec![(0, 0), (4, 0), (8, 0), (8, 8), (0, 8), (0, 0)],
        vec![(20, 0), (30, 0), (20, 0)],
    ];
    let t = clean_topology(
        &[vec![0u32], vec![2]],
        &[vec![vec![0usize]], vec![vec![1]]],
        arcs,
        &[true, true],
    );
    let CleanStats { collinear, rings_dropped, polys_dropped, arcs_dropped, .. } = t.clean;
    assert_eq!((collinear, rings_dropped, polys_dropped, arcs_dropped), (1, 1, 1, 1));
    assert_eq!(t.arcs, vec![vec![(0, 0), (8, 0), (8, 8), (0, 8), (0, 0)]]);
    assert_eq!(t.structure, vec![vec![vec![0usize]], vec![]]);
}

#[test]
fn bad_references_make_no_topology() {
    let arcs = vec![vec![(0, 0), (4, 0), (4, 4), (0, 0)]];
    assert!(!is_valid_topology(&[vec![2u32]], &[vec![vec![0usize]]], &arcs));
    assert!(!is_valid_topology(&[vec![0u32]], &[vec![vec![1usize]]], &arcs));
}
