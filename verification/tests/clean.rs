use utz::clean::{clean_arc, ring_coords_q, ring_degenerate, CleanStats};
use utz::sift::drop_degenerate_rings;

fn stats() -> CleanStats {
    CleanStats::default()
}

#[test]
fn open_arc_keeps_endpoints_and_kills_spike() {
    // A-B-A retrace in the middle of an arc
    let mut a = vec![(0, 0), (5, 0), (9, 0), (5, 0), (5, 5)];
    let mut st = stats();
    clean_arc(&mut a, false, &mut st);
    assert_eq!(a, vec![(0, 0), (5, 0), (5, 5)]);
    assert!(st.spikes >= 1);
}

#[test]
fn open_arc_multi_vertex_spur_unwinds() {
    // spur wanders out two vertices and retraces exactly
    let mut a = vec![(0, 0), (4, 0), (4, 3), (4, 9), (4, 3), (4, 0), (8, 0)];
    let mut st = stats();
    clean_arc(&mut a, false, &mut st);
    assert_eq!(a, vec![(0, 0), (8, 0)]);
}

#[test]
fn open_arc_partial_retrace_spur() {
    // reverses along the same line but not onto an existing vertex
    let mut a = vec![(0, 0), (10, 0), (3, 0), (3, 4)];
    let mut st = stats();
    clean_arc(&mut a, false, &mut st);
    assert_eq!(a, vec![(0, 0), (3, 0), (3, 4)]);
    assert_eq!(st.spikes, 1);
}

#[test]
fn open_arc_collinear_and_dups() {
    let mut a = vec![(0, 0), (0, 0), (2, 0), (5, 0), (5, 0), (9, 0)];
    let mut st = stats();
    clean_arc(&mut a, false, &mut st);
    assert_eq!(a, vec![(0, 0), (9, 0)]);
    assert_eq!(st.dups, 2);
    assert_eq!(st.collinear, 2);
}

#[test]
fn closed_arc_spike_at_start_vertex() {
    // ring stored first == last, spur sits exactly on the start vertex: the
    // open-arc pass can't touch it, the cyclic pass must
    let mut a = vec![(0, 0), (5, -5), (0, 0), (10, 0), (10, 10), (0, 10), (0, 0)];
    let mut st = stats();
    clean_arc(&mut a, true, &mut st);
    let n = a.len();
    assert_eq!(a[0], a[n - 1]);
    let interior: Vec<_> = a[..n - 1].to_vec();
    assert_eq!(interior.len(), 4);
    assert!(!interior.contains(&(5, -5)));
}

#[test]
fn closed_arc_collapses_to_degenerate() {
    // entire ring snaps onto one line; whatever remnant survives must read as
    // a degenerate ring so the ring-level drop removes it
    let mut a = vec![(0, 0), (5, 0), (9, 0), (5, 0), (0, 0)];
    let mut st = stats();
    clean_arc(&mut a, true, &mut st);
    assert!(ring_degenerate(&ring_coords_q(&[0 << 1], &[a.clone()])), "{a:?}");
}

#[test]
fn degenerate_ring_detection() {
    assert!(ring_degenerate(&[(0, 0), (5, 0)]));
    assert!(ring_degenerate(&[(0, 0), (5, 0), (9, 0)])); // zero area
    assert!(!ring_degenerate(&[(0, 0), (5, 0), (5, 5)]));
}

#[test]
fn drop_degenerate_hole_keeps_poly_and_compacts_arcs() {
    // poly 0: square exterior (arc 0, closed) + zero-area hole (arc 1)
    let arcs = vec![
        vec![(0, 0), (10, 0), (10, 10), (0, 10), (0, 0)],
        vec![(2, 2), (6, 2), (2, 2)],
    ];
    let ring_refs = vec![vec![0u32 << 1], vec![1u32 << 1]];
    let structure = vec![vec![vec![0usize, 1]]];
    let mut st = stats();
    let (refs, s, arcs) = drop_degenerate_rings(&ring_refs, &structure, arcs, &mut st);
    assert_eq!(s, vec![vec![vec![0usize]]]);
    assert_eq!(refs.len(), 1);
    assert_eq!(arcs.len(), 1);
    assert_eq!(st.rings_dropped, 1);
    assert_eq!(st.arcs_dropped, 1);
    assert_eq!(st.polys_dropped, 0);
}

#[test]
fn drop_degenerate_exterior_takes_holes() {
    let arcs = vec![
        vec![(0, 0), (10, 0), (0, 0)],                // flat exterior
        vec![(2, 2), (6, 2), (6, 6), (2, 6), (2, 2)], // healthy hole
    ];
    let ring_refs = vec![vec![0u32 << 1], vec![1u32 << 1]];
    let structure = vec![vec![vec![0usize, 1]]];
    let mut st = stats();
    let (refs, s, arcs) = drop_degenerate_rings(&ring_refs, &structure, arcs, &mut st);
    assert_eq!(s, vec![Vec::<Vec<usize>>::new()]);
    assert!(refs.is_empty());
    assert!(arcs.is_empty());
    assert_eq!(st.polys_dropped, 1);
    assert_eq!(st.rings_dropped, 2);
    assert_eq!(st.arcs_dropped, 2);
}

/// Twice the signed area of a ring, stored with or without its closing vertex.
fn area2(ring: &[(i32, i32)]) -> i64 {
    (0..ring.len())
        .map(|i| {
            let (p, q) = (ring[i], ring[(i + 1) % ring.len()]);
            i64::from(p.0) * i64::from(q.1) - i64::from(q.0) * i64::from(p.1)
        })
        .sum()
}

#[test]
fn cleaning_keeps_the_area() {
    // a square with a spur, a repeat and a pass-through vertex
    let ring = vec![
        (0, 0), (5, 0), (10, 0), (10, 0), (10, 4), (17, 4), (10, 4), (10, 10), (0, 10), (0, 0),
    ];
    for closed in [true, false] {
        let mut a = ring.clone();
        clean_arc(&mut a, closed, &mut stats());
        assert!(a.len() < ring.len());
        assert_eq!((area2(&ring), area2(&a)), (200, 200));
    }
}

#[test]
fn cleaning_only_removes() {
    // the start vertex is a spike: it goes, and the ring closes at the next
    let ring = vec![(-5, 0), (0, 0), (10, 0), (10, 10), (0, 10), (0, 0), (-5, 0)];
    let mut a = ring.clone();
    clean_arc(&mut a, true, &mut stats());
    let (open, whole) = (&a[..a.len() - 1], &ring[..ring.len() - 1]);
    let mut left = whole.iter();
    assert!(open.iter().all(|v| left.any(|w| w == v)), "{a:?}");
    assert_eq!(a.first(), a.last());
    assert_eq!(area2(&a), area2(&ring));
}

#[test]
fn cleaning_twice_changes_nothing_more() {
    for closed in [false, true] {
        let mut a = vec![(0, 0), (4, 0), (4, 0), (8, 0), (2, 0), (2, 5), (0, 5), (0, 0)];
        let mut st = stats();
        clean_arc(&mut a, closed, &mut st);
        let once = a.clone();
        let mut again = stats();
        clean_arc(&mut a, closed, &mut again);
        assert_eq!(a, once);
        assert_eq!((again.dups, again.spikes, again.collinear), (0, 0, 0));
    }
}

#[test]
fn only_the_counters_that_move_need_room() {
    let full = || CleanStats {
        dups: u32::MAX,
        spikes: u32::MAX,
        collinear: u32::MAX,
        rings_dropped: u32::MAX,
        polys_dropped: u32::MAX,
        arcs_dropped: u32::MAX,
    };
    // one spike: no other counter moves
    let mut a = vec![(0, 0), (9, 0), (0, 0), (0, 5)];
    let mut st = CleanStats { spikes: 0, dups: 0, ..full() };
    clean_arc(&mut a, false, &mut st);
    assert_eq!(a, vec![(0, 0), (0, 5)]);
    assert_eq!((st.spikes + st.dups, st.collinear), (2, u32::MAX));
    // nothing is left to remove, whatever was counted before
    let mut st = full();
    clean_arc(&mut a, false, &mut st);
    assert_eq!(a, vec![(0, 0), (0, 5)]);
    assert_eq!((st.dups, st.spikes, st.collinear), (u32::MAX, u32::MAX, u32::MAX));
}

#[test]
fn surviving_rings_keep_their_vertices() {
    // the middle arc goes, and the references behind it are renumbered
    let square = |x: i32| vec![(x, 0), (x + 4, 0), (x + 4, 4), (x, 4), (x, 0)];
    let arcs = vec![square(0), vec![(50, 0), (60, 0), (50, 0)], square(100)];
    let ring_refs = vec![vec![0u32], vec![2], vec![5]];
    let structure = vec![vec![vec![0usize]], vec![vec![1]], vec![vec![2]]];
    let before = ring_coords_q(&ring_refs[2], &arcs);
    let mut st = stats();
    let (refs, s, kept) = drop_degenerate_rings(&ring_refs, &structure, arcs, &mut st);
    assert_eq!(refs, vec![vec![0u32], vec![3]]);
    assert_eq!(s, vec![vec![vec![0usize]], vec![], vec![vec![1]]]);
    assert_eq!(ring_coords_q(&refs[1], &kept), before);
}
