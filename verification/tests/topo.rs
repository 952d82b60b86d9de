use utz::reconstruct::strip_close;
use utz::topo::cut_rings;
use utz::topology::{build_topology, can_number, Bits, Topology};

fn bits(ring: &[(f64, f64)]) -> Vec<Bits> {
    ring.iter().map(|&(x, y)| (x.to_bits(), y.to_bits())).collect()
}

fn sorted(ring: &[Bits]) -> Vec<Bits> {
    let mut ring = ring.to_vec();
    ring.sort_unstable();
    ring
}

/// An island whose outline is also the hole of the zone around it: the same
/// closed ring, but each feature starts it at a different vertex and winds it
/// the opposite way. The topology must intern that ring as one arc, not two
/// rotated copies.
#[test]
fn shared_island_ring_interns_once() {
    let island = bits(&[(1.0, 1.0), (2.0, 1.0), (2.0, 2.0), (1.0, 2.0)]);
    // same cycle, rotated to a different start and reversed
    let hole = bits(&[(2.0, 2.0), (2.0, 1.0), (1.0, 1.0), (1.0, 2.0)]);
    let sea = bits(&[(0.0, 0.0), (3.0, 0.0), (3.0, 3.0), (0.0, 3.0)]);
    let feats = vec![vec![vec![island]], vec![vec![sea, hole]]];
    assert!(can_number(&feats));
    let t = build_topology(&feats);
    // sea outline + island ring shared once = 2 arcs, not 3
    assert_eq!(t.arc_coords.len(), 2, "island ring duplicated: {:?}", t.arc_coords);
    // reconstruction must still round-trip both features' ring vertex sets
    assert!(t.is_consistent(t.arc_coords.len()));
    let rec = t.reconstruct(&t.arc_coords);
    for (f, r) in rec.iter().zip(&feats) {
        for (p, q) in f.iter().zip(r) {
            for (ring, orig) in p.iter().zip(q) {
                assert_eq!(sorted(ring), sorted(orig));
            }
        }
    }
}

/// A pinched (figure-eight) ring passes through its smallest vertex twice, so
/// the lexicographically smallest forward rotation differs between the two
/// windings; canonicalization must consider both walk directions or the two
/// features intern two different arcs.
#[test]
fn shared_pinched_ring_interns_once() {
    let eight = bits(&[
        (0.0, 0.0),
        (1.0, 0.0),
        (1.0, 1.0),
        (0.0, 0.0),
        (-1.0, 0.0),
        (-1.0, -1.0),
    ]);
    // same cycle, reversed and rotated to a different start
    let eight_rev = bits(&[
        (1.0, 1.0),
        (1.0, 0.0),
        (0.0, 0.0),
        (-1.0, -1.0),
        (-1.0, 0.0),
        (0.0, 0.0),
    ]);
    let feats = vec![vec![vec![eight]], vec![vec![eight_rev]]];
    let t = build_topology(&feats);
    assert_eq!(t.arc_coords.len(), 1, "pinched ring duplicated: {:?}", t.arc_coords);
    // both rings still round-trip their vertex multiset
    let rec = t.reconstruct(&t.arc_coords);
    for (f, r) in rec.iter().zip(&feats) {
        assert_eq!(sorted(&f[0][0]), sorted(&r[0][0]));
    }
}

/// Two unit squares sharing the x=1 border.
fn two_squares() -> Vec<Vec<Vec<Vec<Bits>>>> {
    let left = bits(&[(0.0, 0.0), (1.0, 0.0), (1.0, 0.5), (1.0, 1.0), (0.0, 1.0)]);
    let right = bits(&[(2.0, 0.0), (2.0, 1.0), (1.0, 1.0), (1.0, 0.5), (1.0, 0.0)]);
    vec![vec![vec![left]], vec![vec![right]]]
}

#[test]
fn a_shared_border_is_one_arc() {
    let feats = two_squares();
    let t = build_topology(&feats);
    // the border, and the rest of each square
    assert_eq!(t.arc_coords.len(), 3);
    assert_eq!(t.structure, vec![vec![vec![0]], vec![vec![1]]]);
    let border = bits(&[(1.0, 0.0), (1.0, 0.5), (1.0, 1.0)]);
    let stored = t
        .arc_coords
        .iter()
        .filter(|arc| **arc == border || arc.iter().rev().eq(border.iter()))
        .count();
    assert_eq!(stored, 1);
}

#[test]
fn moved_arcs_stay_stitched() {
    let feats = two_squares();
    let t = build_topology(&feats);
    // drop the border's middle vertex, as a simplifier would
    let middle = (1.0f64.to_bits(), 0.5f64.to_bits());
    let arcs: Vec<Vec<Bits>> = t
        .arc_coords
        .iter()
        .map(|arc| arc.iter().copied().filter(|v| *v != middle).collect())
        .collect();
    let rec = t.reconstruct(&arcs);
    for f in &rec {
        assert_eq!(f[0][0].len(), 4);
        assert!(!f[0][0].contains(&middle));
    }
}

#[test]
fn rings_come_back_from_some_vertex_on() {
    let feats = two_squares();
    let t = build_topology(&feats);
    let rec = t.reconstruct(&t.arc_coords);
    for (f, original) in feats.iter().enumerate() {
        let ring = &original[0][0];
        let n = ring.len();
        let same = (0..n).any(|k| (0..n).all(|i| rec[f][0][0][i] == ring[(i + k) % n]));
        assert!(same, "{:?}", rec[f]);
    }
}

#[test]
fn arcs_join_where_their_ends_are_equal_numbers() {
    let t = Topology {
        arc_coords: vec![],
        ring_refs: vec![vec![0, 2]],
        structure: vec![vec![vec![0]]],
    };
    let ends = |a: f64, b: f64| {
        let out = bits(&[(2.0, 0.0), (2.0, 1.0), (a, 1.0)]);
        let back = bits(&[(b, 1.0), (1.0, 0.0), (2.0, 0.0)]);
        t.reconstruct(&[out, back])[0][0][0].len()
    };
    assert_eq!(ends(0.0, 0.0), 4);
    assert_eq!(ends(0.0, -0.0), 4);
    assert_eq!(ends(0.0, 0.5), 5);
    assert_eq!(ends(f64::NAN, f64::NAN), 5);
}

#[test]
fn out_of_range_references_are_noticed() {
    let mut t = build_topology(&two_squares());
    assert!(!t.is_consistent(1));
    t.structure[0][0][0] = 9;
    assert!(!t.is_consistent(3));
}

#[test]
fn rings_without_a_junction_are_whole_arcs() {
    let (arcs, refs) = cut_rings(&vec![vec![3, 4, 5], vec![5, 4, 3]]);
    assert_eq!(arcs.len(), 1);
    assert_eq!(arcs[0].first(), arcs[0].last());
    assert_eq!(refs[0].len(), 1);
    assert_eq!(refs[0][0] / 2, refs[1][0] / 2);
}

#[test]
fn closing_vertices_are_stripped() {
    let open = bits(&[(0.0, 0.0), (1.0, 0.0), (1.0, 1.0)]);
    let mut closed = open.clone();
    closed.push(open[0]);
    assert_eq!(strip_close(closed), open);
    assert_eq!(strip_close(open.clone()), open);
    // the two zeros are one number, and NaN closes nothing
    let zeros = bits(&[(0.0, 0.0), (1.0, 0.0), (-0.0, 0.0)]);
    assert_eq!(strip_close(zeros).len(), 2);
    let nan = bits(&[(f64::NAN, 0.0), (1.0, 0.0), (f64::NAN, 0.0)]);
    assert_eq!(strip_close(nan).len(), 3);
    assert_eq!(strip_close(bits(&[(1.0, 1.0)])).len(), 1);
}
