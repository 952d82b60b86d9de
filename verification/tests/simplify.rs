use utz::common::Lcg;
use utz::hops::fewest_hops;
use utz::rdp::{keeps_all, rdp_keep};
use utz::select::select;
use utz::thin::vw_keep;
use utz::topology::Bits;
use utz::tourney::Tourney;

type Pt = (f64, f64);

fn bits(pts: &[Pt]) -> Vec<Bits> {
    pts.iter().map(|&(x, y)| (x.to_bits(), y.to_bits())).collect()
}

fn points(line: &[Bits]) -> Vec<Pt> {
    line.iter().map(|&(x, y)| (f64::from_bits(x), f64::from_bits(y))).collect()
}

/// Squared distance from `p` to the segment `a`–`b`.
fn seg_dist2(p: Pt, a: Pt, b: Pt) -> f64 {
    let (dx, dy) = (b.0 - a.0, b.1 - a.1);
    let len2 = dx * dx + dy * dy;
    if len2 == 0.0 {
        return (p.0 - a.0).powi(2) + (p.1 - a.1).powi(2);
    }
    let t = (((p.0 - a.0) * dx + (p.1 - a.1) * dy) / len2).clamp(0.0, 1.0);
    let (cx, cy) = (a.0 + t * dx, a.1 + t * dy);
    (p.0 - cx).powi(2) + (p.1 - cy).powi(2)
}

fn rdp_w(pts: &[Pt], eps: f64, w: &[f64]) -> Vec<Pt> {
    let off = |a: usize, i: usize, b: usize| {
        (seg_dist2(pts[i], pts[a], pts[b]) / (eps * w[i]).powi(2)).to_bits()
    };
    points(&utz::rdp::rdp(&bits(pts), eps.to_bits(), &off))
}

fn rdp(pts: &[Pt], eps: f64) -> Vec<Pt> {
    let e2 = eps * eps;
    let off = |a: usize, i: usize, b: usize| (seg_dist2(pts[i], pts[a], pts[b]) / e2).to_bits();
    points(&utz::rdp::rdp(&bits(pts), eps.to_bits(), &off))
}

fn visvalingam_w(pts: &[Pt], min_area: f64, w: &[f64]) -> Vec<Pt> {
    let area = |p: usize, i: usize, n: usize| {
        let (a, b, c) = (pts[p], pts[i], pts[n]);
        let tri = 0.5 * ((b.0 - a.0) * (c.1 - a.1) - (b.1 - a.1) * (c.0 - a.0)).abs();
        (tri / (w[i] * w[i])).to_bits()
    };
    points(&utz::thin::visvalingam(&bits(pts), min_area.to_bits(), &area))
}

fn visvalingam(pts: &[Pt], min_area: f64) -> Vec<Pt> {
    visvalingam_w(pts, min_area, &vec![1.0; pts.len()])
}

fn imai_iri_w(pts: &[Pt], eps: f64, w: &[f64]) -> Vec<Pt> {
    let n = pts.len();
    let mut rows = vec![vec![0u64; n.div_ceil(64)]; n];
    for i in 0..n {
        for j in i + 1..n {
            let near = (i + 1..j).all(|k| seg_dist2(pts[k], pts[i], pts[j]) <= (eps * w[k]).powi(2));
            if near {
                rows[i][j / 64] |= 1 << (j % 64);
            }
        }
    }
    let path = fewest_hops(&rows).expect("neighbours are always joined");
    path.iter().map(|&i| pts[i]).collect()
}

fn imai_iri(pts: &[Pt], eps: f64) -> Vec<Pt> {
    imai_iri_w(pts, eps, &vec![1.0; pts.len()])
}

fn unit(lcg: &mut Lcg) -> f64 {
    (lcg.next_u64() >> 11) as f64 / (1u64 << 53) as f64
}

/// deterministic pseudo-random polyline
fn wiggle(n: usize, seed: u64) -> Vec<Pt> {
    let mut lcg = Lcg::new(seed);
    (0..n).map(|i| (i as f64 * 0.1, unit(&mut lcg) * 2.0 - 1.0)).collect()
}

/// distance from one original point to the simplified polyline
fn point_dev(p: Pt, simp: &[Pt]) -> f64 {
    simp.windows(2).map(|w| seg_dist2(p, w[0], w[1])).fold(f64::INFINITY, f64::min).sqrt()
}

fn max_deviation(orig: &[Pt], simp: &[Pt]) -> f64 {
    orig.iter().map(|&p| point_dev(p, simp)).fold(0.0, f64::max)
}

#[test]
fn endpoints_always_kept() {
    let pts = wiggle(50, 1);
    for out in [rdp(&pts, 0.5), visvalingam(&pts, 0.5), imai_iri(&pts, 0.5)] {
        assert_eq!(out.first(), pts.first());
        assert_eq!(out.last(), pts.last());
        assert!(out.len() >= 2);
    }
}

#[test]
fn collinear_collapses() {
    let line: Vec<Pt> = (0..10).map(|i| (f64::from(i), 0.0)).collect();
    assert_eq!(rdp(&line, 0.01).len(), 2);
    assert_eq!(visvalingam(&line, 0.01).len(), 2);
    assert_eq!(imai_iri(&line, 0.01).len(), 2);
}

#[test]
fn spike_survives() {
    let mut line: Vec<Pt> = (0..10).map(|i| (f64::from(i), 0.0)).collect();
    line[5] = (5.0, 3.0);
    assert!(rdp(&line, 0.5).contains(&(5.0, 3.0)));
    assert!(visvalingam(&line, 0.5).contains(&(5.0, 3.0)));
    // imai_iri may route around the spike's neighbours but must stay in bound
    assert!(max_deviation(&line, &imai_iri(&line, 0.5)) <= 0.5 + 1e-12);
}

#[test]
fn eps_bound_honored() {
    for seed in 1..=20u64 {
        let pts = wiggle(200, seed);
        for eps in [0.05, 0.2, 0.8] {
            assert!(max_deviation(&pts, &rdp(&pts, eps)) <= eps + 1e-12, "rdp seed {seed}");
            assert!(max_deviation(&pts, &imai_iri(&pts, eps)) <= eps + 1e-12, "ii seed {seed}");
        }
    }
}

#[test]
fn imai_iri_never_more_verts_than_rdp() {
    for seed in 1..=20u64 {
        let pts = wiggle(200, seed);
        for eps in [0.05, 0.2, 0.8] {
            let (r, ii) = (rdp(&pts, eps).len(), imai_iri(&pts, eps).len());
            assert!(ii <= r, "seed {seed} eps {eps}: imai-iri {ii} > rdp {r}");
        }
    }
}

#[test]
fn imai_iri_optimal_vs_bruteforce() {
    // exhaustively check minimality on small inputs: every subset of the
    // interior points, the smallest that works
    fn brute_min(pts: &[Pt], e2: f64) -> usize {
        let n = pts.len();
        let mut best = n;
        for mask in 0..1u32 << (n - 2) {
            let mut idx = vec![0];
            idx.extend((1..n - 1).filter(|i| mask >> (i - 1) & 1 == 1));
            idx.push(n - 1);
            let ok = idx.windows(2).all(|w| {
                pts[w[0] + 1..w[1]].iter().all(|&p| seg_dist2(p, pts[w[0]], pts[w[1]]) <= e2)
            });
            if ok && idx.len() < best {
                best = idx.len();
            }
        }
        best
    }
    for seed in 1..=10u64 {
        let pts = wiggle(9, seed);
        for eps in [0.1, 0.4, 1.0] {
            let ii = imai_iri(&pts, eps).len();
            let opt = brute_min(&pts, eps * eps);
            assert_eq!(ii, opt, "seed {seed} eps {eps}");
        }
    }
}

#[test]
fn visvalingam_monotone_in_threshold() {
    let pts = wiggle(200, 7);
    let mut last = usize::MAX;
    for a in [0.001, 0.01, 0.1, 1.0] {
        let n = visvalingam(&pts, a).len();
        assert!(n <= last);
        last = n;
    }
}

#[test]
fn weighted_uniform_matches_scalar() {
    for seed in 1..=10u64 {
        let pts = wiggle(300, seed);
        let ones = vec![1.0; pts.len()];
        for eps in [0.05, 0.2, 0.8] {
            assert_eq!(rdp_w(&pts, eps, &ones), rdp(&pts, eps), "rdp seed {seed}");
            assert_eq!(visvalingam_w(&pts, eps, &ones), visvalingam(&pts, eps), "vw seed {seed}");
            assert_eq!(imai_iri_w(&pts, eps, &ones), imai_iri(&pts, eps), "ii seed {seed}");
        }
    }
}

#[test]
fn nothing_is_dropped_without_a_tolerance() {
    let line: Vec<Pt> = (0..10).map(|i| (f64::from(i), 0.0)).collect();
    for knob in [0.0, -0.0, -1.0, f64::NEG_INFINITY] {
        assert!(keeps_all(10, knob.to_bits()), "{knob}");
        assert_eq!(rdp(&line, knob), line);
        assert_eq!(visvalingam(&line, knob), line);
    }
    for knob in [f64::MIN_POSITIVE, 1.0, f64::INFINITY, f64::NAN, -f64::NAN] {
        assert!(keeps_all(2, knob.to_bits()) && !keeps_all(3, knob.to_bits()), "{knob}");
    }
    assert_eq!(rdp(&line[..2], 5.0), &line[..2]);
    assert_eq!(rdp(&[], 5.0), &[]);
}

#[test]
fn spans_split_at_the_first_of_the_farthest() {
    // two points equally far off, then one that is no number
    let off = |_: usize, i: usize, _: usize| [0.0, 0.5, 2.0, 2.0, -f64::NAN, 0.0][i].to_bits();
    assert_eq!(rdp_keep(6, &off), vec![true, false, true, true, false, true]);
    let whole = |a: usize, i: usize, b: usize| {
        if (a, b) == (0, 5) { [0.0f64, 1.0, 2.0, 2.0, 1.5, 0.0][i].to_bits() } else { 0 }
    };
    assert_eq!(rdp_keep(6, &whole), vec![true, false, true, false, false, true]);
    // at the tolerance is within it
    let at = |_: usize, _: usize, _: usize| 1.0f64.to_bits();
    assert_eq!(rdp_keep(3, &at), vec![true, false, true]);
    assert_eq!(select(&[(1, 2), (3, 4), (5, 6)], &rdp_keep(3, &at)), vec![(1, 2), (5, 6)]);
}

#[test]
fn weighted_per_point_bound() {
    for seed in 1..=10u64 {
        let pts = wiggle(300, seed);
        let mut lcg = Lcg::new(seed);
        let w: Vec<f64> = (0..pts.len()).map(|_| 0.1 + 0.9 * unit(&mut lcg)).collect();
        let eps = 0.4;
        for out in [rdp_w(&pts, eps, &w), imai_iri_w(&pts, eps, &w)] {
            for (i, &p) in pts.iter().enumerate() {
                let (dev, bound) = (point_dev(p, &out), eps * w[i]);
                assert!(dev <= bound + 1e-12, "seed {seed} pt {i}: {dev} > {bound}");
            }
        }
    }
}

#[test]
fn weighted_refines_locally() {
    // a bump under the uniform tolerance vanishes — until its weight drops
    let mut line: Vec<Pt> = (0..10).map(|i| (f64::from(i), 0.0)).collect();
    line[5] = (5.0, 0.3);
    let bump = line[5];
    let mut w = vec![1.0; line.len()];
    w[5] = 0.1;
    assert!(!rdp(&line, 0.5).contains(&bump));
    assert!(rdp_w(&line, 0.5, &w).contains(&bump));
    assert!(!visvalingam(&line, 0.5).contains(&bump));
    assert!(visvalingam_w(&line, 0.5, &w).contains(&bump));
    // every imai-iri shortcut spanning the bump misses it by 0.3 > 0.05,
    // so the bump itself must be a shortcut endpoint
    assert!(!imai_iri(&line, 0.5).contains(&bump));
    assert!(imai_iri_w(&line, 0.5, &w).contains(&bump));
}

#[test]
fn fewest_hops_takes_the_first_of_the_shortest() {
    // 0 → {1, 2} → 3: both two hops, the smaller middle wins
    let rows = vec![vec![0b0110u64], vec![0b1000], vec![0b1000], vec![0]];
    assert_eq!(fewest_hops(&rows), Some(vec![0, 1, 3]));
    // no way out of 0
    assert_eq!(fewest_hops(&[vec![0u64], vec![0]]), None);
    assert_eq!(fewest_hops(&[vec![0u64]]), Some(vec![0]));
}

#[test]
fn thinning_drops_the_least_area_first() {
    // areas by middle index alone; 3 goes, then 1, then 2 meets the limit
    let area = |_: usize, i: usize, _: usize| [0u64, 20, 50, 10, 90, 0][i];
    assert_eq!(vw_keep(6, 50, &area), vec![true, false, true, false, true, true]);
}

#[test]
fn tourney_finds_the_least_key() {
    let mut t = Tourney::new(5);
    assert_eq!(t.least(), None);
    t.set(3, Some(7));
    t.set(1, Some(9));
    assert_eq!(t.least(), Some((3, 7)));
    t.set(0, Some(7));
    assert_eq!(t.least(), Some((0, 7)));
    t.set(0, None);
    t.set(3, None);
    assert_eq!(t.least(), Some((1, 9)));
}
