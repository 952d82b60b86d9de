use geo::algorithm::Intersects;
use geo::Contains;
use utz::common::Lcg;
use utz::pip::{contains, edge, edge_split, ring_hit, ring_hit_split, EdgeHit, Pack24, RingHit};

const SQUARE: &[(i32, i32)] = &[(0, 0), (10, 0), (10, 10), (0, 10)];
const HOLE: &[(i32, i32)] = &[(3, 3), (7, 3), (7, 7), (3, 7)];

fn code(hit: RingHit) -> u8 {
    match hit {
        RingHit::Outside => 0,
        RingHit::Inside => 1,
        RingHit::Boundary => 2,
    }
}

#[test]
fn square_basics() {
    assert!(contains::<i64, _>(&[SQUARE], 5, 5));
    assert!(!contains::<i64, _>(&[SQUARE], 15, 5));
    assert!(!contains::<i64, _>(&[SQUARE], -1, -1));
    // boundary claims: edges + vertices
    assert!(contains::<i64, _>(&[SQUARE], 0, 5));
    assert!(contains::<i64, _>(&[SQUARE], 5, 0));
    assert!(contains::<i64, _>(&[SQUARE], 10, 10));
}

#[test]
fn hole_excludes() {
    let poly: &[&[(i32, i32)]] = &[SQUARE, HOLE];
    assert!(contains::<i64, _>(poly, 1, 1)); // in exterior, outside hole
    assert!(!contains::<i64, _>(poly, 5, 5)); // inside hole
    assert!(contains::<i64, _>(poly, 3, 5)); // on hole edge -> claimed
}

#[test]
fn i128_matches_i64_in_range() {
    let poly: &[&[(i32, i32)]] = &[SQUARE, HOLE];
    for x in -2..13 {
        for y in -2..13 {
            assert_eq!(
                contains::<i64, _>(poly, x, y),
                contains::<i128, _>(poly, x, y),
                "at ({x},{y})"
            );
        }
    }
}

#[test]
fn f64_matches_i64_in_range() {
    let poly: &[&[(i32, i32)]] = &[SQUARE, HOLE];
    for x in -2..13 {
        for y in -2..13 {
            assert_eq!(
                contains::<i64, _>(poly, x, y),
                contains::<f64, _>(poly, x, y),
                "at ({x},{y})"
            );
        }
    }
}

/// i16-narrow pairs through the i64 kernel and the sign-split kernel must
/// agree with the identical geometry widened to i32 pairs, over the full i16
/// range.
#[test]
fn narrow_i16_matches_i32_pairs() {
    let mut lcg = Lcg::new(0x1616_1616);
    let mut next = || (lcg.next_u64() >> 48) as u16 as i16;
    for _ in 0..200 {
        let n = 3 + (next().unsigned_abs() as usize % 14);
        let ring16: Vec<(i16, i16)> = (0..n).map(|_| (next(), next())).collect();
        let ring32: Vec<(i32, i32)> = ring16
            .iter()
            .map(|&(x, y)| (i32::from(x), i32::from(y)))
            .collect();
        for _ in 0..200 {
            let (px, py) = (next(), next());
            let wide = code(ring_hit::<i64, _>(&ring32, i32::from(px), i32::from(py)));
            assert_eq!(
                code(ring_hit::<i64, _>(&ring16, px, py)),
                wide,
                "i16/i32 results disagree at ({px},{py})"
            );
            assert_eq!(
                code(ring_hit_split(&ring16, px, py)),
                wide,
                "sign-split result disagrees at ({px},{py})"
            );
            assert_eq!(
                code(ring_hit_split(&ring32, i32::from(px), i32::from(py))),
                wide,
                "i32 sign-split result disagrees at ({px},{py})"
            );
        }
    }
}

/// At 15-bit quantization the plain kernel is exact at `W = i32`.
#[test]
fn wide_i32_matches_i64_at_15_bit_quant() {
    let m: i64 = 1 << 15; // draws in [-2^14, 2^14-1]
    let mut lcg = Lcg::new(0x1515_1515);
    let mut next = || (((lcg.next_u64() >> 33) as i64 % m) - m / 2) as i16;
    for _ in 0..200 {
        let n = 3 + (next().unsigned_abs() as usize % 14);
        let ring: Vec<(i16, i16)> = (0..n).map(|_| (next(), next())).collect();
        for _ in 0..200 {
            let (px, py) = (next(), next());
            assert_eq!(
                code(ring_hit::<i32, _>(&ring, px, py)),
                code(ring_hit::<i64, _>(&ring, px, py)),
                "i32/i64 results disagree at ({px},{py})"
            );
        }
    }
}

/// The i32 sign-split instantiation against the i128 kernel over the full i32
/// range.
#[test]
fn split_i32_matches_i128() {
    let mut lcg = Lcg::new(0x3232_3232);
    let mut next = || (lcg.next_u64() >> 32) as u32 as i32;
    for _ in 0..200 {
        let n = 3 + (next().unsigned_abs() as usize % 14);
        let ring: Vec<(i32, i32)> = (0..n).map(|_| (next(), next())).collect();
        for _ in 0..200 {
            let (px, py) = (next(), next());
            assert_eq!(
                code(ring_hit_split(&ring, px, py)),
                code(ring_hit::<i128, _>(&ring, px, py)),
                "i32 sign-split/i128 results disagree at ({px},{py})"
            );
        }
    }
}

/// f64 is bit-exact at i24 range, so agreement with i64 over full-range random
/// polygons is a hard assertion, boundaries included.
#[test]
fn f64_matches_i64_at_i24_range() {
    let range: i64 = 1 << 23;
    let mut lcg = Lcg::new(0x0dd_ba11);
    let mut next = |m: i64| -> i32 { (((lcg.next_u64() >> 33) as i64 % m) - m / 2) as i32 };
    for _ in 0..200 {
        let (cx, cy) = (next(range), next(range));
        let n = 5 + (next(12).unsigned_abs() as usize);
        let mut points: Vec<(i32, i32)> = (0..n)
            .map(|k| {
                let angle = k as f64 / n as f64 * core::f64::consts::TAU;
                let r = (1 << 12) + i64::from(next(1 << 20).unsigned_abs());
                (
                    (i64::from(cx) + (angle.cos() * r as f64) as i64).clamp(-range, range - 1)
                        as i32,
                    (i64::from(cy) + (angle.sin() * r as f64) as i64).clamp(-range, range - 1)
                        as i32,
                )
            })
            .collect();
        points.dedup();
        if points.first() == points.last() {
            points.pop();
        }
        if points.len() < 3 {
            continue;
        }
        let rings: &[&[(i32, i32)]] = &[&points];
        for _ in 0..200 {
            let (px, py) = (
                cx.saturating_add(next(1 << 21)),
                cy.saturating_add(next(1 << 21)),
            );
            assert_eq!(
                contains::<i64, _>(rings, px, py),
                contains::<f64, _>(rings, px, py),
                "f64/i64 disagree at ({px},{py})"
            );
        }
    }
}

/// Cross-validation against the geo i64 oracle on random integer polygons:
/// interiors must agree everywhere off-boundary.
#[test]
fn geo_oracle_agreement() {
    let mut lcg = Lcg::new(0xdead_beef);
    let mut next = |m: i64| -> i32 { ((lcg.next_u64() >> 33) as i64 % m) as i32 };
    for _ in 0..200 {
        // random star-shaped polygon (guaranteed simple) around a center
        let (cx, cy) = (next(1000) - 500, next(1000) - 500);
        let n = 5 + (next(12) as usize);
        let mut points: Vec<(i32, i32)> = (0..n)
            .map(|k| {
                let angle = k as f64 / n as f64 * core::f64::consts::TAU;
                let r = 50 + i64::from(next(400));
                (
                    cx + (angle.cos() * r as f64) as i32,
                    cy + (angle.sin() * r as f64) as i32,
                )
            })
            .collect();
        points.dedup();
        if points.first() == points.last() {
            points.pop();
        }
        if points.len() < 3 {
            continue;
        }

        let exterior: geo::LineString<i64> = points
            .iter()
            .map(|&(x, y)| (i64::from(x), i64::from(y)))
            .collect();
        let geo_polygon = geo::Polygon::new(exterior, vec![]);
        let rings: &[&[(i32, i32)]] = &[&points];
        for _ in 0..200 {
            let (px, py) = (cx + next(1200) - 600, cy + next(1200) - 600);
            let ours = contains::<i64, _>(rings, px, py);
            let geo_says = geo_polygon.contains(&geo::Point::new(i64::from(px), i64::from(py)));
            if ours != geo_says {
                // geo::Contains excludes the boundary; we claim it. Only that
                // exact disagreement is allowed.
                let on_boundary = geo_polygon
                    .exterior()
                    .intersects(&geo::Point::new(i64::from(px), i64::from(py)));
                assert!(ours && on_boundary, "disagree off-boundary at ({px},{py})");
            }
        }
    }
}

#[test]
fn edges_read_alike_from_either_end() {
    let mut lcg = Lcg::new(7);
    let mut next = || ((lcg.next_u64() >> 33) % 9) as i32 - 4;
    for _ in 0..2000 {
        let (a, b) = ((next(), next()), (next(), next()));
        let (px, py) = (next(), next());
        let hit = edge::<i64, i32>(a, b, px, py);
        assert_eq!(hit, edge::<i64, i32>(b, a, px, py));
        assert_eq!(hit, edge_split(a, b, px, py));
    }
    assert_eq!(edge::<i64, i32>((0, 0), (4, 4), 2, 2), EdgeHit::Boundary);
}

#[test]
fn packed_pairs_read_as_signed_24_bit() {
    // a square from -1 to 1, each coordinate three bytes
    let minus = [0xFF, 0xFF, 0xFF];
    let one = [0x01, 0x00, 0x00];
    let pair = |x: [u8; 3], y: [u8; 3]| Pack24([x[0], x[1], x[2], y[0], y[1], y[2]]);
    let ring = [
        pair(minus, minus),
        pair(one, minus),
        pair(one, one),
        pair(minus, one),
    ];
    assert_eq!(ring_hit::<i64, _>(&ring, 0, 0), RingHit::Inside);
    assert_eq!(ring_hit::<i64, _>(&ring, 1, 0), RingHit::Boundary);
    assert_eq!(ring_hit::<i64, _>(&ring, 2, 0), RingHit::Outside);
}

#[test]
fn short_rings_claim_nothing() {
    assert_eq!(ring_hit::<i64, _>(&[(0, 0), (4, 0)], 2, 0), RingHit::Outside);
    assert_eq!(ring_hit_split(&[(0i32, 0i32)], 0, 0), RingHit::Outside);
}
