//! Integer point-in-polygon kernels, the geometric core behind lookups.
//!
//! Every kernel performs the even-odd ray cast: a ray from the query point
//! toward +x is tested against every edge of one polygon's rings, and an odd
//! crossing count means the point is inside. Parity XORs across rings, so a
//! point inside a hole comes out `false`. A point exactly on any edge,
//! exterior or hole, reports `true`: border points are claimed.
//!
//! The model is stated over mathematical integers ([`edge_spec`],
//! [`ring_spec`], [`contains_spec`]). The wide-product kernels ([`contains`],
//! [`ring_hit`], [`edge`]) meet it wherever their wide type orders the two
//! cross-product halves as the integers do ([`exact`]); the sign-split
//! kernels ([`ring_hit_split`], [`edge_split`]) meet it everywhere.

use core::cmp::Ordering;
use core::ops::{Mul, Sub};
use vstd::prelude::*;
use vstd::std_specs::cmp::{PartialEqSpec, PartialOrdSpec};
use vstd::std_specs::convert::FromSpec;
use vstd::std_specs::ops::{MulSpec, SubSpec};

use crate::bytes::signed;

verus! {

/// A point of the integer plane, `(x, y)`.
pub type Point = (int, int);

/// The smaller of two integers.
pub open spec fn min_int(a: int, b: int) -> int {
    if a <= b { a } else { b }
}

/// The larger of two integers.
pub open spec fn max_int(a: int, b: int) -> int {
    if a >= b { a } else { b }
}

/// The cross product `(b-a) x (p-a)`: positive when `p` lies to the left of
/// the directed line from `a` to `b`, zero when the three are collinear.
pub open spec fn cross(a: Point, b: Point, p: Point) -> int {
    (b.0 - a.0) * (p.1 - a.1) - (b.1 - a.1) * (p.0 - a.0)
}

/// Whether `p` lies on the closed segment from `a` to `b`.
pub open spec fn on_segment(a: Point, b: Point, p: Point) -> bool {
    &&& cross(a, b, p) == 0
    &&& min_int(a.0, b.0) <= p.0 <= max_int(a.0, b.0)
    &&& min_int(a.1, b.1) <= p.1 <= max_int(a.1, b.1)
}

/// Whether the ray from `p` toward +x crosses the segment. The y-span is
/// half-open (the upper endpoint is excluded), so a ray through a vertex
/// counts once and a horizontal edge never crosses.
pub open spec fn crosses(a: Point, b: Point, p: Point) -> bool {
    ||| a.1 <= p.1 < b.1 && cross(a, b, p) > 0
    ||| b.1 <= p.1 < a.1 && cross(a, b, p) < 0
}

/// The result for one edge over the integers.
pub open spec fn edge_spec(a: Point, b: Point, p: Point) -> EdgeHit {
    if on_segment(a, b, p) {
        EdgeHit::Boundary
    } else if crosses(a, b, p) {
        EdgeHit::Cross
    } else {
        EdgeHit::Miss
    }
}

/// The vertex before vertex `i` of an open ring, cyclically.
pub open spec fn before(ring: Seq<Point>, i: int) -> Point {
    if i == 0 { ring.last() } else { ring[i - 1] }
}

/// Whether `p` lies on one of the first `n` edges of the ring; edge `i` runs
/// into vertex `i`.
pub open spec fn on_ring(ring: Seq<Point>, p: Point, n: int) -> bool {
    exists|i: int| 0 <= i < n && #[trigger] on_segment(before(ring, i), ring[i], p)
}

/// Whether the ray from `p` crosses an odd number of the first `n` edges.
pub open spec fn odd_crossings(ring: Seq<Point>, p: Point, n: int) -> bool
    decreases n,
{
    if n <= 0 {
        false
    } else {
        odd_crossings(ring, p, n - 1) != crosses(before(ring, n - 1), ring[n - 1], p)
    }
}

/// The result for one open ring over the integers: fewer than three vertices
/// enclose nothing, a point on an edge is claimed, and otherwise crossing
/// parity decides.
pub open spec fn ring_spec(ring: Seq<Point>, p: Point) -> RingHit {
    if ring.len() < 3 {
        RingHit::Outside
    } else if on_ring(ring, p, ring.len() as int) {
        RingHit::Boundary
    } else if odd_crossings(ring, p, ring.len() as int) {
        RingHit::Inside
    } else {
        RingHit::Outside
    }
}

/// Whether one of the first `n` ring results is `Boundary`.
pub open spec fn any_boundary(hits: Seq<RingHit>, n: int) -> bool {
    exists|i: int| 0 <= i < n && #[trigger] hits[i] == RingHit::Boundary
}

/// Whether an odd number of the first `n` ring results is `Inside`.
pub open spec fn odd_inside(hits: Seq<RingHit>, n: int) -> bool
    decreases n,
{
    if n <= 0 {
        false
    } else {
        odd_inside(hits, n - 1) != (hits[n - 1] == RingHit::Inside)
    }
}

/// The even-odd fold of ring results: a boundary hit claims the point,
/// otherwise an odd number of `Inside` results does.
pub open spec fn fold_hits(hits: Seq<RingHit>) -> bool {
    any_boundary(hits, hits.len() as int) || odd_inside(hits, hits.len() as int)
}

/// Whether a polygon, given by its rings, claims `p`.
pub open spec fn contains_spec(rings: Seq<Seq<Point>>, p: Point) -> bool {
    fold_hits(rings.map_values(|ring: Seq<Point>| ring_spec(ring, p)))
}

/// The order of two integers.
pub open spec fn int_order(a: int, b: int) -> Ordering {
    if a < b {
        Ordering::Less
    } else if a == b {
        Ordering::Equal
    } else {
        Ordering::Greater
    }
}

/// The wide type the kernels form cross products in. Every cross-product
/// half is a difference multiplied by a difference, so `W` must represent
/// `4*coord_max^2` exactly. The trait is an alias built from core traits and
/// blanket-implemented, so any type qualifies wherever the narrow coordinate
/// type `N` converts in losslessly.
///
/// `i64` is exact while every vertex coordinate stays within 2^30 in
/// magnitude ([`lemma_exact_i64`]), which covers the 16- and 24-bit grids;
/// `i128` is exact for every `i32` coordinate ([`lemma_exact_i128`]); `i32`
/// is exact for coordinates within 2^14 ([`lemma_exact_i32_15_bit`]).
pub trait Wide<N>: Copy + PartialOrd + From<N> + Sub<Output = Self> + Mul<Output = Self> {

}

impl<N, W: Copy + PartialOrd + From<N> + Sub<Output = W> + Mul<Output = W>> Wide<N> for W {

}

/// Sign-split arithmetic for a narrow coordinate type. [`Self::Product`] is
/// the unsigned type in which one cross-product half fits exactly, because
/// `(2^b-1)^2 <= 2^2b - 1`: `u32` for `i16` coordinates and `u64` for `i32`.
pub trait Narrow: Copy + Ord {
    /// The unsigned 2b-bit product type.
    type Product: Copy + Ord;

    /// The integer a coordinate stands for.
    spec fn value(self) -> int;

    /// The integer a product stands for.
    spec fn product_value(product: Self::Product) -> int;

    /// Coordinates compare as the integers they stand for.
    proof fn lemma_order(a: Self, b: Self)
        ensures
            Self::obeys_partial_cmp_spec(),
            Self::obeys_eq_spec(),
            a.partial_cmp_spec(&b) == Some(int_order(a.value(), b.value())),
            a.eq_spec(&b) == (a.value() == b.value()),
            a.value() == b.value() ==> a == b,
    ;

    /// Products compare as the integers they stand for.
    proof fn lemma_product_order(a: Self::Product, b: Self::Product)
        ensures
            Self::Product::obeys_partial_cmp_spec(),
            Self::Product::obeys_eq_spec(),
            a.partial_cmp_spec(&b) == Some(
                int_order(Self::product_value(a), Self::product_value(b)),
            ),
            a.eq_spec(&b) == (Self::product_value(a) == Self::product_value(b)),
    ;

    /// Computes `|a-b| * |c-d|` exactly.
    fn magnitude_product(a: Self, b: Self, c: Self, d: Self) -> (product: Self::Product)
        ensures
            Self::product_value(product) == abs_int(a.value() - b.value()) * abs_int(
                c.value() - d.value(),
            ),
    ;
}

/// The absolute value of an integer.
pub open spec fn abs_int(v: int) -> int {
    if v < 0 { -v } else { v }
}

/// The coordinate-pair storage the kernels load vertices from. Pairs are
/// stored at quant width: decoded `(i32, i32)` tuples, `(i16, i16)` tuples,
/// or packed [`Pack24`] read over full-rings section bytes.
pub trait CoordPair: Sized {
    /// The narrow in-memory coordinate type, which the kernel widens to `W`
    /// as it loads each vertex.
    type Narrow: Narrow;

    /// The pair of coordinates this storage holds.
    spec fn pair(self) -> (Self::Narrow, Self::Narrow);

    fn xy(&self) -> (r: (Self::Narrow, Self::Narrow))
        ensures
            r == self.pair(),
    ;
}

/// The integer point a coordinate pair stands for.
pub open spec fn point_of<N: Narrow>(a: (N, N)) -> Point {
    (a.0.value(), a.1.value())
}

/// The integer points a ring of stored pairs stands for.
pub open spec fn points_of<P: CoordPair>(ring: Seq<P>) -> Seq<Point> {
    Seq::new(ring.len(), |i: int| point_of::<P::Narrow>(ring[i].pair()))
}

/// The result for one ring. `Inside` toggles the polygon's parity, and
/// `Boundary` claims the point immediately.
#[derive(Clone, Copy, PartialEq, Eq, Structural, Debug)]
pub enum RingHit {
    /// The +x ray crossed this ring an odd number of times, so the polygon's
    /// parity toggles.
    Inside,
    /// The point is outside this ring.
    Outside,
    /// The point lies exactly on the ring and is claimed immediately.
    Boundary,
}

/// The result for one edge, the unit of streaming accumulation.
#[derive(Clone, Copy, PartialEq, Eq, Structural, Debug)]
pub enum EdgeHit {
    /// The +x ray crosses this edge, so parity toggles.
    Cross,
    /// The ray does not cross this edge.
    Miss,
    /// The point lies exactly on this edge and is claimed immediately.
    Boundary,
}

impl Narrow for i16 {
    type Product = u32;

    open spec fn value(self) -> int {
        self as int
    }

    open spec fn product_value(product: u32) -> int {
        product as int
    }

    proof fn lemma_order(a: Self, b: Self) {
    }

    proof fn lemma_product_order(a: u32, b: u32) {
    }

    fn magnitude_product(a: Self, b: Self, c: Self, d: Self) -> (product: u32) {
        let m: u32 = if a >= b { (a as i32 - b as i32) as u32 } else { (b as i32 - a as i32) as u32 };
        let n: u32 = if c >= d { (c as i32 - d as i32) as u32 } else { (d as i32 - c as i32) as u32 };
        assert(m * n <= 0xFFFF_FFFF) by (nonlinear_arith)
            requires
                m <= 0xFFFF,
                n <= 0xFFFF,
        ;
        m * n
    }
}

impl Narrow for i32 {
    type Product = u64;

    open spec fn value(self) -> int {
        self as int
    }

    open spec fn product_value(product: u64) -> int {
        product as int
    }

    proof fn lemma_order(a: Self, b: Self) {
    }

    proof fn lemma_product_order(a: u64, b: u64) {
    }

    fn magnitude_product(a: Self, b: Self, c: Self, d: Self) -> (product: u64) {
        let m: u64 = if a >= b { (a as i64 - b as i64) as u64 } else { (b as i64 - a as i64) as u64 };
        let n: u64 = if c >= d { (c as i64 - d as i64) as u64 } else { (d as i64 - c as i64) as u64 };
        assert(m * n <= 0xFFFF_FFFF_FFFF_FFFF) by (nonlinear_arith)
            requires
                m <= 0xFFFF_FFFF,
                n <= 0xFFFF_FFFF,
        ;
        m * n
    }
}

impl CoordPair for (i32, i32) {
    type Narrow = i32;

    open spec fn pair(self) -> (i32, i32) {
        self
    }

    fn xy(&self) -> (r: (i32, i32)) {
        *self
    }
}

impl CoordPair for (i16, i16) {
    type Narrow = i16;

    open spec fn pair(self) -> (i16, i16) {
        self
    }

    fn xy(&self) -> (r: (i16, i16)) {
        *self
    }
}

/// Whether the y-span of the edge touches the scanline through `p`.
pub open spec fn touches(a: Point, b: Point, p: Point) -> bool {
    ||| a.1 <= p.1 <= b.1
    ||| b.1 <= p.1 <= a.1
}

/// One cross-product half as `W` computes it: `(a - b) * (c - d)`.
pub open spec fn half<W: Wide<N>, N: Narrow>(a: N, b: N, c: N, d: N) -> W {
    W::from_spec(a).sub_spec(W::from_spec(b)).mul_spec(W::from_spec(c).sub_spec(W::from_spec(d)))
}

/// Whether `W` can form that half without leaving its range.
pub open spec fn half_defined<W: Wide<N>, N: Narrow>(a: N, b: N, c: N, d: N) -> bool {
    &&& W::from_spec(a).sub_req(W::from_spec(b))
    &&& W::from_spec(c).sub_req(W::from_spec(d))
    &&& W::from_spec(a).sub_spec(W::from_spec(b)).mul_req(
        W::from_spec(c).sub_spec(W::from_spec(d)),
    )
}

/// Whether the conversion and arithmetic of `W` follow their stated values.
pub open spec fn arithmetic_stated<W: Wide<N>, N: Narrow>() -> bool {
    &&& <W as FromSpec<N>>::obeys_from_spec()
    &&& <W as SubSpec>::obeys_sub_spec()
    &&& <W as MulSpec>::obeys_mul_spec()
}

/// Whether `W` can test this edge: either the edge is never examined, or
/// both halves of its cross product stay within range.
pub open spec fn edge_defined<W: Wide<N>, N: Narrow>(a: (N, N), b: (N, N), px: N, py: N) -> bool {
    touches(point_of(a), point_of(b), (px.value(), py.value())) ==> {
        &&& arithmetic_stated::<W, N>()
        &&& half_defined::<W, N>(b.0, a.0, py, a.1)
        &&& half_defined::<W, N>(b.1, a.1, px, a.0)
    }
}

/// Whether `W` orders the two halves of this edge's cross product as the
/// integers do.
pub open spec fn exact<W: Wide<N>, N: Narrow>(a: (N, N), b: (N, N), px: N, py: N) -> bool {
    let lhs = half::<W, N>(b.0, a.0, py, a.1);
    let rhs = half::<W, N>(b.1, a.1, px, a.0);
    let order = int_order(
        (b.0.value() - a.0.value()) * (py.value() - a.1.value()),
        (b.1.value() - a.1.value()) * (px.value() - a.0.value()),
    );
    touches(point_of(a), point_of(b), (px.value(), py.value())) ==> {
        &&& W::obeys_partial_cmp_spec()
        &&& W::obeys_eq_spec()
        &&& lhs.partial_cmp_spec(&rhs) == Some(order)
        &&& lhs.eq_spec(&rhs) == (order == Ordering::Equal)
    }
}

/// The order in which `W` puts the two halves of the cross product
/// `(b-a) x (p-a)`: `(equal, greater, less)`.
fn compare_halves<W, N>(a: (N, N), b: (N, N), px: N, py: N) -> (r: (bool, bool, bool))
    where
        N: Narrow,
        W: Wide<N>,
    requires
        touches(point_of(a), point_of(b), (px.value(), py.value())),
        edge_defined::<W, N>(a, b, px, py),
    ensures
        exact::<W, N>(a, b, px, py) ==> {
            let c = cross(point_of(a), point_of(b), (px.value(), py.value()));
            r == (c == 0, c > 0, c < 0)
        },
{
    let lhs = (W::from(b.0) - W::from(a.0)) * (W::from(py) - W::from(a.1));
    let rhs = (W::from(b.1) - W::from(a.1)) * (W::from(px) - W::from(a.0));
    (lhs == rhs, lhs > rhs, lhs < rhs)
}

/// Tests one edge against the +x ray through `(px, py)`.
///
/// Only an edge whose y-span touches the scanline is examined. If the point
/// is collinear with the edge and `px` falls within the edge's x-span, the
/// result is `Boundary`. Crossings are counted so that a ray through a vertex
/// counts exactly once. The test is symmetric in `a` and `b`.
#[must_use]
pub fn edge<W, N>(a: (N, N), b: (N, N), px: N, py: N) -> (hit: EdgeHit)
    where
        N: Narrow,
        W: Wide<N>,
    requires
        edge_defined::<W, N>(a, b, px, py),
    ensures
        exact::<W, N>(a, b, px, py) ==> hit == edge_spec(
            point_of(a),
            point_of(b),
            (px.value(), py.value()),
        ),
{
    let ((x0, y0), (x1, y1)) = (a, b);
    proof {
        N::lemma_order(y0, py);
        N::lemma_order(y1, py);
        N::lemma_order(py, y0);
        N::lemma_order(py, y1);
        N::lemma_order(x0, px);
        N::lemma_order(x1, px);
        N::lemma_order(px, x0);
        N::lemma_order(px, x1);
    }
    if y0 <= py && py <= y1 {
        let (equal, greater, _less) = compare_halves::<W, N>(a, b, px, py);
        if equal {
            if (x0 <= px || x1 <= px) && (px <= x0 || px <= x1) {
                return EdgeHit::Boundary;
            }
        } else if greater && y1 != py {
            return EdgeHit::Cross;  // point strictly left of an upward edge
        }
    } else if y1 <= py && py <= y0 {
        let (equal, _greater, less) = compare_halves::<W, N>(a, b, px, py);
        if equal {
            if (x0 <= px || x1 <= px) && (px <= x0 || px <= x1) {
                return EdgeHit::Boundary;
            }
        } else if less && y0 != py {
            return EdgeHit::Cross;  // point strictly right of a downward edge
        }
    }
    EdgeHit::Miss
}

/// The sign-split edge kernel, which is [`edge`] with the wide type removed:
/// each cross-product half is split into a sign, decided by narrow
/// comparisons, and an exact unsigned magnitude product.
#[must_use]
pub fn edge_split<N: Narrow>(a: (N, N), b: (N, N), px: N, py: N) -> (hit: EdgeHit)
    ensures
        hit == edge_spec(point_of(a), point_of(b), (px.value(), py.value())),
{
    proof {
        N::lemma_order(a.1, b.1);
        lemma_edge_symmetric(point_of(a), point_of(b), (px.value(), py.value()));
    }
    // Normalize the edge upward: swapping endpoints negates the cross
    // product, folding the up/down branches into one.
    let ((x0, y0), (x1, y1)) = if a.1 > b.1 { (b, a) } else { (a, b) };
    let ghost (p0, p1, p) = (point_of((x0, y0)), point_of((x1, y1)), (px.value(), py.value()));
    proof {
        assert(edge_spec(p0, p1, p) == edge_spec(point_of(a), point_of(b), p));
        N::lemma_order(py, y0);
        N::lemma_order(py, y1);
        N::lemma_order(y1, py);
        N::lemma_order(y1, y0);
        N::lemma_order(x1, x0);
        N::lemma_order(px, x0);
        N::lemma_order(px, x1);
        N::lemma_order(x0, px);
        N::lemma_order(x1, px);
    }
    if py < y0 || py > y1 {
        return EdgeHit::Miss;
    }
    let lhs_magnitude = N::magnitude_product(x1, x0, py, y0);
    let rhs_magnitude = N::magnitude_product(y1, y0, px, x0);
    let lhs_negative = x1 < x0 && py != y0;
    let rhs_negative = px < x0 && y1 != y0;
    proof {
        N::lemma_product_order(lhs_magnitude, rhs_magnitude);
        lemma_signed_product(p1.0 - p0.0, p.1 - p0.1);
        lemma_signed_product(p.0 - p0.0, p1.1 - p0.1);
        assert((p1.1 - p0.1) * (p.0 - p0.0) == (p.0 - p0.0) * (p1.1 - p0.1)) by (nonlinear_arith);
        assert(abs_int(p1.1 - p0.1) * abs_int(p.0 - p0.0) == abs_int(p.0 - p0.0) * abs_int(
            p1.1 - p0.1,
        )) by (nonlinear_arith);
    }
    let (greater, equal) = if lhs_negative {
        if rhs_negative {
            (lhs_magnitude < rhs_magnitude, lhs_magnitude == rhs_magnitude)
        } else {
            (false, false)
        }
    } else if rhs_negative {
        (true, false)
    } else {
        (lhs_magnitude > rhs_magnitude, lhs_magnitude == rhs_magnitude)
    };
    assert(greater == (cross(p0, p1, p) > 0));
    assert(equal == (cross(p0, p1, p) == 0));
    if equal {
        if (x0 <= px || x1 <= px) && (px <= x0 || px <= x1) {
            return EdgeHit::Boundary;
        }
    } else if greater && y1 != py {
        return EdgeHit::Cross;  // point strictly left of the upward edge
    }
    EdgeHit::Miss
}

/// A product with a nonnegative second factor is the magnitude product under
/// the sign of the first factor, and is strictly negative exactly when the
/// first factor is negative and the second is nonzero.
proof fn lemma_signed_product(u: int, v: int)
    requires
        v >= 0,
    ensures
        u < 0 ==> u * v == -(abs_int(u) * abs_int(v)),
        u >= 0 ==> u * v == abs_int(u) * abs_int(v),
        (u < 0 && v != 0) ==> u * v < 0,
        !(u < 0 && v != 0) ==> u * v >= 0,
        abs_int(u) * abs_int(v) >= 0,
        v == 0 ==> u * v == 0,
        v == 0 ==> abs_int(u) * abs_int(v) == 0,
{
    assert((-u) * v == -(u * v)) by (nonlinear_arith);
    assert(u < 0 && v > 0 ==> u * v < 0) by (nonlinear_arith);
    assert(u >= 0 && v >= 0 ==> u * v >= 0) by (nonlinear_arith);
    assert(v == 0 ==> u * v == 0) by (nonlinear_arith);
}

/// The edge test does not depend on the order of the endpoints, so an arc
/// may be walked in either direction.
pub proof fn lemma_edge_symmetric(a: Point, b: Point, p: Point)
    ensures
        edge_spec(a, b, p) == edge_spec(b, a, p),
        on_segment(a, b, p) == on_segment(b, a, p),
        crosses(a, b, p) == crosses(b, a, p),
{
    assert(cross(b, a, p) == -cross(a, b, p)) by (nonlinear_arith)
        requires
            cross(a, b, p) == (b.0 - a.0) * (p.1 - a.1) - (b.1 - a.1) * (p.0 - a.0),
            cross(b, a, p) == (a.0 - b.0) * (p.1 - b.1) - (a.1 - b.1) * (p.0 - b.0),
    ;
}

/// A packed little-endian i24 coordinate pair: 6 bytes with alignment 1, so a
/// slice of them is valid over section bytes at any address.
#[derive(Clone, Copy)]
pub struct Pack24(pub [u8; 6]);

/// The sign-extended 24-bit coordinate stored in three little-endian bytes.
pub open spec fn i24(b0: u8, b1: u8, b2: u8) -> i32 {
    signed(b0 + 256 * b1 + 65536 * b2, 16777216) as i32
}

/// Assembles one sign-extended 24-bit coordinate.
fn unpack24(b0: u8, b1: u8, b2: u8) -> (v: i32)
    ensures
        v == i24(b0, b1, b2),
{
    let raw: i32 = b0 as i32 + 256 * (b1 as i32) + 65536 * (b2 as i32);
    if raw >= 0x80_0000 {
        raw - 0x100_0000
    } else {
        raw
    }
}

impl CoordPair for Pack24 {
    type Narrow = i32;

    open spec fn pair(self) -> (i32, i32) {
        (i24(self.0[0], self.0[1], self.0[2]), i24(self.0[3], self.0[4], self.0[5]))
    }

    fn xy(&self) -> (r: (i32, i32)) {
        let b = &self.0;
        (unpack24(b[0], b[1], b[2]), unpack24(b[3], b[4], b[5]))
    }
}

/// The pair stored before vertex `i` of an open ring, cyclically.
pub open spec fn pair_before<P: CoordPair>(ring: Seq<P>, i: int) -> (P::Narrow, P::Narrow) {
    if i == 0 { ring.last().pair() } else { ring[i - 1].pair() }
}

/// Whether `W` can test every edge of the ring. A ring of fewer than three
/// vertices is never examined.
pub open spec fn ring_defined<W: Wide<P::Narrow>, P: CoordPair>(
    ring: Seq<P>,
    px: P::Narrow,
    py: P::Narrow,
) -> bool {
    ring.len() >= 3 ==> forall|i: int|
        0 <= i < ring.len() ==> #[trigger] edge_defined::<W, P::Narrow>(
            pair_before(ring, i),
            ring[i].pair(),
            px,
            py,
        )
}

/// Whether `W` decides every edge of the ring as the integers do.
pub open spec fn ring_exact<W: Wide<P::Narrow>, P: CoordPair>(
    ring: Seq<P>,
    px: P::Narrow,
    py: P::Narrow,
) -> bool {
    forall|i: int|
        0 <= i < ring.len() ==> #[trigger] exact::<W, P::Narrow>(
            pair_before(ring, i),
            ring[i].pair(),
            px,
            py,
        )
}

/// Scans one open ring with the even-odd rule; the closing edge from the last
/// vertex back to the first is implied. The result is `Inside` when the +x
/// ray from `(px, py)` crosses an odd number of edges.
#[must_use]
pub fn ring_hit<W, P>(ring: &[P], px: P::Narrow, py: P::Narrow) -> (hit: RingHit)
    where
        P: CoordPair,
        W: Wide<P::Narrow>,
    requires
        ring_defined::<W, P>(ring@, px, py),
    ensures
        ring_exact::<W, P>(ring@, px, py) ==> hit == ring_spec(
            points_of(ring@),
            (px.value(), py.value()),
        ),
{
    let vertex_count: usize = ring.len();
    if vertex_count < 3 {
        return RingHit::Outside;
    }
    let ghost (points, p) = (points_of(ring@), (px.value(), py.value()));
    let mut inside = false;
    let (mut x0, mut y0) = ring[vertex_count - 1].xy();
    let mut i: usize = 0;
    while i < vertex_count
        invariant
            i <= vertex_count,
            vertex_count == ring@.len(),
            vertex_count >= 3,
            points == points_of(ring@),
            p == (px.value(), py.value()),
            i < vertex_count ==> (x0, y0) == pair_before(ring@, i as int),
            i == vertex_count ==> (x0, y0) == ring@.last().pair(),
            ring_defined::<W, P>(ring@, px, py),
            ring_exact::<W, P>(ring@, px, py) ==> {
                &&& inside == odd_crossings(points, p, i as int)
                &&& !on_ring(points, p, i as int)
            },
        decreases vertex_count - i,
    {
        let (x1, y1) = ring[i].xy();
        assert(edge_defined::<W, P::Narrow>(
            pair_before(ring@, i as int),
            ring@[i as int].pair(),
            px,
            py,
        ));
        assert(before(points, i as int) == point_of::<P::Narrow>(pair_before(ring@, i as int)));
        assert(points[i as int] == point_of::<P::Narrow>(ring@[i as int].pair()));
        proof {
            if ring_exact::<W, P>(ring@, px, py) {
                assert(exact::<W, P::Narrow>(
                    pair_before(ring@, i as int),
                    ring@[i as int].pair(),
                    px,
                    py,
                ));
            }
        }
        match edge::<W, P::Narrow>((x0, y0), (x1, y1), px, py) {
            EdgeHit::Boundary => {
                proof {
                    if ring_exact::<W, P>(ring@, px, py) {
                        assert(on_segment(before(points, i as int), points[i as int], p));
                        assert(on_ring(points, p, points.len() as int));
                    }
                }
                return RingHit::Boundary;
            },
            EdgeHit::Cross => inside = !inside,
            EdgeHit::Miss => {},
        }
        x0 = x1;
        y0 = y1;
        i = i + 1;
    }
    if inside {
        RingHit::Inside
    } else {
        RingHit::Outside
    }
}

/// Runs [`ring_hit`]'s scan with [`edge_split`] in place of [`edge`].
#[must_use]
pub fn ring_hit_split<P>(ring: &[P], px: P::Narrow, py: P::Narrow) -> (hit: RingHit)
    where
        P: CoordPair,
    ensures
        hit == ring_spec(points_of(ring@), (px.value(), py.value())),
{
    let vertex_count: usize = ring.len();
    if vertex_count < 3 {
        return RingHit::Outside;
    }
    let ghost (points, p) = (points_of(ring@), (px.value(), py.value()));
    let mut inside = false;
    let (mut x0, mut y0) = ring[vertex_count - 1].xy();
    let mut i: usize = 0;
    while i < vertex_count
        invariant
            i <= vertex_count,
            vertex_count == ring@.len(),
            vertex_count >= 3,
            points == points_of(ring@),
            p == (px.value(), py.value()),
            i < vertex_count ==> (x0, y0) == pair_before(ring@, i as int),
            i == vertex_count ==> (x0, y0) == ring@.last().pair(),
            inside == odd_crossings(points, p, i as int),
            !on_ring(points, p, i as int),
        decreases vertex_count - i,
    {
        let (x1, y1) = ring[i].xy();
        assert(before(points, i as int) == point_of::<P::Narrow>(pair_before(ring@, i as int)));
        assert(points[i as int] == point_of::<P::Narrow>(ring@[i as int].pair()));
        match edge_split::<P::Narrow>((x0, y0), (x1, y1), px, py) {
            EdgeHit::Boundary => {
                assert(on_segment(before(points, i as int), points[i as int], p));
                assert(on_ring(points, p, points.len() as int));
                return RingHit::Boundary;
            },
            EdgeHit::Cross => inside = !inside,
            EdgeHit::Miss => {},
        }
        x0 = x1;
        y0 = y1;
        i = i + 1;
    }
    if inside {
        RingHit::Inside
    } else {
        RingHit::Outside
    }
}

/// The rings of a polygon as integer points.
pub open spec fn rings_of<P: CoordPair>(rings: Seq<&[P]>) -> Seq<Seq<Point>> {
    Seq::new(rings.len(), |i: int| points_of(rings[i]@))
}

/// Reports whether the point `(px, py)` is inside the polygon whose rings are
/// given as slices. `rings[0]` is the exterior and the remaining rings are
/// holes. Rings are open: the closing vertex is not duplicated.
#[must_use]
pub fn contains<W, P>(rings: &[&[P]], px: P::Narrow, py: P::Narrow) -> (claimed: bool)
    where
        P: CoordPair,
        W: Wide<P::Narrow>,
    requires
        forall|i: int|
            0 <= i < rings@.len() ==> ring_defined::<W, P>(#[trigger] rings@[i]@, px, py),
    ensures
        (forall|i: int|
            0 <= i < rings@.len() ==> ring_exact::<W, P>(#[trigger] rings@[i]@, px, py))
            ==> claimed == contains_spec(rings_of(rings@), (px.value(), py.value())),
{
    let ghost p = (px.value(), py.value());
    let ghost hits = rings_of(rings@).map_values(|ring: Seq<Point>| ring_spec(ring, p));
    let ghost all_exact = forall|i: int|
        0 <= i < rings@.len() ==> ring_exact::<W, P>(#[trigger] rings@[i]@, px, py);
    let mut inside = false;
    let mut i: usize = 0;
    while i < rings.len()
        invariant
            i <= rings@.len(),
            forall|k: int|
                0 <= k < rings@.len() ==> ring_defined::<W, P>(#[trigger] rings@[k]@, px, py),
            all_exact == (forall|k: int|
                0 <= k < rings@.len() ==> ring_exact::<W, P>(#[trigger] rings@[k]@, px, py)),
            p == (px.value(), py.value()),
            hits == rings_of(rings@).map_values(|ring: Seq<Point>| ring_spec(ring, p)),
            all_exact ==> inside == odd_inside(hits, i as int) && !any_boundary(hits, i as int),
        decreases rings@.len() - i,
    {
        let ring: &[P] = rings[i];
        assert(ring@ == rings@[i as int]@);
        assert(hits[i as int] == ring_spec(points_of(rings@[i as int]@), p));
        match ring_hit::<W, P>(ring, px, py) {
            RingHit::Boundary => {
                assert(all_exact ==> hits[i as int] == RingHit::Boundary);
                return true;
            },
            RingHit::Inside => inside = !inside,
            RingHit::Outside => {},
        }
        i = i + 1;
    }
    inside
}

/// The largest vertex coordinate magnitude at which the `i64` kernel is
/// exact for every `i32` query point.
pub open spec fn within_30_bits(a: (i32, i32)) -> bool {
    &&& -0x4000_0000 <= a.0 <= 0x4000_0000
    &&& -0x4000_0000 <= a.1 <= 0x4000_0000
}

/// A product of bounded integers is bounded.
proof fn lemma_product_bound(u: int, v: int, m: int, n: int)
    requires
        -m <= u <= m,
        -n <= v <= n,
    ensures
        -(m * n) <= u * v <= m * n,
{
    assert(-(m * n) <= u * v <= m * n) by (nonlinear_arith)
        requires
            -m <= u <= m,
            -n <= v <= n,
    ;
}

/// The `i64` kernel is exact on vertices within 2^30 in magnitude, whatever
/// the query point.
pub proof fn lemma_exact_i64(a: (i32, i32), b: (i32, i32), px: i32, py: i32)
    requires
        within_30_bits(a),
        within_30_bits(b),
    ensures
        edge_defined::<i64, i32>(a, b, px, py),
        exact::<i64, i32>(a, b, px, py),
{
    lemma_product_bound(b.0 - a.0, py - a.1, 0x8000_0000, 0xC000_0000);
    lemma_product_bound(b.1 - a.1, px - a.0, 0x8000_0000, 0xC000_0000);
}

/// The `i128` kernel is exact on every `i32` coordinate.
pub proof fn lemma_exact_i128(a: (i32, i32), b: (i32, i32), px: i32, py: i32)
    ensures
        edge_defined::<i128, i32>(a, b, px, py),
        exact::<i128, i32>(a, b, px, py),
{
    lemma_product_bound(b.0 - a.0, py - a.1, 0xFFFF_FFFF, 0xFFFF_FFFF);
    lemma_product_bound(b.1 - a.1, px - a.0, 0xFFFF_FFFF, 0xFFFF_FFFF);
}

/// The `i64` kernel is exact on every `i16` coordinate.
pub proof fn lemma_exact_i64_narrow(a: (i16, i16), b: (i16, i16), px: i16, py: i16)
    ensures
        edge_defined::<i64, i16>(a, b, px, py),
        exact::<i64, i16>(a, b, px, py),
{
    lemma_product_bound(b.0 - a.0, py - a.1, 0xFFFF, 0xFFFF);
    lemma_product_bound(b.1 - a.1, px - a.0, 0xFFFF, 0xFFFF);
}

/// Whether both coordinates stay within 2^14 in magnitude.
pub open spec fn within_15_bit_quant(a: (i16, i16)) -> bool {
    &&& -0x4000 <= a.0 <= 0x4000
    &&& -0x4000 <= a.1 <= 0x4000
}

/// At 15-bit quantization the plain kernel is exact already at `i32`.
pub proof fn lemma_exact_i32_15_bit(a: (i16, i16), b: (i16, i16), px: i16, py: i16)
    requires
        within_15_bit_quant(a),
        within_15_bit_quant(b),
        within_15_bit_quant((px, py)),
    ensures
        edge_defined::<i32, i16>(a, b, px, py),
        exact::<i32, i16>(a, b, px, py),
{
    lemma_product_bound(b.0 - a.0, py - a.1, 0x8000, 0x8000);
    lemma_product_bound(b.1 - a.1, px - a.0, 0x8000, 0x8000);
}

/// A whole ring within 2^30 is tested exactly at `i64`.
pub proof fn lemma_ring_exact_i64<P: CoordPair<Narrow = i32>>(ring: Seq<P>, px: i32, py: i32)
    requires
        forall|i: int| 0 <= i < ring.len() ==> within_30_bits(#[trigger] ring[i].pair()),
    ensures
        ring_defined::<i64, P>(ring, px, py),
        ring_exact::<i64, P>(ring, px, py),
{
    assert forall|i: int| 0 <= i < ring.len() implies edge_defined::<i64, i32>(
        pair_before(ring, i),
        #[trigger] ring[i].pair(),
        px,
        py,
    ) && exact::<i64, i32>(pair_before(ring, i), ring[i].pair(), px, py) by {
        lemma_exact_i64(pair_before(ring, i), ring[i].pair(), px, py);
    }
}

/// Every ring of `i32` pairs is tested exactly at `i128`.
pub proof fn lemma_ring_exact_i128(ring: Seq<(i32, i32)>, px: i32, py: i32)
    ensures
        ring_defined::<i128, (i32, i32)>(ring, px, py),
        ring_exact::<i128, (i32, i32)>(ring, px, py),
{
    assert forall|i: int| 0 <= i < ring.len() implies edge_defined::<i128, i32>(
        pair_before(ring, i),
        #[trigger] ring[i].pair(),
        px,
        py,
    ) && exact::<i128, i32>(pair_before(ring, i), ring[i].pair(), px, py) by {
        lemma_exact_i128(pair_before(ring, i), ring[i].pair(), px, py);
    }
}

/// Every ring of `i16` pairs is tested exactly at `i64`.
pub proof fn lemma_ring_exact_i64_narrow(ring: Seq<(i16, i16)>, px: i16, py: i16)
    ensures
        ring_defined::<i64, (i16, i16)>(ring, px, py),
        ring_exact::<i64, (i16, i16)>(ring, px, py),
{
    assert forall|i: int| 0 <= i < ring.len() implies edge_defined::<i64, i16>(
        pair_before(ring, i),
        #[trigger] ring[i].pair(),
        px,
        py,
    ) && exact::<i64, i16>(pair_before(ring, i), ring[i].pair(), px, py) by {
        lemma_exact_i64_narrow(pair_before(ring, i), ring[i].pair(), px, py);
    }
}

/// Within 2^30 the width does not show: whatever the `i64` kernel and the `i128`
/// kernel answer for a polygon is the same, and both can be asked.
pub proof fn lemma_widths_agree(
    rings: &[&[(i32, i32)]],
    px: i32,
    py: i32,
    narrow: bool,
    wide: bool,
)
    requires
        forall|k: int, i: int|
            0 <= k < rings@.len() && 0 <= i < rings@[k]@.len() ==> within_30_bits(
                #[trigger] rings@[k]@[i],
            ),
        call_ensures(contains::<i64, (i32, i32)>, (rings, px, py), narrow),
        call_ensures(contains::<i128, (i32, i32)>, (rings, px, py), wide),
    ensures
        call_requires(contains::<i64, (i32, i32)>, (rings, px, py)),
        call_requires(contains::<i128, (i32, i32)>, (rings, px, py)),
        narrow == wide,
{
    assert forall|k: int| 0 <= k < rings@.len() implies ring_exact::<i64, (i32, i32)>(
        #[trigger] rings@[k]@,
        px,
        py,
    ) && ring_defined::<i64, (i32, i32)>(rings@[k]@, px, py) by {
        let ring = rings@[k]@;
        assert forall|i: int| 0 <= i < ring.len() implies within_30_bits(
            #[trigger] ring[i].pair(),
        ) by {
            assert(within_30_bits(rings@[k]@[i]));
        }
        lemma_ring_exact_i64(ring, px, py);
    }
    assert forall|k: int| 0 <= k < rings@.len() implies ring_exact::<i128, (i32, i32)>(
        #[trigger] rings@[k]@,
        px,
        py,
    ) && ring_defined::<i128, (i32, i32)>(rings@[k]@, px, py) by {
        lemma_ring_exact_i128(rings@[k]@, px, py);
    }
}

} // verus!
