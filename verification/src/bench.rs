//! The lookup bench: what one pass over the points adds up to, which of
//! several rounds was the fastest, the fingerprint that the polygon kernels
//! are compared by, and the decisions of a run on a device with little memory.

use crate::common::{Codec, PAYLOAD_HEADER_LEN, PROLOGUE_LEN};
use crate::finder::{Finder, Probe};
use crate::header::{asset_header, PayloadHeader};
use crate::pip::{
    points_of, ring_defined, ring_exact, ring_hit, ring_hit_split, ring_spec, CoordPair, Narrow,
    Point, RingHit, Wide,
};
use vstd::prelude::*;
use vstd::utf8::encode_utf8;

verus! {

/// One timed pass.
#[derive(Clone, Copy, PartialEq, Eq, Structural, Debug)]
pub struct BenchResult {
    pub lookups: u32,
    /// The number of points that resolved to a zone.
    pub hits: u32,
    pub elapsed_us: u64,
    /// The sum of the resolved names' lengths in bytes.
    pub checksum: u64,
}

/// The number of the first `n` probes that resolve to a zone.
pub open spec fn hits_of(finder: Finder, probes: Seq<Probe>, n: int) -> nat
    decreases n,
{
    if n <= 0 {
        0
    } else {
        hits_of(finder, probes, n - 1) + if finder.lookup_answer(probes[n - 1]) is Some {
            1nat
        } else {
            0
        }
    }
}

/// The summed lengths in bytes of the names that the first `n` probes resolve
/// to.
pub open spec fn name_bytes(finder: Finder, probes: Seq<Probe>, n: int) -> nat
    decreases n,
{
    if n <= 0 {
        0
    } else {
        name_bytes(finder, probes, n - 1) + match finder.lookup_answer(probes[n - 1]) {
            Some(name) => encode_utf8(name).len(),
            None => 0,
        }
    }
}

/// Whether every probe has an answer on the finder's asset.
pub open spec fn answerable(finder: Finder, probes: Seq<Probe>) -> bool {
    forall|i: int| 0 <= i < probes.len() ==> finder.lookup_defined(#[trigger] probes[i])
}

/// Looks every probe up, and counts the hits and the bytes of their names.
/// The time of the pass is the caller's to measure.
pub fn run(finder: &Finder, probes: &[Probe]) -> (result: BenchResult)
    requires
        finder.wf(),
        answerable(*finder, probes@),
        probes@.len() <= u32::MAX,
    ensures
        result.lookups == probes@.len(),
        result.hits == hits_of(*finder, probes@, probes@.len() as int),
        result.checksum == name_bytes(*finder, probes@, probes@.len() as int)
            % 0x1_0000_0000_0000_0000,
        result.elapsed_us == 0,
{
    let (mut hits, mut checksum): (u32, u64) = (0, 0);
    let mut i: usize = 0;
    while i < probes.len()
        invariant
            i <= probes@.len() <= u32::MAX,
            finder.wf(),
            answerable(*finder, probes@),
            hits == hits_of(*finder, probes@, i as int),
            hits <= i,
            checksum == name_bytes(*finder, probes@, i as int) % 0x1_0000_0000_0000_0000,
        decreases probes@.len() - i,
    {
        match finder.lookup_unchecked(probes[i]) {
            Some(name) => {
                hits = hits + 1;
                let ghost total = name_bytes(*finder, probes@, i as int) as int;
                let len: u64 = name.as_bytes().len() as u64;
                proof {
                    let m: int = 0x1_0000_0000_0000_0000;
                    assert((total % m + len) % m == (total + len) % m) by {
                        vstd::arithmetic::div_mod::lemma_add_mod_noop(total, len as int, m);
                        vstd::arithmetic::div_mod::lemma_add_mod_noop(total % m, len as int, m);
                        vstd::arithmetic::div_mod::lemma_mod_twice(total, m);
                    }
                }
                checksum = checksum.wrapping_add(len);
            },
            None => {},
        }
        i = i + 1;
    }
    BenchResult { lookups: probes.len() as u32, hits, elapsed_us: 0, checksum }
}

impl BenchResult {
    /// The pass with its time, from two readings of a clock.
    #[must_use]
    pub fn timed(self, start_us: u64, end_us: u64) -> (result: BenchResult)
        ensures
            result == (BenchResult {
                elapsed_us: if end_us > start_us {
                    (end_us - start_us) as u64
                } else {
                    0
                },
                ..self
            }),
    {
        BenchResult { elapsed_us: end_us.saturating_sub(start_us), ..self }
    }
}

/// The fastest of several rounds, the first of them on a tie; `None` without
/// a round.
pub fn fastest(rounds: &[BenchResult]) -> (best: Option<usize>)
    ensures
        best is None <==> rounds@.len() == 0,
        best matches Some(b) ==> b < rounds@.len() && (forall|i: int|
            0 <= i < rounds@.len() ==> rounds@[b as int].elapsed_us <= (
            #[trigger] rounds@[i]).elapsed_us) && (forall|i: int|
            0 <= i < b ==> rounds@[b as int].elapsed_us < (#[trigger] rounds@[i]).elapsed_us),
{
    if rounds.len() == 0 {
        return None;
    }
    let mut best: usize = 0;
    let mut i: usize = 1;
    while i < rounds.len()
        invariant
            1 <= i <= rounds@.len(),
            best < i,
            forall|k: int|
                0 <= k < i ==> rounds@[best as int].elapsed_us <= (#[trigger] rounds@[k]).elapsed_us,
            forall|k: int|
                0 <= k < best ==> rounds@[best as int].elapsed_us < (
                #[trigger] rounds@[k]).elapsed_us,
        decreases rounds@.len() - i,
    {
        if rounds[i].elapsed_us < rounds[best].elapsed_us {
            best = i;
        }
        i = i + 1;
    }
    Some(best)
}

/// The digit of a hit.
pub open spec fn hit_digit(hit: RingHit) -> int {
    match hit {
        RingHit::Outside => 0,
        RingHit::Inside => 1,
        RingHit::Boundary => 2,
    }
}

/// The fingerprint of the first `n` probes against a ring: their hits as the
/// base-three digits of a number, modulo 2^64.
pub open spec fn fingerprint_of(ring: Seq<Point>, probes: Seq<Point>, n: int) -> int
    decreases n,
{
    if n <= 0 {
        0
    } else {
        (fingerprint_of(ring, probes, n - 1) * 3 + hit_digit(ring_spec(ring, probes[n - 1])))
            % 0x1_0000_0000_0000_0000
    }
}

/// One more digit behind a fingerprint.
fn with_digit(fingerprint: u64, hit: RingHit) -> (next: u64)
    ensures
        next == (fingerprint * 3 + hit_digit(hit)) % 0x1_0000_0000_0000_0000,
{
    let digit: u64 = match hit {
        RingHit::Outside => 0,
        RingHit::Inside => 1,
        RingHit::Boundary => 2,
    };
    let wide: u128 = fingerprint as u128 * 3 + digit as u128;
    (wide % 0x1_0000_0000_0000_0000) as u64
}

/// The fingerprint of the sign-split kernel, which is exact at every width.
pub fn split_fingerprint<P: CoordPair>(ring: &[P], probes: &[P]) -> (fingerprint: u64)
    ensures
        fingerprint == fingerprint_of(
            points_of(ring@),
            points_of(probes@),
            probes@.len() as int,
        ),
{
    let ghost (r, p) = (points_of(ring@), points_of(probes@));
    let mut fingerprint: u64 = 0;
    let mut i: usize = 0;
    while i < probes.len()
        invariant
            i <= probes@.len(),
            r == points_of(ring@),
            p == points_of(probes@),
            fingerprint == fingerprint_of(r, p, i as int),
        decreases probes@.len() - i,
    {
        let (px, py) = probes[i].xy();
        assert(p[i as int] == (px.value(), py.value()));
        fingerprint = with_digit(fingerprint, ring_hit_split(ring, px, py));
        i = i + 1;
    }
    fingerprint
}

/// The fingerprint of the kernel that computes in `W`. Where `W` holds every
/// product exactly, it is the sign-split kernel's fingerprint.
pub fn wide_fingerprint<W, P>(ring: &[P], probes: &[P]) -> (fingerprint: u64)
    where
        P: CoordPair,
        W: Wide<P::Narrow>,
    requires
        forall|i: int| #![trigger probes@[i]]
            0 <= i < probes@.len() ==> ring_defined::<W, P>(
                ring@,
                probes@[i].pair().0,
                probes@[i].pair().1,
            ),
    ensures
        (forall|i: int| #![trigger probes@[i]]
            0 <= i < probes@.len() ==> ring_exact::<W, P>(
                ring@,
                probes@[i].pair().0,
                probes@[i].pair().1,
            )) ==> fingerprint == fingerprint_of(
            points_of(ring@),
            points_of(probes@),
            probes@.len() as int,
        ),
{
    let ghost (r, p) = (points_of(ring@), points_of(probes@));
    let ghost exact = forall|i: int| #![trigger probes@[i]]
        0 <= i < probes@.len() ==> ring_exact::<W, P>(
            ring@,
            probes@[i].pair().0,
            probes@[i].pair().1,
        );
    let mut fingerprint: u64 = 0;
    let mut i: usize = 0;
    while i < probes.len()
        invariant
            i <= probes@.len(),
            r == points_of(ring@),
            p == points_of(probes@),
            forall|i: int| #![trigger probes@[i]]
                0 <= i < probes@.len() ==> ring_defined::<W, P>(
                    ring@,
                    probes@[i].pair().0,
                    probes@[i].pair().1,
                ),
            exact ==> forall|i: int| #![trigger probes@[i]]
                0 <= i < probes@.len() ==> ring_exact::<W, P>(
                    ring@,
                    probes@[i].pair().0,
                    probes@[i].pair().1,
                ),
            exact ==> fingerprint == fingerprint_of(r, p, i as int),
        decreases probes@.len() - i,
    {
        let (px, py) = probes[i].xy();
        assert(p[i as int] == (px.value(), py.value()));
        fingerprint = with_digit(fingerprint, ring_hit::<W, P>(ring, px, py));
        i = i + 1;
    }
    fingerprint
}

/// What must stay free of a region beside an allocation.
pub const HEAP_MARGIN: usize = 32768;

/// Whether a single allocation of `bytes` can plausibly be satisfied: regions
/// do not combine.
pub fn fits(free_sram: usize, free_psram: usize, bytes: usize) -> (fits: bool)
    ensures
        fits == (free_sram > bytes + HEAP_MARGIN || free_psram > bytes + HEAP_MARGIN),
{
    match bytes.checked_add(HEAP_MARGIN) {
        Some(needed) => free_sram > needed || free_psram > needed,
        None => false,
    }
}

/// The memory an address lies in.
#[derive(Clone, Copy, PartialEq, Eq, Structural, Debug)]
pub enum Region {
    Psram,
    Sram,
    Flash,
}

/// The memory an address lies in, given where the external RAM is mapped.
pub fn region_of(address: usize, psram_start: usize, psram_end: usize) -> (region: Region)
    ensures
        region == if psram_start <= address < psram_end {
            Region::Psram
        } else if 0x3FC8_0000 <= address < 0x3FD0_0000 {
            Region::Sram
        } else {
            Region::Flash
        },
{
    if psram_start <= address && address < psram_end {
        Region::Psram
    } else if 0x3FC8_0000 <= address && address < 0x3FD0_0000 {
        Region::Sram
    } else {
        Region::Flash
    }
}

/// The size of the uncompressed container whose first bytes are given, `None`
/// for anything else. A partition is larger than the container in it, so the
/// header says how much of it to read.
pub fn container_size(header: &[u8]) -> (size: Option<u64>)
    ensures
        size == match asset_header(header@) {
            Some(h) if h.codec == Codec::Uncompressed => Some(
                (PROLOGUE_LEN + PAYLOAD_HEADER_LEN + h.raw_len) as u64,
            ),
            _ => None::<u64>,
        },
{
    match PayloadHeader::from_asset(header) {
        Some(h) => match h.codec {
            Codec::Uncompressed => Some(
                PROLOGUE_LEN as u64 + PAYLOAD_HEADER_LEN as u64 + h.raw_len as u64,
            ),
            _ => None,
        },
        None => None,
    }
}

/// How much to read next: what is left, at most one chunk.
pub fn chunk_len(total: usize, offset: usize, chunk: usize) -> (len: usize)
    requires
        offset <= total,
    ensures
        len == if total - offset < chunk {
            total - offset
        } else {
            chunk as int
        },
{
    if total - offset < chunk {
        total - offset
    } else {
        chunk
    }
}

/// Whether a probe resolves to a zone.
pub open spec fn resolves(finder: Finder) -> spec_fn(Probe) -> bool {
    |p: Probe| finder.lookup_answer(p) is Some
}

/// The hits of a pass are the probes that resolve, however many there are;
/// two passes one after the other count what each of them counts.
pub proof fn lemma_hits_are_the_probes_that_resolve(finder: Finder, probes: Seq<Probe>, n: int)
    requires
        0 <= n <= probes.len(),
    ensures
        hits_of(finder, probes, n) == probes.take(n).filter(resolves(finder)).len(),
    decreases n,
{
    reveal(Seq::filter);
    let some = resolves(finder);
    if n > 0 {
        lemma_hits_are_the_probes_that_resolve(finder, probes, n - 1);
        assert(probes.take(n).drop_last() =~= probes.take(n - 1));
        assert(probes.take(n).last() == probes[n - 1]);
    } else {
        assert(probes.take(0).len() == 0);
    }
}

/// The checksum grows with every probe that resolves by the bytes of its name,
/// and with no other; it does not depend on the order of two passes.
pub proof fn lemma_name_bytes_add_up(finder: Finder, a: Seq<Probe>, b: Seq<Probe>, p: Probe)
    ensures
        name_bytes(finder, a + b, (a + b).len() as int) == name_bytes(finder, a, a.len() as int)
            + name_bytes(finder, b, b.len() as int),
        finder.lookup_answer(p) matches Some(name) ==> name_bytes(finder, seq![p], 1)
            == encode_utf8(name).len(),
        finder.lookup_answer(p) is None ==> name_bytes(finder, seq![p], 1) == 0,
    decreases b.len(),
{
    reveal_with_fuel(name_bytes, 2);
    if b.len() == 0 {
        assert(a + b =~= a);
    } else {
        let c = b.drop_last();
        lemma_name_bytes_add_up(finder, a, c, p);
        assert((a + b).last() == b.last());
        lemma_name_bytes_prefix(finder, a + b, a + c, (a + c).len() as int);
        lemma_name_bytes_prefix(finder, b, c, c.len() as int);
    }
}

/// What the first probes add up to does not depend on those behind them.
proof fn lemma_name_bytes_prefix(finder: Finder, a: Seq<Probe>, b: Seq<Probe>, n: int)
    requires
        0 <= n <= a.len(),
        n <= b.len(),
        forall|i: int| 0 <= i < n ==> a[i] == b[i],
    ensures
        name_bytes(finder, a, n) == name_bytes(finder, b, n),
    decreases n,
{
    if n > 0 {
        lemma_name_bytes_prefix(finder, a, b, n - 1);
    }
}

/// `3^n`.
spec fn ternary(n: nat) -> nat
    decreases n,
{
    if n == 0 {
        1
    } else {
        3 * ternary((n - 1) as nat)
    }
}

/// A fingerprint of `n` hits is below `3^n`, as long as that fits.
proof fn lemma_fingerprint_below(ring: Seq<Point>, probes: Seq<Point>, n: int)
    requires
        0 <= n <= 40,
    ensures
        0 <= fingerprint_of(ring, probes, n) < ternary(n as nat),
        ternary(n as nat) <= 0x1_0000_0000_0000_0000,
    decreases n,
{
    reveal_with_fuel(ternary, 42);
    assert(ternary(40) == 12157665459056928801);
    if n > 0 {
        lemma_fingerprint_below(ring, probes, n - 1);
        assert(ternary(n as nat) <= 12157665459056928801);
    }
}

/// Up to forty probes, equal fingerprints mean equal hits, probe by probe.
pub proof fn lemma_fingerprints_tell_hits_apart(
    r1: Seq<Point>,
    p1: Seq<Point>,
    r2: Seq<Point>,
    p2: Seq<Point>,
    n: int,
)
    requires
        0 <= n <= 40,
        n <= p1.len(),
        n <= p2.len(),
    ensures
        fingerprint_of(r1, p1, n) == fingerprint_of(r2, p2, n) <==> forall|i: int|
            0 <= i < n ==> #[trigger] ring_spec(r1, p1[i]) == ring_spec(r2, p2[i]),
    decreases n,
{
    if n > 0 {
        lemma_fingerprints_tell_hits_apart(r1, p1, r2, p2, n - 1);
        lemma_fingerprint_below(r1, p1, n - 1);
        lemma_fingerprint_below(r2, p2, n - 1);
        lemma_ternary_room((n - 1) as nat);
        let (a, b) = (ring_spec(r1, p1[n - 1]), ring_spec(r2, p2[n - 1]));
        let (x, y) = (fingerprint_of(r1, p1, n - 1), fingerprint_of(r2, p2, n - 1));
        assert(fingerprint_of(r1, p1, n) == x * 3 + hit_digit(a));
        assert(fingerprint_of(r2, p2, n) == y * 3 + hit_digit(b));
        if forall|i: int| 0 <= i < n ==> #[trigger] ring_spec(r1, p1[i]) == ring_spec(r2, p2[i]) {
            assert(ring_spec(r1, p1[n - 1]) == ring_spec(r2, p2[n - 1]));
        }
    }
}

/// Forty digits to the base three fit 64 bits.
proof fn lemma_ternary_room(n: nat)
    requires
        n < 40,
    ensures
        3 * ternary(n) <= 0x1_0000_0000_0000_0000,
{
    reveal_with_fuel(ternary, 42);
    assert(ternary(40) == 12157665459056928801);
}

} // verus!
