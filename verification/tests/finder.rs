use utz::bench::{container_size, fastest, run, BenchResult};
use utz::common::{
    Codec, Dataset, GeomEncoding, Lcg, QuantBits, SimplifyAlgorithm, BORDER_FLAG, MAGIC, NO_ZONE,
    POINT_SEED, VERSION,
};
use utz::eager::{decode, EagerCoords};
use utz::encode::compress;
use utz::error::Error;
use utz::finder::{is_aligned, is_misaligned, Finder, Position, Probe};
use utz::header::PayloadHeader;
use utz::sections::{arc_store, image_store, ring_store};

const COLS: usize = 16;
const ROWS: usize = 8;
const CELL_DEG: f32 = 22.5;
const NAMES: [&str; 3] = ["Etc/West", "Etc/East", "Etc/Mid"];
const RELEASE: &[u8] = b"2025b";

/// West and East share the meridian x = 0; East has a hole that Mid fills.
/// Written at 16 bits and scaled up to the wider grids.
fn shared_arcs(bits: QuantBits) -> Vec<Vec<(i32, i32)>> {
    let scale = match bits {
        QuantBits::Bits16 => 1,
        QuantBits::Bits24 => 256,
        QuantBits::Bits32 => 65_536,
    };
    [
        vec![(0, -20_000), (0, 20_000)],
        vec![(0, 20_000), (-30_000, 20_000), (-30_000, -20_000), (0, -20_000)],
        vec![(0, -20_000), (30_000, -20_000), (30_000, 20_000), (0, 20_000)],
        vec![(10_000, -5_000), (10_000, 5_000), (20_000, 5_000), (20_000, -5_000), (10_000, -5_000)],
    ]
    .iter()
    .map(|arc: &Vec<(i32, i32)>| arc.iter().map(|&(x, y)| (x * scale, y * scale)).collect())
    .collect()
}

fn polys() -> Vec<Vec<Vec<u32>>> {
    vec![vec![vec![0, 2]], vec![vec![4, 1], vec![6]], vec![vec![7]]]
}

/// The candidate lists, dominant polygon first.
const LISTS: [&[u16]; 4] = [&[0], &[0, 1], &[1], &[1, 2]];

fn cell(row: usize, col: usize) -> u16 {
    match (row, col) {
        (0 | 7, _) => NO_ZONE,
        (_, 7 | 8) => BORDER_FLAG | 1,
        (_, 0) | (1 | 6, 1..=6) => BORDER_FLAG,
        (_, 15) | (1 | 6, _) => BORDER_FLAG | 2,
        (_, 1..=6) => 0,
        (_, 10..=12) => BORDER_FLAG | 3,
        _ => 1,
    }
}

fn pad(blob: &mut Vec<u8>) -> u32 {
    while blob.len() % 4 != 0 {
        blob.push(0);
    }
    blob.len() as u32
}

fn push_u16s(blob: &mut Vec<u8>, values: &[u16]) {
    for v in values {
        blob.extend(v.to_le_bytes());
    }
}

/// A whole asset, and the offset of its grid within the section blob.
fn asset_with_grid(bits: QuantBits, geom: GeomEncoding, codec: Codec) -> (Vec<u8>, usize) {
    let (arcs, polys) = (shared_arcs(bits), polys());
    let size = bits.bytes();
    let (coords, ends, boxes, n_coords, n_rings) = image_store(&polys, &arcs, size);
    let mut blob = Vec::new();
    let mut at = 0u16;
    push_u16s(&mut blob, &[0]);
    for name in NAMES {
        at += name.len() as u16;
        push_u16s(&mut blob, &[at]);
    }
    for name in NAMES {
        blob.extend(name.bytes());
    }
    let arcs_off = pad(&mut blob);
    let stored = match geom {
        GeomEncoding::Coarse => false,
        GeomEncoding::FullRings => {
            blob.extend(&coords);
            blob.extend(&ends);
            blob.extend(&boxes);
            false
        }
        _ => {
            let (offsets, data) = arc_store(&arcs, geom == GeomEncoding::FixedWidthArcs, size);
            blob.extend(offsets);
            blob.extend(data);
            true
        }
    };
    let rings_off = pad(&mut blob);
    push_u16s(&mut blob, &[0, 1, 2]);
    if stored {
        let (offsets, data, _) = ring_store(&polys, &arcs, size);
        blob.extend(offsets);
        blob.extend(data);
    }
    let grid_off = pad(&mut blob);
    for row in 0..ROWS {
        for col in 0..COLS {
            push_u16s(&mut blob, &[cell(row, col)]);
        }
    }
    let mut ids = 0u16;
    push_u16s(&mut blob, &[0]);
    for list in LISTS {
        ids += list.len() as u16;
        push_u16s(&mut blob, &[ids]);
    }
    for list in LISTS {
        push_u16s(&mut blob, list);
    }
    let release_off = blob.len() as u32;
    blob.extend(RELEASE);
    let header = PayloadHeader {
        arcs_off,
        rings_off,
        grid_off,
        release_off,
        eager_coords: n_coords as u32,
        eager_rings: n_rings as u32,
        eager_polys: 3,
        n_arcs: if stored { arcs.len() as u32 } else { 0 },
        raw_len: blob.len() as u32,
        grid_deg: CELL_DEG.to_bits(),
        epsilon_m: 500.0f32.to_bits(),
        n_features: 3,
        ncols: COLS as u16,
        nrows: ROWS as u16,
        uniq: LISTS.len() as u16,
        release_len: RELEASE.len() as u16,
        flags: 0,
        dataset: Dataset::Now,
        quant_bits: bits,
        simplify_algorithm: SimplifyAlgorithm::Rdp,
        geom,
        codec,
        density_weight_floor_e4: 10,
        reserved: 0,
    };
    let mut bytes = MAGIC.to_vec();
    bytes.extend([VERSION, 0, 0, 0]);
    bytes.extend(header.write());
    bytes.extend(compress(&blob, codec).expect("compresses"));
    (bytes, grid_off as usize)
}

fn asset(bits: QuantBits, geom: GeomEncoding, codec: Codec) -> Vec<u8> {
    asset_with_grid(bits, geom, codec).0
}

fn at(lon: f64, lat: f64) -> Position {
    Position { lon: lon.to_bits(), lat: lat.to_bits() }
}

/// A position on the finder's grid: rounded half away, then the cell of the
/// rounded position.
fn probe(finder: &Finder, lon: f64, lat: f64) -> Probe {
    let layout = finder.layout();
    let qmax = ((1u64 << (layout.quant_bits.bits() - 1)) - 1) as f64;
    let round = |v: f64| (v + if v >= 0.0 { 0.5 } else { -0.5 }) as i32;
    let (x, y) = (round(lon / 180.0 * qmax), round(lat / 90.0 * qmax));
    let deg = f64::from(f32::from_bits(layout.grid_deg));
    Probe {
        x,
        y,
        row: ((f64::from(y) / qmax * 90.0 + 90.0) / deg) as i64,
        col: ((f64::from(x) / qmax * 180.0 + 180.0) / deg) as i64,
    }
}

fn lookup(finder: &Finder, lon: f64, lat: f64) -> Option<&str> {
    let p = probe(finder, lon, lat);
    assert!(finder.can_answer(p));
    finder.lookup(at(lon, lat), p).expect("position in range")
}

fn lookup_coarse(finder: &Finder, lon: f64, lat: f64) -> Option<&str> {
    let p = probe(finder, lon, lat);
    assert!(finder.can_answer_coarse(p));
    finder.lookup_coarse(at(lon, lat), p).expect("position in range")
}

const BITS: [QuantBits; 3] = [QuantBits::Bits16, QuantBits::Bits24, QuantBits::Bits32];

#[test]
fn every_geometry_answers_exactly() {
    for bits in BITS {
        for geom in [
            GeomEncoding::VarintArcs,
            GeomEncoding::FixedWidthArcs,
            GeomEncoding::FullRings,
        ] {
            let f = Finder::from_slice(&asset(bits, geom, Codec::Uncompressed))
                .unwrap_or_else(|e| panic!("{bits:?} {geom:?}: {e:?}"));
            assert_eq!(f.tzbb_release(), "2025b");
            assert_eq!(f.density_weight_floor(), Some(10));
            // interior cells answer from the grid alone
            assert_eq!(lookup(&f, -80.0, 10.0), Some("Etc/West"));
            assert_eq!(lookup(&f, 150.0, 10.0), Some("Etc/East"));
            // border cells ask the geometry
            assert_eq!(lookup(&f, -5.0, 10.0), Some("Etc/West"));
            assert_eq!(lookup(&f, 5.0, 10.0), Some("Etc/East"));
            assert_eq!(lookup(&f, 80.0, 0.0), Some("Etc/Mid"));
            assert_eq!(lookup(&f, 80.0, 40.0), Some("Etc/East"));
            // a point on the shared border goes to the first candidate
            assert_eq!(lookup(&f, 0.0, 10.0), Some("Etc/West"));
            // no candidate claims it: the dominant one answers
            assert_eq!(lookup(&f, 5.0, 60.0), Some("Etc/West"));
            // empty cells answer nothing
            assert_eq!(lookup(&f, 5.0, 80.0), None);
            // the coarse answer is the dominant candidate
            assert_eq!(lookup_coarse(&f, 5.0, 10.0), Some("Etc/West"));
            assert_eq!(lookup_coarse(&f, 80.0, 0.0), Some("Etc/East"));
            assert_eq!(lookup_coarse(&f, 5.0, 80.0), None);
        }
    }
}

#[test]
fn coarse_assets_answer_by_cell() {
    let f = Finder::from_slice(&asset(QuantBits::Bits16, GeomEncoding::Coarse, Codec::Gzip))
        .expect("loads");
    assert_eq!(lookup(&f, 5.0, 10.0), Some("Etc/West"));
    assert_eq!(lookup(&f, 5.0, 10.0), lookup_coarse(&f, 5.0, 10.0));
    assert_eq!(lookup(&f, 150.0, 10.0), Some("Etc/East"));
    assert_eq!(lookup(&f, 0.0, -89.0), None);
}

#[test]
fn every_codec_loads_the_same_asset() {
    let bits = QuantBits::Bits24;
    let plain = Finder::from_slice(&asset(bits, GeomEncoding::VarintArcs, Codec::Uncompressed))
        .expect("loads");
    for codec in [Codec::Gzip, Codec::Zstd, Codec::Brotli, Codec::Xz] {
        let bytes = asset(bits, GeomEncoding::VarintArcs, codec);
        let from_slice = Finder::from_slice(&bytes).expect("loads");
        let from_vec = Finder::from_vec(bytes).expect("loads");
        for lon in [-150.0, -1.0, 1.0, 80.0, 170.0] {
            assert_eq!(lookup(&from_slice, lon, 1.0), lookup(&plain, lon, 1.0), "{codec:?}");
            assert_eq!(lookup(&from_vec, lon, 1.0), lookup(&plain, lon, 1.0), "{codec:?}");
        }
    }
}

#[test]
fn eager_lazy_and_preloaded_finders_agree() {
    for bits in BITS {
        for (geom, codec) in [
            (GeomEncoding::VarintArcs, Codec::Gzip),
            (GeomEncoding::FixedWidthArcs, Codec::Uncompressed),
            (GeomEncoding::FullRings, Codec::Uncompressed),
        ] {
            let bytes = asset(bits, geom, codec);
            let lazy = Finder::from_slice(&bytes).expect("loads");
            let mut preloaded = Finder::from_slice(&bytes).expect("loads");
            assert!(preloaded.try_preload());
            preloaded.preload();
            let eager = Finder::eager_from_slice(&bytes).expect("loads");
            assert_eq!(eager.tzbb_release(), lazy.tzbb_release(), "header/strings kept");
            let mut hits = 0;
            for i in 0..60u32 {
                for j in 0..30u32 {
                    let lon = -180.0 + (f64::from(i) + 0.37) * 6.0;
                    let lat = -90.0 + (f64::from(j) + 0.61) * 6.0;
                    let want = lookup(&lazy, lon, lat);
                    assert_eq!(lookup(&eager, lon, lat), want, "at {lon} {lat}");
                    assert_eq!(lookup(&preloaded, lon, lat), want, "preload at {lon} {lat}");
                    assert_eq!(
                        lookup_coarse(&eager, lon, lat),
                        lookup_coarse(&lazy, lon, lat),
                        "coarse at {lon} {lat}"
                    );
                    hits += usize::from(want.is_some());
                }
            }
            // the two empty rows hold 4 of the 30 latitudes each
            assert_eq!(hits, 60 * 22);
        }
    }
}

#[test]
fn preload_agrees_with_lazy_at_i32_quant() {
    let bytes = asset(QuantBits::Bits32, GeomEncoding::VarintArcs, Codec::Brotli);
    let lazy = Finder::from_slice(&bytes).expect("loads");
    let mut preloaded = Finder::from_slice(&bytes).expect("loads");
    assert!(preloaded.try_preload());
    for i in 0..30u32 {
        for j in 0..15u32 {
            let lon = -180.0 + (f64::from(i) + 0.37) * 12.0;
            let lat = -90.0 + (f64::from(j) + 0.61) * 12.0;
            assert_eq!(lookup(&preloaded, lon, lat), lookup(&lazy, lon, lat), "at {lon} {lat}");
        }
    }
}

#[test]
fn preload_agrees_with_lazy_on_random_points() {
    let bytes = asset(QuantBits::Bits32, GeomEncoding::VarintArcs, Codec::Brotli);
    let lazy = Finder::from_slice(&bytes).expect("loads");
    let mut preloaded = Finder::from_slice(&bytes).expect("loads");
    assert!(preloaded.try_preload());
    let mut lcg = Lcg::new(POINT_SEED);
    let mut unit = || (lcg.next_u64() >> 11) as f64 / (1u64 << 53) as f64;
    for _ in 0..2000 {
        let (lon, lat) = (unit() * 360.0 - 180.0, unit() * 180.0 - 90.0);
        assert_eq!(lookup(&preloaded, lon, lat), lookup(&lazy, lon, lat), "at {lon} {lat}");
    }
}

#[test]
fn compressed_and_uncompressed_twins_agree() {
    let packed = asset(QuantBits::Bits16, GeomEncoding::VarintArcs, Codec::Gzip);
    let plain = asset(QuantBits::Bits16, GeomEncoding::VarintArcs, Codec::Uncompressed);
    let owned = Finder::from_slice(&packed).expect("loads");
    let borrowed = Finder::from_static(Box::leak(plain.into_boxed_slice())).expect("loads");
    assert_eq!(owned.tzbb_release(), borrowed.tzbb_release());
    for i in 0..100 {
        let (lon, lat) = (-179.0 + f64::from(i) * 3.6, -70.0 + f64::from(i) * 1.4);
        assert_eq!(lookup(&owned, lon, lat), lookup(&borrowed, lon, lat), "at {lon} {lat}");
    }
}

#[test]
fn preload_cost_is_what_the_cache_holds() {
    let bytes = asset(QuantBits::Bits16, GeomEncoding::VarintArcs, Codec::Uncompressed);
    let f = Finder::from_slice(&bytes).expect("loads");
    let layout = f.layout();
    let (coords, rings, polys) = (layout.eager_coords, layout.eager_rings, layout.eager_polys);
    assert_eq!((rings, polys), (4, 3));
    assert_eq!(f.preload_bytes(), (coords * 4 + rings * 4 + polys * 20) as usize);
    // full rings are read in place
    let bytes = asset(QuantBits::Bits16, GeomEncoding::FullRings, Codec::Uncompressed);
    assert_eq!(Finder::from_slice(&bytes).expect("loads").preload_bytes(), 0);
}

#[test]
fn the_cache_holds_what_the_header_counts() {
    for bits in [QuantBits::Bits16, QuantBits::Bits24, QuantBits::Bits32] {
        for geom in [GeomEncoding::VarintArcs, GeomEncoding::FixedWidthArcs] {
            let bytes = asset(bits, geom, Codec::Uncompressed);
            let f = Finder::from_slice(&bytes).expect("loads");
            let layout = f.layout();
            let cache = decode(f.payload_bytes(), layout).expect("decodes");
            let coords = match &cache.coords {
                EagerCoords::Narrow(coords) => coords.len(),
                EagerCoords::Wide(coords) => coords.len(),
            };
            assert_eq!(cache.polys.len(), layout.eager_polys as usize);
            assert_eq!(cache.ring_ends.len(), layout.eager_rings as usize);
            assert!(0 < coords && coords <= layout.eager_coords as usize);
        }
    }
}

#[test]
fn full_rings_lie_on_four_bytes() {
    let full = asset(QuantBits::Bits16, GeomEncoding::FullRings, Codec::Uncompressed);
    for address in 0..8 {
        assert_eq!(is_misaligned(&full, address), address % 4 != 0, "{address}");
        let f = Finder::from_slice(&full).expect("loads");
        assert_eq!(is_aligned(f.layout(), address), address % 4 == 0, "{address}");
    }
    // other encodings, packed assets and damaged ones are not refused for it
    let arcs = asset(QuantBits::Bits16, GeomEncoding::VarintArcs, Codec::Uncompressed);
    let packed = asset(QuantBits::Bits16, GeomEncoding::FullRings, Codec::Gzip);
    assert!(!is_misaligned(&arcs, 1) && !is_misaligned(&packed, 1));
    assert!(!is_misaligned(&full[..80], 1));
}

#[test]
fn static_assets_are_borrowed_and_must_be_uncompressed() {
    let plain = asset(QuantBits::Bits24, GeomEncoding::FullRings, Codec::Uncompressed);
    let borrowed: &'static [u8] = Box::leak(plain.into_boxed_slice());
    let f = Finder::from_static(borrowed).expect("loads");
    assert_eq!(lookup(&f, 80.0, 0.0), Some("Etc/Mid"));
    assert!(!f.tzbb_release().is_empty());
    let packed = asset(QuantBits::Bits24, GeomEncoding::FullRings, Codec::Gzip);
    let packed: &'static [u8] = Box::leak(packed.into_boxed_slice());
    assert!(matches!(Finder::from_static(packed), Err(Error::StaticAssetCompressed)));
}

#[test]
fn invalid_positions_error() {
    let f = Finder::from_slice(&asset(QuantBits::Bits16, GeomEncoding::VarintArcs, Codec::Xz))
        .expect("loads");
    let centre = probe(&f, 0.0, 0.0);
    for (lon, lat) in [(200.0, 0.0), (0.0, -90.5), (f64::NAN, 0.0), (0.0, f64::NAN)] {
        let pos = at(lon, lat);
        assert!(!pos.is_valid());
        assert_eq!(f.lookup(pos, centre), Err(Error::InvalidPosition));
        assert_eq!(f.lookup_coarse(pos, centre), Err(Error::InvalidPosition));
    }
    // the unchecked variants stay memory-safe on wild input
    let wild = probe(&f, 999.0, 999.0);
    assert!(f.can_answer(wild) && f.can_answer_coarse(wild));
    let _ = f.lookup_unchecked(wild);
    let _ = f.lookup_coarse_unchecked(wild);
    // the domain corners are valid
    assert!(at(180.0, 90.0).is_valid());
    assert!(at(-180.0, -90.0).is_valid());
    assert!(at(-0.0, -0.0).is_valid());
    assert!(!at(f64::INFINITY, 0.0).is_valid());
    assert!(!at(180.000_000_000_000_03, 0.0).is_valid());
}

fn refused(bytes: &[u8]) -> Error {
    match Finder::from_slice(bytes) {
        Err(e) => e,
        Ok(_) => panic!("must be refused"),
    }
}

#[test]
fn damaged_containers_are_refused() {
    let good = asset(QuantBits::Bits16, GeomEncoding::FullRings, Codec::Uncompressed);
    assert_eq!(refused(&good[..7]), Error::Truncated);
    assert_eq!(refused(&good[..40]), Error::Truncated);
    assert!(matches!(refused(&good[..good.len() - 1]), Error::RawLengthMismatch | Error::Truncated));
    let mut bytes = good.clone();
    bytes[0] = b'x';
    assert_eq!(refused(&bytes), Error::BadMagic);
    let mut bytes = good.clone();
    bytes[4] = 10;
    assert_eq!(refused(&bytes), Error::UnsupportedVersion(10));
    assert_eq!(Error::UnsupportedVersion(10).message().is_empty(), false);
}

#[test]
fn damaged_tables_are_refused() {
    let bits = QuantBits::Bits16;
    let (good, grid) = asset_with_grid(bits, GeomEncoding::VarintArcs, Codec::Uncompressed);
    let blob = 8 + 64;
    // a cell that names a zone past the last
    let mut bytes = good.clone();
    bytes[blob + grid..blob + grid + 2].copy_from_slice(&9u16.to_le_bytes());
    assert_eq!(refused(&bytes), Error::TableOutOfRange);
    // a candidate list entry that names a polygon past the last
    let ids = grid + COLS * ROWS * 2 + (LISTS.len() + 1) * 2;
    let mut bytes = good;
    bytes[blob + ids..blob + ids + 2].copy_from_slice(&3u16.to_le_bytes());
    assert_eq!(refused(&bytes), Error::TableOutOfRange);
}

#[test]
fn only_what_a_lookup_reads_has_to_decode() {
    let bits = QuantBits::Bits16;
    let good = asset(bits, GeomEncoding::VarintArcs, Codec::Uncompressed);
    let blob = 8 + 64;
    let (offsets, rings) = {
        let f = Finder::from_slice(&good).expect("loads");
        (blob + f.layout().poly_offsets, blob + f.layout().ring_data)
    };
    // East's record lies nowhere: West still answers where it claims the point,
    // since the search ends there
    let mut bytes = good.clone();
    bytes[offsets + 4..offsets + 8].copy_from_slice(&u32::MAX.to_le_bytes());
    let mut f = Finder::from_slice(&bytes).expect("loads");
    assert_eq!(lookup(&f, -5.0, 10.0), Some("Etc/West"));
    assert!(!f.can_answer(probe(&f, 5.0, 10.0)));
    assert!(!f.try_preload());
    // West's rings run off the end: East answers outside West's box
    let mut bytes = good.clone();
    let west = u32::from_le_bytes(good[offsets..offsets + 4].try_into().expect("four bytes"));
    let count = rings + west as usize + 8;
    bytes[count..count + 2].copy_from_slice(&u16::MAX.to_le_bytes());
    let f = Finder::from_slice(&bytes).expect("loads");
    assert_eq!(lookup(&f, 5.0, 10.0), Some("Etc/East"));
    assert!(!f.can_answer(probe(&f, -5.0, 10.0)));
}

/// The even-odd rule with the border, over the rings of one polygon.
fn even_odd(rings: &[Vec<(i64, i64)>], (px, py): (i64, i64)) -> bool {
    let mut odd = false;
    for ring in rings {
        for i in 0..ring.len() {
            let (a, b) = (ring[(i + ring.len() - 1) % ring.len()], ring[i]);
            let cross = (b.0 - a.0) * (py - a.1) - (b.1 - a.1) * (px - a.0);
            let within = |u: i64, v: i64, w: i64| u.min(v) <= w && w <= u.max(v);
            if cross == 0 && within(a.0, b.0, px) && within(a.1, b.1, py) {
                return true;
            }
            odd ^= (a.1 <= py && py < b.1 && cross > 0) || (b.1 <= py && py < a.1 && cross < 0);
        }
    }
    odd
}

#[test]
fn every_mode_claims_by_the_even_odd_rule() {
    let bits = QuantBits::Bits16;
    // along the shared meridian West is asked first
    let west = vec![vec![(0, -20_000), (0, 20_000), (-30_000, 20_000), (-30_000, -20_000)]];
    for geom in
        [GeomEncoding::VarintArcs, GeomEncoding::FixedWidthArcs, GeomEncoding::FullRings]
    {
        let lazy = Finder::from_slice(&asset(bits, geom, Codec::Uncompressed)).expect("loads");
        let mut eager = Finder::from_slice(&asset(bits, geom, Codec::Gzip)).expect("loads");
        assert!(eager.try_preload());
        for x in [-4_000, -1, 0, 1, 4_000] {
            for y in [-20_001, -20_000, -7, 0, 20_000, 20_001] {
                let p = Probe { x, y, row: 4, col: 7 };
                // where neither claims it, the first candidate answers too
                let east = !even_odd(&west, (i64::from(x), i64::from(y)))
                    && (-20_000..=20_000).contains(&y);
                let want = if east { "Etc/East" } else { "Etc/West" };
                assert_eq!(lazy.lookup_unchecked(p), Some(want), "{geom:?} {x} {y}");
                assert_eq!(eager.lookup_unchecked(p), Some(want), "{geom:?} {x} {y}");
            }
        }
    }
}

#[test]
fn full_rings_sections_must_agree() {
    let good = asset(QuantBits::Bits16, GeomEncoding::FullRings, Codec::Uncompressed);
    let header = PayloadHeader::from_asset(&good).expect("has a header");
    let with = |header: PayloadHeader| {
        let mut bytes = good[..8].to_vec();
        bytes.extend(header.write());
        bytes.extend(&good[72..]);
        bytes
    };
    let shifted = PayloadHeader { arcs_off: header.arcs_off + 2, ..header };
    assert_eq!(refused(&with(shifted)), Error::FullRingsSectionMisaligned);
    let mut bytes = good.clone();
    let ends = 72 + header.arcs_off as usize + header.eager_coords as usize * 4;
    let last = ends + (header.eager_rings as usize - 1) * 4;
    bytes[last] ^= 1;
    assert_eq!(refused(&bytes), Error::FullRingsCountsDisagree);
    let far = PayloadHeader { release_off: u32::MAX, ..header };
    assert_eq!(refused(&with(far)), Error::SectionOverrun);
}

#[test]
fn benchmark_rounds_count_hits_and_name_bytes() {
    let f = Finder::from_slice(&asset(QuantBits::Bits24, GeomEncoding::VarintArcs, Codec::Gzip))
        .expect("loads");
    let probes: Vec<Probe> = [(-80.0, 10.0), (80.0, 0.0), (5.0, 80.0)]
        .iter()
        .map(|&(lon, lat)| probe(&f, lon, lat))
        .collect();
    let result = run(&f, &probes);
    let want = BenchResult { lookups: 3, hits: 2, elapsed_us: 0, checksum: 8 + 7 };
    assert_eq!(result, want);
    assert_eq!(result.timed(10, 25).elapsed_us, 15);
    let rounds = [result.timed(0, 9), result.timed(0, 4), result.timed(0, 4)];
    assert_eq!(fastest(&rounds), Some(1));
    assert_eq!(fastest(&[]), None);
}

#[test]
fn container_sizes_come_from_the_header() {
    let bytes = asset(QuantBits::Bits16, GeomEncoding::VarintArcs, Codec::Uncompressed);
    assert_eq!(container_size(&bytes[..72]), Some(bytes.len() as u64));
    assert_eq!(container_size(&bytes[..71]), None);
}
