use utz::clean::CleanStats;
use utz::common::{Codec, GeomEncoding, SimplifyAlgorithm};
use utz::csr::{csr_of, intern_csr, intern_lists, Entry, Order};
use utz::encode::{to_simplify, EncodeError, Limit, Params, Simplify, SimplifyAlgo};
use utz::grid::{build, insert_sorted, CellGrid, NO_ZONE};
use utz::payload::{check_params, is_grid_of, payload_from_topology};
use utz::raster::{cell_at, collect_visits, note_visit, paint_owners, Span};
use utz::sections::{arc_store, put_varint, ring_store, zigzag};
use utz::snapped::Snapped;
use utz::topo_format::{pushb, serialize_topology, FeatureRecord};
use utz::types::{push_i24, qmax_for, read_i24};
use utz::viewer::stat;

/// Two unit squares that share an edge, one feature each.
fn squares() -> Snapped {
    Snapped {
        arcs: vec![
            vec![(1, 0), (1, 1)],
            vec![(1, 1), (0, 1), (0, 0), (1, 0)],
            vec![(1, 0), (2, 0), (2, 1), (1, 1)],
        ],
        ring_refs: vec![vec![0, 2], vec![4, 1]],
        structure: vec![vec![vec![0]], vec![vec![1]]],
        clean: CleanStats::default(),
    }
}

fn tzids() -> Vec<Option<String>> {
    vec![Some("Etc/A".to_string()), Some("Etc/B".to_string())]
}

fn params(geom: GeomEncoding) -> Params {
    Params {
        dataset: 0,
        tzbb_release: "2025b".to_string(),
        eps_m: 500.0f64.to_bits(),
        quant_bits: 16,
        grid_deg: 45.0f64.to_bits(),
        codec: Codec::Uncompressed,
        simplify: SimplifyAlgo::Rdp,
        geom,
    }
}

/// A grid of one row with the given candidate sets.
fn grid(sets: Vec<Vec<u16>>) -> CellGrid {
    CellGrid {
        deg: 45.0f64.to_bits(),
        ncols: sets.len(),
        nrows: 1,
        dominant: sets.iter().map(|s| s.first().copied().unwrap_or(NO_ZONE)).collect(),
        tallies: sets.iter().map(|s| s.iter().map(|&z| (z, 1)).collect()).collect(),
        sets,
    }
}

fn encode(t: &Snapped, ids: &[Option<String>], g: &CellGrid, p: &Params) -> Result<Vec<u8>, EncodeError> {
    assert!(is_grid_of(g, t, ids.len()));
    payload_from_topology(t, ids, g, p).map(|(bytes, _)| bytes)
}

#[test]
fn payload_records_every_section() {
    let g = grid(vec![vec![0], vec![0, 1], vec![]]);
    let p = params(GeomEncoding::VarintArcs);
    let (t, ids) = (squares(), tzids());
    assert_eq!(check_params(&p, 2), Ok(()));
    assert!(is_grid_of(&g, &t, 2));
    let (bytes, stats) = payload_from_topology(&t, &ids, &g, &p).expect("encodes");
    // dataset, bits, algorithm, geometry, flags, cell size, tolerance, tag
    assert_eq!(&bytes[..5], &[0, 16, p.simplify.byte(), 0, 0]);
    assert_eq!(&bytes[5..9], &45.0f32.to_le_bytes());
    assert_eq!(&bytes[9..13], &500.0f32.to_le_bytes());
    assert_eq!(bytes[13], 5);
    assert_eq!(&bytes[14..19], b"2025b");
    assert_eq!(&bytes[19..21], &2u16.to_le_bytes());
    let at = |i: usize| u32::from_le_bytes([bytes[i], bytes[i + 1], bytes[i + 2], bytes[i + 3]]) as usize;
    let (arcs, rings, grid_off) = (at(21), at(25), at(29));
    // zone strings: three offsets, then the pool
    assert_eq!(&bytes[45..51], &[0, 0, 5, 0, 10, 0]);
    assert_eq!(&bytes[51..61], b"Etc/AEtc/B");
    assert_eq!(arcs, 61);
    // the arc store carries its count, then what `arc_store` wrote
    let (offsets, data) = arc_store(&t.arcs, false, 2);
    assert_eq!(at(arcs), 3);
    assert_eq!(&bytes[arcs + 4..rings], &[offsets, data].concat()[..]);
    // the parent table, then what `ring_store` wrote
    let polys = vec![vec![vec![0u32, 2]], vec![vec![4u32, 1]]];
    let (offsets, data, n_rings) = ring_store(&polys, &t.arcs, 2);
    assert_eq!(n_rings, 2);
    assert_eq!(&bytes[rings..rings + 4], &[0, 0, 1, 0]);
    assert_eq!(&bytes[rings + 4..grid_off], &[offsets, data].concat()[..]);
    // sizes add up, and the viewer's figures are those of the sections
    assert_eq!(stats.header, 45);
    assert_eq!(stats.zones as usize, arcs - 45);
    assert_eq!(stats.arcs as usize, rings - arcs);
    assert_eq!(stats.rings as usize, grid_off - rings);
    assert_eq!(stats.grid as usize, bytes.len() - grid_off);
    assert_eq!((stats.n_arcs, stats.n_verts), (3, 10));
    assert_eq!(stat(&stats, 0), stats.header);
    // eager counts: every arc of every ring in full, 2 rings, 2 polygons
    assert_eq!((at(33), at(37), at(41)), (12, 2, 2));
}

#[test]
fn headers_hold_cell_size_and_tolerance_as_singles() {
    let g = grid(vec![vec![0], vec![0, 1], vec![]]);
    for (deg, eps) in [(4.0f64 / 3.0, 0.1f64), (2.0 / 3.0, 1e300), (45.0, 0.0)] {
        let mut p = params(GeomEncoding::VarintArcs);
        p.grid_deg = deg.to_bits();
        p.eps_m = eps.to_bits();
        let bytes = encode(&squares(), &tzids(), &g, &p).expect("encodes");
        assert_eq!(&bytes[5..9], &(deg as f32).to_le_bytes());
        assert_eq!(&bytes[9..13], &(eps as f32).to_le_bytes());
    }
}

#[test]
fn coarse_and_full_ring_payloads_differ_from_arcs() {
    let g = grid(vec![vec![0], vec![0, 1], vec![]]);
    let (t, ids) = (squares(), tzids());
    let arcs = encode(&t, &ids, &g, &params(GeomEncoding::FixedWidthArcs)).expect("encodes");
    let full = encode(&t, &ids, &g, &params(GeomEncoding::FullRings)).expect("encodes");
    let coarse = encode(&t, &ids, &g, &params(GeomEncoding::Coarse)).expect("encodes");
    assert!(coarse.len() < full.len() && coarse.len() < arcs.len());
    // full rings start 4-aligned
    assert_eq!(u32::from_le_bytes([full[21], full[22], full[23], full[24]]) % 4, 0);
}

#[test]
fn knobs_out_of_range_are_refused() {
    let mut p = params(GeomEncoding::VarintArcs);
    p.quant_bits = 17;
    assert_eq!(check_params(&p, 2), Err(EncodeError::QuantBits { bits: 17 }));
    let mut p = params(GeomEncoding::VarintArcs);
    for deg in [0.05f64, 45.5, -1.0, f64::NAN, f64::INFINITY] {
        p.grid_deg = deg.to_bits();
        assert_eq!(check_params(&p, 2), Err(EncodeError::GridDeg { deg: deg.to_bits() }));
    }
    p.grid_deg = 0.1f64.to_bits();
    assert_eq!(check_params(&p, 2), Ok(()));
    assert_eq!(
        check_params(&p, 0x7FFF),
        Err(EncodeError::FormatLimit { what: Limit::Features, n: 0x7FFF, max: 0x7FFE })
    );
    let mut p = params(GeomEncoding::VarintArcs);
    p.tzbb_release = "x".repeat(256);
    let g = grid(vec![vec![0]]);
    assert_eq!(
        encode(&squares(), &tzids(), &g, &p),
        Err(EncodeError::FormatLimit { what: Limit::ReleaseBytes, n: 256, max: 255 })
    );
}

#[test]
fn counts_past_the_format_are_refused() {
    let p = params(GeomEncoding::VarintArcs);
    let mut t = squares();
    t.structure[0] = vec![vec![0]; 0x7FFF];
    assert_eq!(
        encode(&t, &tzids(), &grid(vec![vec![0]]), &p),
        Err(EncodeError::FormatLimit { what: Limit::Polygons, n: 0x8000, max: 0x7FFE })
    );
    let long = vec![Some("z".repeat(40_000)), Some("z".repeat(40_000))];
    assert_eq!(
        encode(&squares(), &long, &grid(vec![vec![0]]), &p),
        Err(EncodeError::FormatLimit { what: Limit::PoolBytes, n: 80_000, max: 0xFFFF })
    );
    let mut t = squares();
    t.structure[0] = vec![vec![0; 0x1_0000]];
    assert_eq!(
        encode(&t, &tzids(), &grid(vec![vec![0]]), &p),
        Err(EncodeError::Oversized { what: Limit::PolyRings })
    );
}

#[test]
fn grids_with_too_many_lists_are_refused() {
    let mut t = squares();
    t.structure[0] = vec![vec![0]; 300];
    let p = params(GeomEncoding::Coarse);
    let mut pairs = Vec::new();
    for a in 0..300u16 {
        for b in a + 1..300 {
            pairs.push(vec![a, b]);
        }
    }
    let deg = 45.0f64.to_bits();
    assert_eq!(
        encode(&t, &tzids(), &grid(pairs[..0x7FFF].to_vec()), &p),
        Err(EncodeError::GridLists { deg, n: 0x7FFF })
    );
    // fewer lists, but too many ids in them for a u16 offset
    let long: Vec<Vec<u16>> = (0..300u16).map(|k| (0..300).filter(|&z| z != k).collect()).collect();
    assert_eq!(
        encode(&t, &tzids(), &grid(long), &p),
        Err(EncodeError::GridListIds { deg, n: 300 * 299 })
    );
}

#[test]
fn visvalingam_takes_an_area_not_a_distance() {
    let eps = 0.01f64.to_bits();
    assert_eq!(SimplifyAlgo::Rdp.to_simplify(eps), Ok(Simplify::Rdp { eps }));
    assert_eq!(SimplifyAlgo::ImaiIri.to_simplify(eps), Ok(Simplify::ImaiIri { eps }));
    assert_eq!(SimplifyAlgo::Visvalingam.to_simplify(eps), Err(EncodeError::VisvalingamEps));
    let unsimplified = SimplifyAlgorithm::Unsimplified;
    assert_eq!(to_simplify(unsimplified, eps), Ok(Simplify::Unsimplified));
    assert_eq!(to_simplify(SimplifyAlgorithm::Rdp, eps), Ok(Simplify::Rdp { eps }));
    assert_eq!(
        to_simplify(SimplifyAlgorithm::Visvalingam, eps),
        Err(EncodeError::VisvalingamEps)
    );
    assert_eq!(SimplifyAlgo::stamp_of(unsimplified), SimplifyAlgo::Rdp);
    assert_eq!(SimplifyAlgo::stamp_of(SimplifyAlgorithm::ImaiIri), SimplifyAlgo::ImaiIri);
}

#[test]
fn grids_join_walked_cells_and_subcell_owners() {
    // two cells of 2x2 subcells; zone 7 owns three of the first four
    let owner = [7, 7, NO_ZONE, 9, 7, 3, NO_ZONE, 9];
    let walked = [vec![5u16], vec![]];
    let g = build(1.0f64.to_bits(), 2, 1, 2, &walked, &owner);
    assert_eq!(g.sets, vec![vec![3, 5, 7], vec![9]]);
    assert_eq!(g.dominant, vec![7, 9]);
    assert_eq!(g.tallies, vec![vec![(3, 1), (7, 3)], vec![(9, 2)]]);
    let mut ids = vec![2u16, 4];
    insert_sorted(&mut ids, 3);
    insert_sorted(&mut ids, 4);
    assert_eq!(ids, vec![2, 3, 4]);
}

#[test]
fn candidate_lists_are_interned() {
    let mut g = grid(vec![vec![1, 2], vec![2], vec![1, 2], vec![], vec![1, 2]]);
    g.dominant = vec![2, 2, 2, NO_ZONE, 1];
    let (entries, lists) = intern_lists(&g, Order::CellDominantFirst, &[]);
    assert_eq!(lists, vec![vec![2, 1], vec![1, 2]]);
    assert_eq!(
        entries,
        vec![Entry::List(0), Entry::Zone(2), Entry::List(0), Entry::Zone(NO_ZONE), Entry::List(1)]
    );
    let csr = csr_of(&entries, &lists);
    assert_eq!(csr.primary, vec![0x8000, 2, 0x8000, 0x7FFF, 0x8001]);
    assert_eq!(csr.list_offsets, vec![0, 2, 4]);
    assert_eq!(csr.list_ids, vec![2, 1, 1, 2]);
    assert_eq!(csr.bytes(), 10 + 6 + 8);
    // by id and by area every equal set coincides
    assert_eq!(intern_csr(&g, Order::IdSorted, &[]).list_ids, vec![1, 2]);
    assert_eq!(intern_csr(&g, Order::AreaDesc, &[0, 10, 20]).list_ids, vec![2, 1]);
}

#[test]
fn walks_and_spans_fill_the_grid() {
    assert_eq!(cell_at(-3, 1, 4, 2), 4);
    assert_eq!(cell_at(9, 9, 4, 2), 7);
    assert_eq!(collect_visits(2, &[(1, 5), (0, 4), (1, 2), (1, 5)]), vec![vec![4], vec![2, 5]]);
    // visits are noted once in a row
    let mut visits = Vec::new();
    for (cell, zone) in [(1, 5), (1, 5), (1, 2), (0, 2), (1, 5)] {
        note_visit(&mut visits, cell, zone);
    }
    assert_eq!(visits, vec![(1, 5), (1, 2), (0, 2), (1, 5)]);
    assert_eq!(collect_visits(2, &visits), vec![vec![2], vec![2, 5]]);
    // the last zone over a subcell owns it
    let spans = [
        Span { zone: 2, row: 0, first: -5, last: 9 },
        Span { zone: 1, row: 0, first: 1, last: 2 },
    ];
    let free = NO_ZONE;
    assert_eq!(paint_owners(4, 2, &spans), vec![2, 1, 1, 2, free, free, free, free]);
}

#[test]
fn numbers_are_written_as_documented() {
    assert_eq!([0, -1, 1, -2, 2].map(zigzag), [0, 1, 2, 3, 4]);
    let mut out = Vec::new();
    put_varint(&mut out, 300);
    assert_eq!(out, vec![0xAC, 0x02]);
    assert_eq!((qmax_for(16), qmax_for(24), qmax_for(32)), (32_767, 8_388_607, 2_147_483_647));
    let mut out = Vec::new();
    push_i24(&mut out, -2);
    assert_eq!(out, vec![0xFE, 0xFF, 0xFF]);
    assert_eq!(read_i24(&out), -2);
    let mut out = Vec::new();
    pushb(&mut out, 0x1234, 16);
    pushb(&mut out, -1, 24);
    pushb(&mut out, 1, 32);
    assert_eq!(out, vec![0x34, 0x12, 0xFF, 0xFF, 0xFF, 1, 0, 0, 0]);
}

#[test]
fn serialized_topologies_count_what_they_store() {
    let t = squares();
    let feats = [
        FeatureRecord {
            offset: 1.0f32.to_bits(),
            tzid: Some("Etc/A".to_string()),
            outline: vec![vec![(0, 0), (1, 0), (1, 1), (0, 1)]],
        },
        FeatureRecord { offset: 2.0f32.to_bits(), tzid: None, outline: vec![] },
    ];
    let out = serialize_topology(&feats, &t.arcs, &t.ring_refs, &t.structure, 16, false);
    assert_eq!((out.arcs, out.ring_refs, out.verts), (3, 4, 10));
    let fixed = serialize_topology(&feats, &t.arcs, &t.ring_refs, &t.structure, 24, true);
    assert!(fixed.bytes.len() > out.bytes.len());
    assert!(out.bytes.windows(5).any(|w| w == b"Etc/A"));
}
