use utz::bench::{chunk_len, fits, region_of, split_fingerprint, wide_fingerprint, Region};
use utz::blob::{parse_blob, BLOB_MAGIC};
use utz::clean::CleanStats;
use utz::common::{Codec, Dataset, GeomEncoding, Lcg, SimplifyAlgorithm, POINT_SEED};
use utz::config::{algorithm_named, codec_named, data_dir, dataset, geom_named, guard_assertions, Config};
use utz::density::{sidecar_path, DensityGrid, Raster, SidecarError, SIDECAR_NAME};
use utz::download::{fetch_outcome, validator_text, validators, Fetched, Validator};
use utz::encode::{compress, EncodeError, PayloadStats, Simplify, SimplifyAlgo};
use utz::ieee::{narrow, quotient};
use utz::presets;
use utz::source::{
    boundary_extensions, cache_root, chars_of, choose_release, dataset_url, first_wanted,
    raster_extensions, tag_in, url_file_name, CacheRoot,
};
use utz::validate::Kind;
use utz::viewer::{
    compressed_size, gaps, match_kept, problem_records, simplify_knob, size_shown, stamp_knob,
    stat, Gap, Quant, Spot,
};

/// 10×10 one-degree cells covering lon/lat [0,10]×[0,10], all zero except
/// a hot cell at (5,5)..(6,6).
fn density_grid() -> DensityGrid {
    let mut cells = vec![0u32; 100];
    cells[4 * 10 + 5] = 1000.0f32.to_bits(); // row 4 = lat 5..6 (row 0 is lat 9..10)
    DensityGrid {
        width: 10,
        height: 10,
        lon0: 0.0f64.to_bits(),
        lat0: 10.0f64.to_bits(),
        dlon: 1.0f64.to_bits(),
        dlat: 1.0f64.to_bits(),
        cells,
    }
}

fn sample(g: &DensityGrid, lon: f64, lat: f64) -> f32 {
    let f = f64::from_bits;
    let ix = ((lon - f(g.lon0)) / f(g.dlon)).floor() as i64;
    let iy = ((f(g.lat0) - lat) / f(g.dlat)).floor() as i64;
    let wraps = (g.width as f64 * f(g.dlon) - 360.0).abs() < 1e-6;
    f32::from_bits(g.cell_val(ix, iy, wraps))
}

#[test]
fn sample_hits_the_right_cell() {
    let grid = density_grid();
    assert_eq!(sample(&grid, 5.5, 5.5), 1000.0);
    assert_eq!(sample(&grid, 4.5, 5.5), 0.0);
    assert_eq!(sample(&grid, 5.5, 4.5), 0.0);
    assert_eq!(sample(&grid, -20.0, 5.5), 0.0); // outside (grid isn't 360°-wide)
    assert_eq!(sample(&grid, 5.5, 20.0), 0.0);
}

#[test]
fn whole_turns_wrap_around() {
    let grid = density_grid();
    let hot = 1000.0f32.to_bits();
    for ix in [5i64, 15, -5, -15, 5 + 10 * 1_000_000] {
        assert_eq!(grid.cell_val(ix, 4, true), hot, "{ix}");
        assert_eq!(grid.cell_val(ix, 4, false) == hot, ix == 5, "{ix}");
    }
    assert_eq!(grid.cell_val(5, -1, true), 0);
    assert_eq!(grid.cell_val(5, 10, true), 0);
}

#[test]
fn sidecar_roundtrip() {
    let grid = density_grid();
    let bytes = grid.sidecar_bytes();
    assert_eq!(bytes.len(), 44 + 400);
    let restored = DensityGrid::from_sidecar(&bytes).unwrap();
    let f = f64::from_bits;
    assert_eq!(
        (
            restored.width,
            restored.height,
            f(restored.lon0),
            f(restored.lat0),
            f(restored.dlon),
            f(restored.dlat)
        ),
        (10, 10, 0.0, 10.0, 1.0, 1.0)
    );
    assert_eq!(restored.cells, grid.cells);
}

#[test]
fn damaged_sidecars_are_refused() {
    let bytes = density_grid().sidecar_bytes();
    let fault = |b: &[u8]| DensityGrid::from_sidecar(b).err();
    assert_eq!(fault(&bytes[..43]), Some(SidecarError::Truncated));
    let mut other = bytes.clone();
    other[3] = b'x';
    assert_eq!(fault(&other), Some(SidecarError::BadMagic));
    assert_eq!(fault(&bytes[..bytes.len() - 1]), Some(SidecarError::SizeMismatch));
    let mut long = bytes;
    long.push(0);
    assert_eq!(fault(&long), Some(SidecarError::SizeMismatch));
}

#[test]
fn sidecars_live_in_the_cache() {
    assert_eq!(sidecar_path("/tmp/cache"), format!("/tmp/cache/{SIDECAR_NAME}"));
}

#[test]
fn rasters_are_read_chunk_by_chunk() {
    let r = Raster { width: 20, height: 10, chunk_width: 8, chunk_height: 4 };
    assert_eq!(r.grid_size(), (3, 2));
    assert_eq!(r.chunk_count(), Some(9));
    assert_eq!(r.chunk_origin(0), (0, 0));
    assert_eq!(r.chunk_origin(5), (16, 4));
    assert_eq!(r.block_of(0, 0), 0);
    assert_eq!(r.block_of(17, 9), 5);
}

#[test]
fn release_files_have_the_published_names() {
    let base = "https://github.com/evansiroky/timezone-boundary-builder/releases/download/2025b";
    for (ds, file) in [
        (Dataset::Now, "timezones-with-oceans-now.geojson.zip"),
        (Dataset::Since1970, "timezones-with-oceans-1970.geojson.zip"),
        (Dataset::All, "timezones-with-oceans.geojson.zip"),
        (Dataset::AllLandOnly, "timezones.geojson.zip"),
        (Dataset::NowLandOnly, "timezones-now.geojson.zip"),
    ] {
        let url = dataset_url(ds, "2025b");
        assert_eq!(url, format!("{base}/{file}"));
        assert_eq!(url_file_name(&url), Some(file));
    }
    assert_eq!(url_file_name("https://example.org/"), None);
    assert_eq!(chars_of("aé"), vec!['a', 'é']);
}

#[test]
fn release_tags_fall_back_in_order() {
    assert_eq!(tag_in("https://example.org/r/releases/tag/2025b/"), Some("2025b"));
    assert_eq!(tag_in("https://example.org/r/releases/tag/"), None);
    assert_eq!(tag_in("https://example.org/"), None);
    assert_eq!(choose_release(Some("2024a"), Some("2025b"), Some("2025a")), "2024a");
    assert_eq!(choose_release(None, Some("2025b"), Some("2025a")), "2025b");
    assert_eq!(choose_release(None, None, Some("2025a")), "2025a");
    assert_eq!(choose_release(None, None, None), "dev");
    assert_eq!(choose_release(Some(""), None, Some("2025a")), "2025a");
}

#[test]
fn caches_live_where_the_user_keeps_them() {
    assert_eq!(cache_root(true, true, true, true, true), CacheRoot::Given);
    assert_eq!(cache_root(false, true, true, true, true), CacheRoot::UserCache);
    assert_eq!(cache_root(false, false, false, false, true), CacheRoot::BuildOutput);
    assert_eq!(cache_root(false, false, false, false, false), CacheRoot::Current);
}

fn plain(v: &Validator) -> (bool, &str) {
    match v {
        Validator::Etag(s) => (true, s),
        Validator::LastModified(s) => (false, s),
    }
}

#[test]
fn validators_are_kept_and_sent_back() {
    let text = validator_text(Some("\"abc\""), Some("Tue, 01 Jul 2025 00:00:00 GMT"));
    assert_eq!(text, "etag: \"abc\"\nlast-modified: Tue, 01 Jul 2025 00:00:00 GMT\n");
    let kept = validators(&text);
    let kept: Vec<(bool, &str)> = kept.iter().map(plain).collect();
    assert_eq!(kept, vec![(true, "\"abc\""), (false, "Tue, 01 Jul 2025 00:00:00 GMT")]);
    assert!(validators("server: x\n").is_empty());
    assert_eq!(validator_text(None, None), "");
}

#[test]
fn responses_decide_what_becomes_of_the_cache() {
    assert_eq!(fetch_outcome(Some(304), true), Fetched::Reuse);
    assert_eq!(fetch_outcome(Some(200), true), Fetched::Store);
    assert_eq!(fetch_outcome(None, true), Fetched::ReuseStale);
    assert_eq!(fetch_outcome(None, false), Fetched::Fail);
}

#[test]
fn configs_carry_their_presets() {
    let c = Config::new();
    assert_eq!((c.dataset.as_str(), c.quant_bits, c.codec), ("now", 24, Codec::Gzip));
    assert_eq!((c.epsilon_m, c.grid_deg), (500.0f64.to_bits(), 2.0f64.to_bits()));
    let recipe = presets::tiny_static();
    let (tiny, fixed) = (Config::tiny(), Config::tiny_static());
    assert_eq!(fixed.codec, Codec::Uncompressed);
    assert_eq!(fixed.dataset, tiny.dataset);
    assert_eq!(fixed.epsilon_m, recipe.eps_m);
    assert_eq!(fixed.density_weight_floor, recipe.density_weight_floor());
    let c = Config::compact()
        .dataset("all")
        .rdp_meters(7)
        .quant_bits(32)
        .grid_deg(9)
        .codec(Codec::Xz)
        .simplify_algorithm(SimplifyAlgorithm::ImaiIri)
        .geom(GeomEncoding::Coarse)
        .density_weight_floor(5);
    assert_eq!((c.dataset.as_str(), c.epsilon_m, c.quant_bits, c.grid_deg), ("all", 7, 32, 9));
    assert_eq!((c.codec, c.simplify, c.geom), (Codec::Xz, SimplifyAlgorithm::ImaiIri, GeomEncoding::Coarse));
    assert_eq!(c.density_weight_floor, Some(5));
}

#[test]
fn names_are_looked_up() {
    assert_eq!(dataset("1970").ok(), Some(Dataset::Since1970));
    assert_eq!(dataset("nope").err().map(|e| e.ds), Some("nope".to_string()));
    assert_eq!(codec_named("brotli"), Some(Codec::Brotli));
    assert_eq!(codec_named("lzma"), None);
    assert_eq!(algorithm_named("rdp"), Some(SimplifyAlgorithm::Rdp));
    assert_eq!(algorithm_named("?"), None);
    assert_eq!(geom_named("?"), None);
    assert_eq!(data_dir("tiny-static"), "utz_data_tiny_static");
}

#[test]
fn guards_name_the_features_an_asset_needs() {
    let both = guard_assertions("tz.utz", GeomEncoding::FullRings, Codec::Zstd);
    assert_eq!(
        both,
        "const _: () = assert!(utz::caps::GEOM_FULL_RINGS, \"tz.utz needs the utz feature `geom-full-rings`\");\n\
         const _: () = assert!(utz::caps::CODEC_ZSTD, \"tz.utz needs the utz feature `ruzstd` or `zstd-sys`\");\n"
    );
    let one = guard_assertions("a", GeomEncoding::Coarse, Codec::Uncompressed);
    assert_eq!(
        one,
        "const _: () = assert!(utz::caps::GEOM_COARSE, \"a needs the utz feature `geom-coarse`\");\n"
    );
}

#[test]
fn viewer_figures_come_by_number() {
    let clean = CleanStats {
        dups: 8,
        spikes: 9,
        collinear: 10,
        rings_dropped: 11,
        polys_dropped: 12,
        arcs_dropped: 13,
    };
    let s = PayloadStats { header: 1, zones: 2, arcs: 3, rings: 4, grid: 5, n_arcs: 6, n_verts: 7, clean };
    assert_eq!((0..11).map(|i| stat(&s, i)).collect::<Vec<u32>>(), (1..12).collect::<Vec<u32>>());
    assert_eq!(stat(&s, 99), 0);
}

#[test]
fn viewer_knobs_choose_algorithms() {
    assert_eq!(simplify_knob(0, 5, 6), Simplify::Rdp { eps: 5 });
    assert_eq!(simplify_knob(1, 5, 6), Simplify::Visvalingam { min_area: 6 });
    assert_eq!(simplify_knob(2, 5, 6), Simplify::ImaiIri { eps: 5 });
    assert_eq!(simplify_knob(3, 5, 6), Simplify::Unsimplified);
    assert_eq!(stamp_knob(1), SimplifyAlgo::Visvalingam);
    assert_eq!([0, 1, 2, 3, 4].map(Quant::from_code).len(), 5);
}

#[test]
fn viewer_sizes_are_those_of_the_compressor() {
    let payload = vec![3u8; 5000];
    let gzip = compress(&payload, Codec::Gzip).expect("compresses").len() as u32;
    assert_eq!(compressed_size(&payload, 1), gzip);
    assert_eq!(compressed_size(&payload, 2), 0);
    assert_eq!(compressed_size(&[], 1), 0);
}

#[test]
fn problem_records_are_twelve_bytes() {
    let spots = [
        Spot { lon: 0.5f32.to_bits(), lat: 1.5f32.to_bits(), kind: Kind::Cross, feat: 7 },
        Spot { lon: 0, lat: 0, kind: Kind::Overlap, feat: 0x1_0002 },
    ];
    let records = problem_records(&spots);
    assert_eq!(&records[..4], &0.5f32.to_le_bytes());
    assert_eq!(&records[4..8], &1.5f32.to_le_bytes());
    assert_eq!(&records[8..12], &[0, 0, 7, 0]);
    assert_eq!(&records[20..], &[1, 0, 2, 0]);
}

#[test]
fn kept_points_are_found_in_their_source() {
    let p = |i: u64| (i, i);
    let src: Vec<(u64, u64)> = [0, 1, 2, 1, 3].iter().map(|&i| p(i)).collect();
    assert_eq!(match_kept(&[p(0), p(1), p(3)], &src), Some(vec![0, 1, 4]));
    assert_eq!(match_kept(&[p(0), p(3), p(1)], &src), None);
    // zeros of either sign are one place, and a NaN is none
    let at = |x: f64| (x.to_bits(), 1.0f64.to_bits());
    assert_eq!(match_kept(&[at(0.0)], &[at(3.0), at(-0.0)]), Some(vec![1]));
    assert_eq!(match_kept(&[at(f64::NAN)], &[at(f64::NAN)]), None);
    assert_eq!(gaps(&[0, 1, 4]), vec![Gap { end: 2, from: 1, to: 4 }]);
}

#[test]
fn failed_compressions_show_no_size() {
    assert_eq!(size_shown(&Ok(vec![7; 300])), 300);
    assert_eq!(size_shown(&Err(EncodeError::Compress(String::from("no")))), 0);
}

#[test]
fn archive_entries_are_chosen_by_extension() {
    let some = |text: &str| Some(String::from(text));
    let names = [None, some("md"), some("GeoJSON"), some("json")];
    assert_eq!(first_wanted(&names, &boundary_extensions()), Some(2));
    assert_eq!(first_wanted(&names, &raster_extensions()), None);
    assert_eq!(first_wanted(&[some("tiff"), some("TIF")], &raster_extensions()), Some(1));
    // only ASCII letters have two cases here
    assert_eq!(first_wanted(&[some("\u{212A}")], &["k"]), None);
    assert_eq!(first_wanted(&[some("@[")], &["`{"]), None);
    assert_eq!(first_wanted(&[], &["json"]), None);
}

#[test]
fn quotients_round_as_floats_do() {
    for (n, d) in [(1u32, 3u32), (10, 10_000), (200, 10_000), (2, 1), (u32::MAX, 7), (1, u32::MAX)] {
        assert_eq!(quotient(n, d), (f64::from(n) / f64::from(d)).to_bits(), "{n}/{d}");
    }
    for v in [0.1f64, 1e-45, 1e300, -2.5, 0.0, -0.0, f64::INFINITY, 3.4e38, 1e-40] {
        assert_eq!(narrow(v.to_bits()), (v as f32).to_bits(), "{v}");
    }
}

#[test]
fn firmware_decisions() {
    assert!(fits(100_000, 0, 60_000));
    assert!(!fits(90_000, 32_768, 60_000));
    assert!(!fits(usize::MAX, usize::MAX, usize::MAX));
    assert_eq!(region_of(0x3C10_0000, 0x3C00_0000, 0x3C20_0000), Region::Psram);
    assert_eq!(region_of(0x3FC9_0000, 0x3C00_0000, 0x3C20_0000), Region::Sram);
    assert_eq!(region_of(0x4200_0000, 0x3C00_0000, 0x3C20_0000), Region::Flash);
    assert_eq!(chunk_len(10, 8, 4), 2);
    assert_eq!(chunk_len(10, 0, 4), 4);
}

#[test]
fn kernels_leave_the_same_fingerprint() {
    let ring: Vec<(i32, i32)> = vec![(0, 0), (1000, 0), (1000, 1000), (500, 300), (0, 1000)];
    let mut lcg = Lcg::new(POINT_SEED);
    let probes: Vec<(i32, i32)> = (0..500)
        .map(|_| ((lcg.next_u64() >> 40) as i32 % 1200, (lcg.next_u64() >> 40) as i32 % 1200))
        .collect();
    let split = split_fingerprint(&ring, &probes);
    assert_eq!(split, wide_fingerprint::<i64, (i32, i32)>(&ring, &probes));
    assert_eq!(split, wide_fingerprint::<i128, (i32, i32)>(&ring, &probes));
    assert_ne!(split, 0);
}

/// A viewer blob: one closed arc, densities, one feature of one ring.
fn viewer_blob(flags: u32) -> Vec<u8> {
    let mut b = BLOB_MAGIC.to_vec();
    for v in [flags, 1, 4, 0, 4] {
        b.extend(v.to_le_bytes());
    }
    while b.len() % 8 != 0 {
        b.push(0);
    }
    for v in [0.0f64, 0.0, 1.0, 0.0, 1.0, 1.0, 0.0, 0.0] {
        b.extend(v.to_le_bytes());
    }
    if flags & 1 != 0 {
        for v in [1.0f32, 2.0, 3.0, 4.0] {
            b.extend(v.to_le_bytes());
        }
    }
    b.push(2);
    b.push(5);
    b.extend(b"2025b");
    b.extend(1u16.to_le_bytes());
    b.extend(5.5f32.to_le_bytes());
    b.push(5);
    b.extend(b"Etc/A");
    b.extend(1u32.to_le_bytes()); // rings
    b.extend(1u32.to_le_bytes());
    b.extend(0u32.to_le_bytes());
    b.extend(1u16.to_le_bytes()); // polygons
    b.extend(1u16.to_le_bytes());
    b.extend(0u32.to_le_bytes());
    b
}

#[test]
fn viewer_blobs_parse() {
    let blob = parse_blob(&viewer_blob(3)).expect("well-formed");
    let one = 1.0f64.to_bits();
    assert_eq!(blob.topo.arc_coords, vec![vec![(0, 0), (one, 0), (one, one), (0, 0)]]);
    assert_eq!(blob.topo.ring_refs, vec![vec![0]]);
    assert_eq!(blob.topo.structure, vec![vec![vec![0]]]);
    assert_eq!(blob.dens, [1.0f32, 2.0, 3.0, 4.0].map(f32::to_bits));
    assert_eq!(blob.dataset_code, 2);
    assert_eq!(blob.release, "2025b");
    assert_eq!(blob.feats[0].tzid.as_deref(), Some("Etc/A"));
    assert_eq!(blob.feats[0].offset, 5.5f32.to_bits());
    assert!(parse_blob(&viewer_blob(2)).expect("well-formed").dens.is_empty());
}

#[test]
fn malformed_viewer_blobs_do_not_parse() {
    let good = viewer_blob(3);
    for n in 0..good.len() {
        assert!(parse_blob(&good[..n]).is_none(), "cut at {n}");
    }
    // no topology section
    assert!(parse_blob(&viewer_blob(1)).is_none());
    let mut other = good;
    other[0] = b'x';
    assert!(parse_blob(&other).is_none());
}
