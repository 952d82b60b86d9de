use utz::common::{Codec, QuantBits};
use utz::config::{dataset, Config};
use utz::ieee::{narrow, quotient};
use utz::presets::{accurate, all, balanced, by_name, compact, tiny, tiny_static, Provenance, Recipe};

#[test]
fn names_are_unique_and_by_name_round_trips() {
    let recipes = all();
    for (index, recipe) in recipes.iter().enumerate() {
        assert_eq!(
            by_name(recipe.name).map(|found| found.name),
            Some(recipe.name)
        );
        assert!(
            recipes[..index].iter().all(|other| other.name != recipe.name),
            "duplicate preset name {:?}",
            recipe.name
        );
    }
    assert!(by_name("no-such-preset").is_none());
}

#[test]
fn tiny_static_differs_from_tiny_only_in_codec() {
    let restored = Recipe {
        codec: Codec::Gzip,
        name: "tiny",
        ..tiny_static()
    };
    assert_eq!(restored, tiny());
    assert_eq!(tiny_static().codec, Codec::Uncompressed);
}

#[test]
fn density_floor_fractions_match_the_builder_literals_exactly() {
    assert_eq!(tiny().density_weight_floor(), Some(0.001f64.to_bits()));
    assert_eq!(compact().density_weight_floor(), Some(0.001f64.to_bits()));
    assert_eq!(balanced().density_weight_floor(), Some(0.020f64.to_bits()));
    assert_eq!(accurate().density_weight_floor(), Some(0.10f64.to_bits()));
    let unweighted = Recipe {
        density_weight_floor_e4: 0,
        ..tiny()
    };
    assert_eq!(unweighted.density_weight_floor(), None);
}

#[test]
fn provenance_casts_match_the_encoder_stamps() {
    for recipe in &all() {
        let provenance = Provenance::from(recipe);
        assert_eq!(
            provenance.eps_m,
            (f64::from_bits(recipe.eps_m) as f32).to_bits()
        );
        assert_eq!(
            provenance.grid_deg,
            (f64::from_bits(recipe.grid_deg) as f32).to_bits()
        );
        assert_eq!(provenance.dataset, recipe.dataset);
        assert_eq!(provenance.codec, recipe.codec);
    }
}

#[test]
fn recipes_hold_the_documented_numbers() {
    let knobs: Vec<(f64, u32, f64)> = all()
        .iter()
        .map(|r| (f64::from_bits(r.eps_m), r.quant_bits.bits(), f64::from_bits(r.grid_deg)))
        .collect();
    assert_eq!(
        knobs,
        vec![
            (10_000.0, 16, 2.0),
            (10_000.0, 16, 2.0),
            (1_000.0, 24, 4.0 / 3.0),
            (50.0, 24, 2.0 / 3.0),
            (10.0, 32, 0.5),
        ]
    );
    assert_eq!(accurate().quant_bits, QuantBits::Bits32);
}

#[test]
fn narrowing_matches_the_hardware_cast() {
    let mut values = vec![
        0.0,
        -0.0,
        1.0,
        -1.5,
        1.0 / 3.0,
        0.1,
        1e-40,
        -3e-45,
        1e-46,
        7.006_492_321_624_085e-46,
        7.1e-46,
        3.402_823_5e38,
        3.402_823_6e38,
        f64::MAX,
        f64::MIN_POSITIVE,
        5e-324,
        f64::INFINITY,
        f64::NEG_INFINITY,
        16_777_217.0,
        16_777_219.0,
    ];
    let mut lcg = utz::common::Lcg::new(99);
    for _ in 0..5000 {
        let value = f64::from_bits(lcg.next_u64());
        if !value.is_nan() {
            values.push(value);
        }
        // exponents that land in the single's subnormal range
        let subnormal = f64::from_bits((lcg.next_u64() >> 12) | (870 + lcg.next_u64() % 40) << 52);
        values.push(subnormal);
    }
    for value in values {
        assert_eq!(narrow(value.to_bits()), (value as f32).to_bits(), "{value:e}");
    }
    assert!(f32::from_bits(narrow(f64::NAN.to_bits())).is_nan());
}

#[test]
fn quotients_match_the_hardware_division() {
    for n in 1..=4000u32 {
        for d in [1u32, 3, 7, 10_000, 65_535, u32::MAX] {
            let expected = f64::from(n) / f64::from(d);
            assert_eq!(quotient(n, d), expected.to_bits(), "{n}/{d}");
        }
    }
    assert_eq!(quotient(u32::MAX, 1), f64::from(u32::MAX).to_bits());
}

#[test]
fn configs_carry_their_recipes() {
    let config = Config::tiny();
    assert_eq!(config.dataset, "now");
    assert_eq!(f64::from_bits(config.epsilon_m), 10_000.0);
    assert_eq!(config.quant_bits, 16);
    assert_eq!(config.density_weight_floor, Some(0.001f64.to_bits()));
    assert_eq!(
        Config::tiny().codec(Codec::Uncompressed),
        Config::tiny_static()
    );
    assert_eq!(Config::accurate().dataset, "all");
    assert_eq!(Config::compact().codec, Codec::Xz);
    assert_eq!(Config::balanced().codec, Codec::Brotli);
}

#[test]
fn default_config_is_the_documented_one() {
    let config = Config::new();
    assert_eq!(config, Config::default());
    assert_eq!(config.dataset, "now");
    assert_eq!(f64::from_bits(config.epsilon_m), 500.0);
    assert_eq!(f64::from_bits(config.grid_deg), 2.0);
    assert_eq!((config.quant_bits, config.codec), (24, Codec::Gzip));
    assert_eq!(config.density_weight_floor, None);
}

#[test]
fn dataset_names_parse_or_are_reported() {
    assert_eq!(dataset("land-1970").map(|d| d.name()), Ok("land-1970"));
    assert_eq!(dataset("osm").map(|d| d.name()), Ok("now"));
    let unknown = dataset("mars").expect_err("no such dataset");
    assert_eq!(unknown.ds, "mars");
}
