//! The builder's knobs: a recipe for a custom asset, the command line's names
//! for its choices, and the assertions that guard an asset's use.

use crate::common::{Codec, Dataset, GeomEncoding, SimplifyAlgorithm};
use crate::presets::{
    accurate, accurate_recipe, balanced, balanced_recipe, compact, compact_recipe, tiny,
    tiny_recipe, tiny_static, tiny_static_recipe, Recipe,
};
use crate::source::chars_of;
use crate::text::str_eq;
use vstd::prelude::*;
use vstd::string::*;

verus! {

/// The knobs of a custom asset. Numbers with a fraction are the bits of
/// doubles.
#[derive(Clone, Debug, PartialEq, Eq)]
pub struct Config {
    /// The dataset's name.
    pub dataset: String,
    /// The simplification tolerance in meters.
    pub epsilon_m: u64,
    /// The quantization width; checked when the asset is encoded.
    pub quant_bits: u32,
    /// The grid cell size in degrees; checked when the asset is encoded.
    pub grid_deg: u64,
    /// The payload codec.
    pub codec: Codec,
    /// The simplification algorithm.
    pub simplify: SimplifyAlgorithm,
    /// The geometry encoding.
    pub geom: GeomEncoding,
    /// The tolerance multiplier in the densest cells, if any.
    pub density_weight_floor: Option<u64>,
}

/// What a config says.
pub struct ConfigView {
    pub dataset: Seq<char>,
    pub epsilon_m: u64,
    pub quant_bits: u32,
    pub grid_deg: u64,
    pub codec: Codec,
    pub simplify: SimplifyAlgorithm,
    pub geom: GeomEncoding,
    pub density_weight_floor: Option<u64>,
}

impl View for Config {
    type V = ConfigView;

    open spec fn view(&self) -> ConfigView {
        ConfigView {
            dataset: self.dataset@,
            epsilon_m: self.epsilon_m,
            quant_bits: self.quant_bits,
            grid_deg: self.grid_deg,
            codec: self.codec,
            simplify: self.simplify,
            geom: self.geom,
            density_weight_floor: self.density_weight_floor,
        }
    }
}

/// The defaults: dataset `now`, RDP at 500 m without density weighting, 24-bit
/// coordinates, a 2° grid, gzip, varint arcs.
pub open spec fn default_config() -> ConfigView {
    ConfigView {
        dataset: "now"@,
        epsilon_m: 0x407F_4000_0000_0000,
        quant_bits: 24,
        grid_deg: 0x4000_0000_0000_0000,
        codec: Codec::Gzip,
        simplify: SimplifyAlgorithm::Rdp,
        geom: GeomEncoding::VarintArcs,
        density_weight_floor: None,
    }
}

/// Whether a config carries a recipe's knobs.
pub open spec fn carries(config: ConfigView, recipe: Recipe) -> bool {
    &&& config.dataset == recipe.dataset.name_text()
    &&& config.epsilon_m == recipe.eps_m
    &&& config.quant_bits == recipe.quant_bits.width()
    &&& config.grid_deg == recipe.grid_deg
    &&& config.codec == recipe.codec
    &&& config.simplify == recipe.simplify_algo
    &&& config.geom == recipe.geom
    &&& match config.density_weight_floor {
        Some(floor) => recipe.floor_bits() == Some(floor as int),
        None => recipe.floor_bits() is None,
    }
}

impl Default for Config {
    fn default() -> (config: Config)
        ensures
            config@ == default_config(),
    {
        Config {
            dataset: String::from_str("now"),
            epsilon_m: 0x407F_4000_0000_0000,
            quant_bits: 24,
            grid_deg: 0x4000_0000_0000_0000,
            codec: Codec::Gzip,
            simplify: SimplifyAlgorithm::Rdp,
            geom: GeomEncoding::VarintArcs,
            density_weight_floor: None,
        }
    }
}

impl Config {
    /// A config at the defaults.
    #[must_use]
    pub fn new() -> (config: Config)
        ensures
            config@ == default_config(),
    {
        Config::default()
    }

    /// A config that carries a recipe's knobs.
    #[must_use]
    pub fn from_recipe(recipe: &Recipe) -> (config: Config)
        ensures
            carries(config@, *recipe),
    {
        let config = Config::new()
            .dataset(recipe.dataset.name())
            .rdp_meters(recipe.eps_m)
            .quant_bits(recipe.quant_bits.bits())
            .grid_deg(recipe.grid_deg)
            .codec(recipe.codec)
            .simplify_algorithm(recipe.simplify_algo)
            .geom(recipe.geom);
        match recipe.density_weight_floor() {
            Some(floor) => config.density_weight_floor(floor),
            None => config,
        }
    }

    /// The `tiny` preset.
    #[must_use]
    pub fn tiny() -> (config: Config)
        ensures
            carries(config@, tiny_recipe()),
    {
        Config::from_recipe(&tiny())
    }

    /// The `tiny-static` preset.
    #[must_use]
    pub fn tiny_static() -> (config: Config)
        ensures
            carries(config@, tiny_static_recipe()),
    {
        Config::from_recipe(&tiny_static())
    }

    /// The `compact` preset.
    #[must_use]
    pub fn compact() -> (config: Config)
        ensures
            carries(config@, compact_recipe()),
    {
        Config::from_recipe(&compact())
    }

    /// The `balanced` preset.
    #[must_use]
    pub fn balanced() -> (config: Config)
        ensures
            carries(config@, balanced_recipe()),
    {
        Config::from_recipe(&balanced())
    }

    /// The `accurate` preset.
    #[must_use]
    pub fn accurate() -> (config: Config)
        ensures
            carries(config@, accurate_recipe()),
    {
        Config::from_recipe(&accurate())
    }

    /// Sets the dataset's name.
    #[must_use]
    pub fn dataset(self, dataset: &str) -> (config: Config)
        ensures
            config@ == (ConfigView { dataset: dataset@, ..self@ }),
    {
        Config { dataset: String::from_str(dataset), ..self }
    }

    /// Sets the simplification tolerance in meters.
    #[must_use]
    pub fn rdp_meters(self, epsilon_m: u64) -> (config: Config)
        ensures
            config@ == (ConfigView { epsilon_m, ..self@ }),
    {
        Config { epsilon_m, ..self }
    }

    /// Sets the quantization width.
    #[must_use]
    pub fn quant_bits(self, bits: u32) -> (config: Config)
        ensures
            config@ == (ConfigView { quant_bits: bits, ..self@ }),
    {
        Config { quant_bits: bits, ..self }
    }

    /// Sets the grid cell size in degrees.
    #[must_use]
    pub fn grid_deg(self, degrees: u64) -> (config: Config)
        ensures
            config@ == (ConfigView { grid_deg: degrees, ..self@ }),
    {
        Config { grid_deg: degrees, ..self }
    }

    /// Sets the payload codec.
    #[must_use]
    pub fn codec(self, codec: Codec) -> (config: Config)
        ensures
            config@ == (ConfigView { codec, ..self@ }),
    {
        Config { codec, ..self }
    }

    /// Sets the simplification algorithm.
    #[must_use]
    pub fn simplify_algorithm(self, algorithm: SimplifyAlgorithm) -> (config: Config)
        ensures
            config@ == (ConfigView { simplify: algorithm, ..self@ }),
    {
        Config { simplify: algorithm, ..self }
    }

    /// Sets the geometry encoding.
    #[must_use]
    pub fn geom(self, geom: GeomEncoding) -> (config: Config)
        ensures
            config@ == (ConfigView { geom, ..self@ }),
    {
        Config { geom, ..self }
    }

    /// Enables population-density-weighted simplification.
    #[must_use]
    pub fn density_weight_floor(self, floor: u64) -> (config: Config)
        ensures
            config@ == (ConfigView { density_weight_floor: Some(floor), ..self@ }),
    {
        Config { density_weight_floor: Some(floor), ..self }
    }
}

/// The `tiny` preset without compression is exactly the `tiny-static` preset.
pub proof fn lemma_tiny_uncompressed_is_tiny_static(config: ConfigView)
    requires
        carries(config, tiny_recipe()),
    ensures
        carries(ConfigView { codec: Codec::Uncompressed, ..config }, tiny_static_recipe()),
{
}

/// An unrecognized dataset name.
#[derive(Clone, Debug, PartialEq, Eq)]
pub struct UnknownDataset {
    pub ds: String,
}

/// Parses a dataset name.
pub fn dataset(name: &str) -> (r: Result<Dataset, UnknownDataset>)
    ensures
        match r {
            Ok(dataset) => Dataset::named(name@) == Some(dataset),
            Err(unknown) => Dataset::named(name@) is None && unknown.ds@ == name@,
        },
{
    match Dataset::from_name(name) {
        Some(dataset) => Ok(dataset),
        None => Err(UnknownDataset { ds: String::from_str(name) }),
    }
}

/// The codec a command line names.
pub open spec fn codec_of_name(name: Seq<char>) -> Option<Codec> {
    if name == "none"@ || name == "uncompressed"@ {
        Some(Codec::Uncompressed)
    } else if name == "gzip"@ {
        Some(Codec::Gzip)
    } else if name == "zstd"@ {
        Some(Codec::Zstd)
    } else if name == "brotli"@ {
        Some(Codec::Brotli)
    } else if name == "xz"@ {
        Some(Codec::Xz)
    } else {
        None
    }
}

/// The codec a command line names.
pub fn codec_named(name: &str) -> (codec: Option<Codec>)
    ensures
        codec == codec_of_name(name@),
{
    if str_eq(name, "none") || str_eq(name, "uncompressed") {
        Some(Codec::Uncompressed)
    } else if str_eq(name, "gzip") {
        Some(Codec::Gzip)
    } else if str_eq(name, "zstd") {
        Some(Codec::Zstd)
    } else if str_eq(name, "brotli") {
        Some(Codec::Brotli)
    } else if str_eq(name, "xz") {
        Some(Codec::Xz)
    } else {
        None
    }
}

/// The simplification algorithm a command line names.
pub open spec fn algorithm_of_name(name: Seq<char>) -> Option<SimplifyAlgorithm> {
    if name == "none"@ {
        Some(SimplifyAlgorithm::Unsimplified)
    } else if name == "rdp"@ {
        Some(SimplifyAlgorithm::Rdp)
    } else if name == "vw"@ || name == "visvalingam"@ {
        Some(SimplifyAlgorithm::Visvalingam)
    } else if name == "ii"@ || name == "imai-iri"@ {
        Some(SimplifyAlgorithm::ImaiIri)
    } else {
        None
    }
}

/// The simplification algorithm a command line names.
pub fn algorithm_named(name: &str) -> (algorithm: Option<SimplifyAlgorithm>)
    ensures
        algorithm == algorithm_of_name(name@),
{
    if str_eq(name, "none") {
        Some(SimplifyAlgorithm::Unsimplified)
    } else if str_eq(name, "rdp") {
        Some(SimplifyAlgorithm::Rdp)
    } else if str_eq(name, "vw") || str_eq(name, "visvalingam") {
        Some(SimplifyAlgorithm::Visvalingam)
    } else if str_eq(name, "ii") || str_eq(name, "imai-iri") {
        Some(SimplifyAlgorithm::ImaiIri)
    } else {
        None
    }
}

/// The geometry encoding a command line names.
pub open spec fn geom_of_name(name: Seq<char>) -> Option<GeomEncoding> {
    if name == "varint-arcs"@ || name == "varint"@ || name == "delta"@ {
        Some(GeomEncoding::VarintArcs)
    } else if name == "fixed-width-arcs"@ || name == "fixed"@ {
        Some(GeomEncoding::FixedWidthArcs)
    } else if name == "full-rings"@ || name == "eager"@ || name == "image"@ {
        Some(GeomEncoding::FullRings)
    } else if name == "coarse"@ {
        Some(GeomEncoding::Coarse)
    } else {
        None
    }
}

/// The geometry encoding a command line names.
pub fn geom_named(name: &str) -> (geom: Option<GeomEncoding>)
    ensures
        geom == geom_of_name(name@),
{
    if str_eq(name, "varint-arcs") || str_eq(name, "varint") || str_eq(name, "delta") {
        Some(GeomEncoding::VarintArcs)
    } else if str_eq(name, "fixed-width-arcs") || str_eq(name, "fixed") {
        Some(GeomEncoding::FixedWidthArcs)
    } else if str_eq(name, "full-rings") || str_eq(name, "eager") || str_eq(name, "image") {
        Some(GeomEncoding::FullRings)
    } else if str_eq(name, "coarse") {
        Some(GeomEncoding::Coarse)
    } else {
        None
    }
}

/// The directory that a preset's asset is kept in: dashes become underscores.
pub open spec fn data_dir_text(preset: Seq<char>) -> Seq<char> {
    "utz_data_"@ + preset.map_values(
        |c: char|
            if c == '-' {
                '_'
            } else {
                c
            },
    )
}

/// The directory that a preset's asset is kept in.
pub fn data_dir(preset: &str) -> (dir: String)
    ensures
        dir@ == data_dir_text(preset@),
{
    let s = chars_of(preset);
    let n: usize = s.len();
    let mut dir = String::from_str("utz_data_");
    let mut i: usize = 0;
    proof {
        reveal_strlit("_");
    }
    assert(data_dir_text(preset@.take(0)) =~= "utz_data_"@);
    while i < n
        invariant
            i <= n,
            n == s@.len(),
            s@ == preset@,
            "_"@ =~= seq!['_'],
            dir@ == data_dir_text(preset@.take(i as int)),
        decreases n - i,
    {
        if s[i] == '-' {
            dir.append("_");
        } else {
            dir.append(preset.substring_char(i, i + 1));
        }
        assert(dir@ =~= data_dir_text(preset@.take(i as int + 1)));
        i = i + 1;
    }
    assert(preset@.take(n as int) =~= preset@);
    dir
}

/// The capability constant and the feature behind a geometry encoding.
pub open spec fn geom_guard(geom: GeomEncoding) -> (Seq<char>, Seq<char>) {
    match geom {
        GeomEncoding::VarintArcs => ("GEOM_VARINT_ARCS"@, "geom-varint-arcs"@),
        GeomEncoding::FixedWidthArcs => ("GEOM_FIXED_WIDTH_ARCS"@, "geom-fixed-width-arcs"@),
        GeomEncoding::FullRings => ("GEOM_FULL_RINGS"@, "geom-full-rings"@),
        GeomEncoding::Coarse => ("GEOM_COARSE"@, "geom-coarse"@),
    }
}

/// The capability constant and the feature behind a codec; an uncompressed
/// asset needs none.
pub open spec fn codec_guard(codec: Codec) -> Option<(Seq<char>, Seq<char>)> {
    match codec {
        Codec::Uncompressed => None,
        Codec::Gzip => Some(("CODEC_GZIP"@, "gzip"@)),
        Codec::Zstd => Some(("CODEC_ZSTD"@, "ruzstd` or `zstd-sys"@)),
        Codec::Brotli => Some(("CODEC_BROTLI"@, "brotli"@)),
        Codec::Xz => Some(("CODEC_XZ"@, "xz"@)),
    }
}

/// A compile-time assertion that an asset's reader has a capability.
pub open spec fn assertion(asset: Seq<char>, guard: (Seq<char>, Seq<char>)) -> Seq<char> {
    "const _: () = assert!(utz::caps::"@ + guard.0 + ", \""@ + asset
        + " needs the utz feature `"@ + guard.1 + "`\");\n"@
}

/// The assertions that guard an asset: one for its geometry encoding, one for
/// its codec unless it is uncompressed.
pub open spec fn assertions(asset: Seq<char>, geom: GeomEncoding, codec: Codec) -> Seq<char> {
    match codec_guard(codec) {
        Some(guard) => assertion(asset, geom_guard(geom)) + assertion(asset, guard),
        None => assertion(asset, geom_guard(geom)),
    }
}

/// Appends a compile-time assertion.
fn push_assertion(out: &mut String, asset: &str, cap: &str, feature: &str)
    ensures
        final(out)@ == old(out)@ + assertion(asset@, (cap@, feature@)),
{
    out.append("const _: () = assert!(utz::caps::");
    out.append(cap);
    out.append(", \"");
    out.append(asset);
    out.append(" needs the utz feature `");
    out.append(feature);
    out.append("`\");\n");
    assert(out@ =~= old(out)@ + assertion(asset@, (cap@, feature@)));
}

/// The assertions that guard an asset's use.
pub fn guard_assertions(asset: &str, geom: GeomEncoding, codec: Codec) -> (source: String)
    ensures
        source@ == assertions(asset@, geom, codec),
{
    let mut out = String::from_str("");
    proof {
        reveal_strlit("");
        assert(out@ =~= Seq::<char>::empty());
    }
    match geom {
        GeomEncoding::VarintArcs => push_assertion(
            &mut out,
            asset,
            "GEOM_VARINT_ARCS",
            "geom-varint-arcs",
        ),
        GeomEncoding::FixedWidthArcs => push_assertion(
            &mut out,
            asset,
            "GEOM_FIXED_WIDTH_ARCS",
            "geom-fixed-width-arcs",
        ),
        GeomEncoding::FullRings => push_assertion(
            &mut out,
            asset,
            "GEOM_FULL_RINGS",
            "geom-full-rings",
        ),
        GeomEncoding::Coarse => push_assertion(&mut out, asset, "GEOM_COARSE", "geom-coarse"),
    }
    assert(out@ =~= assertion(asset@, geom_guard(geom)));
    match codec {
        Codec::Uncompressed => {},
        Codec::Gzip => push_assertion(&mut out, asset, "CODEC_GZIP", "gzip"),
        Codec::Zstd => push_assertion(&mut out, asset, "CODEC_ZSTD", "ruzstd` or `zstd-sys"),
        Codec::Brotli => push_assertion(&mut out, asset, "CODEC_BROTLI", "brotli"),
        Codec::Xz => push_assertion(&mut out, asset, "CODEC_XZ", "xz"),
    }
    out
}

/// A preset's directory is `utz_data_` and the preset's name, with an
/// underscore for every dash and every other character as it is.
pub proof fn lemma_directory_spells_the_preset(preset: Seq<char>)
    ensures
        ({
            let dir = data_dir_text(preset);
            &&& dir.len() == 9 + preset.len()
            &&& dir.take(9) == seq!['u', 't', 'z', '_', 'd', 'a', 't', 'a', '_']
            &&& forall|i: int|
                0 <= i < preset.len() ==> (preset[i] == '-' ==> dir[9 + i] == '_') && (
                #[trigger] preset[i] != '-' ==> dir[9 + i] == preset[i])
        }),
{
    reveal_strlit("utz_data_");
    let dir = data_dir_text(preset);
    assert(dir.take(9) =~= seq!['u', 't', 'z', '_', 'd', 'a', 't', 'a', '_']);
}

/// A command line names nothing but what it can: five codecs, four algorithms
/// and four encodings, some of them by more than one name, and each name means
/// one thing.
pub proof fn lemma_only_known_names(name: Seq<char>)
    ensures
        codec_of_name(name) == Some(Codec::Uncompressed) <==> name == "none"@ || name
            == "uncompressed"@,
        codec_of_name(name) == Some(Codec::Gzip) <==> name == "gzip"@,
        codec_of_name(name) == Some(Codec::Zstd) <==> name == "zstd"@,
        codec_of_name(name) == Some(Codec::Brotli) <==> name == "brotli"@,
        codec_of_name(name) == Some(Codec::Xz) <==> name == "xz"@,
        algorithm_of_name(name) == Some(SimplifyAlgorithm::Unsimplified) <==> name == "none"@,
        algorithm_of_name(name) == Some(SimplifyAlgorithm::Rdp) <==> name == "rdp"@,
        algorithm_of_name(name) == Some(SimplifyAlgorithm::Visvalingam) <==> name == "vw"@ || name
            == "visvalingam"@,
        algorithm_of_name(name) == Some(SimplifyAlgorithm::ImaiIri) <==> name == "ii"@ || name
            == "imai-iri"@,
        geom_of_name(name) == Some(GeomEncoding::VarintArcs) <==> name == "varint-arcs"@ || name
            == "varint"@ || name == "delta"@,
        geom_of_name(name) == Some(GeomEncoding::FixedWidthArcs) <==> name == "fixed-width-arcs"@
            || name == "fixed"@,
        geom_of_name(name) == Some(GeomEncoding::FullRings) <==> name == "full-rings"@ || name
            == "eager"@ || name == "image"@,
        geom_of_name(name) == Some(GeomEncoding::Coarse) <==> name == "coarse"@,
{
    lemma_codec_names_differ();
    lemma_algorithm_names_differ();
    lemma_geom_names_differ();
}

proof fn lemma_codec_names_differ()
    ensures
        "none"@[0] == 'n' && "none"@.len() == 4,
        "uncompressed"@[0] == 'u' && "uncompressed"@.len() == 12,
        "gzip"@[0] == 'g' && "gzip"@.len() == 4,
        "zstd"@[0] == 'z' && "zstd"@.len() == 4,
        "brotli"@[0] == 'b' && "brotli"@.len() == 6,
        "xz"@[0] == 'x' && "xz"@.len() == 2,
{
    reveal_strlit("none");
    reveal_strlit("uncompressed");
    reveal_strlit("gzip");
    reveal_strlit("zstd");
    reveal_strlit("brotli");
    reveal_strlit("xz");
}

proof fn lemma_algorithm_names_differ()
    ensures
        "none"@[0] == 'n' && "none"@.len() == 4,
        "rdp"@[0] == 'r' && "rdp"@.len() == 3,
        "vw"@[0] == 'v' && "vw"@.len() == 2,
        "visvalingam"@[0] == 'v' && "visvalingam"@.len() == 11,
        "ii"@[0] == 'i' && "ii"@.len() == 2,
        "imai-iri"@[0] == 'i' && "imai-iri"@.len() == 8,
{
    reveal_strlit("none");
    reveal_strlit("rdp");
    reveal_strlit("vw");
    reveal_strlit("visvalingam");
    reveal_strlit("ii");
    reveal_strlit("imai-iri");
}

proof fn lemma_geom_names_differ()
    ensures
        "varint-arcs"@[0] == 'v' && "varint-arcs"@.len() == 11,
        "varint"@[0] == 'v' && "varint"@.len() == 6,
        "delta"@[0] == 'd' && "delta"@.len() == 5,
        "fixed-width-arcs"@[0] == 'f' && "fixed-width-arcs"@.len() == 16,
        "fixed"@[0] == 'f' && "fixed"@[1] == 'i' && "fixed"@.len() == 5,
        "full-rings"@[0] == 'f' && "full-rings"@.len() == 10,
        "eager"@[0] == 'e' && "eager"@.len() == 5,
        "image"@[0] == 'i' && "image"@.len() == 5,
        "coarse"@[0] == 'c' && "coarse"@.len() == 6,
{
    reveal_strlit("varint-arcs");
    reveal_strlit("varint");
    reveal_strlit("delta");
    reveal_strlit("fixed-width-arcs");
    reveal_strlit("fixed");
    reveal_strlit("full-rings");
    reveal_strlit("eager");
    reveal_strlit("image");
    reveal_strlit("coarse");
}

} // verus!
