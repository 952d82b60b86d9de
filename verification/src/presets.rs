//! The canonical preset recipe table. Every preset asset is described here
//! exactly once; builders, generators and recipe guards read this table
//! instead of restating its numbers.
//!
//! A recipe keeps its tolerance and its grid size as the bit patterns of the
//! doubles that a builder takes, and its density floor in the header's fixed
//! point, from which the builder's fraction derives. `Provenance` bridges the
//! gap to a payload header, which stores singles.

use crate::common::{Codec, Dataset, GeomEncoding, QuantBits, SimplifyAlgorithm};
use crate::header::PayloadHeader;
use crate::ieee::{narrow, narrowed, quotient, quotient_bits};
use crate::text::str_eq;
use vstd::prelude::*;

verus! {

/// One preset's complete build recipe: the name and every encoder knob that
/// determines the asset's provenance stamp.
#[derive(Debug, Clone, Copy, PartialEq)]
pub struct Recipe {
    /// The preset name, e.g. `tiny-static`.
    pub name: &'static str,
    /// The dataset the asset is built from.
    pub dataset: Dataset,
    /// The simplification tolerance in meters, as the bits of a double.
    pub eps_m: u64,
    /// The coordinate quantization width.
    pub quant_bits: QuantBits,
    /// The grid cell size in degrees, as the bits of a double.
    pub grid_deg: u64,
    /// The simplification algorithm the encoder runs.
    pub simplify_algo: SimplifyAlgorithm,
    /// The geometry encoding.
    pub geom: GeomEncoding,
    /// The payload compression codec.
    pub codec: Codec,
    /// The population-density weight floor in units of 1e-4; 0 means
    /// unweighted.
    pub density_weight_floor_e4: u16,
}

/// The `tiny` recipe: RDP at 10 000 m with density floor 0.001, 16-bit
/// coordinates, a 2° grid, and gzip.
pub open spec fn tiny_recipe() -> Recipe {
    Recipe {
        name: "tiny",
        dataset: Dataset::Now,
        eps_m: 0x40C3_8800_0000_0000,
        quant_bits: QuantBits::Bits16,
        grid_deg: 0x4000_0000_0000_0000,
        simplify_algo: SimplifyAlgorithm::Rdp,
        geom: GeomEncoding::VarintArcs,
        codec: Codec::Gzip,
        density_weight_floor_e4: 10,
    }
}

/// The `tiny-static` recipe: `tiny` stored uncompressed, so that the asset is
/// readable in place.
pub open spec fn tiny_static_recipe() -> Recipe {
    Recipe { name: "tiny-static", codec: Codec::Uncompressed, ..tiny_recipe() }
}

/// The `compact` recipe: RDP at 1 000 m with density floor 0.001, 24-bit
/// coordinates, a 4/3° grid, and xz.
pub open spec fn compact_recipe() -> Recipe {
    Recipe {
        name: "compact",
        eps_m: 0x408F_4000_0000_0000,
        quant_bits: QuantBits::Bits24,
        grid_deg: 0x3FF5_5555_5555_5555,
        codec: Codec::Xz,
        ..tiny_recipe()
    }
}

/// The `balanced` recipe: RDP at 50 m with density floor 0.020, 24-bit
/// coordinates, a 2/3° grid, and brotli.
pub open spec fn balanced_recipe() -> Recipe {
    Recipe {
        name: "balanced",
        eps_m: 0x4049_0000_0000_0000,
        quant_bits: QuantBits::Bits24,
        grid_deg: 0x3FE5_5555_5555_5555,
        codec: Codec::Brotli,
        density_weight_floor_e4: 200,
        ..tiny_recipe()
    }
}

/// The `accurate` recipe: the comprehensive zone set, RDP at 10 m with density
/// floor 0.10, 32-bit coordinates, a 0.5° grid, and brotli.
pub open spec fn accurate_recipe() -> Recipe {
    Recipe {
        name: "accurate",
        dataset: Dataset::All,
        eps_m: 0x4024_0000_0000_0000,
        quant_bits: QuantBits::Bits32,
        grid_deg: 0x3FE0_0000_0000_0000,
        codec: Codec::Brotli,
        density_weight_floor_e4: 1000,
        ..tiny_recipe()
    }
}

/// Every preset recipe, in size order.
pub open spec fn all_recipes() -> Seq<Recipe> {
    seq![
        tiny_recipe(),
        tiny_static_recipe(),
        compact_recipe(),
        balanced_recipe(),
        accurate_recipe(),
    ]
}

/// The first recipe from position `i` on that carries the name.
pub open spec fn named(name: Seq<char>, recipes: Seq<Recipe>, i: int) -> Option<Recipe>
    decreases recipes.len() - i,
{
    if !(0 <= i < recipes.len()) {
        None
    } else if recipes[i].name@ == name {
        Some(recipes[i])
    } else {
        named(name, recipes, i + 1)
    }
}

/// The `tiny` recipe.
#[must_use]
pub fn tiny() -> (recipe: Recipe)
    ensures
        recipe == tiny_recipe(),
{
    Recipe {
        name: "tiny",
        dataset: Dataset::Now,
        eps_m: 0x40C3_8800_0000_0000,
        quant_bits: QuantBits::Bits16,
        grid_deg: 0x4000_0000_0000_0000,
        simplify_algo: SimplifyAlgorithm::Rdp,
        geom: GeomEncoding::VarintArcs,
        codec: Codec::Gzip,
        density_weight_floor_e4: 10,
    }
}

/// The `tiny-static` recipe.
#[must_use]
pub fn tiny_static() -> (recipe: Recipe)
    ensures
        recipe == tiny_static_recipe(),
{
    Recipe { name: "tiny-static", codec: Codec::Uncompressed, ..tiny() }
}

/// The `compact` recipe.
#[must_use]
pub fn compact() -> (recipe: Recipe)
    ensures
        recipe == compact_recipe(),
{
    Recipe {
        name: "compact",
        eps_m: 0x408F_4000_0000_0000,
        quant_bits: QuantBits::Bits24,
        grid_deg: 0x3FF5_5555_5555_5555,
        codec: Codec::Xz,
        ..tiny()
    }
}

/// The `balanced` recipe.
#[must_use]
pub fn balanced() -> (recipe: Recipe)
    ensures
        recipe == balanced_recipe(),
{
    Recipe {
        name: "balanced",
        eps_m: 0x4049_0000_0000_0000,
        quant_bits: QuantBits::Bits24,
        grid_deg: 0x3FE5_5555_5555_5555,
        codec: Codec::Brotli,
        density_weight_floor_e4: 200,
        ..tiny()
    }
}

/// The `accurate` recipe.
#[must_use]
pub fn accurate() -> (recipe: Recipe)
    ensures
        recipe == accurate_recipe(),
{
    Recipe {
        name: "accurate",
        dataset: Dataset::All,
        eps_m: 0x4024_0000_0000_0000,
        quant_bits: QuantBits::Bits32,
        grid_deg: 0x3FE0_0000_0000_0000,
        codec: Codec::Brotli,
        density_weight_floor_e4: 1000,
        ..tiny()
    }
}

/// Every preset recipe, in size order. Tools that need the preset name list
/// go through this instead of keeping a copy.
#[must_use]
pub fn all() -> (recipes: Vec<Recipe>)
    ensures
        recipes@ == all_recipes(),
{
    vec![tiny(), tiny_static(), compact(), balanced(), accurate()]
}

/// Looks a recipe up by its preset name, `None` for a name that the table does
/// not carry.
#[must_use]
pub fn by_name(name: &str) -> (recipe: Option<Recipe>)
    ensures
        recipe == named(name@, all_recipes(), 0),
{
    let recipes = all();
    let mut i: usize = 0;
    while i < recipes.len()
        invariant
            i <= recipes@.len(),
            recipes@ == all_recipes(),
            named(name@, all_recipes(), 0) == named(name@, recipes@, i as int),
        decreases recipes@.len() - i,
    {
        if str_eq(recipes[i].name, name) {
            return Some(recipes[i]);
        }
        i = i + 1;
    }
    None
}

/// No two presets share a name.
pub proof fn lemma_names_are_unique(i: int, j: int)
    requires
        0 <= i < j < all_recipes().len(),
    ensures
        all_recipes()[i].name@ != all_recipes()[j].name@,
{
    reveal_strlit("tiny");
    reveal_strlit("tiny-static");
    reveal_strlit("compact");
    reveal_strlit("balanced");
    reveal_strlit("accurate");
    assert("compact"@[0] == 'c');
    assert("balanced"@[0] == 'b');
    assert("accurate"@[0] == 'a');
    assert("tiny"@[0] == 't');
    assert("tiny"@.len() == 4);
    assert("tiny-static"@.len() == 11);
    assert("compact"@.len() == 7);
    assert("balanced"@.len() == 8);
    assert("accurate"@.len() == 8);
}

/// Looking up a preset's own name gives that preset back.
pub proof fn lemma_by_name_round_trips(i: int)
    requires
        0 <= i < all_recipes().len(),
    ensures
        named(all_recipes()[i].name@, all_recipes(), 0) == Some(all_recipes()[i]),
{
    lemma_named_from(i, 0);
}

/// The search from any position at or before `i` finds the recipe there.
proof fn lemma_named_from(i: int, from: int)
    requires
        0 <= from <= i < all_recipes().len(),
    ensures
        named(all_recipes()[i].name@, all_recipes(), from) == Some(all_recipes()[i]),
    decreases i - from,
{
    if from < i {
        lemma_names_are_unique(from, i);
        lemma_named_from(i, from + 1);
    }
}

/// `tiny-static` differs from `tiny` only in its name and its codec.
pub proof fn lemma_tiny_static_is_tiny_uncompressed()
    ensures
        (Recipe { name: "tiny", codec: Codec::Gzip, ..tiny_static_recipe() }) == tiny_recipe(),
        tiny_static_recipe().codec == Codec::Uncompressed,
{
}

impl Recipe {
    /// The density floor as the fraction a builder takes, as the bits of a
    /// double; `None` when the recipe is unweighted.
    pub open spec fn floor_bits(self) -> Option<int> {
        if self.density_weight_floor_e4 == 0 {
            None
        } else {
            Some(quotient_bits(self.density_weight_floor_e4 as nat, 10_000))
        }
    }

    /// The density floor as the fraction a builder takes, as the bits of a
    /// double; `None` when the recipe is unweighted.
    #[must_use]
    pub fn density_weight_floor(&self) -> (floor: Option<u64>)
        ensures
            floor is Some == self.floor_bits() is Some,
            floor matches Some(bits) ==> Some(bits as int) == self.floor_bits(),
    {
        if self.density_weight_floor_e4 != 0 {
            Some(quotient(self.density_weight_floor_e4 as u32, 10_000))
        } else {
            None
        }
    }
}

/// The subset of header fields that a recipe determines, in the header's
/// representation. Converting both a recipe and a header into this type gives
/// a recipe guard an exact equality check.
#[derive(Debug, Clone, Copy, PartialEq, Eq, Structural)]
pub struct Provenance {
    /// The dataset the asset was built from.
    pub dataset: Dataset,
    /// The simplification tolerance in meters, as the bits of a single.
    pub eps_m: u32,
    /// The coordinate quantization width.
    pub quant_bits: QuantBits,
    /// The grid cell size in degrees, as the bits of a single.
    pub grid_deg: u32,
    /// The simplification algorithm the encoder ran.
    pub simplify_algo: SimplifyAlgorithm,
    /// The geometry encoding.
    pub geom: GeomEncoding,
    /// The payload compression codec.
    pub codec: Codec,
    /// The density floor in units of 1e-4; 0 means unweighted.
    pub density_weight_floor_e4: u16,
}

/// The provenance a header is stamped with.
pub open spec fn header_provenance(header: PayloadHeader) -> Provenance {
    Provenance {
        dataset: header.dataset,
        eps_m: header.epsilon_m,
        quant_bits: header.quant_bits,
        grid_deg: header.grid_deg,
        simplify_algo: header.simplify_algorithm,
        geom: header.geom,
        codec: header.codec,
        density_weight_floor_e4: header.density_weight_floor_e4,
    }
}

/// The provenance an asset of the recipe is stamped with: the two doubles are
/// rounded to singles, as an encoder writes them.
pub open spec fn recipe_provenance(recipe: Recipe) -> Provenance {
    Provenance {
        dataset: recipe.dataset,
        eps_m: narrowed(recipe.eps_m) as u32,
        quant_bits: recipe.quant_bits,
        grid_deg: narrowed(recipe.grid_deg) as u32,
        simplify_algo: recipe.simplify_algo,
        geom: recipe.geom,
        codec: recipe.codec,
        density_weight_floor_e4: recipe.density_weight_floor_e4,
    }
}

impl From<&PayloadHeader> for Provenance {
    fn from(header: &PayloadHeader) -> (provenance: Provenance) {
        Provenance {
            dataset: header.dataset,
            eps_m: header.epsilon_m,
            quant_bits: header.quant_bits,
            grid_deg: header.grid_deg,
            simplify_algo: header.simplify_algorithm,
            geom: header.geom,
            codec: header.codec,
            density_weight_floor_e4: header.density_weight_floor_e4,
        }
    }
}

impl vstd::std_specs::convert::FromSpecImpl<&PayloadHeader> for Provenance {
    open spec fn obeys_from_spec() -> bool {
        true
    }

    open spec fn from_spec(header: &PayloadHeader) -> Provenance {
        header_provenance(*header)
    }
}

impl From<&Recipe> for Provenance {
    fn from(recipe: &Recipe) -> (provenance: Provenance) {
        Provenance {
            dataset: recipe.dataset,
            eps_m: narrow(recipe.eps_m),
            quant_bits: recipe.quant_bits,
            grid_deg: narrow(recipe.grid_deg),
            simplify_algo: recipe.simplify_algo,
            geom: recipe.geom,
            codec: recipe.codec,
            density_weight_floor_e4: recipe.density_weight_floor_e4,
        }
    }
}

impl vstd::std_specs::convert::FromSpecImpl<&Recipe> for Provenance {
    open spec fn obeys_from_spec() -> bool {
        true
    }

    open spec fn from_spec(recipe: &Recipe) -> Provenance {
        recipe_provenance(*recipe)
    }
}

/// What a name finds is a preset of that name, and a name that finds none is no
/// preset's.
pub proof fn lemma_found_by_their_names(name: Seq<char>)
    ensures
        named(name, all_recipes(), 0) matches Some(recipe) ==> recipe.name@ == name
            && all_recipes().contains(recipe),
        named(name, all_recipes(), 0) is None ==> forall|i: int|
            0 <= i < all_recipes().len() ==> (#[trigger] all_recipes()[i]).name@ != name,
{
    lemma_found_from(name, all_recipes(), 0);
}

proof fn lemma_found_from(name: Seq<char>, recipes: Seq<Recipe>, i: int)
    requires
        0 <= i <= recipes.len(),
    ensures
        named(name, recipes, i) matches Some(recipe) ==> recipe.name@ == name && recipes.contains(
            recipe,
        ),
        named(name, recipes, i) is None ==> forall|k: int|
            i <= k < recipes.len() ==> (#[trigger] recipes[k]).name@ != name,
    decreases recipes.len() - i,
{
    if i < recipes.len() && recipes[i].name@ != name {
        lemma_found_from(name, recipes, i + 1);
    }
}

} // verus!
