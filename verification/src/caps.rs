//! The capabilities of this build: which geometry decoders and payload codecs
//! it holds. Every decoder is built in.

use vstd::prelude::*;

use crate::common::GeomEncoding;

verus! {

/// Delta+varint arc geometry decoder.
pub const GEOM_VARINT_ARCS: bool = true;

/// Fixed-width arc geometry decoder.
pub const GEOM_FIXED_WIDTH_ARCS: bool = true;

/// `FullRings` geometry decoder.
pub const GEOM_FULL_RINGS: bool = true;

/// Grid-only coarse assets.
pub const GEOM_COARSE: bool = true;

/// Gzip payload decoder.
pub const GZIP: bool = true;

/// Zstd payload decoder.
pub const ZSTD: bool = true;

/// Brotli payload decoder.
pub const BROTLI: bool = true;

/// Xz payload decoder.
pub const XZ: bool = true;

/// Whether this build decodes the geometry encoding.
pub open spec fn geom_built_in(geom: GeomEncoding) -> bool {
    match geom {
        GeomEncoding::VarintArcs => GEOM_VARINT_ARCS,
        GeomEncoding::FixedWidthArcs => GEOM_FIXED_WIDTH_ARCS,
        GeomEncoding::FullRings => GEOM_FULL_RINGS,
        GeomEncoding::Coarse => GEOM_COARSE,
    }
}

/// Whether this build decodes the geometry encoding.
#[must_use]
pub fn geom_compiled_in(geom: GeomEncoding) -> (built_in: bool)
    ensures
        built_in == geom_built_in(geom),
{
    match geom {
        GeomEncoding::VarintArcs => GEOM_VARINT_ARCS,
        GeomEncoding::FixedWidthArcs => GEOM_FIXED_WIDTH_ARCS,
        GeomEncoding::FullRings => GEOM_FULL_RINGS,
        GeomEncoding::Coarse => GEOM_COARSE,
    }
}

} // verus!
