pub mod agreement;
pub mod answers;
pub mod arcs;
pub mod bench;
pub mod blob;
pub mod blob_layout;
pub mod bytes;
pub mod caps;
pub mod cells;
pub mod claims;
pub mod clean;
pub mod codecs;
pub mod common;
pub mod config;
pub mod csr;
pub mod decompress;
pub mod density;
pub mod download;
pub mod eager;
pub mod encode;
pub mod error;
pub mod evenodd;
pub mod finder;
pub mod format;
pub mod frames;
pub mod full_rings;
pub mod geometry;
pub mod grid;
pub mod header;
pub mod hops;
pub mod ieee;
pub mod intact;
pub mod junctions;
pub mod lex;
pub mod meeting;
pub mod order;
pub mod owners;
pub mod path;
pub mod payload;
pub mod pip;
pub mod pool;
pub mod presets;
pub mod raster;
pub mod raycast;
pub mod rdp;
pub mod readback;
pub mod reconstruct;
pub mod sections;
pub mod select;
pub mod sift;
pub mod sizes;
pub mod snapped;
pub mod source;
pub mod stitch;
pub mod survivors;
pub mod text;
pub mod thin;
pub mod topo;
pub mod topo_format;
pub mod topology;
pub mod tourney;
pub mod types;
pub mod unwind;
pub mod validate;
pub mod viewer;
pub mod walks;
pub mod wire;
