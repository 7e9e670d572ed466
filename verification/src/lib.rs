//! A glyph-atlas text cache: queues per-frame text draw requests, packs
//! rasterized glyph bitmaps into a fixed-size single-channel atlas by
//! shelf packing with least-recently-used row eviction, and emits exact
//! clip-space quad geometry for every resident glyph.

pub mod atlas;
pub mod geometry;
pub mod text;
