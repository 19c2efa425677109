//! Tile-based image rendering: a tile source that splits an image into
//! rectangles, a per-tile render step driven by a pixel shader, and a
//! single-writer compositor that merges finished tiles into a framebuffer.

pub mod tile;
pub mod tiling;
pub mod render;
pub mod compositor;
pub mod pipeline;
pub mod queue;
pub mod config;
