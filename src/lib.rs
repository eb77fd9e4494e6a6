//! Spatial core of a top-down tile game: chunked tile layers, a world of four
//! layers with tile lookups and mutation, an axis-separated collision
//! resolver, a localized grid path search, flood fills over wired
//! interactable tiles, and the reader of the map format.
//!
//! Positions are fixed point (1/256 pixel, tiles of 16 pixels); tile
//! coordinates are integers.

pub mod anim;
pub mod chunk;
pub mod map;
pub mod motion;
pub mod path;
pub mod point;
pub mod region;
pub mod trigger;
pub mod world;
