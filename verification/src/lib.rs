//! Political-map recoloring: a province registry parsed from a
//! semicolon-delimited definition table, an ownership resolver that turns
//! save-file state entries into color assignments, a recolor engine that
//! rewrites a pixel buffer by exact color match, a sea-mask pass, and an
//! owner-color table with a uniqueness-preserving allocator.

pub mod bytes;
pub mod color;
pub mod owners;
pub mod pixels;
pub mod recolor;
pub mod registry;
pub mod resolver;
