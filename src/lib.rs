//! A small moving-entity scene: integer motion that advances once per tick,
//! an edge-triggered key that picks a background color, a table of named
//! color specifications, and the parser that splits a `(r, g, b)`
//! specification into its channel fields.

pub mod color;
pub mod table;
pub mod motion;
pub mod input;
