/// The line-delimited flat-record bridge.
pub mod lines;
/// The markup (tag/attribute/text tree) bridge.
pub mod markup;
/// The row-and-header flat-record bridge.
pub mod rows;
/// The scalar inference engine.
pub mod scalar;
/// Character, byte and string helpers.
pub mod text;
/// The canonical pivot value and its ordered-map operations.
pub mod value;

use vstd::prelude::*;

verus! {

/// The serialization formats the conversion pipeline can read and write.
#[derive(Debug, Copy, Clone, PartialEq, Eq, Structural)]
pub enum Format {
    Json,
    Yaml,
    Toml,
    Ron,
    Json5,
    Bson,
    Hocon,
    Xml,
    Hjson,
    Csv,
}

} // verus!
