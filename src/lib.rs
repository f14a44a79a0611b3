//! Parser combinators over text, a grammar for tagged geometry documents,
//! queries over the parsed tree, and packing of the extracted geometry.

pub mod text;
pub mod combinators;
pub mod lexical;
pub mod numeric;
pub mod document;
pub mod query;
pub mod geometry;
pub mod cli;
pub mod events;
pub mod printing;
