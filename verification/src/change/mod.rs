//! Planned extensions to the language's inventory of changes.

pub mod prepositions;
