//! Generators that build a maze by knocking down walls.
pub mod kruskals;
pub mod prims;
