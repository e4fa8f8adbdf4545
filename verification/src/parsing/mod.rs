//! Readers of the two translation file formats.
pub mod csv;
pub mod ron;
