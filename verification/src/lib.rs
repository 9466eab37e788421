//! Citation extraction and stance classification.
//!
//! The library locates citation markers (parenthetical author-year,
//! bracketed numeric, and bare author-year forms) in a manuscript's text,
//! assembles a normalized three-sentence context window around each, and
//! classifies the citing sentence's stance toward the cited work.

pub mod classifier;
pub mod extractor;
pub mod matcher;
pub mod models;
pub mod text;
