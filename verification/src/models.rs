//! The data the pipeline produces: citation records, the stance labels the
//! classifier assigns to them, the final report, and the extraction errors.

use vstd::prelude::*;

verus! {

/// The citing sentence's expressed relationship to the cited work.
#[derive(Debug, Clone, Copy, PartialEq, Eq, Structural)]
pub enum Sentiment {
    Agreement,
    Disagreement,
    Neutral,
}

/// One matched reference occurrence: a display identifier, the normalized
/// three-sentence context window around the match, and the stance label,
/// absent until the classifier has run.
#[derive(Debug, Clone)]
pub struct Citation {
    pub id: String,
    pub context: String,
    pub sentiment: Option<Sentiment>,
}

/// The ordered sequence of citations, in document-encounter order, assembled
/// once after classification for serialization.
#[derive(Debug, Clone)]
pub struct Report {
    pub citations: Vec<Citation>,
}

/// Why extraction produced no report.
#[derive(Debug, Clone, Copy, PartialEq, Eq, Structural)]
pub enum ExtractError {
    /// The document text was empty or whitespace-only after trimming.
    EmptyInput,
    /// The document matched zero citations.
    NoCitationsFound,
}

} // verus!
