use vstd::prelude::*;

pub mod generator;
pub mod token;
pub mod tokenize;
pub mod train;
pub mod transitions;

pub use generator::MarkovGenerator;

verus! {

/// Selects how token sequences are segmented during training.
#[derive(Clone, Copy, Debug, PartialEq, Eq, Structural)]
pub enum BoundaryConfigs {
    /// Every input line is independently wrapped in boundary markers.
    LineEndings,
    /// Boundaries come only from sentence-ending punctuation; the chain
    /// is carried across line breaks.
    SentenceEndings,
}

/// Settings for a generation run: how many tokens to produce and which
/// boundary policy training uses.
#[derive(Clone, Copy, Debug)]
pub struct Args {
    /// Number of tokens to generate.
    pub max_tokens: usize,
    /// Boundary configuration for training.
    pub boundaries: BoundaryConfigs,
}

impl Default for Args {
    fn default() -> (r: Args)
        ensures
            r.max_tokens == 100,
            r.boundaries == BoundaryConfigs::LineEndings,
    {
        Args { max_tokens: 100, boundaries: BoundaryConfigs::LineEndings }
    }
}

} // verus!
