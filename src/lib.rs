//! Ranks lines of text by how well they fuzzily match a query term, with an
//! optional bigram-similarity weighting towards an anchor text.
use vstd::prelude::*;

pub mod anchor;
pub mod bigrams;
pub mod pattern;
pub mod scorer;
pub mod text;

pub use anchor::Anchor;
pub use bigrams::{Bigrams, Ratio};
pub use scorer::{Score, Scorer};

verus! {

} // verus!
