//! The size threshold and the summary that stands in for output past it.

pub mod laws;
pub mod summary;
pub mod tokens;

use vstd::prelude::*;

use crate::fold::summary::{Fold, FoldView};

verus! {

/// When output folds, and how many fold files are kept.
#[derive(Debug)]
pub struct FoldConfig {
    /// Whether streams fold at all.
    pub enabled: bool,
    /// The estimated token count from which a stream folds.
    pub threshold_tokens: usize,
    /// Directory for fold files, where one was asked for.
    pub directory: Option<Vec<u8>>,
    /// How many fold files rotation leaves in place.
    pub max_files: usize,
}

/// What the caller of a run is told about one stream.
#[derive(Debug)]
pub enum FoldOutcome {
    /// The stream reached the caller byte for byte.
    Passthrough,
    /// The stream was summarised.
    Folded(Fold),
}

/// What a [`FoldOutcome`] says.
pub enum OutcomeView {
    Passthrough,
    Folded(FoldView),
}

impl View for FoldOutcome {
    type V = OutcomeView;

    open spec fn view(&self) -> OutcomeView {
        match self {
            FoldOutcome::Passthrough => OutcomeView::Passthrough,
            FoldOutcome::Folded(fold) => OutcomeView::Folded(fold@),
        }
    }
}

} // verus!
