//! The ways in which an operation on a document can fail.

use vstd::prelude::*;

verus! {

/// Why an operation produced no result.
#[derive(Debug, Clone, PartialEq, Eq)]
pub enum PdfError {
    /// A page selection is neither `N` nor `N-M` with `1 <= N <= M`.
    InvalidSelectionSyntax { token: String },
    /// The document has no page with this number.
    PageNotFound { page: u32 },
    /// The chain from the trailer over the catalog to the page tree cannot be
    /// followed, or the page tree runs in a circle.
    StructuralError,
    /// A merge was asked for with fewer than two sources.
    InsufficientInputs,
    /// No page is left to put into the output.
    EmptySelection,
    /// The output would need more objects, or more pages, than its integers
    /// can number.
    LimitExceeded,
}

/// An error as mathematics.
pub enum Failure {
    InvalidSelectionSyntax(Seq<char>),
    PageNotFound(u32),
    StructuralError,
    InsufficientInputs,
    EmptySelection,
    LimitExceeded,
}

impl View for PdfError {
    type V = Failure;

    open spec fn view(&self) -> Failure {
        match self {
            PdfError::InvalidSelectionSyntax { token } => Failure::InvalidSelectionSyntax(token@),
            PdfError::PageNotFound { page } => Failure::PageNotFound(*page),
            PdfError::StructuralError => Failure::StructuralError,
            PdfError::InsufficientInputs => Failure::InsufficientInputs,
            PdfError::EmptySelection => Failure::EmptySelection,
            PdfError::LimitExceeded => Failure::LimitExceeded,
        }
    }
}

} // verus!
