//! The error taxonomy shared by every alignment engine.

use vstd::prelude::*;

verus! {

/// Why an alignment call failed.
#[derive(Debug, Clone, Copy, PartialEq, Eq, Structural)]
pub enum DtwError {
    /// An empty sequence, mismatched lengths, or an invalid band width.
    InvalidInput,
    /// A threshold search proved that no alignment beats the bound; carries
    /// the query row that was reached and the total number of query rows.
    EarlyAbandoned(usize, usize),
    /// The scouting phase found no candidate window.
    NoCandidates,
    /// Every candidate window of a scouting search was abandoned, so no
    /// score was ever confirmed.
    NoUsableCandidate,
    /// A windowed table was missing the cell that holds the result.
    MalformedWindow,
}

} // verus!
