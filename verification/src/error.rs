//! What can be wrong with a configuration.

use vstd::prelude::*;

verus! {

/// A configuration that no solver can be built from. Every variant is detected
/// when a value is constructed; nothing is retried.
#[derive(Debug, Clone, Copy, PartialEq, Eq, Structural)]
pub enum ConfigurationError {
    /// A token is empty or its first letter names no kind of cell.
    UnknownToken,
    /// The grid has no row, or its first row has no column.
    EmptyGrid,
    /// Two rows of the grid differ in length.
    RaggedGrid,
    /// The number of cells does not fit the machine's index type.
    GridTooLarge,
    /// Every cell of the grid is a wall.
    NoOpenCell,
    /// The three outcome probabilities are not all non-negative with sum one.
    OutcomeProbabilities,
    /// The discount factor is not strictly between zero and one.
    DiscountFactor,
    /// The learning rate is not in the half-open interval from zero (excluded)
    /// to one (included).
    LearningRate,
    /// The probability that a move succeeds is not between zero and one.
    SuccessProbability,
    /// The exploration rate is not between zero and one.
    Epsilon,
    /// The exploration decay rate is not in the interval from zero (included) to
    /// one (excluded).
    EpsilonDecay,
    /// A transition tensor or an action-value table does not have the shape that
    /// the grid asks for.
    Shape,
    /// A transition tensor holds a negative entry, gives a wall outgoing mass, or
    /// has an open cell whose outgoing mass is not exactly one.
    MassNotConserved,
    /// An action-value table holds an entry beyond the largest admissible value.
    ValueOutOfRange,
}

} // verus!
