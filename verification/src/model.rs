use vstd::prelude::*;

verus! {

/// A parameterised model of a domain.
pub trait Model {
    /// What the model reads and writes.
    type Signal;

    /// One setting of the model.
    type Params: Clone;

    /// Name, for telemetry.
    fn name(&self) -> &'static str;

    /// The settings the search may choose between.
    ///
    /// Listing them keeps the search exhaustive by construction rather than a hill climb.
    fn candidates(&self) -> Vec<Self::Params>;

    /// Apply one setting.
    fn render(&self, input: &Self::Signal, params: &Self::Params) -> Self::Signal;
}

/// The relation a feasibility row asserts between its linear form and its right-hand side.
#[derive(Clone, Copy, Debug, PartialEq, Eq, Structural, Hash)]
pub enum Sense {
    /// At most.
    Le,
    /// At least.
    Ge,
    /// Exactly.
    Eq,
}

} // verus!
