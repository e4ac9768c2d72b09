use vstd::prelude::*;

verus! {

/// Why an engine or one of its parts could not be built.
#[derive(Clone, Copy, Debug, PartialEq, Eq, Structural)]
pub enum ConfigError {
    /// The population has no member.
    EmptyPopulation,
    /// The population has fewer than two members.
    PopulationTooSmall,
    /// The mutation rate is not a fraction between zero and one.
    MutationRateOutOfRange,
    /// The cooling factor is not strictly between zero and one.
    CoolingAlphaOutOfRange,
    /// The step budget is zero.
    NonPositiveMaxSteps,
    /// A payload has fewer than two loci, so no crossover point exists.
    PayloadTooShort,
    /// The tournament has no seat, or more seats than the population has members.
    TournamentSizeOutOfRange,
}

} // verus!
