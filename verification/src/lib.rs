//! Metaheuristic search for combinatorial optimisation: simulated annealing
//! and a genetic engine over a shared criterion.
//!
//! Every quantity that the engines compare (objective values, penalties,
//! temperatures) is an integer on a grid of the caller's choosing, so that
//! the search rules can be stated and proved exactly. What chance decides is
//! drawn from `rand`; the contracts say what holds of every draw.

pub mod evaluation;
pub mod base;
pub mod config;
pub mod criterion;
pub mod coolers;
pub mod stop;
pub mod rng;
pub mod dice;
pub mod thermal;
pub mod trajectory;
pub mod algorithms;
pub mod selection;
pub mod chromosome;
pub mod population;
pub mod genetic;
pub mod knapsack;
