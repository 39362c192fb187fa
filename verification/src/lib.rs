//! Monte Carlo estimation of a team's chances of finishing a round-robin
//! league season at or above a target rank.
//!
//! The crate models current standings as a [`LeagueTable`], remaining games as
//! [`Match`] fixtures, samples goal counts from fixed home/away scoring
//! distributions, replays the remainder of the season many times, and
//! aggregates the runs into a success percentage and a conditional average
//! win count.

pub mod aggregate;
pub mod sampler;
pub mod sim;
pub mod table;

pub use aggregate::calculate_results;
pub use aggregate::calculate_results_seeded;
pub use aggregate::run_batch;
pub use aggregate::run_batch_seeded;
pub use aggregate::validate_inputs;
pub use aggregate::SimError;
pub use sampler::SeededRng;
pub use sim::run_simulation;
pub use sim::run_simulation_seeded;
pub use table::LeagueTable;
pub use table::Match;
pub use table::Team;
