//! A verified assignment engine for a gift exchange: given a roster of
//! participants with per-participant exclusion lists, compute a random
//! one-to-one `giving_to` mapping in which no one gives to themself, no
//! two participants give to each other, and every exclusion is honored.

mod engine;
mod laws;
mod model;
mod participant;

pub use engine::SecretSatan;
pub use laws::lemma_tiny_roster_infeasible;
pub use model::always_assignable;
pub use model::names_distinct;
pub use model::reset_no_exclusions;
pub use model::valid_assignment;
pub use participant::Participant;
pub use participant::SecretSatanError;
pub use participant::spec_validate;
