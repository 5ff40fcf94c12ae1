//! The graded broadcast of a primary.
//!
//! [`node`] models the state, [`work`] does one piece of work at a time,
//! [`intake`] takes in messages and hands out effects, and [`laws`],
//! [`relay_laws`] and [`proposal_laws`] state what holds of all of it together.
pub mod aggregators;
pub mod intake;
pub mod laws;
pub mod machine;
pub mod messages;
pub mod node;
pub mod proposal_laws;
pub mod references;
pub mod relay_laws;
pub mod tally_laws;
pub mod work;
