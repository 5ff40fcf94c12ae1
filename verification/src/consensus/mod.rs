//! The consensus state machine.
//!
//! [`model`] defines the contents of the state and what every step does to them.
//! [`state`], [`setup`], [`history`] and [`cleanup`] carry the steps out.
//! [`rules`], [`ordering`], [`linkage`], [`commit`], [`recovery`], [`fallback`],
//! [`engine`], [`progress`] and [`messages`] evaluate the commit rules, from the
//! evidence up to the handling of a message. The remaining modules hold what is
//! proved of them: [`paths`] and [`validity`] for the steps, [`laws`] and its
//! companions for the whole.
pub mod anchor_laws;
pub mod cleanup;
pub mod collection_laws;
pub mod commit;
pub mod commit_laws;
pub mod dag_support_laws;
pub mod decision_laws;
pub mod delivery_laws;
pub mod engine;
pub mod evidence_laws;
pub mod fallback;
pub mod fallback_laws;
pub mod graph_laws;
pub mod history;
pub mod history_laws;
pub mod laws;
pub mod linkage;
pub mod messages;
pub mod model;
pub mod observation_laws;
pub mod order_laws;
pub mod ordering;
pub mod paths;
pub mod progress;
pub mod promotion_laws;
pub mod recovery;
pub mod rule_laws;
pub mod rules;
pub mod sequence_laws;
pub mod setup;
pub mod state;
pub mod support_laws;
pub mod validity;
