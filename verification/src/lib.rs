//! Orca: a DAG consensus over graded reliable broadcast.
//!
//! - [`ordered`]: maps, sets and relations that are walked in the order of keys.
//! - [`types`]: blocks and what they are made of.
//! - [`committee`]: authorities, stake and thresholds.
//! - [`primary`]: the broadcast of blocks, as a state machine that asks its
//!   surroundings questions and hands them effects to carry out.
//! - [`consensus`]: the blocks that a node knows, the rules by which leaders are
//!   committed or skipped, and the order in which blocks are committed.
pub mod committee;
pub mod consensus;
pub mod ordered;
pub mod primary;
pub mod types;
