//! Partial-chain synchronization and note-consumability logic of a ledger client.
//!
//! The crate holds a partial Merkle Mountain Range over block-header commitments,
//! the trimming of remote authentication paths to the local forest, the decisions
//! of block-header synchronization, and the rules that screen notes for the
//! accounts a client tracks.
use vstd::prelude::*;

pub mod cli;
pub mod digest;
pub mod errors;
pub mod forest;
pub mod in_order;
pub mod mmr_model;
pub mod node_builder;
pub mod note_screener;
pub mod partial_mmr;
pub mod sync;

verus! {

} // verus!
