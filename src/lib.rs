//! A verified replica of an on-chain order book and the batch dispatch built on it.
//!
//! `orderbook` holds the replica: price levels and orders in two tables, linked into a
//! price list per side and an order list per level, with the insertion-position search
//! and post-insertion matching of the chain. `book_invariant` states and proves what
//! holds of its price lists. `state` mirrors the Sequencer's request queue, `dispatch`
//! runs a batch through a scratch replica to derive its price hints, `sync` applies the
//! chain's events, and `match_simulator` keeps predictions pending per transaction.
use vstd::prelude::*;

pub mod book_invariant;
pub mod config;
pub mod dispatch;
pub mod match_simulator;
pub mod orderbook;
pub mod state;
pub mod sync;
pub mod types;
pub mod u256;

verus! {

} // verus!
