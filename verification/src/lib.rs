//! Belief engine for a "Fish"-family card game.
//!
//! Cards are partitioned into fixed six-card books. Players request cards
//! from opponents and may declare that their team holds an entire book.
//! The engine watches the public event stream and keeps, for every physical
//! card position (a slot), the tightest set of identities that position can
//! still hold; it propagates new certainty between slots and turns the
//! current belief state into a concrete next action.

pub mod bits;
pub mod card;
pub mod engine;
mod externs;
pub mod laws;
pub mod matrix;
pub mod policy;
pub mod prune;
pub mod update;
