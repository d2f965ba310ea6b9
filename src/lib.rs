//! A lookup-table gadget that proves a fixed-length string is accepted by a
//! deterministic finite automaton.
//!
//! - `automaton`: the automaton description and its successor lookup.
//! - `walk`: the witness walk over the input characters, with a fallback to
//!   the start state, and the strict run that refuses a missing transition.
//! - `table`: the transition table (an all-zero row, then one row per
//!   transition in key order, with substring tags) and the accepted states.
//! - `gadget`: the selector-controlled transition lookups, the acceptance
//!   lookup and the per-position substring tags, checked on plain values.
//! - `laws`: what holds of these together.

pub mod automaton;
pub mod walk;
pub mod table;
pub mod gadget;
pub mod laws;
