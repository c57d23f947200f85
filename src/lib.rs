//! Storage kernel for things made of typed parts.
//!
//! Things are grouped by their exact set of parts into archetypes and packed into fixed-size
//! chunks. Handles to things, archetypes and chunks come from generation-checked handle tables
//! that detect stale references; the tables' free lists are ring buffers, and the record arrays
//! are vectors whose storage is reserved up front so that growth never moves an element.
use vstd::prelude::*;

pub mod bits;
pub mod depot;
pub mod raw_table;
pub mod registry;
pub mod ring_buf;
pub mod ring_vec;
pub mod virtual_vec;
pub mod world;

verus! {

} // verus!
