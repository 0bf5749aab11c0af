//! Copy propagation for programs in static single assignment form.
//!
//! [`CopyPropagation`] is an optimization pass over an [`ir::EthIRProgram`]. It lets every read of
//! a copied local read the local that the copy was made from. Inside a block the copies are those
//! that the block itself makes. From block to block they are the locals that a block takes in:
//! where all blocks that may come before hand on the same local, and that local is defined above,
//! there is no need to hand it on, and the slot goes.
//!
//! [`settle::settle`] says what the pass makes of a program, over the spec functions of [`model`],
//! and [`laws`] states what follows: among other things that a legal program stays legal and does
//! the same when it runs, whatever its operations mean. [`plain`] says in terms of positions, walks
//! up the dominators and chains of slots alone which reads go past which copies and which slots go,
//! [`stays`] says which reads and slots are left as they are, and [`tables`] says field by field
//! what the views show, what the invariants ask for and what the pass leaves of the tables.

pub mod analyses;
pub mod chains;
pub mod compact;
mod copies_alike;
pub mod flow;
pub mod groups;
pub mod ir;
pub mod laws;
pub mod layout;
pub mod legality;
pub mod local_map;
pub mod model;
pub mod pass;
pub mod plain;
mod redundancy;
pub mod replace;
pub mod scope;
pub mod semantics;
pub mod settle;
pub mod slots;
mod slots_alike;
pub mod stays;
pub mod tables;

pub use crate::pass::CopyPropagation;
