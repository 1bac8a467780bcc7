//! A cycle-stepped simulator of a dynamically scheduled instruction pipeline:
//! register renaming, reservation stations spread over several execution
//! units, a single-place result bus that forwards completed results, and a
//! bus controller that serialises the external memory transactions of the
//! units that need them.
//!
//! Every function of the crate is verified against the contract written on
//! it. The contracts speak of mathematical views of the data: a tag is a unit
//! name and a slot index; a unit is its name, its instruction formats, what
//! it does with its instructions, and its reservation-station slots with
//! the progress of each; and the processor is the tuple of its parts. What
//! a cycle does to the processor, and what it returns, is a function of
//! these views.

pub mod arithmetic_unit;
pub mod bus;
pub mod coherence;
pub mod decoder;
pub mod display;
pub mod error;
pub mod execution_path;
pub mod memory_unit;
pub mod nop_unit;
pub mod processor;
pub mod register;
pub mod result_bus;
pub mod station;
