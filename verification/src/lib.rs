//! A generational mark-and-sweep memory manager.
//!
//! The heap owns every object it creates and hands out stable handles
//! (indices into a slot arena).  Objects start in the young generation,
//! age by one for each young collection they survive, and are promoted
//! to the old generation when they reach the age threshold or when an
//! allocation guarantee bulk-evacuates the young survivors.  Collection
//! marks every object reachable from the root registry and the thread
//! operand stacks, then sweeps one generation.

pub mod model;
pub mod reach;
pub mod vm;
pub mod laws;
