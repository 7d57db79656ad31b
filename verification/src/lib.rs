//! Vector databases with an in-memory record store, top-k ranking, an HNSW
//! graph index, an IVF cluster index and binary persistence formats.
//!
//! Vectors and distances are `f32` values. Inside this crate an `f32` is held
//! by its IEEE-754 bit pattern (`u32`), so that every decision the databases
//! make (which records exist, which rank first, how bytes are laid out) is
//! integer logic with a contract. The numeric distance functions work on the
//! floats themselves and live with the callers.

pub mod float_bits;
pub mod ranking;
pub mod counter;
pub mod copying;
pub mod ds20code;
pub mod glm5;
pub mod le_bytes;
pub mod text;
pub mod kimi25;
pub mod qwen35;
pub mod minimax25;
