//! Decoders for a legacy game client's asset formats: a hash-indexed
//! archive container, its bitstream LZ decompressor, and a run-length
//! encoded sprite image format.
//!
//! Everything here works on plain byte buffers; opening files and other
//! I/O is left to the caller.

pub mod bytes;
pub mod npc;
pub mod nrv2b;
pub mod pak;
pub mod spr;
pub mod tables;
