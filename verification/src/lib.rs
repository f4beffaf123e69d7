//! A steganographic engine for x86 text sections.
//!
//! The engine hides a payload inside an executable's text section by
//! re-encoding instructions into alternative byte sequences of identical
//! length and identical behaviour.  No byte is added, removed or moved:
//! only instructions that admit at least two equivalent encodings
//! ("encoding sites") are rewritten, and the choice of encoding at each
//! site carries the payload bits.

pub mod codec;
pub mod embed;
pub mod engine;
pub mod errors;
pub mod extract;
pub mod insn;
pub mod profile;
pub mod ranges;
pub mod roundtrip;
pub mod scan;
pub mod table;
