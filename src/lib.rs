//! Incremental UTF-8 reassembly for text that arrives in arbitrary chunks.
pub mod decode;
pub mod reassembler;
