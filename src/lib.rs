//! Record and replay of multithreaded WebAssembly programs: the trace model,
//! its binary codec, the record-time recording policy and the construction of
//! per-site replay operations.
pub mod codec;
pub mod digest;
pub mod iovec;
pub mod record;
pub mod replay;
pub mod replay_proofs;
pub mod text;
pub mod trace;
