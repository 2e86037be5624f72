//! A conversational client core for a streaming generative-text HTTP API.
//!
//! The library holds the verified pipeline: the SSE frame decoder, the
//! code-fence extraction state machine, and the file-persistence worker
//! logic that consumes commands from a bounded queue. Network and disk
//! access live outside the library and exchange plain values with it.

pub mod args;
pub mod decoder;
pub mod errors;
pub mod extensions;
pub mod file_io;
pub mod genai;
pub mod paths;
pub mod properties;
pub mod queue;
pub mod text;
