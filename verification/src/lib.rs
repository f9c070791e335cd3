//! Conversational memory for a single-user chat companion: the transcript
//! model, the retention-based compressor that trims it, the session store that
//! owns it, and the rules that turn collaborator replies and shell commands
//! into transcript changes.

pub mod client;
pub mod compress;
pub mod decimal;
pub mod guarantees;
pub mod session;
pub mod shell;
pub mod store;
pub mod text;
pub mod time;
pub mod types;
