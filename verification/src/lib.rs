//! Server-side logic of the Pog Bilder chat server: message framing on the
//! wire, the configuration variables, the big-file transfer bookkeeping and
//! the per-client decisions, each with its contract.

pub mod args;
pub mod big_file;
pub mod buffer;
pub mod messages;
pub mod session;
pub mod text;
pub mod wire;
