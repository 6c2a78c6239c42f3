//! Track and undo changes to a shell's environment variables.
//!
//! Every invocation of the surrounding tool is a short-lived process; all
//! state lives in one encoded value stored in a reserved environment
//! variable.  This library holds the session model, the codec that lets the
//! state survive across processes, and the algorithms that classify, diff
//! and reverse changes.

pub mod text;
pub mod fingerprint;
pub mod vars;
pub mod session;
pub mod codec;
pub mod restore;
pub mod profile;
pub mod timefmt;
pub mod output;
pub mod export;
