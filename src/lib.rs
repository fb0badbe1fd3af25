//! Version resolution and activation engine for a multi-runtime version manager.
//!
//! The library holds the decisions of the engine: the pin-file format, the
//! directory-ancestry resolution of pinned versions, the plugin registry, the
//! install-root state machine and the projection of a resolution onto the
//! executable search path. Reading the disk and mutating the shell are left to
//! the caller, which hands plain values in and takes plain values back.

pub mod activation;
mod bytes;
pub mod doctor;
pub mod installer;
pub mod pinfile;
pub mod registry;
pub mod resolve;
