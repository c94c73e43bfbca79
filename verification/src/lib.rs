//! Mirrors a local directory tree onto a remote slash-separated file store.
//!
//! The library is the planning core: it translates local paths into the
//! remote convention, remaps a local tree below its root onto a remote base
//! directory, and lays out the exact protocol calls (directory creation,
//! file stores, recovery chains) that a driver then performs over the wire.

pub mod config;
pub mod paths;
pub mod plan;
