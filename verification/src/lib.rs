//! A minimal telemetry collector core: a reversible byte-obfuscation codec,
//! a wire-message parser and serializer, a fixed-capacity per-client history,
//! and a registry mapping client identities to their histories.

pub mod codec;
pub mod history;
pub mod identity;
pub mod numtext;
pub mod registry;
pub mod render;
pub mod sort;
pub mod wire;
