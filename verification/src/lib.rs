//! Paths that are normalized without touching the filesystem.
//!
//! A path is normalized when it is absolute, canonical (no empty or `.`
//! components, no trailing separator) and free of parent (`..`) components.
//! The library works on the raw bytes of a path.

pub mod trivial;

pub use trivial::{ConvertError, CowNormpath, Error, Normpath, NormpathBuf};
pub use public::canonicalize_lexically;
pub mod imp;
pub mod public;
pub mod laws;
pub mod draw;
