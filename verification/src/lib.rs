//! Verified core logic of a small multi-call collection of Unix utilities:
//! permission modes, regular and glob patterns, UTF-8 decoding, argument
//! parsing, sandbox policies and the text transformations of the applets.

pub mod applets;
pub mod args;
pub mod compliance;
pub mod error;
pub mod glob;
pub mod io;
pub mod locale;
pub mod path;
pub mod permissions;
pub mod platform;
pub mod regex;
pub mod sandbox;
pub mod text;
pub mod utf8;

pub use error::{ProteusError, ProteusResult};
