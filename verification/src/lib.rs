//! A declarative package-list manager core: parsing, validation,
//! classification and formatting of a plain-text package manifest.

pub mod bytes;
pub mod package;
pub mod parse;
pub mod validate;
pub mod classify;
pub mod format;
pub mod install;
pub mod roundtrip;
