//! Localized string tables: a compact binary record format for them, and the
//! expansion of indexed placeholders in the strings they hold.

pub mod buildscript;
pub mod compiler;
pub mod document;
pub mod record;
pub mod strings;
pub mod util;
