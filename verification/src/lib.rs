//! Patch compilation for a single target image.
//!
//! - `rules`: the preset rules, from text to variables and categorised
//!   presets; `resolve` and `number`: the values of the variables.
//! - `template`: the patch template, from text to the instructions of
//!   the expected module, and from the assembler's answers to patches.
//! - `legacy`: the legacy patch list, decoded and encoded.
//! - `patch`: patches and their writing into the image; `applier`: the
//!   course of an application around the image codec.
//! - `ini`, `first_seen`, `order`, `text`: the section format, the order
//!   of a file, and texts.
//! - `error`: the errors.

pub mod applier;
pub mod error;
pub mod first_seen;
pub mod ini;
pub mod legacy;
pub mod number;
pub mod order;
pub mod patch;
pub mod resolve;
pub mod rules;
pub mod template;
pub mod text;
