//! clipring — terminal clipboard history over OSC 52: the verified core.

pub mod base64;
pub mod cli;
pub mod jsonl;
pub mod jsonl_laws;
pub mod numtext;
pub mod osc52;
pub mod picker;
pub mod ring;
pub mod store;
pub mod text;
pub mod textutil;
pub mod whitespace;

use vstd::prelude::*;

verus! {

/// Crate version, single source of truth for `--version` and `info`.
pub const VERSION: &'static str = "0.1.0";

} // verus!
