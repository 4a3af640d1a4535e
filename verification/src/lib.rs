//! Embeds a secondary-platform build artifact inside a primary program.
//!
//! The library turns an annotated module declaration into a standalone
//! sub-project, describes how its manifest is synthesized from a dependency
//! payload, and re-emits the declaration with the built artifact and its
//! loader bound as constants.  All file and process work is delegated to the
//! caller through an explicit action/event protocol, so every decision the
//! pipeline makes is verified here.
//!
//! - `tokens` models the annotated input; `extract` finds the module name
//!   and body; `reflow` re-serializes a payload token stream into
//!   configuration text.
//! - `config` and `parse` hold the manifest document model with its
//!   serializer and parser; `manifest` synthesizes a manifest from a
//!   dependency payload.
//! - `embed` emits the output declaration with its two constants, and
//!   `pipeline` is the state machine a driver runs against the real world.
//! - `laws` and `payload_laws` prove the crate's laws: the serializer and
//!   parser invert each other, synthesis is idempotent and merges with
//!   last-writer-wins semantics, and a re-serialized payload parses back to
//!   exactly the dependency table its tokens describe.

use vstd::prelude::*;

pub mod text;
pub mod tokens;
pub mod reflow;
pub mod extract;
pub mod config;
pub mod parse;
pub mod manifest;
pub mod embed;
pub mod pipeline;
pub mod laws;
pub mod payload_laws;

verus! {

} // verus!
