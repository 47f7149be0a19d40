//! Line-level staging library: parse zero-context unified diffs, select
//! individual changed lines, and re-render a minimal patch that stages
//! exactly those lines.
//!
//! The heart of the library is the hunk data model ([`hunk::Hunk`]) and its
//! pure `filter` operation, which keeps an arbitrary subset of a hunk's
//! deletion and addition lines and recomputes all position metadata so the
//! result is itself a valid, independently applicable patch.
//!
//! Layout: [`hunk`], [`file`] and [`full`] hold the structured diff model
//! with its parsing, filtering and rendering; [`sel`] the concrete line
//! selections that drive filtering; [`lines`] a flat per-line reading of
//! raw diff text and its numbered listing; [`refs`] the `file:refs`
//! selector grammar; [`patch`] the patch builder over flat lines;
//! [`stage`] the end-to-end staging decision; [`laws`] and [`roundtrip`]
//! the proved properties that tie parsing, rendering and filtering
//! together.

pub mod file;
pub mod full;
pub mod hunk;
pub mod laws;
pub mod lines;
pub mod patch;
pub mod refs;
pub mod roundtrip;
pub mod sel;
pub mod stage;
pub mod text;
