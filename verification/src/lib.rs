//! Tracks per-directory series watching progress and persists it in a
//! comment-preserving structured text document.
//!
//! The heart of the crate is the document engine: a line-oriented model of a
//! TOML-style configuration file that keeps every byte of formatting and
//! commentary, so that programmatic updates rewrite only the values that
//! actually change.  Parsing is proved to be the inverse of serialization
//! on every accepted text, and reconciliation is specified table by table:
//! which tables survive, which bytes of a surviving table may change, and
//! where fresh tables appear.
//!
//! The modules, roughly bottom-up: [`bytes`] holds the byte classes and
//! scanning helpers of the grammar; [`num`] the decimal integer literals;
//! [`doc`] the document model, its well-formedness, and the serializer;
//! [`parse`] the parser; [`edit`] the field updater, the record locator,
//! and the reconciler with its laws; [`schema`] the typed record list;
//! [`facade`] the load/store/render layer over whole texts; [`media`] the
//! decision procedures around playing episodes.
//!
//! All text handled by the engine is raw bytes (`Vec<u8>`), so documents
//! round-trip byte for byte regardless of encoding.

pub mod bytes;
pub mod doc;
pub mod edit;
pub mod errors;
pub mod facade;
pub mod media;
pub mod num;
pub mod parse;
pub mod schema;
