//! Codec for tables of player color overrides.
//!
//! The library converts between an in-memory table of entry-key to color
//! bindings and the tagged, JSON-like text document a game's asset pipeline
//! persists.  The entry key codec packs a character identifier and two
//! single-digit indices into a fixed ten-character string; the color codec
//! renders three 8-bit channels as `#RRGGBB`; the document codec wraps the
//! encoded pairs in a versioned document with a fixed blank-line convention.

pub mod color;
pub mod doc;
pub mod key;
pub mod table;
pub mod text;

pub use color::RGB;
pub use doc::{ParseError, SerializationError, api_filetype, from_json, to_json};
pub use key::{EntryKey, key_to_string, string_to_key};
pub use table::PlayerColorParam;
