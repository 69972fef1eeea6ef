//! Parameter extraction and round-trip synchronisation for tunable shader programs.
//!
//! - `decimal`: numbers as shader literals, and their text form.
//! - `history`: parameter records and the reversible edit log over them.
//! - `scan`, `grammar`: the record grammar of the shader text.
//! - `lava_lamp`: the parser that reads records out of shader text and writes them back.
//! - `json`, `profile`: the profile document, and the shaders loaded from and saved into it.
//! - `debounce`: when a burst of edits is persisted.
//! - `round_trip`, `stability`: what export and parse guarantee of each other.
pub mod decimal;
pub mod text;
pub mod history;
pub mod scan;
pub mod grammar;
pub mod lava_lamp;
pub mod json;
pub mod profile;
pub mod debounce;
pub mod round_trip;
pub mod stability;
