//! Bracket-handler completion logic for ZenScript: reading the dumper block
//! of a CraftTweaker log, merging additional entries, locating the word or
//! bracket under the cursor, and answering completion and hover requests.

pub mod text;
pub mod string_map;
pub mod parse;
pub mod words;
pub mod server;
pub mod protocol;
pub mod extension;
