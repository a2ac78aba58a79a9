//! Parsing, validation, canonical ordering and serialization of
//! BCP-47-style language identifiers and locales.

pub mod errors;
pub mod subtag;
pub mod order;
pub mod text;
pub mod private;
pub mod parser;
pub mod langid;
pub mod locale;
