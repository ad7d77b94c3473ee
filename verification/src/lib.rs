//! Parser for the header-plus-body text format used by software package
//! metadata files: a sequence of `name: value` fields with RFC822-like (but
//! deliberately different) continuation-line rules, optionally followed by a
//! blank line and a free-form body.
//!
//! The grammar itself is stated as specification functions in [`grammar`];
//! the executable parser in [`document`] is proved to implement it exactly.

pub mod document;
pub mod field_map;
pub mod grammar;
pub mod laws;

pub use document::parse_metadata;
pub use document::CoreMetadata;
pub use document::ParseError;
pub use document::ParseErrorKind;
pub use document::RFC822ish;
pub use field_map::FieldMap;
