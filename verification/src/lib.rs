//! Decoding of fixed-format mainframe records described by leveled copybooks.
//!
//! The library builds a hierarchical field-definition tree from a flat,
//! leveled token sequence, resolves each field to an absolute byte span,
//! and decodes raw fixed-width records into typed field values.

pub mod data_type;
pub mod decode;
pub mod errors;
pub mod field_definition;
pub mod field_value;
pub mod layout;
pub mod tree;
