//! Declarative bitfields: a small declaration language that describes named,
//! masked, possibly overlapping bit ranges over a fixed-width unsigned integer,
//! the validation of such a declaration, the per-field records it yields, the
//! accessor semantics of the resulting type, and the Rust source generated for
//! it.
//!
//! The generated source stands alone: next to the wrapper type `Name` it
//! defines a record type `NameField` (name, start and end bit, mask, value,
//! counter flag, all in the backing type) for the field constants and the
//! `FIELDS` table. It does not name this crate, so code that spelled the field
//! constants' type as a generic `Field<u8>` names `NameField` instead. The
//! library's own [`Field`] is the runtime record of [`Layout`], over 128 bits
//! for every backing width.
pub mod bitfield;
pub mod codegen;
pub mod expand;
pub mod expr;
pub mod field;
pub mod laws;
pub mod layout;
pub mod lexer;
pub mod text;
pub mod traits;

pub use codegen::to_tokens;
pub use expand::{bitfield, layout_of, parse_source};
pub use field::{Field, Packed};
pub use layout::{Bound, Error, ErrorKind, Layout};
pub use traits::Bits;
