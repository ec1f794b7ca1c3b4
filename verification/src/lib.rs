//! A layout and pagination engine for a linear stream of document content
//! blocks (paragraphs, marker-encoded tables, images).  The engine decides
//! line breaks, column widths, vertical cursor movement, page breaks and
//! image scaling, and emits page-level drawing instructions for an
//! unverified rendering backend to carry out.

pub mod bytes;
pub mod content;
pub mod engine;
pub mod geom;
pub mod image;
pub mod ops;
pub mod table;
pub mod text;
