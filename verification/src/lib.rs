//! Line and column lookup for byte offsets in a text.
//!
//! A text is split once into line spans by [`Lines::parse`]; afterwards
//! [`Lines::position`] resolves an offset to its one-indexed line and the
//! zero-indexed offset within that line. Offsets count bytes throughout.
//!
//! The line ending is chosen once for the whole text: `"\r\n"` if that pair
//! occurs anywhere in it, `"\n"` otherwise.

pub mod laws;
pub mod lines;
pub mod text;

pub use lines::{LinePosition, Lines, LinesError};
pub use text::LineSpan;
