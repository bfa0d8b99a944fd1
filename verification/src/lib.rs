//! Literal text search inside a window of byte offsets.
//!
//! A text is read as its UTF-8 bytes. Every operation takes a window, a
//! half-open range of byte offsets into the text, and looks only inside it.
//! On top of the search for one needle stand the search for a chain of
//! needles, each after (or before) the match of the one before it, the search
//! for the n-th occurrence of one needle, and the extraction of the stretch of
//! text between a group of start markers and a group of end markers.
//!
//! The operations are the methods of [`StringSearch`], which `str` implements.
//! What each of them returns is stated over the functions of [`occurrence`],
//! [`chain`] and [`extraction`]; [`alignment`] shows that no match splits a
//! character, and [`laws`] holds what follows for every text.

pub mod alignment;
pub mod chain;
pub mod extraction;
pub mod laws;
pub mod occurrence;
pub mod search;

pub use extraction::Include;
pub use occurrence::Span;
pub use search::{SearchOutput, StringSearch};
