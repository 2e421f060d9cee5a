//! Random-access decomposition of UTF-8 text into extended display units.
//!
//! A unit is one Unicode scalar (1 to 4 bytes) together with an optional
//! trailing 3-byte variation selector that alters how the scalar is
//! rendered.  The byte-level lexer in [`indexing`] walks a buffer one unit
//! at a time; [`indexed_string`] caches the decoded unit texts for indexed
//! access and flattens them back to a single string; [`range`] is the small
//! helper the lexer uses to fill byte arrays without out-of-bounds writes;
//! [`decimal`] renders the numbers in the description strings.

pub mod decimal;
pub mod indexed_string;
pub mod indexing;
pub mod range;
