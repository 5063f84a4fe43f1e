//! A casing-aware prefix encoding for word-like tokens.
//!
//! Each word-like run of characters in a text is classified by its
//! letter-casing pattern; non-trivial patterns are rewritten to a lowercase
//! form preceded by a fixed marker token, so that a downstream pipeline can
//! work on case-folded text while keeping the casing recoverable.
//!
//! The letter-case tests are deliberately Unicode-aware while digit
//! detection is ASCII-only; accented letters classify by their Unicode case,
//! and non-ASCII numerals never count as `Digits`. Segment offsets are byte
//! offsets into the original input, also for multi-byte characters.

pub mod chars;
pub mod classifier;
pub mod normalized;
pub mod normalizers;
pub mod pre_tokenized;
pub mod pre_tokenizers;
pub mod words;
