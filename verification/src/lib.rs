//! A text layout and rasterization library.
//!
//! Styled runs of text ("chunks") are broken into lines by a character-level
//! state machine (hard breaks, width-triggered wraps, optional word-atomic
//! wrapping), the finished lines are positioned according to a horizontal
//! alignment mode (left, right, center, justify), and the positioned glyphs
//! are painted into a pixel buffer by alpha blending.
//!
//! All widths, heights and positions are integers in an abstract advance
//! unit chosen by the caller (for instance 1/64th of a pixel); glyph
//! measurement itself (fonts, kerning, coverage) is the caller's
//! collaborator and stays outside this crate.

pub mod buffer;
pub mod compose;
pub mod laws;
pub mod layout;
pub mod norm;
pub mod style;
