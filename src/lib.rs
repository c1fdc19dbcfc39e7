//! Renders RGBA frames into a terminal as 24-bit ANSI half-block text.
//!
//! The library holds the pure parts of the pipeline: the differential
//! half-block encoder, the placement (style) language and its evaluation,
//! the option grammars, and the pacing decisions of animated playback.

mod text;
pub mod lex;
pub mod pixel;
pub mod codec;
pub mod size;
pub mod style;
pub mod filter;
pub mod line_end;
pub mod color;
pub mod canvas_size;
pub mod compose;
pub mod playback;
