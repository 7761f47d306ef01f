//! Deterministic, context-free L-systems and a turtle that draws them.
//!
//! A [`grammar::G`] holds a word and an ordered list of production rules and
//! rewrites the word generation by generation. A [`turtle::Rasterizer`] reads a
//! word as drawing instructions and paints them on a [`canvas::Canvas`].
pub mod canvas;
pub mod grammar;
pub mod rule;
pub mod text;
pub mod turtle;
pub mod turtle_laws;

pub use crate::canvas::Canvas;
pub use crate::grammar::G;
pub use crate::turtle::Rasterizer;
