//! Styled, multi-line text and a width-aware word-wrapping engine.
//!
//! A single-line string whose characters share one style is a [`Span`];
//! a line assembled from several such runs is a [`Spans`]; a multi-line
//! value is a [`Text`]. A [`WrappedText`] consumes lines one at a time and
//! accumulates a new [`Text`] whose every line fits a fixed display width,
//! measured in terminal columns.

pub mod style;
pub mod text;
pub mod unicode;
pub mod wrap;

pub use style::Color;
pub use style::Style;
pub use text::Span;
pub use text::Spans;
pub use text::StyledGrapheme;
pub use text::Text;
pub use wrap::WrappedText;
