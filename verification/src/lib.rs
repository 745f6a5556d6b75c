//! Mapping absolute offsets in a text buffer to line-relative positions,
//! selecting the lines touched by a set of changed ranges, expanding them
//! with context lines, and padding or truncating text to a fixed width.

pub mod diffs;
pub mod lines;
pub mod text;

pub use diffs::Change;
pub use lines::AbsoluteRange;
pub use lines::LineNumber;
pub use lines::LinePosition;
pub use lines::LineRange;
pub use lines::MatchedLine;
pub use lines::NewlinePositions;
pub use lines::add_context;
pub use lines::relevant_lines;
pub use text::enforce_length;
pub use text::max_line;
