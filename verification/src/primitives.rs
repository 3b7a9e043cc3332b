//! Highlighting: categories and themes, the scope-to-category mapping, and
//! the viewport-bounded TextMate highlighter.

pub mod grammar;
pub mod highlighter;
pub mod textmate_highlighter;
