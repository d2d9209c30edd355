//! A miniature rendering core: a style cascade resolver and a block layout
//! engine. A parsed document tree and a parsed stylesheet go in; a tree of
//! positioned, axis-aligned boxes comes out. Parsing markup or stylesheet
//! text and painting the finished box tree are left to the callers.

pub mod css;
pub mod dom;
pub mod layout;
pub mod px;
pub mod style;
pub mod text;

pub use layout::dump_layout;
