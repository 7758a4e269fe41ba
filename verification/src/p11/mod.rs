//! The section format: its data model, its lines and its parser.

pub mod comments;
pub mod laws;
pub mod line;
pub mod machine;
pub mod order;
pub mod parser;
pub mod places;
pub mod renumber;
pub mod section;
pub mod syntax;
