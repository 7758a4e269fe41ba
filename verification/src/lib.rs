//! A line-oriented section format and the values that its sections stand
//! for.
//!
//! A document is a text of sections. A section is opened by a line that
//! begins with `-- `; it has a name, and may have a kind, a caption, headers,
//! a body and sections below it. `p11` parses a document into its sections,
//! `ast` tells the kind that an annotation declares and the typed value that
//! a section or a header stands for.
//!
//! Every function has a contract over the text as a sequence of characters
//! and over the mathematical values of the data, and is proved to keep it.
//! What holds of the parser as a whole is stated and proved in `p11::laws`,
//! `p11::order`, `p11::comments`, `p11::places` and `p11::renumber`, and of
//! the values in `ast::laws`.
//!
//! `ssr` puts together the script that renders a page, and `tutor` holds the
//! rules by which the tutor tells its workshops.

pub mod ast;
pub mod error;
pub mod p11;
pub mod ssr;
pub mod text;
pub mod tutor;

pub use error::Error;
