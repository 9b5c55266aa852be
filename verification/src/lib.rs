//! A parser for a restricted, line-oriented markup dialect, and a path-query
//! engine over the tree that it builds.
//!
//! # The dialect
//!
//! A document is a sequence of lines. A line holds fragments, one after the
//! other: open tags `<name key="value" ...>`, close tags `</name>`, and text
//! runs. A tag starts with `<` and ends with the first `>` after it, on the
//! same line. A text run is anything else; it ends before the next `<` or
//! with the line. White space around a line and before a fragment is
//! skipped; white space inside or at the end of a text run that a tag
//! follows is kept. The text runs of an element are joined as they are:
//! nothing stands for the line breaks between them.
//!
//! Tag names and attribute keys are names: lowercase ASCII letters and
//! digits, starting with a letter. What follows the name of an open tag is
//! attributes, separated by white space. An attribute is a key, one `=`, and
//! a value between double quotes; the value holds no white space, no `=` and
//! no `>`.
//!
//! # What is rejected
//!
//! A document is accepted as a whole or rejected as a whole. The error of a
//! rejected document names the first fragment, in document order, that is
//! wrong, with the number of its line:
//!
//! - a tag with no `>` on its line;
//! - an open tag that does not start with a name;
//! - an attribute that is not written as above (so there are no
//!   self-closing tags);
//! - an open tag after the root element has been closed;
//! - a close tag that does not name the innermost open element, letter for
//!   letter;
//! - a text run outside every element.
//!
//! A document may end with elements still open. They stay in the tree, and
//! the tree tells how many there are.
//!
//! # Modules
//!
//! - [`chars`]: character classes and scanning.
//! - [`lexer`]: fragments, attributes and tokens.
//! - [`element`] and [`tree`]: the tree and its mathematical model.
//! - [`builder`]: the tree under construction and its path stack.
//! - [`parser`]: lines and documents.
//! - [`query`]: path queries.
//! - [`render`]: a readable dump of a tree.
//! - [`grammar`], [`laws`] and [`writing`]: what is proved of every
//!   document, open tag and query.
//! - [`orders`]: a sample query on a tree of orders.
//! - [`error`]: the errors.

pub mod builder;
pub mod chars;
pub mod element;
pub mod error;
pub mod grammar;
pub mod laws;
pub mod lexer;
pub mod orders;
pub mod parser;
pub mod query;
pub mod render;
pub mod tree;
pub mod writing;
