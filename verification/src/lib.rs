//! A linter for free-form comment/post text.
//!
//! The engine takes the full text of one document and returns an ordered
//! list of positioned diagnostics, one for each violation of a fixed set
//! of stylistic rules:
//!
//! - code 2: the first line must contain the word "import";
//! - code 3: the last line must contain the word "return"
//!   (a single-line document is always flagged);
//! - code 4: every internal line must end its sentences with semicolons;
//! - code 5: every markdown link anchor must be paired, somewhere in the
//!   document, with a link of the same anchor to the canonical decoy URL.
//!
//! Evaluation is a pure function of the text: the same bytes always give
//! the same diagnostic list, in a fixed order.

pub mod diag;
pub mod scanner;
pub mod words;
pub mod semicolon;
pub mod links;
pub mod engine;
pub mod laws;
