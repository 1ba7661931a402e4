//! Visual diff of two HTML documents.
//!
//! A document is cut into tokens (tags, words, whitespace runs, single
//! punctuation characters), the two token sequences are aligned by a shortest
//! edit script, and the script is rendered back to markup in which inserted
//! text is wrapped in `<ins>` and removed text in `<del>`.
//!
//! - [`html`] cuts a document into tokens.
//! - [`wu`] finds a shortest edit script between two sequences. [`script`]
//!   says what an edit script is and when it is a shortest one, [`policy`]
//!   which of the shortest ones the search writes, and [`shortest`] proves
//!   that it is one, with [`lcs`] and [`furthest`] for the mathematics.
//! - [`words`] is the search for string slices, compared by their text.
//! - [`builder`] renders a script and runs the three steps in a row.
pub mod builder;
pub mod furthest;
pub mod html;
pub mod lcs;
pub mod policy;
pub mod script;
pub mod shortest;
pub mod words;
pub mod wu;
