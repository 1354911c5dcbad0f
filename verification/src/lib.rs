//! Syntax highlighting for the code blocks of rendered HTML.
//!
//! A document is a sequence of bytes, as a rule UTF-8 text. Highlighting it
//! takes three steps:
//!
//! - [`scanner`] finds every `<pre><code ...>...</code></pre>` block, with the
//!   language that its opening tag declares and the code between its tags;
//! - [`pipeline`] makes a fragment of each block: the code is decoded
//!   ([`entities`]), made ready for the engine ([`normalizer`]) and rendered as
//!   HTML by the engine ([`engine`]); the blocks are worked on side by side;
//! - [`reassemble`] puts the document together again, with each fragment in
//!   the place of its block.
//!
//! Nothing of this fails. An opening tag that is no block is passed over, a
//! language that the engine does not know is rendered as plain text, and a
//! block that has no language or cannot be rendered stays as it was.
//! [`document`] holds the functions that do all three steps at once.
//!
//! What the engine renders is not specified here: it is only given a name, and
//! the contracts say what is handed to the engine and what becomes of its
//! answer. [`search`] and [`text`] hold what the other modules need of byte
//! sequences, and [`round_trip`] shows that decoding undoes encoding.

pub mod document;
pub mod engine;
pub mod entities;
pub mod normalizer;
pub mod pipeline;
pub mod reassemble;
pub mod round_trip;
pub mod scanner;
pub mod search;
pub mod text;
