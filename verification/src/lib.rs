//! Tokenizer for Japanese novel markup.
//!
//! The input text is split into a stream of position-annotated tokens:
//! plain text runs, whitespace, newlines, glossary terms recognised by
//! greedy longest match, explicit and implicit furigana (ruby) readings,
//! inline annotations, and doubled-marker emphasis. Tokenization is total:
//! any input is consumed completely, one token at a time, and the
//! concatenation of the consumed spans reproduces the input exactly.
//!
//! The modules, leaves first: [`character`] classifies single scalar
//! values; [`text`] measures text in bytes and in characters without
//! variation selectors; [`token`] is the owned token model with its
//! canonical rendering; [`term`] builds the glossary index for greedy
//! longest-match lookup; [`tokenizer`] holds the ordered rules, the
//! batch tokenizer and the lazy token stream.

pub mod character;
pub mod term;
pub mod text;
pub mod token;
pub mod tokenizer;

pub use term::Term;
pub use term::TermMap;
pub use token::Id;
pub use token::Position;
pub use token::Span;
pub use token::Token;
pub use token::TokenText;
pub use tokenizer::ParseContext;
pub use tokenizer::TextIterator;
pub use tokenizer::tokenize;
