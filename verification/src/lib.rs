//! Lazy, index-addressed token buffering for a backtracking parser.
//!
//! Bytes are decoded into characters one scalar at a time ([`decoder`]), characters can be
//! looked at ahead of their consumption ([`lookahead`]), and tokens are pulled from a
//! tokenizer only when an index beyond the cached window is asked for ([`cache`]).
pub mod source;
pub mod decoder;
pub mod lookahead;
pub mod cache;

pub use crate::cache::{CacheError, LazyTokens, Location, State, TokenWithLocation, Tokenizer};
pub use crate::decoder::{DecodeEnd, Utf8Iter};
pub use crate::lookahead::{LookAheadHandle, LookAheadIterator};
pub use crate::source::{Source, VecSource};
