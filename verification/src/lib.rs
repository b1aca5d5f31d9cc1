//! Byte pair encoding over Unicode code points: a token table that grows by
//! merging the most frequent adjacent pair, and the encoder and decoder that
//! apply it.

pub mod bpe;
pub mod coding;
pub mod fold_map;
pub mod laws;
pub mod pair_freq;
pub mod rewrite;
pub mod table;
pub mod text;
pub mod token_pair;
pub mod training;
pub mod vocabulary;

pub use bpe::{decode, encode, lowest_merge_pair, EncodingError};
pub use pair_freq::most_frequent_pair;
pub use rewrite::merge_pair;
pub use text::{compose, decompose};
pub use token_pair::{Lonely, Pair, Token};
pub use vocabulary::Vocabulary;
