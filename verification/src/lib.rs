//! Text preprocessing for sequence models: vocabularies, merge-rank tables,
//! sub-word segmentation and the assembly of bounded model inputs.
//!
//! A text is split into words, the characters of each word are folded, and
//! each word is segmented into tokens of the vocabulary, either greedily
//! into its longest pieces or by merging ranked pairs of symbols. One or
//! two sequences of tokens are then truncated to a budget and laid out with
//! structural tokens, segment ids, a mask and offsets into the text.

pub mod assemble;
pub mod bpe;
pub mod fold;
pub mod input;
pub mod json;
pub mod merges;
pub mod text;
pub mod tokenizer;
pub mod truncation;
pub mod vocab;
pub mod wordpiece;
pub mod words;

pub use crate::assemble::Template;
pub use crate::input::{Offset, Token, TokenizedInput};
pub use crate::merges::{BpePair, BpePairVocab};
pub use crate::tokenizer::{Segmenter, Tokenizer};
pub use crate::truncation::{TruncationError, TruncationStrategy};
pub use crate::vocab::{CtrlVocab, LookupError, VocabError};
pub use crate::words::Folding;
