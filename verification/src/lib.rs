//! Word-frequency counting as a map-reduce pipeline.
//!
//! The input is cut into chunks at whitespace ([`coordinator`], [`splitter`]),
//! the words of each chunk are counted ([`map`]), the counts are merged
//! ([`coordinator::Coordinator::shuffle`]) and the most frequent words are
//! picked ([`reduce`]). [`pipeline`] puts the steps together.
//!
//! Every function states what it returns over a mathematical model: a text is
//! a `Seq<char>`, a frequency map a `Multiset` of words. Beside the functions
//! stand the laws that connect them, as proof functions: that cutting a text
//! splits no word, that merging does not depend on the order, that the
//! ranking of a frequency map is unique.

pub mod coordinator;
pub mod frequency;
pub mod map;
pub mod pipeline;
pub mod reduce;
pub mod splitter;
pub mod text;
