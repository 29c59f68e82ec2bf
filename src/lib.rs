//! Keyword-in-context concordance: an inverted index over lines of text and a
//! search that cuts each matching line into the text left and right of the
//! keyword.

pub mod concordance;
pub mod index;
pub mod keywords;
pub mod text;

pub use crate::concordance::{KwicResult, KwicSystem};
pub use crate::index::WordIndex;
pub use crate::keywords::{find_keyWords, line_keywords, parse_stopwords};
