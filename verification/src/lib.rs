//! Tokenization of raw text into position-tracked tokens and an ordered
//! pipeline of enrichment stages that annotate them.
//!
//! Every executable function carries a contract over the mathematical views
//! of the data: a sentence is its raw text and a sequence of token views, a
//! dictionary is the set of its words.

pub mod dictionary;
pub mod enricher;
pub mod error;
pub mod sentence;
pub mod service;
pub mod stemming;
pub mod strmap;
pub mod text;
pub mod tokenizer;

pub use dictionary::{Dictionary, Empty, LocalDictionary, WordSet};
pub use enricher::number::{Number, NumberEnricher};
pub use enricher::stop_word::{StopWordEnricher, STOP_WORD};
pub use error::{Error, StopWordError};
pub use sentence::{Loc, Meta, MetaKind, Sentence, Token};
pub use service::{Chain, Enricher, Service, TokenBuilder};
pub use stemming::Language;
pub use strmap::StrMap;
pub use tokenizer::CharClass;
