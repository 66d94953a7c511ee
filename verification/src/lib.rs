//! Extraction of trading-card records from card-list markup, their
//! reconciliation with an earlier collection, their order, and the filter
//! index derived from them.
//!
//! - `text`: texts as sequences of characters; search, replacement, trimming,
//!   cutting and the lexicographic order.
//! - `entities`: decoding of HTML character references.
//! - `card`, `effect`, `error`: the card record, its enumerations, the catalog
//!   of effect tags, and the errors of extraction.
//! - `normalize`: the field normalizers.
//! - `markup`: what is read of a card fragment, and its reading.
//! - `extract`: the card extractor and the document parser.
//! - `merge`: the reconciler.
//! - `number`, `ordering`, `compare`: the order of cards.
//! - `filters`: the filter index.
//! - `output`: the views of a collection that are persisted.

pub mod card;
pub mod compare;
pub mod effect;
pub mod entities;
pub mod error;
pub mod extract;
pub mod filters;
pub mod markup;
pub mod merge;
pub mod normalize;
pub mod number;
pub mod ordering;
pub mod output;
pub mod text;
