//! A verified core for a small full-text search toolkit: the score
//! expression tokenizer, the compact integer encoding, document offset
//! lookup and fuzzy key search over a finite state transducer.

pub mod expression;
pub mod compact;
pub mod doc_loader;
pub mod fst_index;
pub mod request_params;
