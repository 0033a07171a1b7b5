//! An in-memory full-text index: a tokenizer, hashed term identifiers,
//! per-term posting lists carrying fixed-width score records, the lookups
//! that scoring a query needs, and the ordering of scored documents.

pub mod error;
pub mod hit_list;
pub mod index;
pub mod rank;
pub mod score_vec;
pub mod tokenizer;

pub use error::IndexError;
pub use hit_list::HitList;
pub use index::{hash_str, Index};
pub use score_vec::ScoreVec;
pub use tokenizer::tokenize;
