//! Bit-level retrieval primitives and discrete gradient descent over bit vectors.

pub mod sign2;
pub mod iso;
pub mod dgd;
pub mod popcount;
pub mod bitset;
pub mod nibble4_tokenizer;
pub mod text;
pub mod object_capsule;
pub mod nibble_hash;
pub mod ngram;
pub mod eval;
pub mod corpus;
pub mod gold_cycle;
pub mod walk;

pub mod rustc_text;
pub mod vocab;
