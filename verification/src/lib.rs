//! Owns the Entroq codec: the format contract, the entropy coding its tables are declared and
//! validated through, the sequence representation their symbols are drawn from, the match
//! finder and the parser that produce the sequences, and the blocks that carry them.
//!
//! Every executable function states what it returns over mathematical models of its inputs:
//! a bit stream is a sequence of booleans, a header is a sequence of bytes, a block is the
//! content its sequences expand to. The round trips between the two directions are proved as
//! public proof functions beside the functions they relate.

pub mod block;
pub mod decode;
pub mod encode;
pub mod entropy;
pub mod format;
pub mod matchfinder;
pub mod parser;
pub mod sequence;
pub mod simd;
