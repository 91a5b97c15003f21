//! Huffman entropy coding with a self-describing container, protected by a
//! single-error-correcting Hamming block code.
//!
//! A text is compressed in four steps: its symbols are counted (`weights`),
//! the counts are merged into a Huffman tree (`merge`, `tree`), the tree is
//! serialized and the symbols are replaced by their codes (`tree`,
//! `compress`), and both go into one container (`container`). Decompressing
//! reads the tree back (`parse`) and walks it along the coded bits
//! (`compress`). `roundtrip` states that this gives the text back, `codes`
//! that no code begins another.
//!
//! `hamming` protects seven bytes as eight and corrects one wrong bit in
//! them; `utils` does so for a whole container. `bits` holds what all of
//! them share: bit sequences and their packing into bytes. `ngram` counts
//! symbols and pairs of symbols.

pub mod bits;
pub mod codes;
pub mod compress;
pub mod container;
pub mod error;
pub mod hamming;
pub mod letter;
pub mod merge;
pub mod ngram;
pub mod node;
pub mod parse;
pub mod roundtrip;
pub mod tree;
pub mod utils;
pub mod weights;
