//! Static Huffman coding: frequency counting, tree construction, prefix-code
//! derivation, and bit-exact packing of encoded text into bytes.
//!
//! Beside the codec stand three small grid puzzles: bingo boards, lines of
//! vents, and folding a dotted sheet.

pub mod steps;
pub mod tree;
pub mod encoding;
pub mod frequency;
pub mod builder;
pub mod codec;

pub mod bingo;
pub mod origami;
pub mod vents;
