use crate::model::Model;
use vstd::prelude::*;

verus! {

/// The entropy coder of the residuals in a model-embedding container.
#[derive(Debug, Clone, Copy, PartialEq, Eq, Structural)]
pub enum Codec {
    Varint,
    Huff,
}

/// A parsed model-embedding container.
#[derive(Debug, Clone, PartialEq, Eq)]
pub struct Bitstream {
    pub w: u16,
    pub h: u16,
    pub qstep: u16,
    pub codec: Codec,
    /// The top row, `w` bytes.
    pub first_row: Vec<u8>,
    /// The left column, `h` bytes.
    pub first_col: Vec<u8>,
    /// Should be `(w - 1) * (h - 1)`.
    pub residuals_count: u32,
    pub payload: Vec<u8>,
    /// The Huffman table, where `codec` is `Huff`.
    pub huff_symbols: Vec<i16>,
    pub huff_lengths: Vec<u8>,
    pub model: Model,
}

} // verus!
