//! A lossy predictive image codec: each pixel is predicted from the two
//! pixels before it by one of a fixed set of colour operators, and the
//! chosen operator indices are packed with a canonical Huffman code.

pub mod bits;
pub mod bitstream;
pub mod color;
pub mod code;

pub mod chuffman;
