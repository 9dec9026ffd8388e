//! A Huffman entropy coder: builds an optimal prefix-code tree from
//! observed symbol frequencies, encodes text into a packed bit sequence,
//! and decodes that bit sequence back into the original text.

pub mod bits;
pub mod codes;
pub mod encoder;
pub mod freq;
pub mod tree;

pub use encoder::DecodeError;
pub use encoder::EncodeError;
pub use encoder::Encoder;
pub use tree::TreeNode;
