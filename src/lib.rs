pub mod huffman_node;
pub mod tables;
pub mod forest;
pub mod huffman;

pub use huffman::Huffman;

pub use huffman_node::HuffmanNode;
pub use tables::{CodeTable, FrequencyTable};
