pub mod huffman_node;
pub mod priority_queue;
