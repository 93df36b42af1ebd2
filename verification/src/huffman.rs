//! A Huffman coding kernel: frequency tables, tree construction by
//! repeated merging of the two lightest subtrees, and the code maps read
//! off the tree's paths.

pub mod freq;
pub mod tree;
pub mod codes;
pub mod bits;
pub mod header;
