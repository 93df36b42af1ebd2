//! Small text-processing cores: a JSON validator/parser, a Huffman coding
//! kernel, line and word counting, column extraction, and HTTP header-line
//! reading.
//!
//! Each module holds the pure logic of one tool, specified and verified;
//! file handling and command-line glue live outside the library and hand
//! the cores plain in-memory values.

pub mod fieldcut;
pub mod httpline;
pub mod huffman;
pub mod json;
pub mod seqsplit;
pub mod text;
pub mod textcount;
