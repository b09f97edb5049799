pub mod bits;
pub mod crc;
pub mod huffman;
pub mod zlib;
pub mod byte_encode;
pub mod image;
pub mod reader;
pub mod writer;
pub mod bmp;
pub mod png;
