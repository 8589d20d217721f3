//! Decoder for the resources of SCI0-era adventure games: bit-level readers,
//! the LZW and Huffman decompressors, the picture opcode splitter and the
//! rasterizer that turns picture opcodes into an indexed-colour canvas.

pub mod error;
pub mod palette;
pub mod bitstream_lsb;
pub mod bitstream_msb;
pub mod lzw;
pub mod huffman;
pub mod picture_splitter;
pub mod canvas;
pub mod line;
pub mod flood;
pub mod picture;
pub mod map;
pub mod resource_files;
pub mod resource_reader;
pub mod view;
pub mod renderer;
