pub mod alignment;
pub mod analyzer;
pub mod bits;
pub mod block_decoder;
pub mod blocks;
pub mod counting;
pub mod damage;
pub mod decoder;
pub mod distance;
pub mod ecc;
pub mod ecc_data;
pub mod encoding;
pub mod error_words;
pub mod format;
pub mod generator;
pub mod gf256;
pub mod locator;
pub mod mask;
pub mod matrix;
pub mod parser;
pub mod patterns;
pub mod penalty;
pub mod pixel_mapping;
pub mod poly;
pub mod reader;
pub mod roots;
pub mod roundtrip;
pub mod selection;
pub mod sums;
pub mod types;
