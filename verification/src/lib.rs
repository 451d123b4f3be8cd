pub mod bits;
pub mod compress;
pub mod error;
pub mod lzw;
pub mod rle;
