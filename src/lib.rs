pub mod bitpack;
pub mod blocks;
pub mod structs;
pub mod words;
pub mod conversions;
