//! Decoders and archive tooling for the BURIKO/ETHORNELL visual-novel
//! engine: the ARC container directory, the BSE descrambler, the DSC
//! Huffman/LZ decoder, the CBG image decoder, and the OGG audio prelude.

pub mod arc;
pub mod bse;
pub mod cbg;
pub mod decrypt;
pub mod dsc;
pub mod error;
pub mod ogg;
pub mod pipeline;
