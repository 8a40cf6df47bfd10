//! Run-length encoding of text: runs of equal characters become a decimal
//! count followed by the character, and a tolerant decoder turns such text
//! back into the characters it stands for.
pub mod decode;
pub mod digits;
pub mod encode;
pub mod laws;
pub mod ratio;
pub mod text;
