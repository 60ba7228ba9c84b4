//! Hides an encrypted message in the trailing bytes of a directory's files.
//!
//! A password is stretched into a 32-byte key, the message is encrypted with
//! it, the ciphertext is spelled out as lowercase hexadecimal text, and that
//! text is appended, a fixed-size chunk per file, to the files of a target
//! directory, starting from the end of the text. Extraction reads the chunks
//! back, reverses them, strips the padding, and decodes and decrypts the
//! result.
//!
//! This crate holds the logic of all of that: which bytes go to which file,
//! how they come back, and when extraction must fail. Reading and writing the
//! files themselves, and the command line around it, live outside.

pub mod collect;
pub mod crypto;
pub mod distribute;
pub mod hexcode;
pub mod message;
pub mod params;
