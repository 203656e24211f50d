//! Recovery of a Base64 byte stream from transcribed text fragments.

pub mod alphabet;
pub mod sanitize;
pub mod naming;
pub mod corpus;
pub mod decode;
pub mod scan;
pub mod hex;
pub mod locate;
pub mod recover;
pub mod editor;
