pub mod bitutil;
pub mod codec;
pub mod laws;
