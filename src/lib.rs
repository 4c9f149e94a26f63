//! Text containers over UTF-8 bytes: a chunked append buffer and a rope.
pub mod utf8;
pub mod string_buffer;
pub mod node;
pub mod rope;
