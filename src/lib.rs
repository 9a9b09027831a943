//! Word-embedding tables read from whitespace-separated text, one word and
//! its vector components per line.

pub mod loader;
pub mod number;
pub mod table;
pub mod text;
