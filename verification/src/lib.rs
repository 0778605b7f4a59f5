pub mod collector;
pub mod encoding;
pub mod error;
pub mod parser;
pub mod torrent;
pub mod value;
