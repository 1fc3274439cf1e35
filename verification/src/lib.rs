pub mod errors;
pub mod expand;
pub mod grepline;
pub mod group;
pub mod hunk;
pub mod hunk_parse;
pub mod preview;
pub mod text;
pub mod write;
