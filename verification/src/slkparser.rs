//! SLK (SYLK) parser, the tabular format of Warcraft III game data.

pub mod fields;
pub mod text;
pub mod error;
pub mod slk_type;
pub mod cell;
pub mod scanner;
pub mod document;
pub mod text_scanner;
