//! Verified Warcraft III editor data library: SLK tables, binary map
//! components and the small encodings they are built from.

pub mod slkparser;
pub mod formats;
pub mod map;
pub mod map_paths;
