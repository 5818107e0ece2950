//! Loading one image: from program headers to sealed memory.

pub mod admission;
pub mod complete;
pub mod decode;
pub mod features;
pub mod inspect;
pub mod layout;
pub mod loaded;
pub mod map;
pub mod metadata;
pub mod parser;
pub mod plan;
pub mod prepare;
pub mod protection;
pub mod records;
pub mod seal;
pub mod sealed;
pub mod tables;
