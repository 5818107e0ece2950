//! A bounded ELF image loader, a multi-image dynamic linker and the
//! application control plane that drives them.

pub mod address;
pub mod arith;
pub mod error;
pub mod parser_limits;
pub mod permissions;
pub mod bytes;
pub mod cache;
pub mod corpus;
pub mod identity;
pub mod reader;
pub mod relocation;
pub mod elf;
pub mod dynamic_linker;
pub mod sort;
pub mod image;
pub mod limits;
pub mod load;
pub mod memory;
pub mod memory_mapper;
pub mod request;
pub mod virtual_memory;
pub mod application;
