//! Decomposes an ELF executable into two nested region trees, one over file
//! offsets and one over load-time virtual addresses.

pub mod region;
pub mod resolve;
pub mod tree;
pub mod text;
pub mod elf;
pub mod strtab;
pub mod sections;
pub mod file_loader;
