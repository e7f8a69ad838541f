//! Data model, loading pipeline and view state of a timeline viewer for
//! measureme profiling data.

pub mod data;
pub mod file;
pub mod grouping;
pub mod lanes;
pub mod load;
pub mod mipmap;
pub mod pointer;
pub mod profile;
pub mod settings;
pub mod sort;
pub mod symbols;
pub mod text;
pub mod timeline;
pub mod tree;
pub mod workspace;
