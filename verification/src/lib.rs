//! Discovery of external C/C++ dependencies in a source tree.
//!
//! The library takes the textual contents of the C/C++ files of a tree,
//! extracts the headers named by their inclusion directives, filters out
//! standard-library and project-local headers, derives a candidate
//! package name for each remaining header, and decides, from the
//! captured outcome of each package-manager query, which candidates were
//! found by which manager.

pub mod backend;
pub mod extract;
pub mod filter;
pub mod normalize;
pub mod order;
pub mod text;
pub mod utils;
