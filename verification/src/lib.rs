//! Builds bundles of support files for a typesetting system.
//!
//! A build has two stages. Selection goes through the inputs of a bundle,
//! leaves out what the ignore rules match, patches what has a patch, and
//! keeps a manifest of what it took, with a digest of each file and a digest
//! of the manifest itself. Packing writes the selected files into one
//! container: a fixed header, each file as a gzip stream, and a compressed
//! index that says where each file lies.
//!
//! This crate decides and computes; reading and writing files and running
//! the patch tool are left to the program that uses it.

pub mod bundlev1;
pub mod cli;
pub mod compress;
pub mod config;
pub mod digest;
pub mod error;
pub mod expand;
pub mod ignore;
pub mod index;
pub mod input;
pub mod manifest;
pub mod patch;
pub mod paths;
pub mod run;
pub mod search;
pub mod select;
pub mod stats;
pub mod text;
