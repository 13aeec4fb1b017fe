//! Decoder for a two-file archive format: a fixed-layout header file that
//! describes the members (name hashes and sizes, with byte offsets derived by
//! alignment arithmetic) paired with a flat data file holding their bytes.
//! Filenames are not stored, only 64-bit hashes; callers may supply candidate
//! names that are matched against the stored hashes.

pub mod read_binary;
pub mod arh;
pub mod ard;
pub mod archive;

pub use archive::Archive;
