//! Fontgarden: a directory-based, diff-friendly interchange format for
//! typeface design data, decoupled from any single font editor's native
//! format.
//!
//! The library is the verified core: the filename codec, the persistent
//! data model with its textual on-disk encoding (manifests and per-layer
//! payload files), the source merge engine, the selective-import diff
//! engine, and the export engine. File and process I/O lives outside.

pub mod chars;
pub mod codepoints;
pub mod csvtext;
pub mod diff;
pub mod errors;
pub mod export;
pub mod filenames;
pub mod jsontext;
pub mod merge;
pub mod order;
pub mod storage;
pub mod structs;
