//! Merges layered resource packs into one deterministic output tree.
//!
//! Each pack is a tree of named files. Packs are applied in order under a
//! conflict policy, their metadata descriptors are inspected, and a combined
//! descriptor, icon and provenance listing are synthesized for the output.
pub mod strings;
pub mod path;
pub mod options;
pub mod error;
pub mod table;
pub mod order;
pub mod formats;
pub mod json;
pub mod descriptor;
pub mod overlays;
pub mod archive;
pub mod sources;
pub mod output;
pub mod merge;
pub mod config;

pub use config::Config;
pub use error::MergeError;
pub use merge::{
    merge_packs_to_bytes, merge_packs_to_bytes_with_options, run_with_settings, MergeOutcome,
    MergeSession, Settings,
};
pub use options::{MergeOptions, OverwritePolicy, SupportedFormatsPolicy};
pub use path::sanitize_zip_entry_name;
pub use sources::{DirPack, FetchOutcome, FetchedBody, PackInput, UrlPack, ZipFilePack};
