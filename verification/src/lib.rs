//! Embeds asset payloads in the custom sections of WebAssembly modules and
//! reads them back without instantiating the module.
//!
//! Encoding appends serialized records to one data blob and keeps a manifest
//! from asset IDs to byte ranges. Decoding scans a module for the manifest
//! and data sections of each embedding, merges the manifests into one that
//! addresses the module buffer, and hands out the bytes of each asset. A
//! module can also be rewritten without its asset sections.

pub mod encode;
pub mod error;
pub mod id;
pub mod laws;
pub mod manifest;
pub mod merge;
pub mod names;
pub mod parse;
pub mod scan;
pub mod section;
pub mod strip;

pub use crate::encode::{
    encode_asset_folder, AssetEncoder, AssetFile, AssetFolder, AssetHierarchy, EncodedAsset,
    EncodedAssets,
};
pub use crate::error::{ErrorCause, WassetError};
pub use crate::id::WassetId;
pub use crate::manifest::{ByteRange, WassetManifest};
pub use crate::parse::{WassetItem, WassetIter, WassetParser};
