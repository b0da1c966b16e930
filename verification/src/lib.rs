pub mod cache_chunks;
pub mod codec;
pub mod decompressor;
pub mod errors;
pub mod filenodes;
pub mod manifest_utils;
pub mod mock_manifest;
pub mod memory_manifest;
pub mod path;
pub mod store;
pub mod uniqueheap;
