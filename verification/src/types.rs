//! The registry's manifest documents, as plain values.
use vstd::prelude::*;

verus! {

/// A content descriptor: what a blob is, its digest and its size in bytes.
#[derive(Debug, Clone)]
pub struct Descriptor {
    pub media_type: String,
    pub digest: String,
    pub size: u64,
}

/// An image manifest: one config blob and the layer blobs, in order.
#[derive(Debug)]
pub struct ImageManifest {
    pub schema_version: u32,
    pub media_type: Option<String>,
    pub config: Descriptor,
    pub layers: Vec<Descriptor>,
}

/// A manifest list: one manifest per platform.
#[derive(Debug)]
pub struct ImageIndex {
    pub schema_version: u32,
    pub media_type: Option<String>,
    pub manifests: Vec<PlatformManifest>,
}

/// An entry of a manifest list.
#[derive(Debug)]
pub struct PlatformManifest {
    pub descriptor: Descriptor,
    pub platform: Platform,
}

/// The platform an entry of a manifest list is built for.
#[derive(Debug)]
pub struct Platform {
    pub architecture: String,
    pub os: String,
}

} // verus!
