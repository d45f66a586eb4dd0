pub mod text;
pub mod image_ref;
pub mod types;
pub mod digest;
pub mod registry;
pub mod store;
pub mod download;
pub mod docker_engine;
pub mod oci_archive;
