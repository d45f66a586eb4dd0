use mepul::digest::DigestCheckError;
use mepul::store::{assemble_resolved, cache_blob_path, path_join, BlobError, BlobSource, ResolvedBlob};
use mepul::types::Descriptor;

fn descriptor(digest: &str, size: u64) -> Descriptor {
    Descriptor { media_type: "x".to_string(), digest: digest.to_string(), size }
}

const HELLO_DIGEST: &str = "sha256:b94d27b9934d3e08a52e52d7da7dabfac484efe37a5380ee9088f7ace2efcde9";

#[test]
fn cache_blob_path_returns_path_under_home_cache() {
    let digest = "sha256:abcdef123";

    let path = cache_blob_path("/tmp/testhome", digest).unwrap();

    assert_eq!(path, "/tmp/testhome/.cache/mepul/blobs/sha256/abcdef123");
}

#[test]
fn cache_blob_path_skips_other_algorithms() {
    assert_eq!(cache_blob_path("/home/u", "sha512:abc"), None);
}

#[test]
fn path_join_follows_unix_rules() {
    assert_eq!(path_join("/a", "b"), "/a/b");
    assert_eq!(path_join("/a/", "b"), "/a/b");
    assert_eq!(path_join("", "b"), "b");
    assert_eq!(path_join("/a", "/etc"), "/etc");
    assert_eq!(path_join("/a", ""), "/a/");
}

#[test]
fn downloaded_blob_is_accepted_when_size_and_digest_match() {
    let blob = ResolvedBlob::downloaded(&descriptor(HELLO_DIGEST, 11), b"hello world".to_vec()).unwrap();
    assert_eq!(blob.digest, HELLO_DIGEST);
    assert!(matches!(blob.source, BlobSource::Downloaded(ref b) if b == b"hello world"));
}

#[test]
fn downloaded_blob_with_wrong_size_is_refused() {
    match ResolvedBlob::downloaded(&descriptor(HELLO_DIGEST, 12), b"hello world".to_vec()) {
        Err(BlobError::SizeMismatch { expected, actual }) => assert_eq!((expected, actual), (12, 11)),
        _ => panic!("expected a size mismatch"),
    }
}

#[test]
fn downloaded_blob_with_wrong_digest_is_refused() {
    let result = ResolvedBlob::downloaded(&descriptor("sha256:00", 11), b"hello world".to_vec());
    assert!(matches!(result, Err(BlobError::Digest(DigestCheckError::Mismatch { .. }))));
}

#[test]
fn cached_blob_points_at_its_file() {
    let blob = ResolvedBlob::cached(&descriptor("sha256:ab", 1), "/c/ab".to_string());
    assert!(matches!(blob.source, BlobSource::CachedFile(ref p) if p == "/c/ab"));
}

#[test]
fn assemble_resolved_restores_order() {
    let mk = |d: &str| ResolvedBlob { digest: d.to_string(), source: BlobSource::Downloaded(vec![]) };
    let results = vec![(2, mk("l2")), (0, mk("cfg")), (1, mk("l1"))];
    let (config, layers) = assemble_resolved(3, results);
    assert_eq!(config.digest, "cfg");
    let names: Vec<String> = layers.iter().map(|b| b.digest.clone()).collect();
    assert_eq!(names, vec!["l1", "l2"]);
}

#[test]
fn assemble_resolved_keeps_the_later_duplicate() {
    let mk = |d: &str| ResolvedBlob { digest: d.to_string(), source: BlobSource::Downloaded(vec![]) };
    let results = vec![(0, mk("first")), (1, mk("layer")), (0, mk("second"))];
    let (config, layers) = assemble_resolved(2, results);
    assert_eq!(config.digest, "second");
    assert_eq!(layers.len(), 1);
}
