use mepul::image_ref::ImageReference;
use mepul::oci_archive::{archive_plan, oci_index, EntryContent, OCI_LAYOUT};
use mepul::registry::{PullPlan, ResolvedManifest};
use mepul::store::{BlobSource, ResolvedBlob};
use mepul::types::Descriptor;

fn descriptor(media_type: &str, digest: &str, size: u64) -> Descriptor {
    Descriptor { media_type: media_type.to_string(), digest: digest.to_string(), size }
}

fn test_make_plan(manifest_bytes: &[u8]) -> PullPlan {
    PullPlan {
        manifest_descriptor: descriptor(
            "application/vnd.oci.image.manifest.v1+json",
            "sha256:aaaa",
            manifest_bytes.len() as u64,
        ),
        manifest_bytes: manifest_bytes.to_vec(),
        manifest: ResolvedManifest {
            digest: "sha256:aaaa".to_string(),
            raw_bytes: manifest_bytes.to_vec(),
            config: descriptor("application/vnd.oci.image.config.v1+json", "sha256:bbbb", 2),
            layers: vec![descriptor("application/vnd.oci.image.layer.v1.tar+gzip", "sha256:cccc", 5)],
        },
    }
}

fn paths(plan: &mepul::oci_archive::ArchivePlan) -> Vec<String> {
    plan.entries.iter().map(|e| e.path.clone()).collect()
}

#[test]
fn write_oci_archive_produces_valid_tar_with_required_entries() {
    let _image = ImageReference::parse("ubuntu:24.04").unwrap();
    let plan = test_make_plan(b"{}");
    let config = ResolvedBlob {
        digest: "sha256:bbbb".to_string(),
        source: BlobSource::Downloaded(b"{}".to_vec()),
    };
    let layer = ResolvedBlob {
        digest: "sha256:cccc".to_string(),
        source: BlobSource::Downloaded(b"layer".to_vec()),
    };

    let archive = archive_plan(&plan, &config, &vec![layer]);
    assert!(archive.failure.is_none());

    let paths = paths(&archive);
    assert!(paths.contains(&"oci-layout".to_string()));
    assert!(paths.contains(&"index.json".to_string()));
    assert!(paths.contains(&"blobs/sha256/aaaa".to_string()));
    assert!(paths.contains(&"blobs/sha256/bbbb".to_string()));
    assert!(paths.contains(&"blobs/sha256/cccc".to_string()));
}

#[test]
fn write_oci_archive_oci_layout_has_correct_content() {
    let v: serde_json::Value = serde_json::from_str(OCI_LAYOUT).unwrap();
    assert_eq!(v["imageLayoutVersion"], "1.0.0");
}

#[test]
fn write_oci_archive_index_contains_image_ref_annotation() {
    let image = ImageReference::parse("ghcr.io/example/app:v1").unwrap();
    let plan = test_make_plan(b"{}");

    let index = oci_index(&image, &plan);
    assert_eq!(index.schema_version, 2);
    assert_eq!(index.manifests.len(), 1);
    assert_eq!(index.manifests[0].annotations.ref_name, "ghcr.io/example/app:v1");
    assert_eq!(index.manifests[0].digest, "sha256:aaaa");
    assert_eq!(index.manifests[0].size, 2);
}

#[test]
fn blob_archive_path_errors_on_invalid_digest() {
    let _image = ImageReference::parse("ubuntu:24.04").unwrap();
    let plan = PullPlan {
        manifest_descriptor: descriptor(
            "application/vnd.oci.image.manifest.v1+json",
            "invalid-no-colon",
            0,
        ),
        manifest_bytes: b"{}".to_vec(),
        manifest: ResolvedManifest {
            digest: "invalid-no-colon".to_string(),
            raw_bytes: b"{}".to_vec(),
            config: descriptor("", "sha256:bbbb", 0),
            layers: vec![],
        },
    };
    let config = ResolvedBlob {
        digest: "sha256:bbbb".to_string(),
        source: BlobSource::Downloaded(vec![]),
    };

    let result = archive_plan(&plan, &config, &vec![]);

    assert!(result.failure.is_some());
}

#[test]
fn archive_entries_come_in_order_and_stop_at_invalid_digest() {
    let plan = test_make_plan(b"{}");
    let config = ResolvedBlob { digest: "sha256:bbbb".to_string(), source: BlobSource::Downloaded(vec![]) };
    let layers = vec![
        ResolvedBlob { digest: "sha256:cccc".to_string(), source: BlobSource::CachedFile("/c".to_string()) },
        ResolvedBlob { digest: "broken".to_string(), source: BlobSource::Downloaded(vec![]) },
        ResolvedBlob { digest: "sha256:dddd".to_string(), source: BlobSource::Downloaded(vec![]) },
    ];
    let archive = archive_plan(&plan, &config, &layers);
    assert_eq!(
        paths(&archive),
        vec!["oci-layout", "index.json", "blobs/sha256/aaaa", "blobs/sha256/bbbb", "blobs/sha256/cccc"]
    );
    let contents: Vec<EntryContent> = archive.entries.iter().map(|e| e.content).collect();
    assert_eq!(
        contents,
        vec![
            EntryContent::Layout,
            EntryContent::Index,
            EntryContent::Manifest,
            EntryContent::Config,
            EntryContent::Layer(0)
        ]
    );
    assert_eq!(archive.failure.unwrap().digest, "broken");
}
