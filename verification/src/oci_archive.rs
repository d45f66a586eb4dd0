//! The layout of the OCI image archive that is streamed to Docker.
use vstd::prelude::*;
use vstd::string::*;

use crate::digest::{blob_archive_path, spec_blob_archive_path};
use crate::image_ref::{spec_display_reference, ImageReference};
use crate::registry::PullPlan;
use crate::store::ResolvedBlob;

verus! {

/// The content of the `oci-layout` file.
pub const OCI_LAYOUT: &'static str = "{\"imageLayoutVersion\":\"1.0.0\"}";

/// The top-level `index.json` of an OCI image layout.
pub struct OciIndex {
    pub schema_version: u32,
    pub manifests: Vec<IndexEntry>,
}

/// A manifest named in `index.json`.
pub struct IndexEntry {
    pub media_type: String,
    pub digest: String,
    pub size: u64,
    pub annotations: ImageAnnotations,
}

/// The annotations of an index entry: the image's reference name.
pub struct ImageAnnotations {
    pub ref_name: String,
}

/// The index of an archive: schema version 2 and one entry, the pulled manifest,
/// annotated with the image's full reference.
pub fn oci_index(image: &ImageReference, plan: &PullPlan) -> (res: OciIndex)
    ensures
        res.schema_version == 2,
        res.manifests@.len() == 1,
        res.manifests@[0].media_type == plan.manifest_descriptor.media_type,
        res.manifests@[0].digest == plan.manifest_descriptor.digest,
        res.manifests@[0].size == plan.manifest_descriptor.size,
        res.manifests@[0].annotations.ref_name@ == spec_display_reference(image@),
{
    let entry = IndexEntry {
        media_type: plan.manifest_descriptor.media_type.clone(),
        digest: plan.manifest_descriptor.digest.clone(),
        size: plan.manifest_descriptor.size,
        annotations: ImageAnnotations { ref_name: image.display_reference() },
    };
    let mut manifests = Vec::new();
    manifests.push(entry);
    OciIndex { schema_version: 2, manifests }
}

/// What an archive entry holds.
#[derive(Debug, Clone, Copy, PartialEq, Eq, Structural)]
pub enum EntryContent {
    /// The `oci-layout` marker file.
    Layout,
    /// The `index.json` document.
    Index,
    /// The manifest bytes of the pull plan.
    Manifest,
    /// The config blob.
    Config,
    /// The layer blob with this position.
    Layer(usize),
}

/// One file of the archive, in order.
pub struct ArchiveEntry {
    pub path: String,
    pub content: EntryContent,
}

/// A digest that names no blob path; the archive stops before that blob.
#[derive(Debug)]
pub struct ArchiveError {
    pub digest: String,
}

/// The files of an archive, in order, up to the first blob whose digest is invalid.
pub struct ArchivePlan {
    pub entries: Vec<ArchiveEntry>,
    pub failure: Option<ArchiveError>,
}

/// The blobs of an archive with their digests: the manifest, the config, the layers.
pub open spec fn spec_archive_blobs(
    plan: PullPlan,
    config: ResolvedBlob,
    layers: Seq<ResolvedBlob>,
) -> Seq<(Seq<char>, EntryContent)> {
    seq![(plan.manifest_descriptor.digest@, EntryContent::Manifest), (
        config.digest@,
        EntryContent::Config,
    )] + Seq::new(layers.len(), |i: int| (layers[i].digest@, EntryContent::Layer(i as usize)))
}

/// Blob files up to the first invalid digest, and that digest if there is one.
pub open spec fn spec_blob_entries(blobs: Seq<(Seq<char>, EntryContent)>) -> (
    Seq<(Seq<char>, EntryContent)>,
    Option<Seq<char>>,
)
    decreases blobs.len(),
{
    if blobs.len() == 0 {
        (Seq::empty(), None)
    } else {
        let (done, failure) = spec_blob_entries(blobs.drop_last());
        if failure is Some {
            (done, failure)
        } else {
            match spec_blob_archive_path(blobs.last().0) {
                Some(path) => (done.push((path, blobs.last().1)), None),
                None => (done, Some(blobs.last().0)),
            }
        }
    }
}

/// The files of the archive: `oci-layout`, `index.json`, then the blobs under
/// `blobs/<algorithm>/<encoded>`, stopping at the first invalid digest.
pub open spec fn spec_archive_plan(
    plan: PullPlan,
    config: ResolvedBlob,
    layers: Seq<ResolvedBlob>,
) -> (Seq<(Seq<char>, EntryContent)>, Option<Seq<char>>) {
    let (blobs, failure) = spec_blob_entries(spec_archive_blobs(plan, config, layers));
    (seq![("oci-layout"@, EntryContent::Layout), ("index.json"@, EntryContent::Index)] + blobs, failure)
}

/// Once a blob's digest is invalid, the blobs after it change nothing.
proof fn lemma_failure_sticks(blobs: Seq<(Seq<char>, EntryContent)>, m: int)
    requires
        0 <= m <= blobs.len(),
        spec_blob_entries(blobs.take(m)).1 is Some,
    ensures
        spec_blob_entries(blobs) == spec_blob_entries(blobs.take(m)),
    decreases blobs.len(),
{
    if m == blobs.len() {
        assert(blobs.take(m) =~= blobs);
    } else {
        let d = blobs.drop_last();
        assert(d.take(m) =~= blobs.take(m));
        lemma_failure_sticks(d, m);
    }
}

pub open spec fn entry_view(e: ArchiveEntry) -> (Seq<char>, EntryContent) {
    (e.path@, e.content)
}

/// Plans the files of the archive for a pull.
pub fn archive_plan(plan: &PullPlan, config: &ResolvedBlob, layers: &[ResolvedBlob]) -> (res:
    ArchivePlan)
    requires
        layers@.len() + 2 <= usize::MAX,
    ensures
        Seq::new(res.entries@.len(), |i: int| entry_view(res.entries@[i])) == spec_archive_plan(
            *plan,
            *config,
            layers@,
        ).0,
        match spec_archive_plan(*plan, *config, layers@).1 {
            Some(d) => res.failure matches Some(e) && e.digest@ == d,
            None => res.failure is None,
        },
{
    let ghost blobs = spec_archive_blobs(*plan, *config, layers@);
    let mut entries: Vec<ArchiveEntry> = Vec::new();
    entries.push(ArchiveEntry { path: String::from_str("oci-layout"), content: EntryContent::Layout });
    entries.push(ArchiveEntry { path: String::from_str("index.json"), content: EntryContent::Index });
    let n = layers.len();
    let mut k: usize = 0;
    assert(blobs.take(0) =~= Seq::<(Seq<char>, EntryContent)>::empty());
    while k < n + 2
        invariant
            n == layers@.len(),
            n + 2 <= usize::MAX,
            blobs == spec_archive_blobs(*plan, *config, layers@),
            k <= n + 2,
            Seq::new(entries@.len(), |i: int| entry_view(entries@[i])) == seq![
                ("oci-layout"@, EntryContent::Layout),
                ("index.json"@, EntryContent::Index),
            ] + spec_blob_entries(blobs.take(k as int)).0,
            spec_blob_entries(blobs.take(k as int)).1 is None,
        decreases n + 2 - k,
    {
        let ghost before = Seq::new(entries@.len(), |i: int| entry_view(entries@[i]));
        let (digest, content) = if k == 0 {
            (plan.manifest_descriptor.digest.as_str(), EntryContent::Manifest)
        } else if k == 1 {
            (config.digest.as_str(), EntryContent::Config)
        } else {
            (layers[k - 2].digest.as_str(), EntryContent::Layer(k - 2))
        };
        proof {
            assert(blobs[k as int] == (digest@, content));
            assert(blobs.take(k + 1).drop_last() =~= blobs.take(k as int));
            assert(blobs.take(k + 1).last() == blobs[k as int]);
        }
        match blob_archive_path(digest) {
            Ok(path) => {
                entries.push(ArchiveEntry { path, content });
                proof {
                    let after = Seq::new(entries@.len(), |i: int| entry_view(entries@[i]));
                    assert(after =~= before.push((path@, content)));
                }
            },
            Err(_) => {
                proof {
                    lemma_failure_sticks(blobs, k + 1);
                }
                return ArchivePlan {
                    entries,
                    failure: Some(ArchiveError { digest: String::from_str(digest) }),
                };
            },
        }
        k = k + 1;
    }
    proof {
        assert(blobs.take(k as int) =~= blobs);
    }
    ArchivePlan { entries, failure: None }
}

proof fn lemma_blob_entries_shape(blobs: Seq<(Seq<char>, EntryContent)>)
    ensures
        spec_blob_entries(blobs).0.len() <= blobs.len(),
        forall|t: int|
            0 <= t < spec_blob_entries(blobs).0.len() ==> (#[trigger] spec_blob_entries(blobs).0[t]).1
                == blobs[t].1 && spec_blob_archive_path(blobs[t].0) == Some(
                spec_blob_entries(blobs).0[t].0,
            ),
        spec_blob_entries(blobs).1 is None ==> spec_blob_entries(blobs).0.len() == blobs.len(),
        spec_blob_entries(blobs).1 matches Some(d) ==> spec_blob_entries(blobs).0.len()
            < blobs.len() && d == blobs[spec_blob_entries(blobs).0.len() as int].0
            && spec_blob_archive_path(d) is None,
    decreases blobs.len(),
{
    if blobs.len() > 0 {
        let d = blobs.drop_last();
        lemma_blob_entries_shape(d);
        assert forall|t: int| 0 <= t < d.len() implies d[t] == blobs[t] by {}
    }
}

/// The files of an archive: `oci-layout`, then `index.json`, then the manifest, the
/// config and each layer in turn, every blob filed under the path of its own digest,
/// until the first digest that names no path. With no such digest every blob is there;
/// with one, the plan reports that very digest, the one of the first blob left out.
pub proof fn lemma_archive_plan_layout(plan: PullPlan, config: ResolvedBlob, layers: Seq<ResolvedBlob>)
    requires
        layers.len() + 2 <= usize::MAX,
    ensures
        ({
            let (e, f) = spec_archive_plan(plan, config, layers);
            &&& 2 <= e.len() <= layers.len() + 4
            &&& e[0] == ("oci-layout"@, EntryContent::Layout)
            &&& e[1] == ("index.json"@, EntryContent::Index)
            &&& e.len() > 2 ==> e[2].1 == EntryContent::Manifest && spec_blob_archive_path(
                plan.manifest_descriptor.digest@,
            ) == Some(e[2].0)
            &&& e.len() > 3 ==> e[3].1 == EntryContent::Config && spec_blob_archive_path(
                config.digest@,
            ) == Some(e[3].0)
            &&& forall|t: int|
                4 <= t < e.len() ==> (#[trigger] e[t]).1 == EntryContent::Layer((t - 4) as usize)
                    && spec_blob_archive_path(layers[t - 4].digest@) == Some(e[t].0)
            &&& forall|t: int|
                2 <= t < e.len() ==> match (#[trigger] e[t]).1 {
                    EntryContent::Layer(i) => i < layers.len() && spec_blob_archive_path(
                        layers[i as int].digest@,
                    ) == Some(e[t].0),
                    _ => true,
                }
            &&& f is None ==> e.len() == layers.len() + 4
            &&& f matches Some(d) ==> spec_blob_archive_path(d) is None && d == (if e.len() == 2 {
                plan.manifest_descriptor.digest@
            } else if e.len() == 3 {
                config.digest@
            } else {
                layers[e.len() - 4].digest@
            })
        }),
{
    let blobs = spec_archive_blobs(plan, config, layers);
    lemma_blob_entries_shape(blobs);
    let (done, f) = spec_blob_entries(blobs);
    let head = seq![("oci-layout"@, EntryContent::Layout), ("index.json"@, EntryContent::Index)];
    let e = head + done;
    assert(spec_archive_plan(plan, config, layers).0 == e);
    assert forall|t: int| 2 <= t < e.len() implies #[trigger] e[t] == done[t - 2] by {}
    assert forall|t: int| 4 <= t < e.len() implies (#[trigger] e[t]).1 == EntryContent::Layer(
        (t - 4) as usize,
    ) && spec_blob_archive_path(layers[t - 4].digest@) == Some(e[t].0) by {
        assert(done[t - 2] == e[t]);
        assert(blobs[t - 2] == (layers[t - 4].digest@, EntryContent::Layer((t - 4) as usize)));
    }
    assert forall|t: int| 2 <= t < e.len() implies match (#[trigger] e[t]).1 {
        EntryContent::Layer(i) => i < layers.len() && spec_blob_archive_path(
            layers[i as int].digest@,
        ) == Some(e[t].0),
        _ => true,
    } by {
        assert(done[t - 2] == e[t]);
        if t == 2 {
            assert(blobs[0].1 == EntryContent::Manifest);
        } else if t == 3 {
            assert(blobs[1].1 == EntryContent::Config);
        } else {
            assert(blobs[t - 2] == (layers[t - 4].digest@, EntryContent::Layer((t - 4) as usize)));
        }
    }
    if e.len() > 2 {
        assert(done[0] == e[2]);
    }
    if e.len() > 3 {
        assert(done[1] == e[3]);
    }
}

} // verus!
