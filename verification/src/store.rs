//! Blobs of a pull: where each one comes from, how a download is checked, the cache layout.
use vstd::prelude::*;
use vstd::string::*;

use crate::digest::{spec_verify_digest, verify_digest, DigestCheckError, DigestVerdict};
use crate::text::{concat_str, spec_strip_prefix, strip_prefix};
use crate::types::Descriptor;

verus! {

/// Where the bytes of a blob are.
pub enum BlobSource {
    /// In a file of the local blob cache, at this path.
    CachedFile(String),
    /// In memory, just downloaded and checked.
    Downloaded(Vec<u8>),
}

/// A blob of the image, by digest, with where its bytes are.
pub struct ResolvedBlob {
    pub digest: String,
    pub source: BlobSource,
}

/// Why a downloaded blob was refused.
#[derive(Debug)]
pub enum BlobError {
    /// The download has another length than its descriptor states.
    SizeMismatch { expected: u64, actual: usize },
    /// The download does not hash to its descriptor's digest.
    Digest(DigestCheckError),
}

impl ResolvedBlob {
    /// A blob found in the local cache at `path`.
    pub fn cached(descriptor: &Descriptor, path: String) -> (res: ResolvedBlob)
        ensures
            res.digest == descriptor.digest,
            res.source == BlobSource::CachedFile(path),
    {
        ResolvedBlob { digest: descriptor.digest.clone(), source: BlobSource::CachedFile(path) }
    }

    /// Accepts downloaded bytes for `descriptor` when their length is its size and they
    /// hash to its digest.
    pub fn downloaded(descriptor: &Descriptor, bytes: Vec<u8>) -> (res: Result<ResolvedBlob, BlobError>)
        ensures
            bytes@.len() != descriptor.size ==> (res matches Err(
                BlobError::SizeMismatch { expected, actual },
            ) && expected == descriptor.size && actual == bytes@.len()),
            bytes@.len() == descriptor.size ==> match spec_verify_digest(descriptor.digest@, bytes@) {
                DigestVerdict::Match => res matches Ok(b) && b.digest == descriptor.digest
                    && b.source == BlobSource::Downloaded(bytes),
                DigestVerdict::Invalid => res matches Err(
                    BlobError::Digest(DigestCheckError::InvalidDigest),
                ),
                DigestVerdict::Unsupported(a) => res matches Err(
                    BlobError::Digest(DigestCheckError::UnsupportedAlgorithm(x)),
                ) && x@ == a,
                DigestVerdict::Mismatch(h) => res matches Err(
                    BlobError::Digest(DigestCheckError::Mismatch { actual }),
                ) && actual@ == h,
            },
    {
        if bytes.len() as u64 != descriptor.size {
            return Err(BlobError::SizeMismatch { expected: descriptor.size, actual: bytes.len() });
        }
        match verify_digest(descriptor.digest.as_str(), bytes.as_slice()) {
            Ok(()) => Ok(
                ResolvedBlob { digest: descriptor.digest.clone(), source: BlobSource::Downloaded(bytes) },
            ),
            Err(e) => Err(BlobError::Digest(e)),
        }
    }
}

/// `Path::join` on Unix: an absolute `part` replaces `base`; otherwise `part` is appended,
/// with a `/` between unless `base` is empty or already ends in one.
pub open spec fn spec_path_join(base: Seq<char>, part: Seq<char>) -> Seq<char> {
    if part.len() > 0 && part[0] == '/' {
        part
    } else if base.len() > 0 && base.last() != '/' {
        base + seq!['/'] + part
    } else {
        base + part
    }
}

/// Joins a path and a relative or absolute part, as `Path::join` does on Unix.
pub fn path_join(base: &str, part: &str) -> (res: String)
    ensures
        res@ == spec_path_join(base@, part@),
{
    let starts_with_slash = match strip_prefix(part, "/") {
        Some(_) => true,
        None => false,
    };
    proof {
        reveal_strlit("/");
        if part@.len() > 0 && part@[0] == '/' {
            assert(part@.take(1) =~= "/"@);
        }
        if starts_with_slash {
            assert(part@.take(1)[0] == "/"@[0]);
        }
    }
    if starts_with_slash {
        return String::from_str(part);
    }
    let ends_with_slash = base_ends_with_slash(base);
    if !base.is_empty() && !ends_with_slash {
        let mut out = concat_str(base, "/");
        out.append(part);
        out
    } else {
        concat_str(base, part)
    }
}

fn base_ends_with_slash(base: &str) -> (res: bool)
    ensures
        res == (base@.len() > 0 && base@.last() == '/'),
{
    let cs = crate::text::chars_of(base);
    cs.len() > 0 && cs[cs.len() - 1] == '/'
}

/// Where a `sha256:` blob is cached under the home directory `home`:
/// `<home>/.cache/mepul/blobs/sha256/<hex>`. Digests of other algorithms are not cached.
pub open spec fn spec_cache_blob_path(home: Seq<char>, digest: Seq<char>) -> Option<Seq<char>> {
    match spec_strip_prefix(digest, "sha256:"@) {
        Some(hash) => Some(
            spec_path_join(spec_path_join(home, ".cache/mepul/blobs/sha256"@), hash),
        ),
        None => None,
    }
}

/// The cache path of a blob, given the home directory.
pub fn cache_blob_path(home: &str, digest: &str) -> (res: Option<String>)
    ensures
        match res {
            Some(p) => spec_cache_blob_path(home@, digest@) == Some(p@),
            None => spec_cache_blob_path(home@, digest@) is None,
        },
{
    let hash = strip_prefix(digest, "sha256:")?;
    let dir = path_join(home, ".cache/mepul/blobs/sha256");
    Some(path_join(dir.as_str(), hash))
}

/// The blob that the last result numbered `i` carries, if any.
pub open spec fn last_result_for(results: Seq<(usize, ResolvedBlob)>, i: int) -> Option<ResolvedBlob>
    decreases results.len(),
{
    if results.len() == 0 {
        None
    } else if results.last().0 == i {
        Some(results.last().1)
    } else {
        last_result_for(results.drop_last(), i)
    }
}

/// Puts numbered results back in order: number 0 is the config, number `k + 1` layer `k`.
/// Every number below `total` occurs, and no other; where one occurs twice the later counts.
pub fn assemble_resolved(total: usize, results: Vec<(usize, ResolvedBlob)>) -> (res: (
    ResolvedBlob,
    Vec<ResolvedBlob>,
))
    requires
        total >= 1,
        forall|k: int| 0 <= k < results@.len() ==> #[trigger] results@[k].0 < total,
        forall|i: int| 0 <= i < total ==> #[trigger] last_result_for(results@, i) is Some,
    ensures
        Some(res.0) == last_result_for(results@, 0),
        res.1@.len() == total - 1,
        forall|j: int|
            0 <= j < total - 1 ==> Some(#[trigger] res.1@[j]) == last_result_for(results@, j + 1),
{
    let mut slots: Vec<Option<ResolvedBlob>> = Vec::new();
    let mut i: usize = 0;
    while i < total
        invariant
            i <= total,
            slots@.len() == i,
            forall|j: int| 0 <= j < i ==> slots@[j] is None,
        decreases total - i,
    {
        slots.push(None);
        i = i + 1;
    }
    let ghost all = results@;
    let mut rest = results;
    let ghost mut done: Seq<(usize, ResolvedBlob)> = Seq::empty();
    while rest.len() > 0
        invariant
            slots@.len() == total,
            all == done + rest@,
            forall|k: int| 0 <= k < all.len() ==> #[trigger] all[k].0 < total,
            forall|j: int|
                0 <= j < total ==> match #[trigger] slots@[j] {
                    Some(b) => last_result_for(done, j) == Some(b),
                    None => last_result_for(done, j) is None,
                },
        decreases rest.len(),
    {
        let ghost before = rest@;
        let (idx, blob) = rest.remove(0);
        proof {
            assert(all[done.len() as int] == (idx, blob));
        }
        slots.set(idx, Some(blob));
        proof {
            let old_done = done;
            done = done.push((idx, blob));
            assert(done.drop_last() =~= old_done);
            assert(all =~= done + rest@);
        }
    }
    proof {
        assert(done =~= all);
    }
    let first = slots.remove(0);
    proof {
        assert(last_result_for(all, 0) is Some);
    }
    let config = first.unwrap();
    let mut layers: Vec<ResolvedBlob> = Vec::new();
    let ghost remaining = slots@;
    assert(remaining.skip(0) =~= remaining);
    while slots.len() > 0
        invariant
            remaining.len() == total - 1,
            layers@.len() + slots@.len() == total - 1,
            slots@ == remaining.skip(layers@.len() as int),
            forall|j: int| 0 <= j < total - 1 ==> match #[trigger] remaining[j] {
                Some(b) => last_result_for(all, j + 1) == Some(b),
                None => last_result_for(all, j + 1) is None,
            },
            forall|j: int| 0 <= j < total - 1 ==> #[trigger] last_result_for(all, j + 1) is Some,
            forall|j: int|
                0 <= j < layers@.len() ==> Some(#[trigger] layers@[j]) == last_result_for(all, j + 1),
        decreases slots.len(),
    {
        let k = layers.len();
        let slot = slots.remove(0);
        proof {
            assert(slot == remaining[k as int]);
            assert(remaining.skip(k + 1) =~= slots@);
        }
        proof {
            assert(last_result_for(all, k + 1) is Some);
        }
        layers.push(slot.unwrap());
    }
    (config, layers)
}

/// Joining an absolute part gives the part; joining a relative part gives the base, one
/// `/` where the base is not empty and does not end in one, then the part.
pub proof fn lemma_path_join_parts(base: Seq<char>, part: Seq<char>)
    ensures
        part.len() > 0 && part[0] == '/' ==> spec_path_join(base, part) == part,
        !(part.len() > 0 && part[0] == '/') ==> {
            let j = spec_path_join(base, part);
            let sep: int = if base.len() > 0 && base.last() != '/' {
                1
            } else {
                0
            };
            &&& j.len() == base.len() + sep + part.len()
            &&& j.take(base.len() as int) == base
            &&& j.skip(base.len() + sep) == part
            &&& sep == 1 ==> j[base.len() as int] == '/'
        },
{
    let j = spec_path_join(base, part);
    if !(part.len() > 0 && part[0] == '/') {
        if base.len() > 0 && base.last() != '/' {
            assert(j.take(base.len() as int) =~= base);
            assert(j.skip(base.len() as int + 1) =~= part);
        } else {
            assert(j.take(base.len() as int) =~= base);
            assert(j.skip(base.len() as int) =~= part);
        }
    }
}

/// Only `sha256:` digests are cached. The cache path of one whose hex does not start with
/// `/` is a directory that depends on the home directory alone, a `/`, and the hex.
pub proof fn lemma_cache_blob_path_layout(home: Seq<char>, digest: Seq<char>, hash: Seq<char>, other: Seq<char>)
    ensures
        spec_strip_prefix(digest, "sha256:"@) is None ==> spec_cache_blob_path(home, digest) is None,
        !(hash.len() > 0 && hash[0] == '/') && !(other.len() > 0 && other[0] == '/') ==> {
            let p = spec_cache_blob_path(home, "sha256:"@ + hash)->0;
            let q = spec_cache_blob_path(home, "sha256:"@ + other)->0;
            &&& spec_cache_blob_path(home, "sha256:"@ + hash) is Some
            &&& p.len() > hash.len()
            &&& p.skip(p.len() - hash.len()) == hash
            &&& p[p.len() - hash.len() - 1] == '/'
            &&& p.take(p.len() - hash.len()) == q.take(q.len() - other.len())
        },
{
    reveal_strlit("sha256:");
    reveal_strlit(".cache/mepul/blobs/sha256");
    let tail = ".cache/mepul/blobs/sha256"@;
    let dir = spec_path_join(home, tail);
    lemma_path_join_parts(home, tail);
    assert(dir.len() > 0 && dir.last() != '/') by {
        assert(dir.last() == dir.skip(dir.len() - tail.len()).last());
    }
    assert(("sha256:"@ + hash).take(7) =~= "sha256:"@);
    assert(("sha256:"@ + hash).skip(7) =~= hash);
    assert(("sha256:"@ + other).take(7) =~= "sha256:"@);
    assert(("sha256:"@ + other).skip(7) =~= other);
    if !(hash.len() > 0 && hash[0] == '/') && !(other.len() > 0 && other[0] == '/') {
        lemma_path_join_parts(dir, hash);
        lemma_path_join_parts(dir, other);
        let p = spec_path_join(dir, hash);
        let q = spec_path_join(dir, other);
        assert(p.take(p.len() - hash.len()) =~= dir.push('/'));
        assert(q.take(q.len() - other.len()) =~= dir.push('/'));
    }
}

} // verus!
