//! The decisions of talking to an OCI registry: addresses, auth challenges, manifest choice.
use vstd::prelude::*;
use vstd::string::*;

use crate::image_ref::ImageReference;
use crate::text::{
    chars_of, lemma_split_push_other, lemma_split_push_sep, spec_split, spec_split_once,
    spec_strip_prefix, split_once_char, str_equal, strip_prefix, trim_chars, trim_class,
    CharClass, in_class, is_first_index, is_whitespace, lemma_find_char_is,
    lemma_find_char_none, trim_end_class, trim_start_class,
};
use crate::types::{Descriptor, ImageManifest, PlatformManifest};

verus! {

/// The manifest media types that are asked for, most preferred first.
pub const ACCEPTED_MANIFESTS: &'static str = "application/vnd.oci.image.index.v1+json,application/vnd.docker.distribution.manifest.list.v2+json,application/vnd.oci.image.manifest.v1+json,application/vnd.docker.distribution.manifest.v2+json";

/// What a pull resolved to: the chosen manifest, its descriptor and its exact bytes.
pub struct PullPlan {
    pub manifest_descriptor: Descriptor,
    pub manifest_bytes: Vec<u8>,
    pub manifest: ResolvedManifest,
}

/// A single-platform manifest, decoded, with the bytes it was decoded from.
pub struct ResolvedManifest {
    pub digest: String,
    pub raw_bytes: Vec<u8>,
    pub config: Descriptor,
    pub layers: Vec<Descriptor>,
}

/// An operating system and CPU architecture, in the names registries use.
pub struct PlatformSpec {
    pub os: String,
    pub arch: String,
}

/// Registry names for the CPU architectures that Rust names differently.
pub open spec fn spec_normalize_arch(arch: Seq<char>) -> Seq<char> {
    if arch == "x86_64"@ {
        "amd64"@
    } else if arch == "aarch64"@ {
        "arm64"@
    } else {
        arch
    }
}

/// Maps a Rust architecture name to the one registries use.
pub fn normalize_arch<'a>(arch: &'a str) -> (res: &'a str)
    ensures
        res@ == spec_normalize_arch(arch@),
{
    if str_equal(arch, "x86_64") {
        "amd64"
    } else if str_equal(arch, "aarch64") {
        "arm64"
    } else {
        arch
    }
}

impl PlatformSpec {
    /// The Linux platform for the given host architecture (`std::env::consts::ARCH`).
    pub fn host_default(host_arch: &str) -> (res: PlatformSpec)
        ensures
            res.os@ == "linux"@,
            res.arch@ == spec_normalize_arch(host_arch@),
    {
        PlatformSpec { os: String::from_str("linux"), arch: String::from_str(normalize_arch(host_arch)) }
    }
}

/// The scope a registry token is asked for.
pub struct Scope(pub String);

impl Scope {
    /// Pull access to one repository: `repository:<name>:pull`.
    pub fn repository_pull(repository: &str) -> (res: Scope)
        ensures
            res.0@ == "repository:"@ + repository@ + ":pull"@,
    {
        let mut s = String::from_str("repository:");
        s.append(repository);
        s.append(":pull");
        Scope(s)
    }

    pub fn as_str(&self) -> (res: &str)
        ensures
            res@ == self.0@,
    {
        self.0.as_str()
    }
}

/// The address of a manifest: `https://<registry>/v2/<repository>/manifests/<reference>`.
pub open spec fn spec_manifest_url(image: ImageReference, reference: Seq<char>) -> Seq<char> {
    "https://"@ + image.registry@ + "/v2/"@ + image.repository@ + "/manifests/"@ + reference
}

/// The address of a blob: `https://<registry>/v2/<repository>/blobs/<digest>`.
pub open spec fn spec_blob_url(image: ImageReference, digest: Seq<char>) -> Seq<char> {
    "https://"@ + image.registry@ + "/v2/"@ + image.repository@ + "/blobs/"@ + digest
}

/// The address of a manifest of `image`.
pub fn manifest_url(image: &ImageReference, reference: &str) -> (url: String)
    ensures
        url@ == spec_manifest_url(*image, reference@),
{
    let mut url = String::from_str("https://");
    url.append(image.registry.as_str());
    url.append("/v2/");
    url.append(image.repository.as_str());
    url.append("/manifests/");
    url.append(reference);
    url
}

/// The address of a blob of `image`.
pub fn blob_url(image: &ImageReference, digest: &str) -> (url: String)
    ensures
        url@ == spec_blob_url(*image, digest@),
{
    let mut url = String::from_str("https://");
    url.append(image.registry.as_str());
    url.append("/v2/");
    url.append(image.repository.as_str());
    url.append("/blobs/");
    url.append(digest);
    url
}

/// The value of an `Authorization` header for a bearer token.
pub fn bearer_authorization(token: &str) -> (value: String)
    ensures
        value@ == "Bearer "@ + token@,
{
    let mut value = String::from_str("Bearer ");
    value.append(token);
    value
}

/// The media type named by a `Content-Type` header: the text before any `;`, trimmed.
/// A missing header, or one that is not text, gives the empty media type.
pub open spec fn spec_media_type(content_type: Option<Seq<char>>) -> Seq<char> {
    match content_type {
        Some(v) => trim_class(spec_split_once(v, ';').0, CharClass::Whitespace),
        None => Seq::empty(),
    }
}

/// The media type named by a `Content-Type` header value.
pub fn media_type_from_content_type(content_type: Option<&str>) -> (res: String)
    ensures
        res@ == spec_media_type(
            match content_type {
                Some(v) => Some(v@),
                None => None,
            },
        ),
{
    match content_type {
        Some(v) => {
            let (head, _) = split_once_char(v, ';');
            String::from_str(trim_chars(head, CharClass::Whitespace))
        },
        None => String::new(),
    }
}

/// The media types of manifest lists (one manifest per platform).
pub open spec fn spec_is_manifest_list(media_type: Seq<char>) -> bool {
    media_type == "application/vnd.oci.image.index.v1+json"@ || media_type
        == "application/vnd.docker.distribution.manifest.list.v2+json"@
}

/// Whether a media type is that of a manifest list.
pub fn is_manifest_list(media_type: &str) -> (res: bool)
    ensures
        res == spec_is_manifest_list(media_type@),
{
    str_equal(media_type, "application/vnd.oci.image.index.v1+json") || str_equal(
        media_type,
        "application/vnd.docker.distribution.manifest.list.v2+json",
    )
}

/// A manifest as the registry sent it, with the digest and media type from its headers.
pub struct ManifestBytes {
    pub digest: String,
    pub media_type: String,
    pub bytes: Vec<u8>,
}

/// The descriptor of a manifest that was fetched directly by its tag or digest.
pub fn direct_descriptor(candidate: &ManifestBytes) -> (d: Descriptor)
    ensures
        d.media_type == candidate.media_type,
        d.digest == candidate.digest,
        d.size == candidate.bytes@.len(),
{
    Descriptor {
        media_type: candidate.media_type.clone(),
        digest: candidate.digest.clone(),
        size: candidate.bytes.len() as u64,
    }
}

/// An entry of a manifest list is for the platform when both its OS and architecture match.
pub open spec fn platform_matches(m: PlatformManifest, platform: PlatformSpec) -> bool {
    m.platform.os@ == platform.os@ && m.platform.architecture@ == platform.arch@
}

/// The first entry of a manifest list that is built for `platform`.
pub fn select_platform_manifest(candidates: Vec<PlatformManifest>, platform: &PlatformSpec) -> (res:
    Option<PlatformManifest>)
    ensures
        match res {
            Some(m) => exists|i: int|
                #![trigger candidates@[i]]
                0 <= i < candidates@.len() && candidates@[i] == m && platform_matches(m, *platform)
                    && forall|j: int| 0 <= j < i ==> !platform_matches(candidates@[j], *platform),
            None => forall|j: int|
                0 <= j < candidates@.len() ==> !platform_matches(candidates@[j], *platform),
        },
{
    let ghost all = candidates@;
    let mut manifests = candidates;
    let mut i: usize = 0;
    while i < manifests.len()
        invariant
            manifests@ == all,
            candidates@ == all,
            i <= manifests.len(),
            forall|j: int| 0 <= j < i ==> !platform_matches(all[j], *platform),
        decreases manifests.len() - i,
    {
        let m = &manifests[i];
        if str_equal(m.platform.os.as_str(), platform.os.as_str()) && str_equal(
            m.platform.architecture.as_str(),
            platform.arch.as_str(),
        ) {
            let chosen = manifests.remove(i);
            proof {
                assert(chosen == all[i as int]);
                assert(platform_matches(chosen, *platform));
                let k = i as int;
                assert(0 <= k < all.len() && all[k] == chosen && platform_matches(chosen, *platform)
                    && forall|j: int| 0 <= j < k ==> !platform_matches(all[j], *platform));

            }
            return Some(chosen);
        }
        i = i + 1;
    }
    None
}

impl ResolvedManifest {
    /// The resolved manifest for fetched bytes and the manifest decoded from them.
    pub fn from_decoded(candidate: ManifestBytes, manifest: ImageManifest) -> (res: ResolvedManifest)
        ensures
            res.digest == candidate.digest,
            res.raw_bytes == candidate.bytes,
            res.config == manifest.config,
            res.layers == manifest.layers,
    {
        ResolvedManifest {
            digest: candidate.digest,
            raw_bytes: candidate.bytes,
            config: manifest.config,
            layers: manifest.layers,
        }
    }
}

/// A copy of a byte vector.
pub fn copy_bytes(bytes: &Vec<u8>) -> (res: Vec<u8>)
    ensures
        res@ == bytes@,
{
    let res = bytes.clone();
    proof {
        assert(res@ =~= bytes@);
    }
    res
}

impl PullPlan {
    /// The plan for a chosen manifest; the manifest bytes are those it was decoded from.
    pub fn new(manifest_descriptor: Descriptor, manifest: ResolvedManifest) -> (res: PullPlan)
        ensures
            res.manifest_descriptor == manifest_descriptor,
            res.manifest_bytes@ == manifest.raw_bytes@,
            res.manifest == manifest,
    {
        let manifest_bytes = copy_bytes(&manifest.raw_bytes);
        PullPlan { manifest_descriptor, manifest_bytes, manifest }
    }
}

/// The body of a token response: the token may come under either name.
pub struct TokenResponse {
    pub token: Option<String>,
    pub access_token: Option<String>,
}

/// Why a registry exchange could not go on.
#[derive(Debug, Clone, Copy, PartialEq, Eq, Structural)]
pub enum TokenError {
    /// The token response named no token.
    MissingToken,
}

/// The bearer token of a token response: `token`, else `access_token`.
pub fn choose_token(response: TokenResponse) -> (res: Result<String, TokenError>)
    ensures
        match response.token {
            Some(t) => res == Ok::<String, TokenError>(t),
            None => match response.access_token {
                Some(a) => res == Ok::<String, TokenError>(a),
                None => res == Err::<String, TokenError>(TokenError::MissingToken),
            },
        },
{
    match response.token {
        Some(t) => Ok(t),
        None => match response.access_token {
            Some(a) => Ok(a),
            None => Err(TokenError::MissingToken),
        },
    }
}

/// The parameters of a `WWW-Authenticate: Bearer ...` challenge.
pub struct BearerChallenge {
    pub realm: String,
    pub service: String,
    pub scope: Option<String>,
}

/// Why an auth challenge was refused.
#[derive(Debug)]
pub enum ChallengeError {
    /// The challenge does not start with `Bearer `; it holds the whole header.
    Unsupported(String),
    /// No `realm` parameter.
    MissingRealm,
    /// No `service` parameter.
    MissingService,
}

/// The key of a `key=value` parameter: the text before the first `=`, trimmed.
pub open spec fn param_key(part: Seq<char>) -> Seq<char> {
    trim_class(
        spec_split_once(trim_class(part, CharClass::Whitespace), '=').0,
        CharClass::Whitespace,
    )
}

/// The value of a `key=value` parameter: the text after the first `=` (empty without one),
/// trimmed of whitespace and then of double quotes.
pub open spec fn param_value(part: Seq<char>) -> Seq<char> {
    let v = match spec_split_once(trim_class(part, CharClass::Whitespace), '=').1 {
        Some(v) => v,
        None => Seq::<char>::empty(),
    };
    trim_class(trim_class(v, CharClass::Whitespace), CharClass::Quote)
}

/// The value of the last parameter named `key`, if any.
pub open spec fn last_param(parts: Seq<Seq<char>>, key: Seq<char>) -> Option<Seq<char>>
    decreases parts.len(),
{
    if parts.len() == 0 {
        None
    } else if param_key(parts.last()) == key {
        Some(param_value(parts.last()))
    } else {
        last_param(parts.drop_last(), key)
    }
}

/// The outcome of reading an auth challenge.
pub enum ChallengeOutcome {
    Unsupported,
    MissingRealm,
    MissingService,
    Parsed { realm: Seq<char>, service: Seq<char>, scope: Option<Seq<char>> },
}

/// What [`BearerChallenge::parse`] gives: after `Bearer `, comma-separated `key=value`
/// parameters, of which the last `realm`, `service` and `scope` count.
pub open spec fn spec_parse_challenge(header: Seq<char>) -> ChallengeOutcome {
    match spec_strip_prefix(header, "Bearer "@) {
        None => ChallengeOutcome::Unsupported,
        Some(rest) => {
            let parts = spec_split(rest, ',');
            match last_param(parts, "realm"@) {
                None => ChallengeOutcome::MissingRealm,
                Some(realm) => match last_param(parts, "service"@) {
                    None => ChallengeOutcome::MissingService,
                    Some(service) => ChallengeOutcome::Parsed {
                        realm,
                        service,
                        scope: last_param(parts, "scope"@),
                    },
                },
            }
        },
    }
}

pub open spec fn opt_view(o: Option<String>) -> Option<Seq<char>> {
    match o {
        Some(s) => Some(s@),
        None => None,
    }
}

/// The key and value of one `key=value` parameter.
fn challenge_param(part: &str) -> (res: (&str, String))
    ensures
        res.0@ == param_key(part@),
        res.1@ == param_value(part@),
{
    let trimmed = trim_chars(part, CharClass::Whitespace);
    let (k, v) = split_once_char(trimmed, '=');
    let key = trim_chars(k, CharClass::Whitespace);
    let raw = match v {
        Some(v) => v,
        None => "",
    };
    proof {
        reveal_strlit("");
    }
    let value = trim_chars(trim_chars(raw, CharClass::Whitespace), CharClass::Quote);
    (key, String::from_str(value))
}

/// Records one `key=value` parameter if it is `realm`, `service` or `scope`.
fn apply_challenge_param(
    part: &str,
    realm: &mut Option<String>,
    service: &mut Option<String>,
    scope: &mut Option<String>,
)
    ensures
        opt_view(*final(realm)) == (if param_key(part@) == "realm"@ {
            Some(param_value(part@))
        } else {
            opt_view(*old(realm))
        }),
        opt_view(*final(service)) == (if param_key(part@) == "service"@ {
            Some(param_value(part@))
        } else {
            opt_view(*old(service))
        }),
        opt_view(*final(scope)) == (if param_key(part@) == "scope"@ {
            Some(param_value(part@))
        } else {
            opt_view(*old(scope))
        }),
{
    proof {
        reveal_strlit("realm");
        reveal_strlit("service");
        reveal_strlit("scope");
        assert("realm"@.len() != "service"@.len());
        assert("scope"@.len() != "service"@.len());
        assert("realm"@[0] != "scope"@[0]);
    }
    let (key, value) = challenge_param(part);
    if str_equal(key, "realm") {
        *realm = Some(value);
    } else if str_equal(key, "service") {
        *service = Some(value);
    } else if str_equal(key, "scope") {
        *scope = Some(value);
    }
}

impl BearerChallenge {
    /// Reads the parameters of a bearer auth challenge.
    pub fn parse(header: &str) -> (res: Result<BearerChallenge, ChallengeError>)
        ensures
            match spec_parse_challenge(header@) {
                ChallengeOutcome::Unsupported => res matches Err(ChallengeError::Unsupported(h))
                    && h@ == header@,
                ChallengeOutcome::MissingRealm => res matches Err(ChallengeError::MissingRealm),
                ChallengeOutcome::MissingService => res matches Err(
                    ChallengeError::MissingService,
                ),
                ChallengeOutcome::Parsed { realm, service, scope } => res matches Ok(c)
                    && c.realm@ == realm && c.service@ == service && opt_view(c.scope) == scope,
            },
    {
        let rest = match strip_prefix(header, "Bearer ") {
            Some(r) => r,
            None => return Err(ChallengeError::Unsupported(String::from_str(header))),
        };
        let cs = chars_of(rest);
        let n = cs.len();
        let mut realm: Option<String> = None;
        let mut service: Option<String> = None;
        let mut scope: Option<String> = None;
        let ghost mut parts: Seq<Seq<char>> = Seq::empty();
        let mut start: usize = 0;
        let mut i: usize = 0;
        assert(rest@.take(0) =~= Seq::<char>::empty());
        assert(rest@.subrange(0, 0) =~= Seq::<char>::empty());
        while i < n
            invariant
                n == rest@.len(),
                cs@ == rest@,
                start <= i <= n,
                spec_split(rest@.take(i as int), ',') == parts.push(
                    rest@.subrange(start as int, i as int),
                ),
                opt_view(realm) == last_param(parts, "realm"@),
                opt_view(service) == last_param(parts, "service"@),
                opt_view(scope) == last_param(parts, "scope"@),
            decreases n - i,
        {
            if cs[i] == ',' {
                proof {
                    lemma_split_push_sep(rest@, ',', i as int);
                }
                let part = rest.substring_char(start, i);
                apply_challenge_param(part, &mut realm, &mut service, &mut scope);
                proof {
                    let prev = parts;
                    parts = parts.push(part@);
                    assert(parts.drop_last() =~= prev);
                }
                start = i + 1;
                proof {
                    assert(rest@.subrange(start as int, i + 1) =~= Seq::<char>::empty());
                }
            } else {
                proof {
                    lemma_split_push_other(rest@, ',', i as int);
                    assert(rest@.subrange(start as int, i as int).push(rest@[i as int])
                        =~= rest@.subrange(start as int, i + 1));
                }
            }
            i = i + 1;
        }
        let last = rest.substring_char(start, n);
        apply_challenge_param(last, &mut realm, &mut service, &mut scope);
        proof {
            let prev = parts;
            parts = parts.push(last@);
            assert(parts.drop_last() =~= prev);
            assert(rest@.take(n as int) =~= rest@);
            assert(parts == spec_split(rest@, ','));
        }
        let realm = match realm {
            Some(r) => r,
            None => return Err(ChallengeError::MissingRealm),
        };
        let service = match service {
            Some(s) => s,
            None => return Err(ChallengeError::MissingService),
        };
        Ok(BearerChallenge { realm, service, scope })
    }
}

/// What to do with the answer to a registry request.
pub enum AuthStep {
    /// The answer stands.
    UseResponse,
    /// The registry wants a bearer token: fetch one as the challenge says, then ask again.
    FetchToken(BearerChallenge),
}

/// Why an unauthorized answer cannot be followed up.
#[derive(Debug)]
pub enum AuthError {
    /// The answer has no readable `WWW-Authenticate` header.
    MissingChallenge,
    /// The challenge was refused.
    Challenge(ChallengeError),
}

/// Decides on the answer to a registry request from its status code and its
/// `WWW-Authenticate` header: only a 401 calls for a token, read from the challenge.
pub fn auth_step(status: u16, challenge: Option<&str>) -> (res: Result<AuthStep, AuthError>)
    ensures
        status != 401 ==> res matches Ok(AuthStep::UseResponse),
        status == 401 ==> match challenge {
            None => res matches Err(AuthError::MissingChallenge),
            Some(header) => match spec_parse_challenge(header@) {
                ChallengeOutcome::Unsupported => res matches Err(
                    AuthError::Challenge(ChallengeError::Unsupported(h)),
                ) && h@ == header@,
                ChallengeOutcome::MissingRealm => res matches Err(
                    AuthError::Challenge(ChallengeError::MissingRealm),
                ),
                ChallengeOutcome::MissingService => res matches Err(
                    AuthError::Challenge(ChallengeError::MissingService),
                ),
                ChallengeOutcome::Parsed { realm, service, scope } => res matches Ok(
                    AuthStep::FetchToken(c),
                ) && c.realm@ == realm && c.service@ == service && opt_view(c.scope) == scope,
            },
        },
{
    if status != 401 {
        return Ok(AuthStep::UseResponse);
    }
    match challenge {
        None => Err(AuthError::MissingChallenge),
        Some(header) => match BearerChallenge::parse(header) {
            Ok(c) => Ok(AuthStep::FetchToken(c)),
            Err(e) => Err(AuthError::Challenge(e)),
        },
    }
}

/// Only `x86_64` and `aarch64` are renamed, to `amd64` and `arm64`; every other
/// architecture name comes back as it is.
pub proof fn lemma_normalize_arch_renames_only_two(arch: Seq<char>)
    ensures
        arch == "x86_64"@ ==> spec_normalize_arch(arch) == "amd64"@,
        arch == "aarch64"@ ==> spec_normalize_arch(arch) == "arm64"@,
        arch != "x86_64"@ && arch != "aarch64"@ ==> spec_normalize_arch(arch) == arch,
{
    reveal_strlit("x86_64");
    reveal_strlit("aarch64");
    assert("x86_64"@.len() != "aarch64"@.len());
}

/// A manifest address ends in exactly the reference asked for, after an address that
/// does not depend on it; and of the image only the registry and the repository count.
pub proof fn lemma_manifest_url_ends_in_reference(
    image: ImageReference,
    other: ImageReference,
    reference: Seq<char>,
)
    ensures
        spec_manifest_url(image, reference) == spec_manifest_url(image, Seq::empty()) + reference,
        spec_manifest_url(image, reference).len() >= reference.len(),
        spec_manifest_url(image, reference).skip(
            spec_manifest_url(image, reference).len() - reference.len(),
        ) == reference,
        other.registry == image.registry && other.repository == image.repository
            ==> spec_manifest_url(other, reference) == spec_manifest_url(image, reference),
{
    let base = spec_manifest_url(image, Seq::empty());
    assert(spec_manifest_url(image, reference) =~= base + reference);
    assert((base + reference).skip(base.len() as int) =~= reference);
}

/// A blob address ends in exactly the digest asked for, after an address that does not
/// depend on it; and of the image only the registry and the repository count.
pub proof fn lemma_blob_url_ends_in_digest(
    image: ImageReference,
    other: ImageReference,
    digest: Seq<char>,
)
    ensures
        spec_blob_url(image, digest) == spec_blob_url(image, Seq::empty()) + digest,
        spec_blob_url(image, digest).len() >= digest.len(),
        spec_blob_url(image, digest).skip(spec_blob_url(image, digest).len() - digest.len())
            == digest,
        other.registry == image.registry && other.repository == image.repository
            ==> spec_blob_url(other, digest) == spec_blob_url(image, digest),
{
    let base = spec_blob_url(image, Seq::empty());
    assert(spec_blob_url(image, digest) =~= base + digest);
    assert((base + digest).skip(base.len() as int) =~= digest);
}

/// Exactly two media types are manifest lists, the OCI image index and the Docker
/// manifest list; the single-manifest types, OCI and Docker, are not.
pub proof fn lemma_manifest_list_types(media_type: Seq<char>)
    ensures
        spec_is_manifest_list(media_type) ==> media_type == "application/vnd.oci.image.index.v1+json"@
            || media_type == "application/vnd.docker.distribution.manifest.list.v2+json"@,
        spec_is_manifest_list("application/vnd.oci.image.index.v1+json"@),
        spec_is_manifest_list("application/vnd.docker.distribution.manifest.list.v2+json"@),
        !spec_is_manifest_list("application/vnd.oci.image.manifest.v1+json"@),
        !spec_is_manifest_list("application/vnd.docker.distribution.manifest.v2+json"@),
{
    reveal_strlit("application/vnd.oci.image.index.v1+json");
    reveal_strlit("application/vnd.docker.distribution.manifest.list.v2+json");
    reveal_strlit("application/vnd.oci.image.manifest.v1+json");
    reveal_strlit("application/vnd.docker.distribution.manifest.v2+json");
    let oci_index = "application/vnd.oci.image.index.v1+json"@;
    let docker_list = "application/vnd.docker.distribution.manifest.list.v2+json"@;
    let oci_manifest = "application/vnd.oci.image.manifest.v1+json"@;
    let docker_manifest = "application/vnd.docker.distribution.manifest.v2+json"@;
    assert(oci_manifest.len() != oci_index.len());
    assert(oci_manifest.len() != docker_list.len());
    assert(docker_manifest.len() != oci_index.len());
    assert(docker_manifest.len() != docker_list.len());
}

proof fn lemma_trim_start_keeps(s: Seq<char>, class: CharClass, j: int) -> (k: int)
    requires
        0 <= j < s.len(),
        !in_class(class, s[j]),
    ensures
        0 <= k < trim_start_class(s, class).len(),
        !in_class(class, trim_start_class(s, class)[k]),
    decreases s.len(),
{
    if in_class(class, s[0]) {
        lemma_trim_start_keeps(s.drop_first(), class, j - 1)
    } else {
        j
    }
}

proof fn lemma_trim_end_keeps(s: Seq<char>, class: CharClass, j: int)
    requires
        0 <= j < s.len(),
        !in_class(class, s[j]),
    ensures
        trim_end_class(s, class).len() > 0,
    decreases s.len(),
{
    if in_class(class, s.last()) {
        lemma_trim_end_keeps(s.drop_last(), class, j);
    }
}

/// The media type of a `Content-Type` value without parameters is the whole value,
/// trimmed, and it is not empty unless the value is blank; parameters after a `;`
/// change nothing.
pub proof fn lemma_media_type_of_plain_value(v: Seq<char>, params: Seq<char>)
    requires
        forall|j: int| 0 <= j < v.len() ==> v[j] != ';',
    ensures
        spec_media_type(Some(v)) == trim_class(v, CharClass::Whitespace),
        spec_media_type(Some(v + seq![';'] + params)) == spec_media_type(Some(v)),
        forall|j: int|
            0 <= j < v.len() && !is_whitespace(#[trigger] v[j]) ==> spec_media_type(Some(v)).len()
                > 0,
{
    lemma_find_char_none(v, ';');
    let w = v + seq![';'] + params;
    assert(is_first_index(w, ';', v.len() as int)) by {
        assert forall|j: int| 0 <= j < v.len() implies w[j] != ';' by {
            assert(w[j] == v[j]);
        }
    }
    lemma_find_char_is(w, ';', v.len() as int);
    assert(w.take(v.len() as int) =~= v);
    assert forall|j: int| 0 <= j < v.len() && !is_whitespace(#[trigger] v[j]) implies spec_media_type(
        Some(v),
    ).len() > 0 by {
        let k = lemma_trim_start_keeps(v, CharClass::Whitespace, j);
        lemma_trim_end_keeps(trim_start_class(v, CharClass::Whitespace), CharClass::Whitespace, k);
    }
}

/// An entry is for a platform exactly when both its OS and its architecture are the
/// platform's.
pub proof fn lemma_platform_matches_fields(m: PlatformManifest, platform: PlatformSpec)
    ensures
        platform_matches(m, platform) <==> (m.platform.os@ == platform.os@
            && m.platform.architecture@ == platform.arch@),
{
}

} // verus!
