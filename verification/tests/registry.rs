use mepul::image_ref::ImageReference;
use mepul::registry::{
    auth_step, bearer_authorization, blob_url, choose_token, direct_descriptor, is_manifest_list,
    manifest_url, media_type_from_content_type, normalize_arch, select_platform_manifest,
    AuthError, AuthStep, BearerChallenge, ChallengeError, ManifestBytes, PlatformSpec, PullPlan, ResolvedManifest,
    Scope, TokenError, TokenResponse,
};
use mepul::types::{Descriptor, ImageManifest, Platform, PlatformManifest};

fn entry(os: &str, arch: &str, digest: &str) -> PlatformManifest {
    PlatformManifest {
        descriptor: Descriptor { media_type: "m".to_string(), digest: digest.to_string(), size: 1 },
        platform: Platform { architecture: arch.to_string(), os: os.to_string() },
    }
}

#[test]
fn bearer_challenge_reads_parameters() {
    let c = BearerChallenge::parse(
        "Bearer realm=\"https://auth.docker.io/token\",service=\"registry.docker.io\",scope=\"repository:library/ubuntu:pull\"",
    )
    .unwrap();
    assert_eq!(c.realm, "https://auth.docker.io/token");
    assert_eq!(c.service, "registry.docker.io");
    assert_eq!(c.scope.as_deref(), Some("repository:library/ubuntu:pull"));
}

#[test]
fn bearer_challenge_last_parameter_wins_and_spaces_are_trimmed() {
    let c = BearerChallenge::parse("Bearer realm=a , service = \"b\", realm=\"c\", other=x").unwrap();
    assert_eq!(c.realm, "c");
    assert_eq!(c.service, "b");
    assert_eq!(c.scope, None);
}

#[test]
fn bearer_challenge_errors() {
    assert!(matches!(BearerChallenge::parse("Basic realm=x"), Err(ChallengeError::Unsupported(h)) if h == "Basic realm=x"));
    assert!(matches!(BearerChallenge::parse("Bearer service=x"), Err(ChallengeError::MissingRealm)));
    assert!(matches!(BearerChallenge::parse("Bearer realm=x"), Err(ChallengeError::MissingService)));
}

#[test]
fn normalize_arch_maps_rust_names() {
    assert_eq!(normalize_arch("x86_64"), "amd64");
    assert_eq!(normalize_arch("aarch64"), "arm64");
    assert_eq!(normalize_arch("riscv64"), "riscv64");
}

#[test]
fn host_default_is_linux() {
    let p = PlatformSpec::host_default("x86_64");
    assert_eq!(p.os, "linux");
    assert_eq!(p.arch, "amd64");
}

#[test]
fn scope_names_pull_access() {
    assert_eq!(Scope::repository_pull("library/ubuntu").as_str(), "repository:library/ubuntu:pull");
}

#[test]
fn urls_name_registry_repository_and_target() {
    let image = ImageReference::parse("ghcr.io/example/app:1.0").unwrap();
    assert_eq!(manifest_url(&image, "1.0"), "https://ghcr.io/v2/example/app/manifests/1.0");
    assert_eq!(blob_url(&image, "sha256:ab"), "https://ghcr.io/v2/example/app/blobs/sha256:ab");
    assert_eq!(bearer_authorization("tok"), "Bearer tok");
}

#[test]
fn media_type_drops_parameters() {
    assert_eq!(
        media_type_from_content_type(Some("application/vnd.oci.image.index.v1+json; charset=utf-8")),
        "application/vnd.oci.image.index.v1+json"
    );
    assert_eq!(media_type_from_content_type(None), "");
}

#[test]
fn manifest_lists_are_recognised() {
    assert!(is_manifest_list("application/vnd.oci.image.index.v1+json"));
    assert!(is_manifest_list("application/vnd.docker.distribution.manifest.list.v2+json"));
    assert!(!is_manifest_list("application/vnd.oci.image.manifest.v1+json"));
}

#[test]
fn first_matching_platform_is_selected() {
    let platform = PlatformSpec { os: "linux".to_string(), arch: "arm64".to_string() };
    let chosen = select_platform_manifest(
        vec![entry("linux", "amd64", "a"), entry("linux", "arm64", "b"), entry("linux", "arm64", "c")],
        &platform,
    )
    .unwrap();
    assert_eq!(chosen.descriptor.digest, "b");
    assert!(select_platform_manifest(vec![entry("windows", "arm64", "d")], &platform).is_none());
}

#[test]
fn token_prefers_token_over_access_token() {
    let t = TokenResponse { token: Some("a".to_string()), access_token: Some("b".to_string()) };
    assert_eq!(choose_token(t).unwrap(), "a");
    let t = TokenResponse { token: None, access_token: Some("b".to_string()) };
    assert_eq!(choose_token(t).unwrap(), "b");
    let t = TokenResponse { token: None, access_token: None };
    assert!(matches!(choose_token(t), Err(TokenError::MissingToken)));
}

#[test]
fn direct_manifest_is_described_by_its_headers_and_length() {
    let candidate = ManifestBytes {
        digest: "sha256:aa".to_string(),
        media_type: "application/vnd.oci.image.manifest.v1+json".to_string(),
        bytes: b"{\"x\":1}".to_vec(),
    };
    let d = direct_descriptor(&candidate);
    assert_eq!(d.digest, "sha256:aa");
    assert_eq!(d.size, 7);
    let manifest = ImageManifest {
        schema_version: 2,
        media_type: None,
        config: Descriptor { media_type: "c".to_string(), digest: "sha256:cc".to_string(), size: 3 },
        layers: vec![],
    };
    let resolved = ResolvedManifest::from_decoded(candidate, manifest);
    let plan = PullPlan::new(d, resolved);
    assert_eq!(plan.manifest_bytes, b"{\"x\":1}".to_vec());
    assert_eq!(plan.manifest.config.digest, "sha256:cc");
}

#[test]
fn auth_step_keeps_any_answer_but_401() {
    assert!(matches!(auth_step(200, None), Ok(AuthStep::UseResponse)));
    assert!(matches!(auth_step(404, Some("Bearer realm=\"r\"")), Ok(AuthStep::UseResponse)));
}

#[test]
fn auth_step_fetches_a_token_on_401_with_a_bearer_challenge() {
    let header = "Bearer realm=\"https://auth.docker.io/token\",service=\"registry.docker.io\",scope=\"repository:library/ubuntu:pull\"";
    match auth_step(401, Some(header)) {
        Ok(AuthStep::FetchToken(c)) => {
            assert_eq!(c.realm, "https://auth.docker.io/token");
            assert_eq!(c.service, "registry.docker.io");
            assert_eq!(c.scope.as_deref(), Some("repository:library/ubuntu:pull"));
        }
        _ => panic!("expected a token fetch"),
    }
}

#[test]
fn auth_step_refuses_401_without_a_usable_challenge() {
    assert!(matches!(auth_step(401, None), Err(AuthError::MissingChallenge)));
    match auth_step(401, Some("Basic realm=\"x\"")) {
        Err(AuthError::Challenge(ChallengeError::Unsupported(h))) => assert_eq!(h, "Basic realm=\"x\""),
        _ => panic!("expected an unsupported challenge"),
    }
    assert!(matches!(
        auth_step(401, Some("Bearer service=\"s\"")),
        Err(AuthError::Challenge(ChallengeError::MissingRealm))
    ));
    assert!(matches!(
        auth_step(401, Some("Bearer realm=\"r\"")),
        Err(AuthError::Challenge(ChallengeError::MissingService))
    ));
}
