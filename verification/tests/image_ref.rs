use mepul::image_ref::{ImageRefError, ImageReference};

#[test]
fn parses_image_references() {
    for test in [
        (
            "docker hub library image with tag",
            "ubuntu:24.04",
            "registry-1.docker.io",
            "library/ubuntu",
            "24.04",
        ),
        (
            "docker hub library image without tag",
            "ubuntu",
            "registry-1.docker.io",
            "library/ubuntu",
            "latest",
        ),
        (
            "explicit registry",
            "ghcr.io/example/app:1.0",
            "ghcr.io",
            "example/app",
            "1.0",
        ),
        (
            "digest reference",
            "ubuntu@sha256:aaaaaaaaaaaaaaaaaaaaaaaaaaaaaaaaaaaaaaaaaaaaaaaaaaaaaaaaaaaaaaaa",
            "registry-1.docker.io",
            "library/ubuntu",
            "sha256:aaaaaaaaaaaaaaaaaaaaaaaaaaaaaaaaaaaaaaaaaaaaaaaaaaaaaaaaaaaaaaaa",
        ),
        (
            "localhost registry with port",
            "localhost:5000/example/app:dev",
            "localhost:5000",
            "example/app",
            "dev",
        ),
    ] {
        let (name, input, registry, repository, reference) = test;
        let image = ImageReference::parse(input).unwrap();

        assert_eq!(image.registry, registry, "{name}: registry");
        assert_eq!(image.repository, repository, "{name}: repository");
        assert_eq!(image.reference, reference, "{name}: reference");
    }
}

#[test]
fn rejects_empty_repository_for_explicit_registry() {
    let error = ImageReference::parse("ghcr.io").unwrap_err();
    assert!(error.message().contains("repository is empty"));
}

#[test]
fn registry_with_trailing_slash_has_empty_repository() {
    let error = ImageReference::parse("ghcr.io/").unwrap_err();
    assert!(matches!(error, ImageRefError::EmptyRepository));
}

#[test]
fn user_namespace_on_docker_hub_keeps_full_name() {
    let image = ImageReference::parse("someone/tool:2").unwrap();
    assert_eq!(image.registry, "registry-1.docker.io");
    assert_eq!(image.repository, "someone/tool");
    assert_eq!(image.reference, "2");
}

#[test]
fn localhost_without_port_is_a_registry() {
    let image = ImageReference::parse("localhost/app").unwrap();
    assert_eq!(image.registry, "localhost");
    assert_eq!(image.repository, "app");
    assert_eq!(image.reference, "latest");
}

#[test]
fn colon_before_last_slash_is_not_a_tag() {
    let image = ImageReference::parse("localhost:5000/app").unwrap();
    assert_eq!(image.registry, "localhost:5000");
    assert_eq!(image.repository, "app");
    assert_eq!(image.reference, "latest");
}

#[test]
fn display_reference_joins_the_parts() {
    let image = ImageReference::parse("ubuntu:24.04").unwrap();
    assert_eq!(image.display_reference(), "registry-1.docker.io/library/ubuntu:24.04");
}

#[test]
fn display_then_parse_gives_the_same_reference() {
    for input in ["ubuntu:24.04", "ghcr.io/example/app:1.0", "localhost:5000/example/app:dev", "ubuntu"] {
        let image = ImageReference::parse(input).unwrap();
        let again = ImageReference::parse(&image.display_reference()).unwrap();
        assert_eq!(again.registry, image.registry);
        assert_eq!(again.repository, image.repository);
        assert_eq!(again.reference, image.reference);
    }
}

#[test]
fn digest_reference_does_not_survive_display() {
    let image = ImageReference::parse("ubuntu@sha256:abc").unwrap();
    let again = ImageReference::parse(&image.display_reference()).unwrap();
    assert_eq!(again.reference, "abc");
}
