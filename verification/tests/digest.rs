use mepul::digest::{blob_archive_path, check_digest, hex_lower, split_digest, verify_digest, DigestCheckError};
use sha2::{Digest, Sha256};

#[test]
fn split_digest_separates_algorithm_and_encoded() {
    let input = "sha256:abcdef";

    let (algo, encoded) = split_digest(input).unwrap();

    assert_eq!(algo, "sha256");
    assert_eq!(encoded, "abcdef");
}

#[test]
fn split_digest_keeps_later_colons_in_encoded_part() {
    let (algo, encoded) = split_digest("a:b:c").unwrap();
    assert_eq!(algo, "a");
    assert_eq!(encoded, "b:c");
}

#[test]
fn split_digest_rejects_missing_parts() {
    assert!(split_digest("invalid-no-colon").is_err());
    assert!(split_digest(":abc").is_err());
    assert!(split_digest("sha256:").is_err());
}

#[test]
fn verify_digest_passes_for_correct_sha256() {
    let bytes = b"hello world";
    let hash = format!("{:x}", Sha256::digest(bytes));
    let digest = format!("sha256:{hash}");

    let result = verify_digest(&digest, bytes);

    assert!(result.is_ok());
}

#[test]
fn verify_digest_fails_for_wrong_content() {
    let bytes = b"hello world";
    let wrong = "sha256:0000000000000000000000000000000000000000000000000000000000000000";

    let result = verify_digest(wrong, bytes);

    assert!(result.is_err());
}

#[test]
fn verify_digest_reports_actual_hash() {
    let result = verify_digest("sha256:00", b"hello world");
    match result {
        Err(DigestCheckError::Mismatch { actual }) => assert_eq!(
            actual,
            "b94d27b9934d3e08a52e52d7da7dabfac484efe37a5380ee9088f7ace2efcde9"
        ),
        other => panic!("unexpected {other:?}"),
    }
}

#[test]
fn verify_digest_rejects_other_algorithms() {
    match verify_digest("sha512:abcd", b"x") {
        Err(DigestCheckError::UnsupportedAlgorithm(a)) => assert_eq!(a, "sha512"),
        other => panic!("unexpected {other:?}"),
    }
}

#[test]
fn verify_digest_rejects_malformed_digest() {
    assert!(matches!(verify_digest("nocolon", b"x"), Err(DigestCheckError::InvalidDigest)));
}

#[test]
fn verify_digest_checks_empty_input() {
    let digest = "sha256:e3b0c44298fc1c149afbf4c8996fb92427ae41e4649b934ca495991b7852b855";
    assert!(verify_digest(digest, b"").is_ok());
}

#[test]
fn hex_lower_writes_two_digits_per_byte() {
    assert_eq!(hex_lower(&[0x00, 0x0f, 0xa0, 0xff]), "000fa0ff");
    assert_eq!(hex_lower(&[]), "");
}

#[test]
fn blob_archive_path_places_blob_under_algorithm() {
    assert_eq!(blob_archive_path("sha256:aaaa").unwrap(), "blobs/sha256/aaaa");
    assert!(blob_archive_path("invalid-no-colon").is_err());
}

#[test]
fn check_digest_compares_a_computed_hash_with_the_expected_digest() {
    assert!(check_digest("sha256:00ff10", &[0x00, 0xff, 0x10]).is_ok());
    match check_digest("sha256:00ff11", &[0x00, 0xff, 0x10]) {
        Err(DigestCheckError::Mismatch { actual }) => assert_eq!(actual, "00ff10"),
        other => panic!("unexpected {other:?}"),
    }
    match check_digest("md5:00ff10", &[0x00, 0xff, 0x10]) {
        Err(DigestCheckError::UnsupportedAlgorithm(a)) => assert_eq!(a, "md5"),
        other => panic!("unexpected {other:?}"),
    }
    assert!(matches!(check_digest("sha256", &[0x00]), Err(DigestCheckError::InvalidDigest)));
}
