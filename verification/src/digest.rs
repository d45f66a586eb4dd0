//! Content digests of the form `algorithm:encoded`, and their checking.
use vstd::prelude::*;
use vstd::string::*;

use sha2::{Digest, Sha256};

use crate::text::{
    chars_of, concat_str, find_first, find_char, is_first_index, lemma_find_char_is,
    push_char, str_equal,
};

verus! {

/// Why a digest string was refused.
#[derive(Debug, Clone, Copy, PartialEq, Eq, Structural)]
pub enum DigestFormatError {
    /// The digest lacks an algorithm or an encoded part around its first `:`.
    InvalidDigest,
}

/// Splits at the first `:`; both parts must be nonempty.
pub open spec fn spec_split_digest(s: Seq<char>) -> Option<(Seq<char>, Seq<char>)> {
    let (algorithm, encoded) = match find_char(s, ':') {
        Some(p) => (s.take(p), s.skip(p + 1)),
        None => (s, Seq::<char>::empty()),
    };
    if algorithm.len() == 0 || encoded.len() == 0 {
        None
    } else {
        Some((algorithm, encoded))
    }
}

/// Splits a digest such as `sha256:abcd` into its algorithm and its encoded part.
pub fn split_digest(digest: &str) -> (res: Result<(&str, &str), DigestFormatError>)
    ensures
        match res {
            Ok((algorithm, encoded)) => spec_split_digest(digest@) == Some((algorithm@, encoded@)),
            Err(_) => spec_split_digest(digest@) is None,
        },
{
    let cs = chars_of(digest);
    let n = cs.len();
    let (algorithm, encoded) = match find_first(&cs, ':') {
        Some(p) => (digest.substring_char(0, p), digest.substring_char(p + 1, n)),
        None => (digest, ""),
    };
    proof {
        reveal_strlit("");
        assert(digest@.take(n as int) =~= digest@);
    }
    if algorithm.is_empty() || encoded.is_empty() {
        return Err(DigestFormatError::InvalidDigest);
    }
    Ok((algorithm, encoded))
}

/// A split loses nothing: the digest is the algorithm, `:`, and the encoded part.
pub proof fn lemma_split_digest_rejoins(s: Seq<char>)
    ensures
        match spec_split_digest(s) {
            Some((algorithm, encoded)) => s == algorithm + seq![':'] + encoded
                && !algorithm.contains(':'),
            None => true,
        },
{
    crate::text::lemma_find_char_spec(s, ':');
    if spec_split_digest(s) is Some {
        let p = find_char(s, ':')->0;
        assert(s =~= s.take(p) + seq![':'] + s.skip(p + 1));
        assert forall|j: int| 0 <= j < p implies s.take(p)[j] != ':' by {}
    }
}

/// Joining an algorithm without `:` and a nonempty encoded part, then splitting, gives both back.
pub proof fn lemma_split_digest_of_join(algorithm: Seq<char>, encoded: Seq<char>)
    requires
        algorithm.len() > 0,
        encoded.len() > 0,
        !algorithm.contains(':'),
    ensures
        spec_split_digest(algorithm + seq![':'] + encoded) == Some((algorithm, encoded)),
{
    let s = algorithm + seq![':'] + encoded;
    let a = algorithm.len() as int;
    assert forall|j: int| 0 <= j < a implies s[j] != ':' by {
        assert(s[j] == algorithm[j]);
        assert(algorithm.contains(algorithm[j]));
    }
    assert(is_first_index(s, ':', a));
    lemma_find_char_is(s, ':', a);
    assert(s.take(a) =~= algorithm);
    assert(s.skip(a + 1) =~= encoded);
}

/// The path of a blob inside an OCI image layout: `blobs/<algorithm>/<encoded>`.
pub open spec fn spec_blob_archive_path(digest: Seq<char>) -> Option<Seq<char>> {
    match spec_split_digest(digest) {
        Some((algorithm, encoded)) => Some(
            seq!['b', 'l', 'o', 'b', 's', '/'] + algorithm + seq!['/'] + encoded,
        ),
        None => None,
    }
}

/// The path of a blob inside an OCI image layout.
pub fn blob_archive_path(digest: &str) -> (res: Result<String, DigestFormatError>)
    ensures
        match res {
            Ok(path) => spec_blob_archive_path(digest@) == Some(path@),
            Err(_) => spec_blob_archive_path(digest@) is None,
        },
{
    let (algorithm, encoded) = split_digest(digest)?;
    let mut path = concat_str("blobs/", algorithm);
    path.append("/");
    path.append(encoded);
    proof {
        reveal_strlit("blobs/");
        reveal_strlit("/");
        assert(path@ =~= seq!['b', 'l', 'o', 'b', 's', '/'] + algorithm@ + seq!['/'] + encoded@);
    }
    Ok(path)
}

/// The SHA-256 digest of the given bytes, as computed by the `sha2` crate.
pub uninterp spec fn spec_sha256(data: Seq<u8>) -> Seq<u8>;

/// Calls `sha2::Sha256::digest`.
///
/// Trusted: the result is the digest that the crate computes for the input, named
/// `spec_sha256`, and it is 32 bytes long, the output size of SHA-256.
#[verifier::external_body]
fn sha256_digest(data: &[u8]) -> (d: Vec<u8>)
    ensures
        d@ == spec_sha256(data@),
        d@.len() == 32,
{
    Sha256::digest(data).to_vec()
}

/// The lowercase hexadecimal digit for a value below 16.
pub open spec fn hex_digit(n: int) -> char {
    if n < 10 {
        ('0' as int + n) as char
    } else {
        ('a' as int + n - 10) as char
    }
}

/// Lowercase hexadecimal text of bytes, two digits per byte, high digit first.
pub open spec fn spec_hex_lower(data: Seq<u8>) -> Seq<char> {
    Seq::new(
        2 * data.len(),
        |i: int|
            if i % 2 == 0 {
                hex_digit(data[i / 2] as int / 16)
            } else {
                hex_digit(data[i / 2] as int % 16)
            },
    )
}

/// The lowercase hexadecimal digit for `n`.
pub fn hex_digit_char(n: u8) -> (c: char)
    requires
        n < 16,
    ensures
        c == hex_digit(n as int),
{
    if n < 10 {
        (n + 48) as char
    } else {
        (n + 87) as char
    }
}

/// Lowercase hexadecimal text of bytes.
pub fn hex_lower(data: &[u8]) -> (text: String)
    ensures
        text@ == spec_hex_lower(data@),
{
    let mut text = String::new();
    let mut i: usize = 0;
    while i < data.len()
        invariant
            i <= data.len(),
            text@ =~= spec_hex_lower(data@.take(i as int)),
        decreases data.len() - i,
    {
        let b = data[i];
        let hi = hex_digit_char(b / 16);
        let lo = hex_digit_char(b % 16);
        push_char(&mut text, hi);
        push_char(&mut text, lo);
        proof {
            let prev = spec_hex_lower(data@.take(i as int));
            let next = spec_hex_lower(data@.take(i + 1));
            assert forall|k: int| 0 <= k < next.len() implies next[k] == prev.push(hi).push(lo)[k] by {
                if k < 2 * i {
                    assert(data@.take(i + 1)[k / 2] == data@.take(i as int)[k / 2]);
                }
            }
            assert(next =~= prev.push(hi).push(lo));
        }
        i = i + 1;
    }
    proof {
        assert(data@.take(data.len() as int) =~= data@);
    }
    text
}

/// The name of the one digest algorithm that is checked.
pub open spec fn sha256_name() -> Seq<char> {
    seq!['s', 'h', 'a', '2', '5', '6']
}

/// The digest string that names `data`: `sha256:` and the lowercase hex of its SHA-256.
pub open spec fn spec_sha256_digest_string(data: Seq<u8>) -> Seq<char> {
    sha256_name() + seq![':'] + spec_hex_lower(spec_sha256(data))
}

/// The outcome of checking bytes against an expected digest.
pub enum DigestVerdict {
    Invalid,
    Unsupported(Seq<char>),
    Mismatch(Seq<char>),
    Match,
}

/// What checking a SHA-256 value `hash` against the digest `expected` gives.
pub open spec fn spec_digest_verdict(expected: Seq<char>, hash: Seq<u8>) -> DigestVerdict {
    match spec_split_digest(expected) {
        None => DigestVerdict::Invalid,
        Some((algorithm, encoded)) => if algorithm != sha256_name() {
            DigestVerdict::Unsupported(algorithm)
        } else if encoded != spec_hex_lower(hash) {
            DigestVerdict::Mismatch(spec_hex_lower(hash))
        } else {
            DigestVerdict::Match
        },
    }
}

/// What checking `data` against the digest `expected` gives.
pub open spec fn spec_verify_digest(expected: Seq<char>, data: Seq<u8>) -> DigestVerdict {
    spec_digest_verdict(expected, spec_sha256(data))
}

/// Why bytes did not match their expected digest.
#[derive(Debug)]
pub enum DigestCheckError {
    /// The expected digest is not of the form `algorithm:encoded`.
    InvalidDigest,
    /// The expected digest uses an algorithm other than `sha256`.
    UnsupportedAlgorithm(String),
    /// The bytes hash to another value; `actual` is its lowercase hex.
    Mismatch { actual: String },
}

/// Checks a computed SHA-256 value `hash` against the digest `expected`.
pub fn check_digest(expected: &str, hash: &[u8]) -> (res: Result<(), DigestCheckError>)
    ensures
        match spec_digest_verdict(expected@, hash@) {
            DigestVerdict::Invalid => res matches Err(DigestCheckError::InvalidDigest),
            DigestVerdict::Unsupported(a) => res matches Err(
                DigestCheckError::UnsupportedAlgorithm(x),
            ) && x@ == a,
            DigestVerdict::Mismatch(h) => res matches Err(DigestCheckError::Mismatch { actual })
                && actual@ == h,
            DigestVerdict::Match => res is Ok,
        },
{
    let (algorithm, encoded) = match split_digest(expected) {
        Ok(parts) => parts,
        Err(_) => return Err(DigestCheckError::InvalidDigest),
    };
    let is_sha256 = str_equal(algorithm, "sha256");
    proof {
        reveal_strlit("sha256");
        assert("sha256"@ =~= sha256_name());
    }
    if !is_sha256 {
        return Err(DigestCheckError::UnsupportedAlgorithm(String::from_str(algorithm)));
    }
    let actual = hex_lower(hash);
    if !str_equal(actual.as_str(), encoded) {
        return Err(DigestCheckError::Mismatch { actual });
    }
    Ok(())
}

/// Checks that `bytes` hash to the digest `expected`: their SHA-256 is computed and
/// checked with [`check_digest`].
pub fn verify_digest(expected: &str, bytes: &[u8]) -> (res: Result<(), DigestCheckError>)
    ensures
        match spec_verify_digest(expected@, bytes@) {
            DigestVerdict::Invalid => res matches Err(DigestCheckError::InvalidDigest),
            DigestVerdict::Unsupported(a) => res matches Err(
                DigestCheckError::UnsupportedAlgorithm(x),
            ) && x@ == a,
            DigestVerdict::Mismatch(h) => res matches Err(DigestCheckError::Mismatch { actual })
                && actual@ == h,
            DigestVerdict::Match => res is Ok,
        },
{
    let d = sha256_digest(bytes);
    check_digest(expected, d.as_slice())
}

/// Bytes pass the check against a digest only when the digest is `sha256:` followed by the
/// lowercase hex of their SHA-256; and they do pass against that digest, the SHA-256 of any
/// input being 32 bytes long.
pub proof fn lemma_verify_digest_matches_exactly(expected: Seq<char>, data: Seq<u8>)
    ensures
        (spec_verify_digest(expected, data) is Match) ==> expected == spec_sha256_digest_string(
            data,
        ),
        (expected == spec_sha256_digest_string(data) && spec_sha256(data).len() == 32) ==> (
        spec_verify_digest(expected, data) is Match),
{
    let hex = spec_hex_lower(spec_sha256(data));
    let name = sha256_name();
    assert(!name.contains(':')) by {
        assert forall|j: int| 0 <= j < name.len() implies name[j] != ':' by {}
    }
    if expected == spec_sha256_digest_string(data) && spec_sha256(data).len() == 32 {
        assert(hex.len() == 64);
        lemma_split_digest_of_join(name, hex);
    }
    if spec_verify_digest(expected, data) is Match {
        lemma_split_digest_rejoins(expected);
    }
}

} // verus!
