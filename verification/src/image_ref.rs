//! Image references such as `ubuntu:24.04` or `ghcr.io/example/app@sha256:...`.
use vstd::prelude::*;
use vstd::string::*;

use crate::text::{
    chars_of, is_first_index, is_last_index, lemma_find_char_is, lemma_find_char_none,
    lemma_find_char_spec, lemma_rfind_char_is, lemma_rfind_char_spec, concat_str, contains_char, find_char, find_first, find_last, rfind_char, str_equal};

verus! {

/// A parsed image reference: where the image lives and which version is meant.
#[derive(Debug, Clone)]
pub struct ImageReference {
    pub registry: String,
    pub repository: String,
    pub reference: String,
}

/// The mathematical value of an [`ImageReference`].
pub struct ImageRefView {
    pub registry: Seq<char>,
    pub repository: Seq<char>,
    pub reference: Seq<char>,
}

impl View for ImageReference {
    type V = ImageRefView;

    open spec fn view(&self) -> ImageRefView {
        ImageRefView {
            registry: self.registry@,
            repository: self.repository@,
            reference: self.reference@,
        }
    }
}

/// Why an image reference was refused.
#[derive(Debug, Clone, Copy, PartialEq, Eq, Structural)]
pub enum ImageRefError {
    /// The reference names a registry but no repository in it.
    EmptyRepository,
}

impl ImageRefError {
    /// The human-readable text of the error.
    pub fn message(&self) -> (text: String)
        ensures
            text@ == "repository is empty"@,
    {
        String::from_str("repository is empty")
    }
}

/// The tag used when a reference names none.
pub open spec fn latest_tag() -> Seq<char> {
    seq!['l', 'a', 't', 'e', 's', 't']
}

/// The registry that serves names without an explicit registry host.
pub open spec fn docker_hub_registry() -> Seq<char> {
    seq![
        'r', 'e', 'g', 'i', 's', 't', 'r', 'y', '-', '1', '.', 'd', 'o', 'c', 'k', 'e', 'r', '.',
        'i', 'o',
    ]
}

/// The namespace of official images on the default registry.
pub open spec fn library_prefix() -> Seq<char> {
    seq!['l', 'i', 'b', 'r', 'a', 'r', 'y', '/']
}

pub open spec fn localhost() -> Seq<char> {
    seq!['l', 'o', 'c', 'a', 'l', 'h', 'o', 's', 't']
}

/// Splits off the tag or digest: after the first `@` if there is one, else after the
/// last `:` when it follows the last `/`; otherwise the tag is `latest`.
pub open spec fn spec_split_reference(s: Seq<char>) -> (Seq<char>, Seq<char>) {
    match find_char(s, '@') {
        Some(p) => (s.take(p), s.skip(p + 1)),
        None => match rfind_char(s, ':') {
            Some(c) => if (match rfind_char(s, '/') {
                Some(sl) => c > sl,
                None => true,
            }) {
                (s.take(c), s.skip(c + 1))
            } else {
                (s, latest_tag())
            },
            None => (s, latest_tag()),
        },
    }
}

/// A first path component names a registry host when it holds a `.` or a `:`,
/// or is `localhost`.
pub open spec fn spec_is_registry_host(first: Seq<char>) -> bool {
    first.contains('.') || first.contains(':') || first == localhost()
}

/// Splits a name into registry and repository.
pub open spec fn spec_split_registry(name: Seq<char>) -> (Seq<char>, Seq<char>) {
    match find_char(name, '/') {
        Some(p) => if spec_is_registry_host(name.take(p)) {
            (name.take(p), name.skip(p + 1))
        } else {
            (docker_hub_registry(), name)
        },
        None => if spec_is_registry_host(name) {
            (name, Seq::empty())
        } else {
            (docker_hub_registry(), library_prefix() + name)
        },
    }
}

/// What [`ImageReference::parse`] gives for an input.
pub open spec fn spec_parse_reference(s: Seq<char>) -> Result<ImageRefView, ImageRefError> {
    let (name, reference) = spec_split_reference(s);
    let (registry, repository) = spec_split_registry(name);
    if repository.len() == 0 {
        Err(ImageRefError::EmptyRepository)
    } else {
        Ok(ImageRefView { registry, repository, reference })
    }
}

/// The text form `registry/repository:reference`.
pub open spec fn spec_display_reference(v: ImageRefView) -> Seq<char> {
    v.registry + seq!['/'] + v.repository + seq![':'] + v.reference
}

/// Reading back the text form: parsing `registry/repository:reference` gives the same
/// reference again, whenever the registry is a registry host holding neither `/` nor `@`,
/// the repository is nonempty and holds no `@`, and the reference holds none of `@`, `:`, `/`.
pub proof fn lemma_parse_display_roundtrip(v: ImageRefView)
    requires
        spec_is_registry_host(v.registry),
        !v.registry.contains('/'),
        !v.registry.contains('@'),
        v.repository.len() > 0,
        !v.repository.contains('@'),
        !v.reference.contains('@'),
        !v.reference.contains(':'),
        !v.reference.contains('/'),
    ensures
        spec_parse_reference(spec_display_reference(v)) == Ok::<ImageRefView, ImageRefError>(v),
{
    let r = v.registry;
    let p = v.repository;
    let f = v.reference;
    let s = spec_display_reference(v);
    let rl = r.len() as int;
    let pl = p.len() as int;
    let c = rl + 1 + pl;
    assert(s.len() == rl + pl + f.len() + 2);
    assert forall|j: int| 0 <= j < rl implies s[j] == r[j] by {}
    assert(s[rl] == '/');
    assert forall|j: int| rl < j < c implies s[j] == p[j - rl - 1] by {}
    assert(s[c] == ':');
    assert forall|j: int| c < j < s.len() implies s[j] == f[j - c - 1] by {}
    assert forall|j: int| 0 <= j < s.len() implies s[j] != '@' by {
        if j < rl {
            assert(r.contains(s[j]));
        } else if rl < j < c {
            assert(p.contains(s[j]));
        } else if c < j {
            assert(f.contains(s[j]));
        }
    }
    lemma_find_char_none(s, '@');
    assert forall|j: int| c < j < s.len() implies s[j] != ':' by {
        assert(f.contains(s[j]));
    }
    lemma_rfind_char_is(s, ':', c);
    lemma_rfind_char_spec(s, '/');
    assert(s.contains('/')) by {
        assert(s[rl] == '/');
    }
    let sl = rfind_char(s, '/')->0;
    assert(sl < c) by {
        if sl >= c {
            assert(s[sl] == '/');
            if sl > c {
                assert(f.contains(s[sl]));
            }
        }
    }
    let name = s.take(c);
    assert forall|j: int| 0 <= j < rl implies name[j] != '/' by {
        assert(r.contains(name[j]));
    }
    assert(is_first_index(name, '/', rl));
    lemma_find_char_is(name, '/', rl);
    assert(name.take(rl) =~= r);
    assert(name.skip(rl + 1) =~= p);
    assert(s.skip(c + 1) =~= f);
}

/// A tag reference is in canonical form once parsed: for an input without `@`, parsing the
/// text form of the parsed reference gives the same reference again.
pub proof fn lemma_reparse_tag_reference(s: Seq<char>)
    requires
        !s.contains('@'),
        spec_parse_reference(s) is Ok,
    ensures
        spec_parse_reference(spec_display_reference(spec_parse_reference(s)->Ok_0))
            == spec_parse_reference(s),
{
    let v = spec_parse_reference(s)->Ok_0;
    lemma_find_char_spec(s, '@');
    lemma_rfind_char_spec(s, ':');
    lemma_rfind_char_spec(s, '/');
    let (name, reference) = spec_split_reference(s);
    assert(name.len() <= s.len());
    assert forall|j: int| 0 <= j < name.len() implies name[j] == s[j] by {}
    assert(!name.contains('@')) by {
        if name.contains('@') {
            let j = choose|j: int| 0 <= j < name.len() && name[j] == '@';
            assert(s.contains(s[j]));
        }
    }
    let lt = latest_tag();
    assert(!lt.contains('@') && !lt.contains(':') && !lt.contains('/')) by {
        assert forall|j: int| 0 <= j < lt.len() implies lt[j] != '@' && lt[j] != ':' && lt[j]
            != '/' by {}
    }
    match rfind_char(s, ':') {
        Some(c) => {
            if reference != lt {
                assert(reference =~= s.skip(c + 1));
                assert forall|j: int| 0 <= j < reference.len() implies reference[j] != '@'
                    && reference[j] != ':' && reference[j] != '/' by {
                    assert(reference[j] == s[c + 1 + j]);
                    assert(s.contains(s[c + 1 + j]));
                }
            }
        },
        None => {},
    }
    let hub = docker_hub_registry();
    assert(spec_is_registry_host(hub) && !hub.contains('/') && !hub.contains('@')) by {
        assert(hub[10] == '.');
        assert forall|j: int| 0 <= j < hub.len() implies hub[j] != '/' && hub[j] != '@' by {}
    }
    lemma_find_char_spec(name, '/');
    match find_char(name, '/') {
        Some(p) => {
            let first = name.take(p);
            assert forall|j: int| 0 <= j < first.len() implies first[j] != '/' && first[j]
                != '@' by {
                assert(first[j] == name[j]);
                assert(name.contains(name[j]));
            }
            let rest = name.skip(p + 1);
            assert forall|j: int| 0 <= j < rest.len() implies rest[j] != '@' by {
                assert(rest[j] == name[p + 1 + j]);
                assert(name.contains(name[p + 1 + j]));
            }
        },
        None => {
            let lib = library_prefix() + name;
            assert forall|j: int| 0 <= j < lib.len() implies lib[j] != '@' by {
                if j >= 8 {
                    assert(lib[j] == name[j - 8]);
                    assert(name.contains(name[j - 8]));
                }
            }
        },
    }
    lemma_parse_display_roundtrip(v);
}

fn latest_string() -> (s: String)
    ensures
        s@ == latest_tag(),
{
    let s = String::from_str("latest");
    proof {
        reveal_strlit("latest");
        assert(s@ =~= latest_tag());
    }
    s
}

/// Splits `input` into its name and its tag or digest.
pub fn split_reference(input: &str) -> (res: (&str, String))
    ensures
        (res.0@, res.1@) == spec_split_reference(input@),
{
    let cs = chars_of(input);
    let n = cs.len();
    if let Some(pos) = find_first(&cs, '@') {
        let name = input.substring_char(0, pos);
        let reference = String::from_str(input.substring_char(pos + 1, n));
        return (name, reference);
    }
    let slash_pos = find_last(&cs, '/');
    let colon_pos = find_last(&cs, ':');
    if let Some(colon) = colon_pos {
        let after_slash = match slash_pos {
            Some(slash) => colon > slash,
            None => true,
        };
        if after_slash {
            let name = input.substring_char(0, colon);
            let reference = String::from_str(input.substring_char(colon + 1, n));
            return (name, reference);
        }
    }
    (input, latest_string())
}

/// Whether a first path component names a registry host.
pub fn is_registry_host(first: &str) -> (res: bool)
    ensures
        res == spec_is_registry_host(first@),
{
    let cs = chars_of(first);
    let local = str_equal(first, "localhost");
    proof {
        reveal_strlit("localhost");
        assert("localhost"@ =~= localhost());
    }
    contains_char(&cs, '.') || contains_char(&cs, ':') || local
}

/// Splits a name into registry and repository, defaulting to Docker Hub and its
/// `library/` namespace.
pub fn split_registry_and_repository(name: &str) -> (res: (String, String))
    ensures
        (res.0@, res.1@) == spec_split_registry(name@),
{
    let cs = chars_of(name);
    let n = cs.len();
    let hub = String::from_str("registry-1.docker.io");
    proof {
        reveal_strlit("registry-1.docker.io");
        assert(hub@ =~= docker_hub_registry());
    }
    match find_first(&cs, '/') {
        Some(p) => {
            let first = name.substring_char(0, p);
            if is_registry_host(first) {
                (String::from_str(first), String::from_str(name.substring_char(p + 1, n)))
            } else {
                (hub, String::from_str(name))
            }
        },
        None => {
            if is_registry_host(name) {
                (String::from_str(name), String::new())
            } else {
                let repository = concat_str("library/", name);
                proof {
                    reveal_strlit("library/");
                    assert("library/"@ =~= library_prefix());
                }
                (hub, repository)
            }
        },
    }
}

impl ImageReference {
    /// Parses an image reference.
    pub fn parse(input: &str) -> (res: Result<ImageReference, ImageRefError>)
        ensures
            match res {
                Ok(r) => spec_parse_reference(input@) == Ok::<ImageRefView, ImageRefError>(r@),
                Err(e) => spec_parse_reference(input@) == Err::<ImageRefView, ImageRefError>(e),
            },
            res is Ok ==> res->Ok_0.repository@.len() > 0,
    {
        let (name_part, reference) = split_reference(input);
        let (registry, repository) = split_registry_and_repository(name_part);
        if repository.as_str().is_empty() {
            proof {
                assert(repository@.len() == 0);
            }
            return Err(ImageRefError::EmptyRepository);
        }
        Ok(ImageReference { registry, repository, reference })
    }

    /// The text form `registry/repository:reference`.
    pub fn display_reference(&self) -> (text: String)
        ensures
            text@ == spec_display_reference(self@),
    {
        let mut text = self.registry.clone();
        text.append("/");
        text.append(self.repository.as_str());
        text.append(":");
        text.append(self.reference.as_str());
        proof {
            reveal_strlit("/");
            reveal_strlit(":");
            assert(text@ =~= spec_display_reference(self@));
        }
        text
    }
}

} // verus!
