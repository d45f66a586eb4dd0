//! Character-level helpers shared by the parsers of this crate.
//!
//! Every helper is stated over `Seq<char>`, the view of `&str` and `String`.
use vstd::prelude::*;
use vstd::string::*;

verus! {

/// `i` is the position of the first occurrence of `c` in `s`.
pub open spec fn is_first_index(s: Seq<char>, c: char, i: int) -> bool {
    &&& 0 <= i < s.len()
    &&& s[i] == c
    &&& forall|j: int| 0 <= j < i ==> s[j] != c
}

/// `i` is the position of the last occurrence of `c` in `s`.
pub open spec fn is_last_index(s: Seq<char>, c: char, i: int) -> bool {
    &&& 0 <= i < s.len()
    &&& s[i] == c
    &&& forall|j: int| i < j < s.len() ==> s[j] != c
}

/// Position of the first `c` in `s` (what `str::find` gives, counted in characters).
pub open spec fn find_char(s: Seq<char>, c: char) -> Option<int> {
    if s.contains(c) {
        Some(choose|i: int| is_first_index(s, c, i))
    } else {
        None
    }
}

/// Position of the last `c` in `s` (what `str::rfind` gives, counted in characters).
pub open spec fn rfind_char(s: Seq<char>, c: char) -> Option<int> {
    if s.contains(c) {
        Some(choose|i: int| is_last_index(s, c, i))
    } else {
        None
    }
}

pub proof fn lemma_find_char_is(s: Seq<char>, c: char, i: int)
    requires
        is_first_index(s, c, i),
    ensures
        find_char(s, c) == Some(i),
{
    assert(s.contains(c)) by {
        assert(s[i] == c);
    }
    let k = choose|k: int| is_first_index(s, c, k);
    assert(is_first_index(s, c, k));
    if k < i {
        assert(s[k] != c);
    } else if i < k {
        assert(s[i] != c);
    }
}

pub proof fn lemma_find_char_none(s: Seq<char>, c: char)
    requires
        forall|j: int| 0 <= j < s.len() ==> s[j] != c,
    ensures
        find_char(s, c) is None,
        !s.contains(c),
{
}

pub proof fn lemma_rfind_char_is(s: Seq<char>, c: char, i: int)
    requires
        is_last_index(s, c, i),
    ensures
        rfind_char(s, c) == Some(i),
{
    assert(s.contains(c)) by {
        assert(s[i] == c);
    }
    let k = choose|k: int| is_last_index(s, c, k);
    assert(is_last_index(s, c, k));
    if k < i {
        assert(s[i] != c);
    } else if i < k {
        assert(s[k] != c);
    }
}

proof fn lemma_first_from(s: Seq<char>, c: char, i: int, w: int)
    requires
        0 <= i <= w < s.len(),
        s[w] == c,
        forall|j: int| 0 <= j < i ==> s[j] != c,
    ensures
        find_char(s, c) is Some,
        is_first_index(s, c, find_char(s, c)->0),
    decreases w - i,
{
    if s[i] == c {
        lemma_find_char_is(s, c, i);
    } else {
        lemma_first_from(s, c, i + 1, w);
    }
}

proof fn lemma_last_from(s: Seq<char>, c: char, i: int, w: int)
    requires
        0 <= w <= i < s.len(),
        s[w] == c,
        forall|j: int| i < j < s.len() ==> s[j] != c,
    ensures
        rfind_char(s, c) is Some,
        is_last_index(s, c, rfind_char(s, c)->0),
    decreases i - w,
{
    if s[i] == c {
        lemma_rfind_char_is(s, c, i);
    } else {
        lemma_last_from(s, c, i - 1, w);
    }
}

/// `find_char` characterises the first occurrence.
pub proof fn lemma_find_char_spec(s: Seq<char>, c: char)
    ensures
        match find_char(s, c) {
            Some(i) => is_first_index(s, c, i),
            None => !s.contains(c),
        },
{
    if s.contains(c) {
        let w = choose|w: int| 0 <= w < s.len() && s[w] == c;
        lemma_first_from(s, c, 0, w);
    }
}

/// `rfind_char` characterises the last occurrence.
pub proof fn lemma_rfind_char_spec(s: Seq<char>, c: char)
    ensures
        match rfind_char(s, c) {
            Some(i) => is_last_index(s, c, i),
            None => !s.contains(c),
        },
{
    if s.contains(c) {
        let w = choose|w: int| 0 <= w < s.len() && s[w] == c;
        lemma_last_from(s, c, s.len() - 1, w);
    }
}

/// The characters of `s`, in order.
pub fn chars_of(s: &str) -> (out: Vec<char>)
    ensures
        out@ == s@,
{
    let mut out: Vec<char> = Vec::new();
    for c in it: s.chars()
        invariant
            out@ == it.seq().take(it.index() as int),
            it.seq() == s@,
    {
        out.push(c);
    }
    out
}

/// First position of `c` in `s`.
pub fn find_first(s: &Vec<char>, c: char) -> (res: Option<usize>)
    ensures
        match res {
            Some(i) => find_char(s@, c) == Some(i as int) && is_first_index(s@, c, i as int),
            None => find_char(s@, c) is None && !s@.contains(c),
        },
{
    let mut i: usize = 0;
    while i < s.len()
        invariant
            i <= s.len(),
            forall|j: int| 0 <= j < i ==> s@[j] != c,
        decreases s.len() - i,
    {
        if s[i] == c {
            proof {
                lemma_find_char_is(s@, c, i as int);
            }
            return Some(i);
        }
        i = i + 1;
    }
    None
}

/// Last position of `c` in `s`.
pub fn find_last(s: &Vec<char>, c: char) -> (res: Option<usize>)
    ensures
        match res {
            Some(i) => rfind_char(s@, c) == Some(i as int) && is_last_index(s@, c, i as int),
            None => rfind_char(s@, c) is None && !s@.contains(c),
        },
{
    let mut i: usize = s.len();
    while i > 0
        invariant
            i <= s.len(),
            forall|j: int| i <= j < s.len() ==> s@[j] != c,
        decreases i,
    {
        if s[i - 1] == c {
            proof {
                lemma_rfind_char_is(s@, c, i - 1);
            }
            return Some(i - 1);
        }
        i = i - 1;
    }
    None
}

/// Whether `c` occurs in `s`.
pub fn contains_char(s: &Vec<char>, c: char) -> (res: bool)
    ensures
        res == s@.contains(c),
{
    let r = find_first(s, c);
    proof {
        lemma_find_char_spec(s@, c);
    }
    r.is_some()
}

/// `a` followed by `b`, as a new `String`.
pub fn concat_str(a: &str, b: &str) -> (out: String)
    ensures
        out@ == a@ + b@,
{
    let mut s = String::from_str(a);
    s.append(b);
    s
}

/// Whether the two strings hold the same characters.
pub fn str_equal(a: &str, b: &str) -> (res: bool)
    ensures
        res == (a@ == b@),
{
    let x = String::from_str(a);
    let y = String::from_str(b);
    x == y
}


/// `char::is_whitespace`: the characters with the Unicode `White_Space` property.
pub open spec fn is_whitespace(c: char) -> bool {
    ||| ('\u{9}' <= c && c <= '\u{d}')
    ||| c == ' '
    ||| c == '\u{85}'
    ||| c == '\u{a0}'
    ||| c == '\u{1680}'
    ||| ('\u{2000}' <= c && c <= '\u{200a}')
    ||| c == '\u{2028}'
    ||| c == '\u{2029}'
    ||| c == '\u{202f}'
    ||| c == '\u{205f}'
    ||| c == '\u{3000}'
}

/// Whether `c` has the Unicode `White_Space` property.
pub fn char_is_whitespace(c: char) -> (res: bool)
    ensures
        res == is_whitespace(c),
{
    ('\u{9}' <= c && c <= '\u{d}') || c == ' ' || c == '\u{85}' || c == '\u{a0}' || c
        == '\u{1680}' || ('\u{2000}' <= c && c <= '\u{200a}') || c == '\u{2028}' || c
        == '\u{2029}' || c == '\u{202f}' || c == '\u{205f}' || c == '\u{3000}'
}

/// The sets of characters that trimming removes.
#[derive(Clone, Copy, PartialEq, Eq, Structural)]
pub enum CharClass {
    /// Unicode whitespace, as `str::trim` removes it.
    Whitespace,
    /// The double quote, as `str::trim_matches('"')` removes it.
    Quote,
}

pub open spec fn in_class(class: CharClass, c: char) -> bool {
    match class {
        CharClass::Whitespace => is_whitespace(c),
        CharClass::Quote => c == '"',
    }
}

fn char_in_class(class: CharClass, c: char) -> (res: bool)
    ensures
        res == in_class(class, c),
{
    match class {
        CharClass::Whitespace => char_is_whitespace(c),
        CharClass::Quote => c == '"',
    }
}

/// `s` without its leading characters of `class`.
pub open spec fn trim_start_class(s: Seq<char>, class: CharClass) -> Seq<char>
    decreases s.len(),
{
    if s.len() > 0 && in_class(class, s[0]) {
        trim_start_class(s.drop_first(), class)
    } else {
        s
    }
}

/// `s` without its trailing characters of `class`.
pub open spec fn trim_end_class(s: Seq<char>, class: CharClass) -> Seq<char>
    decreases s.len(),
{
    if s.len() > 0 && in_class(class, s.last()) {
        trim_end_class(s.drop_last(), class)
    } else {
        s
    }
}

/// `s` without its leading and trailing characters of `class`.
pub open spec fn trim_class(s: Seq<char>, class: CharClass) -> Seq<char> {
    trim_end_class(trim_start_class(s, class), class)
}

/// `str::trim` (for whitespace) and `str::trim_matches('"')` (for quotes).
pub fn trim_chars(s: &str, class: CharClass) -> (res: &str)
    ensures
        res@ == trim_class(s@, class),
{
    let cs = chars_of(s);
    let n = cs.len();
    let mut i: usize = 0;
    assert(s@.skip(0) =~= s@);
    while i < n && char_in_class(class, cs[i])
        invariant
            i <= n,
            n == s@.len(),
            cs@ == s@,
            trim_start_class(s@, class) == trim_start_class(s@.skip(i as int), class),
        decreases n - i,
    {
        proof {
            assert(s@.skip(i as int).drop_first() =~= s@.skip(i + 1));
        }
        i = i + 1;
    }
    assert(trim_start_class(s@, class) == s@.skip(i as int));
    let mut j: usize = n;
    while j > i && char_in_class(class, cs[j - 1])
        invariant
            i <= j <= n,
            n == s@.len(),
            cs@ == s@,
            trim_class(s@, class) == trim_end_class(s@.subrange(i as int, j as int), class),
        decreases j,
    {
        proof {
            assert(s@.subrange(i as int, j as int).drop_last() =~= s@.subrange(
                i as int,
                j - 1,
            ));
        }
        j = j - 1;
    }
    proof {
        assert(s@.skip(i as int) =~= s@.subrange(i as int, n as int));
    }
    s.substring_char(i, j)
}

/// `str::trim_end`.
pub fn trim_end_whitespace(s: &str) -> (res: &str)
    ensures
        res@ == trim_end_class(s@, CharClass::Whitespace),
{
    let cs = chars_of(s);
    let n = cs.len();
    let mut j: usize = n;
    assert(s@.subrange(0, n as int) =~= s@);
    while j > 0 && char_is_whitespace(cs[j - 1])
        invariant
            j <= n,
            n == s@.len(),
            cs@ == s@,
            trim_end_class(s@, CharClass::Whitespace) == trim_end_class(
                s@.subrange(0, j as int),
                CharClass::Whitespace,
            ),
        decreases j,
    {
        proof {
            assert(s@.subrange(0, j as int).drop_last() =~= s@.subrange(0, j - 1));
        }
        j = j - 1;
    }
    s.substring_char(0, j)
}

/// `s` with `prefix` taken off its front, if it starts with it.
pub open spec fn spec_strip_prefix(s: Seq<char>, prefix: Seq<char>) -> Option<Seq<char>> {
    if prefix.len() <= s.len() && s.take(prefix.len() as int) == prefix {
        Some(s.skip(prefix.len() as int))
    } else {
        None
    }
}

/// `str::strip_prefix`.
pub fn strip_prefix<'a>(s: &'a str, prefix: &str) -> (res: Option<&'a str>)
    ensures
        match res {
            Some(r) => spec_strip_prefix(s@, prefix@) == Some(r@),
            None => spec_strip_prefix(s@, prefix@) is None,
        },
{
    let cs = chars_of(s);
    let ps = chars_of(prefix);
    if ps.len() > cs.len() {
        return None;
    }
    let mut i: usize = 0;
    while i < ps.len()
        invariant
            i <= ps.len() <= cs.len(),
            cs@ == s@,
            ps@ == prefix@,
            forall|k: int| 0 <= k < i ==> cs@[k] == ps@[k],
        decreases ps.len() - i,
    {
        if cs[i] != ps[i] {
            proof {
                assert(s@.take(prefix@.len() as int)[i as int] != prefix@[i as int]);
            }
            return None;
        }
        i = i + 1;
    }
    proof {
        assert(s@.take(prefix@.len() as int) =~= prefix@);
    }
    Some(s.substring_char(ps.len(), cs.len()))
}

/// The pieces of `s` between occurrences of `sep`, as `str::split` gives them.
pub open spec fn spec_split(s: Seq<char>, sep: char) -> Seq<Seq<char>>
    decreases s.len(),
{
    match rfind_char(s, sep) {
        Some(p) => if 0 <= p < s.len() {
            spec_split(s.take(p), sep).push(s.skip(p + 1))
        } else {
            seq![s]
        },
        None => seq![s],
    }
}

/// Splitting a prefix that ends in the separator adds an empty last piece.
pub proof fn lemma_split_push_sep(s: Seq<char>, sep: char, i: int)
    requires
        0 <= i < s.len(),
        s[i] == sep,
    ensures
        spec_split(s.take(i + 1), sep) == spec_split(s.take(i), sep).push(Seq::<char>::empty()),
{
    let t = s.take(i + 1);
    lemma_rfind_char_is(t, sep, i);
    assert(t.take(i) =~= s.take(i));
    assert(t.skip(i + 1) =~= Seq::<char>::empty());
}

/// Splitting a prefix that ends in another character extends the last piece.
pub proof fn lemma_split_push_other(s: Seq<char>, sep: char, i: int)
    requires
        0 <= i < s.len(),
        s[i] != sep,
    ensures
        spec_split(s.take(i + 1), sep) == spec_split(s.take(i), sep).drop_last().push(
            spec_split(s.take(i), sep).last().push(s[i]),
        ),
{
    let t = s.take(i + 1);
    let u = s.take(i);
    lemma_rfind_char_spec(u, sep);
    match rfind_char(u, sep) {
        Some(p) => {
            assert(is_last_index(t, sep, p));
            lemma_rfind_char_is(t, sep, p);
            assert(t.take(p) =~= u.take(p));
            assert(t.skip(p + 1) =~= u.skip(p + 1).push(s[i]));
            assert(spec_split(u, sep) == spec_split(u.take(p), sep).push(u.skip(p + 1)));
            assert(spec_split(u, sep).drop_last() =~= spec_split(u.take(p), sep));
        },
        None => {
            assert forall|j: int| 0 <= j < t.len() implies t[j] != sep by {
                if j < i {
                    assert(u[j] == t[j]);
                    assert(u.contains(u[j]));
                }
            }
            lemma_rfind_char_spec(t, sep);
            assert(t =~= u.push(s[i]));
            assert(spec_split(u, sep).drop_last() =~= Seq::<Seq<char>>::empty());
        },
    }
}

/// The pieces of `s` up to the first `sep` and after it, as `str::splitn(2, sep)` gives them.
pub open spec fn spec_split_once(s: Seq<char>, sep: char) -> (Seq<char>, Option<Seq<char>>) {
    match find_char(s, sep) {
        Some(p) => (s.take(p), Some(s.skip(p + 1))),
        None => (s, None),
    }
}

/// `str::splitn(2, sep)`: the piece before the first `sep`, and the rest after it if any.
pub fn split_once_char<'a>(s: &'a str, sep: char) -> (res: (&'a str, Option<&'a str>))
    ensures
        res.0@ == spec_split_once(s@, sep).0,
        match res.1 {
            Some(r) => spec_split_once(s@, sep).1 == Some(r@),
            None => spec_split_once(s@, sep).1 is None,
        },
{
    let cs = chars_of(s);
    let n = cs.len();
    match find_first(&cs, sep) {
        Some(p) => (s.substring_char(0, p), Some(s.substring_char(p + 1, n))),
        None => (s, None),
    }
}

/// The value of a digit in the given radix (2 to 36), letters of either case standing for
/// 10 and up, as `char::to_digit` reads it.
pub open spec fn digit_value(c: char, radix: u32) -> Option<int> {
    let v: int = if '0' <= c && c <= '9' {
        c as int - '0' as int
    } else if 'a' <= c && c <= 'z' {
        c as int - 'a' as int + 10
    } else if 'A' <= c && c <= 'Z' {
        c as int - 'A' as int + 10
    } else {
        radix as int
    };
    if v < radix {
        Some(v)
    } else {
        None
    }
}

/// The number that a string of digits spells, most significant first.
pub open spec fn digits_value(ds: Seq<char>, radix: u32) -> Option<int>
    decreases ds.len(),
{
    if ds.len() == 0 {
        Some(0)
    } else {
        match (digits_value(ds.drop_last(), radix), digit_value(ds.last(), radix)) {
            (Some(v), Some(d)) => Some(v * radix + d),
            _ => None,
        }
    }
}

/// `from_str_radix` for an unsigned type whose largest value is `max`: an optional `+`,
/// then at least one digit, the value not above `max`.
pub open spec fn spec_parse_unsigned(s: Seq<char>, radix: u32, max: int) -> Option<int> {
    let ds = if s.len() > 0 && s[0] == '+' {
        s.drop_first()
    } else {
        s
    };
    if ds.len() == 0 {
        None
    } else {
        match digits_value(ds, radix) {
            Some(v) => if v <= max {
                Some(v)
            } else {
                None
            },
            None => None,
        }
    }
}

fn char_digit_value(c: char, radix: u32) -> (res: Option<u32>)
    requires
        2 <= radix <= 36,
    ensures
        match res {
            Some(d) => digit_value(c, radix) == Some(d as int),
            None => digit_value(c, radix) is None,
        },
{
    let v: u32 = if '0' <= c && c <= '9' {
        (c as u32) - ('0' as u32)
    } else if 'a' <= c && c <= 'z' {
        (c as u32) - ('a' as u32) + 10
    } else if 'A' <= c && c <= 'Z' {
        (c as u32) - ('A' as u32) + 10
    } else {
        radix
    };
    if v < radix {
        Some(v)
    } else {
        None
    }
}

proof fn lemma_digits_value_grows(ds: Seq<char>, radix: u32, k: int)
    requires
        0 <= k <= ds.len(),
        radix >= 2,
        digits_value(ds, radix) is Some,
    ensures
        digits_value(ds.take(k), radix) is Some,
        0 <= digits_value(ds.take(k), radix)->0 <= digits_value(ds, radix)->0,
    decreases ds.len(),
{
    if ds.len() > 0 {
        if k == ds.len() {
            assert(ds.take(k) =~= ds);
            lemma_digits_value_grows(ds.drop_last(), radix, k - 1);
            assert(ds.drop_last().take(k - 1) =~= ds.drop_last());
            let v = digits_value(ds.drop_last(), radix)->0;
            assert(v * radix >= v) by (nonlinear_arith)
                requires
                    v >= 0,
                    radix >= 2,
            ;
        } else {
            lemma_digits_value_grows(ds.drop_last(), radix, k);
            assert(ds.drop_last().take(k) =~= ds.take(k));
            let v = digits_value(ds.drop_last(), radix)->0;
            assert(v * radix >= v) by (nonlinear_arith)
                requires
                    v >= 0,
                    radix >= 2,
            ;
        }
    } else {
        assert(ds.take(k) =~= ds);
    }
}

/// `from_str_radix` for unsigned integers no larger than `max`.
pub fn parse_unsigned(s: &Vec<char>, radix: u32, max: u64) -> (res: Option<u64>)
    requires
        2 <= radix <= 36,
    ensures
        match res {
            Some(v) => spec_parse_unsigned(s@, radix, max as int) == Some(v as int),
            None => spec_parse_unsigned(s@, radix, max as int) is None,
        },
{
    let start: usize = if s.len() > 0 && s[0] == '+' {
        1
    } else {
        0
    };
    let ghost ds = if s@.len() > 0 && s@[0] == '+' {
        s@.drop_first()
    } else {
        s@
    };
    assert(ds =~= s@.skip(start as int));
    if start == s.len() {
        return None;
    }
    let mut acc: u64 = 0;
    let mut i: usize = start;
    assert(ds.take(0) =~= Seq::<char>::empty());
    while i < s.len()
        invariant
            2 <= radix <= 36,
            start <= i <= s.len(),
            start < s.len(),
            ds == s@.skip(start as int),
            ds == (if s@.len() > 0 && s@[0] == '+' {
                s@.drop_first()
            } else {
                s@
            }),
            digits_value(ds.take(i - start), radix) == Some(acc as int),
            acc <= max,
        decreases s.len() - i,
    {
        let d = match char_digit_value(s[i], radix) {
            Some(d) => d,
            None => {
                proof {
                    lemma_digits_none_extends(ds, radix, i - start);
                }
                return None;
            },
        };
        proof {
            assert(ds.take(i - start + 1).drop_last() =~= ds.take(i - start));
            assert(ds.take(i - start + 1).last() == s@[i as int]);
        }
        let next = match acc.checked_mul(radix as u64) {
            Some(m) => m.checked_add(d as u64),
            None => None,
        };
        match next {
            Some(v) if v <= max => {
                acc = v;
            },
            _ => {
                proof {
                    let k = i - start + 1;
                    assert(digits_value(ds.take(k), radix) == Some(acc * radix + d));
                    assert(acc * radix + d > max) by {
                        if acc * radix <= u64::MAX {
                            assert(acc as int * radix as int == (acc * radix as u64) as int);
                        }
                    }
                    if digits_value(ds, radix) is Some {
                        lemma_digits_value_grows(ds, radix, k);
                    }
                }
                return None;
            },
        }
        i = i + 1;
    }
    proof {
        assert(ds.take(i - start) =~= ds);
    }
    Some(acc)
}

proof fn lemma_digits_none_extends(ds: Seq<char>, radix: u32, k: int)
    requires
        0 <= k < ds.len(),
        digit_value(ds[k], radix) is None,
    ensures
        digits_value(ds, radix) is None,
    decreases ds.len(),
{
    if k == ds.len() - 1 {
    } else {
        lemma_digits_none_extends(ds.drop_last(), radix, k);
    }
}

/// `char::to_ascii_lowercase` applied to every character.
pub open spec fn ascii_lower(s: Seq<char>) -> Seq<char> {
    s.map_values(|c: char| if 'A' <= c && c <= 'Z' { ((c as int) + 32) as char } else { c })
}

/// `str::to_ascii_lowercase`, as characters.
pub fn to_ascii_lowercase(s: &str) -> (res: Vec<char>)
    ensures
        res@ == ascii_lower(s@),
{
    let cs = chars_of(s);
    let mut out: Vec<char> = Vec::new();
    let mut i: usize = 0;
    while i < cs.len()
        invariant
            i <= cs.len(),
            cs@ == s@,
            out@ == ascii_lower(s@.take(i as int)),
        decreases cs.len() - i,
    {
        let c = cs[i];
        let l = if 'A' <= c && c <= 'Z' {
            ((c as u8) + 32) as char
        } else {
            c
        };
        out.push(l);
        proof {
            assert(ascii_lower(s@.take(i + 1)) =~= ascii_lower(s@.take(i as int)).push(l));
        }
        i = i + 1;
    }
    proof {
        assert(s@.take(cs.len() as int) =~= s@);
    }
    out
}

/// `pat` occurs in `s` at position `i`.
pub open spec fn occurs_at(s: Seq<char>, pat: Seq<char>, i: int) -> bool {
    0 <= i && i + pat.len() <= s.len() && s.subrange(i, i + pat.len()) == pat
}

/// `str::contains` for a string pattern.
pub open spec fn contains_seq(s: Seq<char>, pat: Seq<char>) -> bool {
    exists|i: int| occurs_at(s, pat, i)
}

/// `str::starts_with` for a string pattern.
pub open spec fn starts_with_seq(s: Seq<char>, pat: Seq<char>) -> bool {
    occurs_at(s, pat, 0)
}

fn occurs_at_exec(s: &Vec<char>, pat: &Vec<char>, i: usize) -> (res: bool)
    ensures
        res == occurs_at(s@, pat@, i as int),
{
    if pat.len() > s.len() || i > s.len() - pat.len() {
        return false;
    }
    let mut k: usize = 0;
    while k < pat.len()
        invariant
            k <= pat.len(),
            i + pat.len() <= s.len(),
            forall|j: int| 0 <= j < k ==> s@[i + j] == pat@[j],
        decreases pat.len() - k,
    {
        if s[i + k] != pat[k] {
            proof {
                assert(s@.subrange(i as int, i + pat.len())[k as int] != pat@[k as int]);
            }
            return false;
        }
        k = k + 1;
    }
    proof {
        assert(s@.subrange(i as int, i + pat.len()) =~= pat@);
    }
    true
}

/// Whether `pat` occurs in `s`.
pub fn contains_chars(s: &Vec<char>, pat: &Vec<char>) -> (res: bool)
    ensures
        res == contains_seq(s@, pat@),
{
    let mut i: usize = 0;
    while i <= s.len()
        invariant
            i <= s.len() + 1,
            forall|j: int| 0 <= j < i ==> !occurs_at(s@, pat@, j),
        decreases s.len() + 1 - i,
    {
        if occurs_at_exec(s, pat, i) {
            return true;
        }
        if i == s.len() {
            proof {
                assert forall|j: int| !occurs_at(s@, pat@, j) by {
                    if j > s.len() {
                        assert(j + pat@.len() > s@.len());
                    }
                }
            }
            return false;
        }
        i = i + 1;
    }
    false
}

/// Whether `s` begins with `pat`.
pub fn starts_with_chars(s: &Vec<char>, pat: &Vec<char>) -> (res: bool)
    ensures
        res == starts_with_seq(s@, pat@),
{
    occurs_at_exec(s, pat, 0)
}

/// The length of the run of non-whitespace characters that `s` starts with.
pub open spec fn word_len(s: Seq<char>) -> nat
    decreases s.len(),
{
    if s.len() == 0 || is_whitespace(s[0]) {
        0
    } else {
        1 + word_len(s.drop_first())
    }
}

pub proof fn lemma_word_len(s: Seq<char>)
    ensures
        word_len(s) <= s.len(),
        s.len() > 0 && !is_whitespace(s[0]) ==> word_len(s) >= 1,
        forall|j: int| 0 <= j < word_len(s) ==> !is_whitespace(#[trigger] s[j]),
        word_len(s) < s.len() ==> is_whitespace(s[word_len(s) as int]),
    decreases s.len(),
{
    if s.len() > 0 && !is_whitespace(s[0]) {
        lemma_word_len(s.drop_first());
        assert forall|j: int| 0 <= j < word_len(s) implies !is_whitespace(#[trigger] s[j]) by {
            if j > 0 {
                assert(s[j] == s.drop_first()[j - 1]);
            }
        }
    }
}

pub proof fn lemma_trim_start_class(s: Seq<char>, class: CharClass)
    ensures
        trim_start_class(s, class).len() <= s.len(),
        trim_start_class(s, class) == s.skip(s.len() - trim_start_class(s, class).len()),
        trim_start_class(s, class).len() > 0 ==> !in_class(class, trim_start_class(s, class)[0]),
    decreases s.len(),
{
    if s.len() > 0 && in_class(class, s[0]) {
        lemma_trim_start_class(s.drop_first(), class);
        let t = trim_start_class(s, class);
        assert(s.drop_first().skip(s.drop_first().len() - t.len()) =~= s.skip(s.len() - t.len()));
    } else {
        assert(s.skip(0) =~= s);
    }
}

/// The `n`-th word of `s` (counting from 0), words being the maximal runs of
/// non-whitespace characters, as `str::split_whitespace` gives them.
pub open spec fn nth_word(s: Seq<char>, n: nat) -> Option<Seq<char>>
    decreases s.len(),
{
    let t = trim_start_class(s, CharClass::Whitespace);
    if t.len() == 0 {
        None
    } else {
        proof {
            lemma_trim_start_class(s, CharClass::Whitespace);
            lemma_word_len(t);
        }
        let w = word_len(t);
        if n == 0 {
            Some(t.take(w as int))
        } else {
            nth_word(t.skip(w as int), (n - 1) as nat)
        }
    }
}

/// The second word of `s`, as `s.split_whitespace().nth(1)` gives it.
pub fn second_word<'a>(s: &'a str) -> (res: Option<&'a str>)
    ensures
        match res {
            Some(w) => nth_word(s@, 1) == Some(w@),
            None => nth_word(s@, 1) is None,
        },
{
    let cs = chars_of(s);
    let n = cs.len();
    let mut i: usize = 0;
    let mut word: usize = 0;
    proof {
        assert(s@.skip(0) =~= s@);
    }
    while i < n
        invariant
            cs@ == s@,
            n == s@.len(),
            i <= n,
            word <= 1,
            nth_word(s@, 1) == nth_word(s@.skip(i as int), (1 - word) as nat),
        decreases n - i,
    {
        let ghost rest = s@.skip(i as int);
        let mut j = i;
        while j < n && char_is_whitespace(cs[j])
            invariant
                cs@ == s@,
                n == s@.len(),
                i <= j <= n,
                rest == s@.skip(i as int),
                trim_start_class(rest, CharClass::Whitespace) == trim_start_class(
                    s@.skip(j as int),
                    CharClass::Whitespace,
                ),
            decreases n - j,
        {
            proof {
                assert(s@.skip(j as int).drop_first() =~= s@.skip(j + 1));
            }
            j = j + 1;
        }
        let ghost t = s@.skip(j as int);
        assert(trim_start_class(rest, CharClass::Whitespace) == t);
        if j == n {
            proof {
                assert(t.len() == 0);
            }
            return None;
        }
        let mut k = j;
        while k < n && !char_is_whitespace(cs[k])
            invariant
                cs@ == s@,
                n == s@.len(),
                j <= k <= n,
                t == s@.skip(j as int),
                word_len(t) == (k - j) + word_len(s@.skip(k as int)),
            decreases n - k,
        {
            proof {
                assert(s@.skip(k as int).drop_first() =~= s@.skip(k + 1));
            }
            k = k + 1;
        }
        proof {
            assert(word_len(s@.skip(k as int)) == 0);
            lemma_trim_start_class(rest, CharClass::Whitespace);
            lemma_word_len(t);
            assert(t.take(k - j) =~= s@.subrange(j as int, k as int));
            assert(t.skip(k - j) =~= s@.skip(k as int));
        }
        if word == 1 {
            return Some(s.substring_char(j, k));
        }
        word = 1;
        i = k;
    }
    proof {
        assert(s@.skip(n as int).len() == 0);
        assert(trim_start_class(s@.skip(n as int), CharClass::Whitespace).len() == 0);
    }
    None
}

/// Appends one character to a `String` (`String::push`).
///
/// Trusted: the contract restates `String::push` as its documentation gives it, the
/// string afterwards being the old one followed by `c`.
#[verifier::external_body]
pub fn push_char(s: &mut String, c: char)
    ensures
        final(s)@ == old(s)@.push(c),
{
    s.push(c);
}

} // verus!
