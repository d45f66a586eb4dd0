//! The decisions of loading an image archive through the Docker Engine API: the request,
//! reading the response head, chunked transfer coding, and the progress stream.
use vstd::prelude::*;
use vstd::string::*;
use vstd::utf8::{decode_utf8, valid_utf8};

use crate::digest::hex_digit;
use crate::text::{
    digit_value, digits_value, is_whitespace, trim_start_class,
    ascii_lower, chars_of, contains_chars, contains_seq, nth_word, parse_unsigned, second_word,
    spec_parse_unsigned, spec_split_once, split_once_char, starts_with_chars, starts_with_seq,
    str_equal, to_ascii_lowercase, trim_chars, trim_class, trim_end_class, trim_end_whitespace,
    CharClass,
};

verus! {

/// Where the Docker daemon listens.
pub const DOCKER_SOCKET: &'static str = "/var/run/docker.sock";

/// The head of the request that loads an image archive; its body is sent chunked.
pub const LOAD_REQUEST: &'static str = "POST /images/load?quiet=0 HTTP/1.1\r\nHost: docker\r\nUser-Agent: mepul/0.1.0\r\nContent-Type: application/x-tar\r\nTransfer-Encoding: chunked\r\nConnection: close\r\n\r\n";

/// What matters of a response head.
pub struct ResponseHead {
    /// The status line without its line end.
    pub status_line: String,
    /// The status code is in `200..300`.
    pub status_success: bool,
    /// The body comes in chunked transfer coding.
    pub chunked: bool,
}

/// A status line reports success when its second word is a decimal `u16` in `200..300`.
pub open spec fn spec_status_success(line: Seq<char>) -> bool {
    match nth_word(line, 1) {
        Some(code) => match spec_parse_unsigned(code, 10, 65535) {
            Some(c) => 200 <= c < 300,
            None => false,
        },
        None => false,
    }
}

/// Whether a status line reports success.
pub fn status_is_success(status_line: &str) -> (res: bool)
    ensures
        res == spec_status_success(status_line@),
{
    match second_word(status_line) {
        Some(code) => {
            let digits = chars_of(code);
            match parse_unsigned(&digits, 10, 65535) {
                Some(c) => 200 <= c && c < 300,
                None => false,
            }
        },
        None => false,
    }
}

/// A header line declares chunked transfer coding when, in lower case, it starts with
/// `transfer-encoding:` and mentions `chunked`.
pub open spec fn spec_declares_chunked(line: Seq<char>) -> bool {
    let lower = ascii_lower(line);
    starts_with_seq(lower, "transfer-encoding:"@) && contains_seq(lower, "chunked"@)
}

/// Whether a header line declares chunked transfer coding.
pub fn header_declares_chunked(line: &str) -> (res: bool)
    ensures
        res == spec_declares_chunked(line@),
{
    let lower = to_ascii_lowercase(line);
    let prefix = chars_of("transfer-encoding:");
    let word = chars_of("chunked");
    starts_with_chars(&lower, &prefix) && contains_chars(&lower, &word)
}

/// Whether a line read from the head ends it: the empty line, or the end of input.
pub fn is_header_end(line: &str) -> (res: bool)
    ensures
        res == (line@ == "\r\n"@ || line@.len() == 0),
{
    str_equal(line, "\r\n") || line.is_empty()
}

/// Reads a response head from its status line and its header lines.
pub fn parse_response_head(status_line: &str, header_lines: &Vec<String>) -> (res: ResponseHead)
    ensures
        res.status_line@ == trim_end_class(status_line@, CharClass::Whitespace),
        res.status_success == spec_status_success(status_line@),
        res.chunked == exists|i: int|
            0 <= i < header_lines@.len() && spec_declares_chunked(#[trigger] header_lines@[i]@),
{
    let status_success = status_is_success(status_line);
    let mut chunked = false;
    let mut i: usize = 0;
    while i < header_lines.len()
        invariant
            i <= header_lines@.len(),
            chunked == exists|j: int|
                0 <= j < i && spec_declares_chunked(#[trigger] header_lines@[j]@),
        decreases header_lines@.len() - i,
    {
        if header_declares_chunked(header_lines[i].as_str()) {
            chunked = true;
        }
        i = i + 1;
    }
    ResponseHead {
        status_line: String::from_str(trim_end_whitespace(status_line)),
        status_success,
        chunked,
    }
}

/// The size that a chunk-size line announces: the line trimmed, cut at any `;`
/// (extensions), read as hexadecimal.
pub open spec fn spec_chunk_size(line: Seq<char>) -> Option<int> {
    let size_text = spec_split_once(trim_class(line, CharClass::Whitespace), ';').0;
    spec_parse_unsigned(size_text, 16, usize::MAX as int)
}

/// A chunk-size line that is not a hexadecimal size.
#[derive(Debug)]
pub struct ChunkSizeError {
    /// The text that was read as the size.
    pub size_text: String,
}

/// Reads a chunk-size line.
pub fn parse_chunk_size(size_line: &str) -> (res: Result<usize, ChunkSizeError>)
    ensures
        match res {
            Ok(n) => spec_chunk_size(size_line@) == Some(n as int),
            Err(e) => spec_chunk_size(size_line@) is None && e.size_text@ == spec_split_once(
                trim_class(size_line@, CharClass::Whitespace),
                ';',
            ).0,
        },
{
    let trimmed = trim_chars(size_line, CharClass::Whitespace);
    let (size_text, _) = split_once_char(trimmed, ';');
    let digits = chars_of(size_text);
    match parse_unsigned(&digits, 16, usize::MAX as u64) {
        Some(n) => Ok(n as usize),
        None => Err(ChunkSizeError { size_text: String::from_str(size_text) }),
    }
}

/// Where a reader of a chunked body stands: what it reads next.
#[derive(Debug, Clone, Copy, PartialEq, Eq, Structural)]
pub enum ChunkedRead {
    /// A chunk-size line.
    SizeLine,
    /// The bytes of a chunk, this many.
    Data(usize),
    /// The CRLF that follows a chunk's bytes.
    Terminator,
    /// Nothing: the empty chunk ended the body.
    Done,
}

/// What a reader of a chunked body has just read.
#[derive(Debug)]
pub enum ChunkedInput {
    /// A chunk-size line, as read.
    SizeLine(String),
    /// The bytes of a chunk.
    Data,
    /// The CRLF after a chunk's bytes.
    Terminator,
}

/// One step of reading a chunked body: after a size line come that many bytes, or the
/// end for size 0; after the bytes their CRLF; after the CRLF the next size line. An
/// input that does not answer the current read leaves the reader where it is.
pub fn chunked_step(current: ChunkedRead, input: ChunkedInput) -> (res: Result<ChunkedRead, ChunkSizeError>)
    ensures
        match (current, input) {
            (ChunkedRead::SizeLine, ChunkedInput::SizeLine(line)) => match spec_chunk_size(line@) {
                Some(n) => res == Ok::<ChunkedRead, ChunkSizeError>(
                    if n == 0 {
                        ChunkedRead::Done
                    } else {
                        ChunkedRead::Data(n as usize)
                    },
                ),
                None => res matches Err(e) && e.size_text@ == spec_split_once(
                    trim_class(line@, CharClass::Whitespace),
                    ';',
                ).0,
            },
            (ChunkedRead::Data(_), ChunkedInput::Data) => res == Ok::<ChunkedRead, ChunkSizeError>(
                ChunkedRead::Terminator,
            ),
            (ChunkedRead::Terminator, ChunkedInput::Terminator) => res == Ok::<
                ChunkedRead,
                ChunkSizeError,
            >(ChunkedRead::SizeLine),
            _ => res == Ok::<ChunkedRead, ChunkSizeError>(current),
        },
{
    match (current, input) {
        (ChunkedRead::SizeLine, ChunkedInput::SizeLine(line)) => {
            let size = parse_chunk_size(line.as_str())?;
            if size == 0 {
                Ok(ChunkedRead::Done)
            } else {
                Ok(ChunkedRead::Data(size))
            }
        },
        (ChunkedRead::Data(_), ChunkedInput::Data) => Ok(ChunkedRead::Terminator),
        (ChunkedRead::Terminator, ChunkedInput::Terminator) => Ok(ChunkedRead::SizeLine),
        _ => Ok(current),
    }
}

/// `format!("{:x}", n)`: lowercase hexadecimal without leading zeros.
pub open spec fn spec_hex_number(n: nat) -> Seq<char>
    decreases n,
{
    if n < 16 {
        seq![hex_digit(n as int)]
    } else {
        spec_hex_number(n / 16).push(hex_digit((n % 16) as int))
    }
}

/// Appends the lowercase hexadecimal digits of `n`.
fn push_hex_number(n: usize, out: &mut Vec<char>)
    ensures
        final(out)@ == old(out)@ + spec_hex_number(n as nat),
    decreases n,
{
    if n >= 16 {
        push_hex_number(n / 16, out);
    }
    out.push(crate::digest::hex_digit_char((n % 16) as u8));
    proof {
        if n < 16 {
            assert(old(out)@ + spec_hex_number(n as nat) =~= old(out)@.push(hex_digit(n as int)));
        } else {
            assert(final(out)@ =~= old(out)@ + spec_hex_number(n as nat));
        }
    }
}

/// Characters as the bytes of their ASCII encoding.
pub open spec fn ascii_bytes(cs: Seq<char>) -> Seq<u8> {
    cs.map_values(|c: char| c as u8)
}

/// A chunk of the chunked transfer coding: its size in hex, CRLF, the bytes, CRLF.
/// No bytes give no chunk at all, the empty chunk being the end marker.
pub open spec fn spec_chunk_frame(buf: Seq<u8>) -> Seq<u8> {
    if buf.len() == 0 {
        Seq::empty()
    } else {
        ascii_bytes(spec_hex_number(buf.len())) + seq![13u8, 10u8] + buf + seq![13u8, 10u8]
    }
}

/// The bytes that carry `buf` as one chunk of a chunked body.
pub fn chunk_frame(buf: &[u8]) -> (res: Vec<u8>)
    ensures
        res@ == spec_chunk_frame(buf@),
{
    let mut out: Vec<u8> = Vec::new();
    if buf.len() == 0 {
        return out;
    }
    let mut hex: Vec<char> = Vec::new();
    push_hex_number(buf.len(), &mut hex);
    assert(hex@ =~= spec_hex_number(buf@.len()));
    let mut i: usize = 0;
    while i < hex.len()
        invariant
            i <= hex@.len(),
            out@ == ascii_bytes(hex@.take(i as int)),
        decreases hex@.len() - i,
    {
        out.push(hex[i] as u8);
        proof {
            assert(ascii_bytes(hex@.take(i + 1)) =~= ascii_bytes(hex@.take(i as int)).push(
                hex@[i as int] as u8,
            ));
        }
        i = i + 1;
    }
    assert(hex@.take(hex@.len() as int) =~= hex@);
    out.push(13u8);
    out.push(10u8);
    let ghost head = out@;
    let mut k: usize = 0;
    while k < buf.len()
        invariant
            k <= buf@.len(),
            out@ == head + buf@.take(k as int),
        decreases buf@.len() - k,
    {
        out.push(buf[k]);
        proof {
            assert(buf@.take(k + 1) =~= buf@.take(k as int).push(buf@[k as int]));
        }
        k = k + 1;
    }
    out.push(13u8);
    out.push(10u8);
    proof {
        assert(buf@.take(buf@.len() as int) =~= buf@);
        assert(out@ =~= spec_chunk_frame(buf@));
    }
    out
}

/// The end of a chunked body: the empty chunk.
pub fn chunked_body_end() -> (res: Vec<u8>)
    ensures
        res@ == seq![48u8, 13u8, 10u8, 13u8, 10u8],
{
    let mut out: Vec<u8> = Vec::new();
    out.push(48u8);
    out.push(13u8);
    out.push(10u8);
    out.push(13u8);
    out.push(10u8);
    out
}

proof fn lemma_hex_digit(k: int)
    requires
        0 <= k < 16,
    ensures
        digit_value(hex_digit(k), 16) == Some(k),
        !is_whitespace(hex_digit(k)),
        hex_digit(k) != ';',
        hex_digit(k) != '+',
{
}

proof fn lemma_hex_number(n: nat)
    ensures
        spec_hex_number(n).len() > 0,
        digits_value(spec_hex_number(n), 16) == Some(n as int),
        forall|j: int|
            0 <= j < spec_hex_number(n).len() ==> !is_whitespace(#[trigger] spec_hex_number(n)[j])
                && spec_hex_number(n)[j] != ';' && spec_hex_number(n)[j] != '+',
    decreases n,
{
    if n < 16 {
        lemma_hex_digit(n as int);
        let h = seq![hex_digit(n as int)];
        assert(spec_hex_number(n) == h);
        assert(h.drop_last() =~= Seq::<char>::empty());
        assert(digits_value(h.drop_last(), 16) == Some(0int));
        assert(h.last() == hex_digit(n as int));
        assert(digits_value(h, 16) == Some(0 * 16 + n as int));
    } else {
        lemma_hex_number(n / 16);
        lemma_hex_digit((n % 16) as int);
        let h = spec_hex_number(n / 16).push(hex_digit((n % 16) as int));
        assert(h.drop_last() =~= spec_hex_number(n / 16));
        assert(h.last() == hex_digit((n % 16) as int));
        assert((n / 16) * 16 + n % 16 == n);
        assert(digits_value(h, 16) == Some(((n / 16) * 16 + n % 16) as int));
        assert forall|j: int| 0 <= j < h.len() implies !is_whitespace(#[trigger] h[j]) && h[j]
            != ';' && h[j] != '+' by {
            if j < h.len() - 1 {
                assert(h[j] == spec_hex_number(n / 16)[j]);
            }
        }
    }
}

/// Reading back a chunk size line: the size line written before a chunk of `n` bytes,
/// `format!("{:x}\r\n", n)`, announces exactly `n`.
pub proof fn lemma_chunk_size_roundtrip(n: usize)
    ensures
        spec_chunk_size(spec_hex_number(n as nat) + seq!['\r', '\n']) == Some(n as int),
{
    let h = spec_hex_number(n as nat);
    lemma_hex_number(n as nat);
    let line = h + seq!['\r', '\n'];
    assert(!is_whitespace(line[0]));
    assert(trim_start_class(line, CharClass::Whitespace) == line);
    assert(line.drop_last() =~= h + seq!['\r']);
    assert((h + seq!['\r']).drop_last() =~= h);
    assert(is_whitespace(line.last()));
    assert(is_whitespace((h + seq!['\r']).last()));
    assert(!is_whitespace(h.last()));
    assert(trim_end_class(h, CharClass::Whitespace) == h);
    let hr = h + seq!['\r'];
    assert(trim_end_class(hr, CharClass::Whitespace) == trim_end_class(hr.drop_last(), CharClass::Whitespace));
    assert(trim_end_class(line, CharClass::Whitespace) == trim_end_class(line.drop_last(), CharClass::Whitespace));
    assert(trim_class(line, CharClass::Whitespace) == h);
    assert forall|j: int| 0 <= j < h.len() implies h[j] != ';' by {}
    crate::text::lemma_find_char_none(h, ';');
}

/// The complete lines held by `buffer`, each with its `\n`, are taken out of it in order;
/// what stays is the unfinished last line.
pub fn split_complete_lines(buffer: &mut Vec<u8>) -> (lines: Vec<Vec<u8>>)
    ensures
        Seq::new(lines@.len(), |i: int| lines@[i]@).flatten() + final(buffer)@ == old(buffer)@,
        forall|i: int|
            0 <= i < lines@.len() ==> (#[trigger] lines@[i])@.len() > 0 && lines@[i]@.last()
                == 10u8 && forall|j: int| 0 <= j < lines@[i]@.len() - 1 ==> lines@[i]@[j] != 10u8,
        forall|j: int| 0 <= j < final(buffer)@.len() ==> final(buffer)@[j] != 10u8,
{
    let ghost b = buffer@;
    let mut lines: Vec<Vec<u8>> = Vec::new();
    let mut cur: Vec<u8> = Vec::new();
    let mut i: usize = 0;
    assert(b.take(0) =~= Seq::<u8>::empty());
    while i < buffer.len()
        invariant
            b == buffer@,
            i <= b.len(),
            Seq::new(lines@.len(), |k: int| lines@[k]@).flatten() + cur@ == b.take(i as int),
            forall|k: int|
                0 <= k < lines@.len() ==> (#[trigger] lines@[k])@.len() > 0 && lines@[k]@.last()
                    == 10u8 && forall|j: int| 0 <= j < lines@[k]@.len() - 1 ==> lines@[k]@[j]
                    != 10u8,
            forall|j: int| 0 <= j < cur@.len() ==> cur@[j] != 10u8,
        decreases b.len() - i,
    {
        let byte = buffer[i];
        let ghost views = Seq::new(lines@.len(), |k: int| lines@[k]@);
        cur.push(byte);
        proof {
            assert(b.take(i + 1) =~= b.take(i as int).push(byte));
        }
        if byte == 10u8 {
            let ghost c = cur@;
            lines.push(cur);
            cur = Vec::new();
            proof {
                let nv = Seq::new(lines@.len(), |k: int| lines@[k]@);
                assert(nv =~= views.push(c));
                views.lemma_flatten_push(c);
                assert(nv.flatten() + cur@ =~= b.take(i + 1));
            }
        }
        i = i + 1;
    }
    proof {
        assert(b.take(b.len() as int) =~= b);
    }
    *buffer = cur;
    lines
}

/// The text that `String::from_utf8_lossy` makes of bytes.
pub uninterp spec fn spec_utf8_lossy(bytes: Seq<u8>) -> Seq<char>;

/// Calls `String::from_utf8_lossy`.
///
/// Trusted: the result is the text std makes of the bytes, named `spec_utf8_lossy`; for
/// valid UTF-8 it is the decoded text, as std documents. How invalid sequences are
/// replaced is left to the name.
#[verifier::external_body]
fn utf8_lossy(bytes: &[u8]) -> (text: String)
    ensures
        text@ == spec_utf8_lossy(bytes@),
        valid_utf8(bytes@) ==> text@ == decode_utf8(bytes@),
{
    String::from_utf8_lossy(bytes).into_owned()
}

/// What `serde_json` reads in `text` under `key`: `None` when `text` is not JSON,
/// `Some(None)` when the value has no string under `key`.
pub uninterp spec fn spec_json_str_field(text: Seq<char>, key: Seq<char>) -> Option<
    Option<Seq<char>>,
>;

/// Calls `serde_json::from_str::<serde_json::Value>` on `text` and reads the string under
/// `key` (`Value::get`, then `Value::as_str`).
///
/// Trusted: the result is what the crate reads, named `spec_json_str_field`; nothing more
/// is claimed of JSON syntax.
#[verifier::external_body]
fn json_str_field(text: &str, key: &str) -> (res: Option<Option<String>>)
    ensures
        match res {
            Some(Some(s)) => spec_json_str_field(text@, key@) == Some(Some(s@)),
            Some(None) => spec_json_str_field(text@, key@) == Some(None::<Seq<char>>),
            None => spec_json_str_field(text@, key@) is None,
        },
{
    match serde_json::from_str::<serde_json::Value>(text) {
        Ok(v) => Some(v.get(key).and_then(serde_json::Value::as_str).map(str::to_string)),
        Err(_) => None,
    }
}

/// What to show for a line of the load progress stream.
#[derive(Debug)]
pub enum ProgressAction {
    /// An empty line: nothing.
    Nothing,
    /// A `stream` message, printed as it is.
    Print(String),
    /// A `status` message, or a line of another shape, printed on a line of its own.
    PrintLine(String),
}

/// Why the progress stream ended the load.
#[derive(Debug)]
pub enum ProgressError {
    /// The line is not JSON; it holds the trimmed line.
    Decode(String),
    /// Docker reported an error; it holds the message.
    Docker(String),
}

/// The outcome of reading a progress line.
pub enum ProgressOutcome {
    Nothing,
    Print(Seq<char>),
    PrintLine(Seq<char>),
    Decode(Seq<char>),
    Docker(Seq<char>),
}

/// What a progress line means: the line is decoded and trimmed; an empty line means
/// nothing; otherwise it is JSON, whose `error` fails the load, whose `stream` is printed,
/// whose `status` is printed on a line; any other JSON is printed as it is.
pub open spec fn spec_progress(line: Seq<u8>) -> ProgressOutcome {
    let text = trim_class(spec_utf8_lossy(line), CharClass::Whitespace);
    if text.len() == 0 {
        ProgressOutcome::Nothing
    } else {
        match spec_json_str_field(text, "error"@) {
            None => ProgressOutcome::Decode(text),
            Some(Some(e)) => ProgressOutcome::Docker(e),
            Some(None) => match spec_json_str_field(text, "stream"@) {
                Some(Some(s)) => ProgressOutcome::Print(s),
                _ => match spec_json_str_field(text, "status"@) {
                    Some(Some(s)) => ProgressOutcome::PrintLine(s),
                    _ => ProgressOutcome::PrintLine(text),
                },
            },
        }
    }
}

/// Reads one line of the load progress stream.
pub fn progress_line_action(line: &[u8]) -> (res: Result<ProgressAction, ProgressError>)
    ensures
        match spec_progress(line@) {
            ProgressOutcome::Nothing => res matches Ok(ProgressAction::Nothing),
            ProgressOutcome::Print(s) => res matches Ok(ProgressAction::Print(x)) && x@ == s,
            ProgressOutcome::PrintLine(s) => res matches Ok(ProgressAction::PrintLine(x)) && x@
                == s,
            ProgressOutcome::Decode(s) => res matches Err(ProgressError::Decode(x)) && x@ == s,
            ProgressOutcome::Docker(s) => res matches Err(ProgressError::Docker(x)) && x@ == s,
        },
{
    let decoded = utf8_lossy(line);
    let text = trim_chars(decoded.as_str(), CharClass::Whitespace);
    if text.is_empty() {
        return Ok(ProgressAction::Nothing);
    }
    match json_str_field(text, "error") {
        None => return Err(ProgressError::Decode(String::from_str(text))),
        Some(Some(e)) => return Err(ProgressError::Docker(e)),
        Some(None) => {},
    }
    if let Some(Some(s)) = json_str_field(text, "stream") {
        return Ok(ProgressAction::Print(s));
    }
    if let Some(Some(s)) = json_str_field(text, "status") {
        return Ok(ProgressAction::PrintLine(s));
    }
    Ok(ProgressAction::PrintLine(String::from_str(text)))
}

} // verus!
