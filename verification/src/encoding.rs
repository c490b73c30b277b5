//! Byte-level building blocks shared by the log records and the wire messages.
//!
//! A string is written as the length of its UTF-8 form, as eight little-endian
//! bytes, followed by the UTF-8 bytes themselves.

use vstd::prelude::*;
use vstd::bytes::*;
use vstd::slice::*;
use vstd::string::*;
use vstd::utf8::*;

verus! {

/// Number of bytes taken by the length that precedes a string.
pub const LEN_BYTES: usize = 8;

/// Whether the UTF-8 form of `s` is short enough for its length to be written
/// in the eight bytes that precede it.
pub open spec fn encodable(s: Seq<char>) -> bool {
    encode_utf8(s).len() <= u64::MAX
}

/// The bytes that stand for the string `s`.
pub open spec fn text_bytes(s: Seq<char>) -> Seq<u8> {
    spec_u64_to_le_bytes(encode_utf8(s).len() as u64) + encode_utf8(s)
}

/// Reads the string that starts at position `at` of `bytes`: the string and
/// the position just behind it, or `None` where no well-formed string starts
/// there.
pub open spec fn parse_text(bytes: Seq<u8>, at: int) -> Option<(Seq<char>, int)> {
    if 0 <= at && at + 8 <= bytes.len() {
        let n = spec_u64_from_le_bytes(bytes.subrange(at, at + 8)) as int;
        if at + 8 + n <= bytes.len() && valid_utf8(bytes.subrange(at + 8, at + 8 + n)) {
            Some((decode_utf8(bytes.subrange(at + 8, at + 8 + n)), at + 8 + n))
        } else {
            None
        }
    } else {
        None
    }
}

/// The form of a string is never empty: it holds at least the length.
pub proof fn lemma_text_bytes_len(s: Seq<char>)
    ensures
        text_bytes(s).len() == 8 + encode_utf8(s).len(),
{
    lemma_auto_spec_u64_to_from_le_bytes();
}

/// Whatever `parse_text` reads is the form of the string it yields.
pub proof fn lemma_parse_text_sound(bytes: Seq<u8>, at: int)
    requires
        parse_text(bytes, at) is Some,
    ensures
        ({
            let (s, end) = parse_text(bytes, at).unwrap();
            &&& 0 <= at
            &&& at + 8 <= end <= bytes.len()
            &&& encodable(s)
            &&& end - at == text_bytes(s).len()
            &&& bytes.subrange(at, end) == text_bytes(s)
        }),
{
    lemma_auto_spec_u64_to_from_le_bytes();
    let head = bytes.subrange(at, at + 8);
    let n = spec_u64_from_le_bytes(head) as int;
    let body = bytes.subrange(at + 8, at + 8 + n);
    let s = decode_utf8(body);
    decode_utf8_encode_utf8(body);
    assert(encode_utf8(s) == body);
    assert(spec_u64_to_le_bytes(spec_u64_from_le_bytes(head)) == head);
    assert(bytes.subrange(at, at + 8 + n) =~= head + body);
}

/// The form of a string, wherever it lies in `bytes`, is read back as that
/// string.
pub proof fn lemma_parse_text_complete(bytes: Seq<u8>, at: int, s: Seq<char>)
    requires
        encodable(s),
        0 <= at,
        at + text_bytes(s).len() <= bytes.len(),
        bytes.subrange(at, at + text_bytes(s).len()) == text_bytes(s),
    ensures
        parse_text(bytes, at) == Some((s, at + text_bytes(s).len())),
{
    lemma_auto_spec_u64_to_from_le_bytes();
    let body = encode_utf8(s);
    let n = body.len() as int;
    let head = spec_u64_to_le_bytes(n as u64);
    let form = text_bytes(s);
    assert(form.len() == 8 + n);
    assert(bytes.subrange(at, at + 8) =~= form.subrange(0, 8));
    assert(form.subrange(0, 8) =~= head);
    assert(bytes.subrange(at + 8, at + 8 + n) =~= form.subrange(8, 8 + n));
    assert(form.subrange(8, 8 + n) =~= body);
    encode_utf8_valid_utf8(s);
    encode_utf8_decode_utf8(s);
}

/// Calls `String::from_utf8` of the standard library, which accepts exactly
/// the vectors that hold well-formed UTF-8 and then returns the string that
/// those bytes spell; every other vector is refused.
#[verifier::external_body]
pub(crate) fn string_from_utf8(bytes: Vec<u8>) -> (r: Option<String>)
    ensures
        r is Some <==> valid_utf8(bytes@),
        r matches Some(s) ==> s@ == decode_utf8(bytes@),
{
    String::from_utf8(bytes).ok()
}

/// Appends the form of `s` to `out`.
pub fn put_text(out: &mut Vec<u8>, s: &str)
    ensures
        final(out)@ == old(out)@ + text_bytes(s@),
        encodable(s@),
{
    let body = s.as_bytes();
    let n: usize = body.len();
    let mut head = u64_to_le_bytes(n as u64);
    let mut copy = slice_to_vec(body);
    out.append(&mut head);
    out.append(&mut copy);
    assert(out@ =~= old(out)@ + text_bytes(s@));
}

/// Reads the string that starts at position `at` of `bytes`.
pub fn take_text(bytes: &[u8], at: usize) -> (r: Option<(String, usize)>)
    ensures
        match r {
            Some((s, end)) => parse_text(bytes@, at as int) == Some((s@, end as int)),
            None => parse_text(bytes@, at as int) is None,
        },
{
    let total: usize = bytes.len();
    if at > total || total - at < LEN_BYTES {
        return None;
    }
    let n: u64 = u64_from_le_bytes(slice_subrange(bytes, at, at + LEN_BYTES));
    let room: usize = total - at - LEN_BYTES;
    if n > room as u64 {
        return None;
    }
    let start: usize = at + LEN_BYTES;
    let end: usize = start + n as usize;
    let body = slice_to_vec(slice_subrange(bytes, start, end));
    match string_from_utf8(body) {
        Some(s) => Some((s, end)),
        None => None,
    }
}

} // verus!
