//! Texts on the wire: a length in bytes, then UTF-8.
use vstd::prelude::*;
use vstd::slice::slice_to_vec;
use vstd::utf8;

use crate::cursor;
use crate::num;
use crate::serialize;
use crate::varint;
use crate::varint::VarInt;

verus! {

/// `String::from_utf8`: the text that the bytes spell, if they are valid UTF-8.
#[verifier::external_body]
fn string_from_utf8(bytes: Vec<u8>) -> (r: Option<String>)
    ensures
        match r {
            Some(s) => utf8::valid_utf8(bytes@) && s@ == utf8::decode_utf8(bytes@),
            None => !utf8::valid_utf8(bytes@),
        },
{
    String::from_utf8(bytes).ok()
}

/// The end of the text at the head of `data`, counted from its start, for a length that is not
/// negative.
pub open spec fn text_end(data: Seq<u8>) -> int {
    varint::size(data) + varint::low_bits(data)
}

/// The text at the head of `data`, if it is all there and is UTF-8.
pub open spec fn first_text(data: Seq<u8>) -> Option<Seq<char>> {
    let bytes = data.subrange(varint::size(data) as int, text_end(data));
    if varint::low_bits(data) >= 0 && text_end(data) <= data.len() && utf8::valid_utf8(bytes) {
        Some(utf8::decode_utf8(bytes))
    } else {
        None
    }
}

/// Reading gives back the text that was written, whatever follows it, and ends where that starts.
pub proof fn reading_inverts_writing(s: Seq<char>, rest: Seq<u8>)
    requires
        utf8::encode_utf8(s).len() <= i32::MAX,
    ensures
        first_text(serialize::text(s) + rest) == Some(s),
        text_end(serialize::text(s) + rest) == serialize::text(s).len(),
{
    let bytes = utf8::encode_utf8(s);
    let data = serialize::text(s) + rest;
    let n = bytes.len() as i32;
    varint::decode_inverts_encode(n, bytes + rest);
    assert(data == varint::wire_i32(n) + (bytes + rest));
    assert(data.subrange(varint::size(data) as int, text_end(data)) == bytes);
    utf8::encode_utf8_decode_utf8(s);
    utf8::encode_utf8_valid_utf8(s);
}

/// The text at place `at` of `data`, and the place that follows it. After a text of 2 GiB or more
/// the place wraps around as the text's 32-bit extent does.
pub open spec fn text_at(data: Seq<u8>, at: int) -> Option<(Seq<char>, int)> {
    let rest = data.skip(at);
    if 0 <= at <= data.len() && first_text(rest) is Some {
        Some(
            (
                first_text(rest)->0,
                num::wrap_index(at + num::index_of(num::signed32(text_end(rest)))),
            ),
        )
    } else {
        None
    }
}

/// A text is read from wherever it stands, and the place that follows it is found.
#[verifier::rlimit(30)]
pub proof fn reading_in_place(before: Seq<u8>, s: Seq<char>, rest: Seq<u8>)
    requires
        serialize::text(s).len() <= i32::MAX,
        before.len() + serialize::text(s).len() + rest.len() <= usize::MAX,
    ensures
        text_at(before + serialize::text(s) + rest, before.len() as int) == Some(
            (s, (before.len() + serialize::text(s).len()) as int),
        ),
{
    let data = before + serialize::text(s) + rest;
    reading_inverts_writing(s, rest);
    assert(data.skip(before.len() as int) == serialize::text(s) + rest);
    let next = before.len() + serialize::text(s).len();
    vstd::arithmetic::div_mod::lemma_small_mod(next, (usize::MAX + 1) as nat);
    assert(num::wrap_index(next as int) == next);
}

/// The sum of two indices wraps around at most once.
proof fn lemma_wraps_once(n: int)
    requires
        0 <= n < 2 * (usize::MAX + 1),
    ensures
        num::wrap_index(n) == if n > usize::MAX {
            n - (usize::MAX + 1)
        } else {
            n
        },
{
    let m = usize::MAX + 1;
    if n > usize::MAX {
        vstd::arithmetic::div_mod::lemma_fundamental_div_mod_converse(n, m, 1, n - m);
    } else {
        vstd::arithmetic::div_mod::lemma_fundamental_div_mod_converse(n, m, 0, n);
    }
}

/// The text at place `at` of `data`, and the place that follows it.
pub fn string_at(data: &[u8], at: usize) -> (r: Option<(String, usize)>)
    ensures
        match r {
            Some((s, next)) => text_at(data@, at as int) == Some((s@, next as int)),
            None => text_at(data@, at as int) is None,
        },
{
    let rest: &[u8] = match cursor::tail(data, at) {
        Some(rest) => rest,
        None => return None,
    };
    match next_string_len(rest) {
        Some((s, read)) => {
            let step: usize = num::index_i32(read);
            proof {
                lemma_wraps_once(at + step);
            }
            Some((s, at.wrapping_add(step)))
        },
        None => None,
    }
}

/// The text at the head of `data`, and where it ends.
pub fn next_string_len(data: &[u8]) -> (r: Option<(String, i32)>)
    ensures
        match r {
            Some((s, end)) => {
                &&& first_text(data@) == Some(s@)
                &&& end == num::signed32(text_end(data@))
            },
            None => first_text(data@) is None,
        },
{
    let (read, strlen) = VarInt::decode_loose(data);
    proof {
        varint::lemma_extent_bounds(data@, varint::MAX_LEN as nat);
    }
    let n: i32 = strlen.value();
    if n < 0 {
        return None;
    }
    let bytes: &[u8] = match cursor::part(data, read, n as usize) {
        Some(bytes) => bytes,
        None => return None,
    };
    match string_from_utf8(slice_to_vec(bytes)) {
        Some(s) => Some((s, num::len_i32(read + n as usize))),
        None => None,
    }
}

/// The text at the head of `data`.
pub fn next_string(data: &[u8]) -> (r: Option<String>)
    ensures
        match r {
            Some(s) => first_text(data@) == Some(s@),
            None => first_text(data@) is None,
        },
{
    match next_string_len(data) {
        Some((s, _)) => Some(s),
        None => None,
    }
}

/// The wire form of a text; `None` if it is too long for its length field.
pub fn assemble_string(string: &str) -> (r: Option<Vec<u8>>)
    ensures
        match r {
            Some(out) => utf8::encode_utf8(string@).len() <= i32::MAX && out@ == serialize::text(
                string@,
            ),
            None => utf8::encode_utf8(string@).len() > i32::MAX,
        },
{
    let bytes = string.as_bytes();
    if bytes.len() > 0x7FFF_FFFF {
        return None;
    }
    let mut out: Vec<u8> = Vec::new();
    serialize::push_count(&mut out, bytes.len());
    serialize::push_bytes(&mut out, bytes);
    Some(out)
}

} // verus!
