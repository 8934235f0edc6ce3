//! From the display tool's bytes to text: either the bytes are UTF-8 and
//! give the text that they encode, or they are not, and then how far they
//! are well-formed.

use vstd::prelude::*;
use vstd::slice::slice_subrange;
use vstd::utf8::{
    decode_utf8, length_of_first_scalar, partial_valid_partial_invalid_utf8,
    partial_valid_utf8, partial_valid_utf8_extend, valid_first_scalar, valid_utf8,
};

verus! {

/// `core::str::Utf8Error`: the decoder's account of why bytes are no UTF-8
/// text. It is opaque here.
#[verifier::external_type_specification]
#[verifier::external_body]
pub struct ExUtf8Error(core::str::Utf8Error);

/// Length of the longest prefix of `bytes` that is well-formed UTF-8 and no
/// longer than `limit`.
pub open spec fn valid_prefix_within(bytes: Seq<u8>, limit: int) -> int
    decreases limit,
{
    if limit <= 0 {
        0
    } else if limit <= bytes.len() && valid_utf8(bytes.take(limit)) {
        limit
    } else {
        valid_prefix_within(bytes, limit - 1)
    }
}

/// How far `bytes` are well-formed UTF-8: the length of their longest
/// well-formed prefix.
pub open spec fn valid_up_to(bytes: Seq<u8>) -> int {
    valid_prefix_within(bytes, bytes.len() as int)
}

/// The prefix that `valid_prefix_within` finds is well-formed, and no longer
/// one within the limit is.
pub proof fn lemma_valid_prefix_within(bytes: Seq<u8>, limit: int)
    requires
        0 <= limit <= bytes.len(),
    ensures
        0 <= valid_prefix_within(bytes, limit) <= limit,
        valid_utf8(bytes.take(valid_prefix_within(bytes, limit))),
        forall|q: int|
            valid_prefix_within(bytes, limit) < q <= limit ==> !valid_utf8(#[trigger] bytes.take(q)),
    decreases limit,
{
    if limit <= 0 {
        assert(bytes.take(0).len() == 0);
    } else if valid_utf8(bytes.take(limit)) {
    } else {
        lemma_valid_prefix_within(bytes, limit - 1);
    }
}

/// A well-formed prefix that no longer well-formed prefix follows is the
/// longest one.
pub proof fn lemma_valid_up_to_is(bytes: Seq<u8>, length: int)
    requires
        0 <= length <= bytes.len(),
        valid_utf8(bytes.take(length)),
        forall|q: int| length < q <= bytes.len() ==> !valid_utf8(#[trigger] bytes.take(q)),
    ensures
        valid_up_to(bytes) == length,
{
    lemma_valid_prefix_within(bytes, bytes.len() as int);
}

/// Bytes that are well-formed as a whole are well-formed up to their end.
pub proof fn lemma_valid_up_to_of_text(bytes: Seq<u8>)
    ensures
        valid_utf8(bytes) <==> valid_up_to(bytes) == bytes.len(),
{
    assert(bytes.take(bytes.len() as int) == bytes);
    lemma_valid_prefix_within(bytes, bytes.len() as int);
}

/// Between two well-formed prefixes there is room for a character: the
/// shorter one, extended by the one to four bytes of the next character, is
/// well-formed too and no longer than the longer one.
pub proof fn lemma_next_valid_prefix(bytes: Seq<u8>, shorter: int, longer: int) -> (step: int)
    requires
        0 <= shorter < longer <= bytes.len(),
        valid_utf8(bytes.take(shorter)),
        valid_utf8(bytes.take(longer)),
    ensures
        1 <= step <= 4,
        shorter + step <= longer,
        valid_utf8(bytes.take(shorter + step)),
{
    let whole = bytes.take(longer);
    let rest = whole.subrange(shorter, whole.len() as int);
    assert(whole.subrange(0, shorter) == bytes.take(shorter));
    if !valid_utf8(rest) {
        partial_valid_partial_invalid_utf8(whole, shorter);
    }
    assert(rest.len() > 0);
    assert(valid_first_scalar(rest));
    let step = length_of_first_scalar(rest);
    assert(partial_valid_utf8(whole, shorter));
    partial_valid_utf8_extend(whole, shorter);
    assert(whole.subrange(0, shorter + step) == bytes.take(shorter + step));
    step
}

/// `core::str::from_utf8`: it succeeds exactly on well-formed UTF-8, and
/// then returns the text that the bytes encode.
#[verifier::external_body]
fn text_of_bytes(bytes: &[u8]) -> (r: Result<&str, core::str::Utf8Error>)
    ensures
        r is Ok <==> valid_utf8(bytes@),
        r matches Ok(text) ==> text@ == decode_utf8(bytes@),
{
    core::str::from_utf8(bytes)
}

/// `core::str::Utf8Error::valid_up_to`: where the decoder says that it
/// stopped. Nothing is claimed of the position here; `confirms` holds it
/// against the bytes.
#[verifier::external_body]
fn reported_position(error: &core::str::Utf8Error) -> (position: usize) {
    error.valid_up_to()
}

/// Whether the first `length` bytes are well-formed UTF-8.
fn prefix_is_text(bytes: &[u8], length: usize) -> (r: bool)
    requires
        length <= bytes.len(),
    ensures
        r == valid_utf8(bytes@.take(length as int)),
{
    let prefix = slice_subrange(bytes, 0, length);
    assert(prefix@ == bytes@.take(length as int));
    text_of_bytes(prefix).is_ok()
}

/// Whether the bytes bear out that they are well-formed up to `position` and
/// no further: the prefix of that length is text, and none of the up to four
/// next longer prefixes is.
fn confirms(bytes: &[u8], position: usize) -> (r: bool)
    ensures
        r <==> position <= bytes.len() && valid_up_to(bytes@) == position,
{
    let len: usize = bytes.len();
    if position > len {
        return false;
    }
    proof {
        lemma_valid_prefix_within(bytes@, len as int);
    }
    if !prefix_is_text(bytes, position) {
        return false;
    }
    let mut step: usize = 1;
    while step <= 4 && step <= len - position
        invariant
            position <= len,
            len == bytes.len(),
            1 <= step <= 5,
            valid_utf8(bytes@.take(position as int)),
            valid_utf8(bytes@.take(valid_up_to(bytes@))),
            0 <= valid_up_to(bytes@) <= len,
            forall|q: int| valid_up_to(bytes@) < q <= len ==> !valid_utf8(#[trigger] bytes@.take(q)),
            forall|k: int| 1 <= k < step ==> !valid_utf8(#[trigger] bytes@.take(position + k)),
        decreases 5 - step,
    {
        if prefix_is_text(bytes, position + step) {
            return false;
        }
        step += 1;
    }
    proof {
        assert forall|q: int| position < q <= len implies !valid_utf8(
            #[trigger] bytes@.take(q),
        ) by {
            if valid_utf8(bytes@.take(q)) {
                let next = lemma_next_valid_prefix(bytes@, position as int, q);
                assert(!valid_utf8(bytes@.take(position + next)));
            }
        }
        lemma_valid_up_to_is(bytes@, position as int);
    }
    true
}

/// Finds the longest well-formed prefix by trying each length, longest
/// first.
fn search_valid_up_to(bytes: &[u8]) -> (position: usize)
    ensures
        position == valid_up_to(bytes@),
{
    let mut length: usize = bytes.len();
    while length > 0
        invariant
            length <= bytes.len(),
            valid_up_to(bytes@) == valid_prefix_within(bytes@, length as int),
        decreases length,
    {
        if prefix_is_text(bytes, length) {
            return length;
        }
        length -= 1;
    }
    0
}

/// Reads bytes as UTF-8 text. Well-formed bytes give the text that they
/// encode; others give the length of their longest well-formed prefix. The
/// decoder's own word for that length is taken where the bytes bear it out.
pub fn decode<'a>(bytes: &'a [u8]) -> (r: Result<&'a str, usize>)
    ensures
        (match r {
            Ok(text) => valid_utf8(bytes@) && text@ == decode_utf8(bytes@),
            Err(position) => !valid_utf8(bytes@) && position == valid_up_to(bytes@),
        }),
{
    match text_of_bytes(bytes) {
        Ok(text) => Ok(text),
        Err(error) => {
            let position = reported_position(&error);
            if confirms(bytes, position) {
                Err(position)
            } else {
                Err(search_valid_up_to(bytes))
            }
        },
    }
}

} // verus!
