use vstd::prelude::*;
use vstd::utf8::{decode_utf8, valid_utf8};

verus! {

/// Relies on `String::from_utf8`: it succeeds exactly on valid UTF-8 and the
/// string then holds the characters that the bytes encode.
#[verifier::external_body]
pub(crate) fn string_from_utf8(bytes: Vec<u8>) -> (r: Option<String>)
    ensures
        r is Some <==> valid_utf8(bytes@),
        r is Some ==> r->0@ == decode_utf8(bytes@),
{
    String::from_utf8(bytes).ok()
}

/// The length of the longest prefix of `b[..k]` that is valid UTF-8.
pub open spec fn valid_prefix_len(b: Seq<u8>, k: int) -> int
    decreases k,
{
    if k <= 0 {
        0
    } else if valid_utf8(b.take(k)) {
        k
    } else {
        valid_prefix_len(b, k - 1)
    }
}

pub proof fn lemma_valid_prefix_len(b: Seq<u8>, k: int)
    requires
        0 <= k <= b.len(),
    ensures
        0 <= valid_prefix_len(b, k) <= k,
        valid_utf8(b) && k == b.len() ==> valid_prefix_len(b, k) == k,
    decreases k,
{
    if k > 0 {
        lemma_valid_prefix_len(b, k - 1);
        if k == b.len() {
            assert(b.take(k) =~= b);
        }
    }
}

/// The index of the first byte where UTF-8 decoding of `b` fails, or its
/// length when it is valid throughout.
pub open spec fn utf8_valid_up_to(b: Seq<u8>) -> int {
    valid_prefix_len(b, b.len() as int)
}

/// Relies on `std::str::from_utf8`: on failure, `Utf8Error::valid_up_to` is
/// the largest index such that the input up to it is valid UTF-8; on
/// success the whole input is.
#[verifier::external_body]
pub(crate) fn valid_up_to(bytes: &[u8]) -> (r: usize)
    ensures
        r == utf8_valid_up_to(bytes@),
{
    match std::str::from_utf8(bytes) {
        Ok(_) => bytes.len(),
        Err(e) => e.valid_up_to(),
    }
}

/// Relies on `String::push`: appends one character.
#[verifier::external_body]
pub(crate) fn push_char(s: &mut String, c: char)
    ensures
        final(s)@ == old(s)@.push(c),
{
    s.push(c)
}

/// Relies on `String::push_str`: appends the characters of `t`.
#[verifier::external_body]
pub(crate) fn push_text(s: &mut String, t: &str)
    ensures
        final(s)@ == old(s)@ + t@,
{
    s.push_str(t)
}

/// Copies `buf[start..end]` into a new vector.
pub fn copy_range(buf: &[u8], start: usize, end: usize) -> (r: Vec<u8>)
    requires
        start <= end <= buf@.len(),
    ensures
        r@ == buf@.subrange(start as int, end as int),
{
    let mut r: Vec<u8> = Vec::new();
    let mut i: usize = start;
    while i < end
        invariant
            start <= i <= end <= buf@.len(),
            r@ == buf@.subrange(start as int, i as int),
        decreases end - i,
    {
        r.push(buf[i]);
        assert(buf@.subrange(start as int, i + 1) =~= buf@.subrange(start as int, i as int).push(
            buf@[i as int],
        ));
        i = i + 1;
    }
    r
}

} // verus!
