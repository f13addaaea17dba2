use vstd::prelude::*;
use vstd::utf8::{
    char_is_scalar, decode_utf8, encode_scalar, encode_utf8, encode_utf8_decode_utf8,
    encode_utf8_valid_utf8, is_ascii_chars, is_ascii_chars_encode_utf8, valid_utf8,
};
use crate::decoder::quoted;
use crate::escape::{escape_char, escape_chars, hex_char, hex_value, prepend, unescape_from};
use crate::grammar::{string_end, string_lit};

verus! {

/// The bytes of ASCII text, one per character.
pub open spec fn ascii_bytes(s: Seq<char>) -> Seq<u8> {
    s.map_values(|c: char| c as u8)
}

proof fn lemma_ascii_encode(s: Seq<char>)
    requires
        is_ascii_chars(s),
    ensures
        encode_utf8(s) == ascii_bytes(s),
{
    is_ascii_chars_encode_utf8(s);
    assert(encode_utf8(s) =~= ascii_bytes(s));
}

proof fn lemma_escape_chars_first(c: char, t: Seq<char>)
    ensures
        escape_chars(seq![c] + t) == escape_char(c) + escape_chars(t),
    decreases t.len(),
{
    if t.len() == 0 {
        assert(seq![c] + t =~= seq![c]);
        assert(seq![c].drop_last() =~= Seq::<char>::empty());
        assert(seq![c].last() == c);
        assert(escape_chars(Seq::<char>::empty()) == Seq::<char>::empty());
        assert(escape_char(c) + Seq::<char>::empty() =~= escape_char(c));
        assert(Seq::<char>::empty() + escape_char(c) =~= escape_char(c));
    } else {
        lemma_escape_chars_first(c, t.drop_last());
        assert((seq![c] + t).drop_last() =~= seq![c] + t.drop_last());
        assert((seq![c] + t).last() == t.last());
        assert(escape_char(c) + escape_chars(t.drop_last()) + escape_char(t.last()) =~= escape_char(
            c,
        ) + (escape_chars(t.drop_last()) + escape_char(t.last())));
    }
}

proof fn lemma_hex_char(d: int)
    requires
        0 <= d < 16,
    ensures
        (hex_char(d) as u32) < 128,
        hex_value(hex_char(d) as u8) == Some(d),
{
}

/// One escaped ASCII character: scanning passes over it, and resolving its
/// escape gives back its byte.
proof fn lemma_char_back(c: char, x: Seq<u8>, i: int, esc: bool)
    requires
        (c as u32) < 128,
        0 <= i,
        i + escape_char(c).len() <= x.len(),
        x.subrange(i, i + escape_char(c).len()) == ascii_bytes(escape_char(c)),
    ensures
        escape_char(c).len() >= 1,
        escape_char(c).len() == 1 ==> escape_char(c) == seq![c],
        unescape_from(x, i) == prepend(seq![c as u8], unescape_from(x, i + escape_char(c).len())),
        i + escape_char(c).len() < x.len() ==> string_end(x, i, esc) == string_end(
            x,
            i + escape_char(c).len(),
            esc || escape_char(c).len() > 1,
        ),
{
    let e = escape_char(c);
    let k = e.len() as int;
    assert forall|j: int| 0 <= j < k implies x[i + j] == #[trigger] e[j] as u8 by {
        assert(x.subrange(i, i + k)[j] == x[i + j]);
        assert(ascii_bytes(e)[j] == e[j] as u8);
    }
    let v = c as u32 as int;
    if c == '"' || c == '\\' || c == '\n' || c == '\r' || c == '\t' || c == '\x08' || c == '\x0c' {
        assert(k == 2);
        assert(x[i] == 92u8);
        assert(x[i + 1] != 117u8);
        assert(x[i + 1] == e[1] as u8);
    } else if v < 32 {
        assert(k == 6);
        lemma_hex_char(v / 16);
        lemma_hex_char(v % 16);
        assert(v == (v / 16) * 16 + v % 16);
        assert(x[i] == 92u8);
        assert(x[i + 1] == 117u8);
        assert(x[i + 2] == 48u8);
        assert(x[i + 3] == 48u8);
        assert(x[i + 4] == hex_char(v / 16) as u8);
        assert(x[i + 5] == hex_char(v % 16) as u8);
    } else {
        assert(k == 1);
        assert(e == seq![c]);
        assert(e[0] == c);
        assert(x[i + 0] == e[0] as u8);
        assert(x[i] == c as u8);
        assert(x[i] != 92u8 && x[i] != 34u8);
    }
}

proof fn lemma_encode_concat(a: Seq<char>, b: Seq<char>)
    ensures
        encode_utf8(a + b) == encode_utf8(a) + encode_utf8(b),
    decreases a.len(),
{
    if a.len() == 0 {
        assert(a + b =~= b);
        assert(Seq::<u8>::empty() + encode_utf8(b) =~= encode_utf8(b));
    } else {
        lemma_encode_concat(a.drop_first(), b);
        assert((a + b).drop_first() =~= a.drop_first() + b);
        assert((a + b)[0] == a[0]);
        assert(encode_scalar(a[0] as u32) + (encode_utf8(a.drop_first()) + encode_utf8(b))
            =~= encode_scalar(a[0] as u32) + encode_utf8(a.drop_first()) + encode_utf8(b));
    }
}

/// Every byte of the encoding of a character at or above 0x80 is at or
/// above 0x80, so it is neither a quote nor a backslash.
proof fn lemma_high_char_bytes(c: char)
    requires
        (c as u32) >= 128,
    ensures
        encode_utf8(seq![c]).len() >= 1,
        forall|j: int| 0 <= j < encode_utf8(seq![c]).len() ==> #[trigger] encode_utf8(seq![c])[j]
            >= 128,
{
    char_is_scalar(c);
    let v = c as u32;
    assert(seq![c].drop_first() =~= Seq::<char>::empty());
    assert(seq![c][0] == c);
    assert(encode_utf8(Seq::<char>::empty()) =~= Seq::<u8>::empty());
    assert(encode_utf8(seq![c]) == encode_scalar(v) + encode_utf8(seq![c].drop_first()));
    assert(encode_utf8(seq![c]) =~= encode_scalar(v));
    assert(forall|y: u32| #[trigger] (0x80u8 | ((y >> 6) & 0x3F) as u8) >= 0x80u8) by (bit_vector);
    assert(forall|y: u32| #[trigger] (0x80u8 | (y & 0x3F) as u8) >= 0x80u8) by (bit_vector);
    assert(forall|y: u32| #[trigger] (0x80u8 | ((y >> 12) & 0x3F) as u8) >= 0x80u8) by (bit_vector);
    assert(forall|y: u32| #[trigger] (0xC0u8 | ((y >> 6) & 0x1F) as u8) >= 0x80u8) by (bit_vector);
    assert(forall|y: u32| #[trigger] (0xE0u8 | ((y >> 12) & 0x0F) as u8) >= 0x80u8) by (bit_vector);
    assert(forall|y: u32| #[trigger] (0xF0u8 | ((y >> 18) & 0x7) as u8) >= 0x80u8) by (bit_vector);
}

/// Bytes at or above 0x80 pass unchanged through scanning and unescaping.
proof fn lemma_high_bytes(x: Seq<u8>, i: int, w: int, esc: bool)
    requires
        0 <= i,
        0 <= w,
        i + w <= x.len(),
        forall|j: int| i <= j < i + w ==> #[trigger] x[j] >= 128,
    ensures
        unescape_from(x, i) == prepend(x.subrange(i, i + w), unescape_from(x, i + w)),
        string_end(x, i, esc) == string_end(x, i + w, esc),
    decreases w,
{
    if w == 0 {
        match unescape_from(x, i) {
            Some(r) => {
                assert(x.subrange(i, i) + r =~= r);
            },
            None => {},
        }
    } else {
        lemma_high_bytes(x, i + 1, w - 1, esc);
        assert(x[i] >= 128);
        match unescape_from(x, i + w) {
            Some(r) => {
                assert(seq![x[i]] + (x.subrange(i + 1, i + w) + r) =~= x.subrange(i, i + w) + r);
            },
            None => {},
        }
    }
}

/// One escaped character: scanning passes over its encoding, and resolving
/// its escape gives back the encoding of the character.
proof fn lemma_any_char_back(c: char, x: Seq<u8>, i: int, esc: bool)
    requires
        0 <= i,
        i + encode_utf8(escape_char(c)).len() <= x.len(),
        x.subrange(i, i + encode_utf8(escape_char(c)).len()) == encode_utf8(escape_char(c)),
    ensures
        escape_char(c).len() >= 1,
        escape_char(c).len() == 1 ==> escape_char(c) == seq![c],
        unescape_from(x, i) == prepend(
            encode_utf8(seq![c]),
            unescape_from(x, i + encode_utf8(escape_char(c)).len()),
        ),
        i + encode_utf8(escape_char(c)).len() < x.len() ==> string_end(x, i, esc) == string_end(
            x,
            i + encode_utf8(escape_char(c)).len(),
            esc || escape_char(c).len() > 1,
        ),
{
    let e = escape_char(c);
    if (c as u32) < 128 {
        let v = c as u32 as int;
        assert(is_ascii_chars(e)) by {
            if v < 32 {
                lemma_hex_char(v / 16);
                lemma_hex_char(v % 16);
            }
        }
        lemma_ascii_encode(e);
        assert(is_ascii_chars(seq![c]));
        lemma_ascii_encode(seq![c]);
        assert(ascii_bytes(seq![c]) =~= seq![c as u8]);
        lemma_char_back(c, x, i, esc);
    } else {
        assert(e == seq![c]);
        lemma_high_char_bytes(c);
        let w = encode_utf8(e).len() as int;
        assert forall|j: int| i <= j < i + w implies #[trigger] x[j] >= 128 by {
            assert(x.subrange(i, i + w)[j - i] == x[j]);
        }
        lemma_high_bytes(x, i, w, esc);
    }
}

/// Escaped text: scanning passes over all of its encoding, and resolving
/// its escapes gives back the encoding of the text.
proof fn lemma_any_text_back(s: Seq<char>, x: Seq<u8>, i: int, esc: bool)
    requires
        0 <= i,
        i + encode_utf8(escape_chars(s)).len() <= x.len(),
        x.subrange(i, i + encode_utf8(escape_chars(s)).len()) == encode_utf8(escape_chars(s)),
    ensures
        escape_chars(s).len() >= s.len(),
        escape_chars(s).len() == s.len() ==> escape_chars(s) == s,
        unescape_from(x, i) == prepend(
            encode_utf8(s),
            unescape_from(x, i + encode_utf8(escape_chars(s)).len()),
        ),
        i + encode_utf8(escape_chars(s)).len() < x.len() ==> string_end(x, i, esc) == string_end(
            x,
            i + encode_utf8(escape_chars(s)).len(),
            esc || escape_chars(s).len() > s.len(),
        ),
    decreases s.len(),
{
    if s.len() == 0 {
        match unescape_from(x, i) {
            Some(r) => {
                assert(Seq::<u8>::empty() + r =~= r);
            },
            None => {},
        }
    } else {
        let c = s[0];
        let t = s.drop_first();
        assert(s =~= seq![c] + t);
        lemma_escape_chars_first(c, t);
        lemma_encode_concat(escape_char(c), escape_chars(t));
        lemma_encode_concat(seq![c], t);
        let all = encode_utf8(escape_chars(s));
        let k = encode_utf8(escape_char(c)).len() as int;
        assert(x.subrange(i, i + k) =~= all.subrange(0, k));
        assert(all.subrange(0, k) =~= encode_utf8(escape_char(c)));
        assert(x.subrange(i + k, i + all.len()) =~= all.subrange(k, all.len() as int));
        assert(all.subrange(k, all.len() as int) =~= encode_utf8(escape_chars(t)));
        lemma_any_char_back(c, x, i, esc);
        lemma_any_text_back(t, x, i + k, esc || escape_char(c).len() > 1);
        match unescape_from(x, i + all.len()) {
            Some(r) => {
                assert(encode_utf8(seq![c]) + (encode_utf8(t) + r) =~= encode_utf8(s) + r);
            },
            None => {},
        }
        if escape_chars(s).len() == s.len() {
            assert(escape_char(c) == seq![c]);
            assert(escape_chars(s) =~= s);
        }
    }
}

/// Every string that the decoder writes reads back as the same text: the
/// UTF-8 bytes of the quoted, escaped text form one string literal whose
/// text is the original one.
pub proof fn lemma_string_round_trip(s: Seq<char>)
    ensures
        string_lit(encode_utf8(quoted(s)), 0) == Ok::<(Seq<char>, int), crate::parser::ParseError>(
            (s, encode_utf8(quoted(s)).len() as int),
        ),
{
    let body = escape_chars(s);
    let enc = encode_utf8(body);
    let n = enc.len() as int;
    assert(quoted(s) =~= seq!['"'] + (body + seq!['"']));
    lemma_encode_concat(seq!['"'], body + seq!['"']);
    lemma_encode_concat(body, seq!['"']);
    assert(is_ascii_chars(seq!['"']));
    lemma_ascii_encode(seq!['"']);
    assert(ascii_bytes(seq!['"']) =~= seq![34u8]);
    let x = encode_utf8(quoted(s));
    assert(x =~= seq![34u8] + enc + seq![34u8]);
    assert(x.subrange(1, 1 + n) =~= enc);
    lemma_any_text_back(s, x, 1, false);
    let raw = x.subrange(1, n + 1);
    assert(raw =~= enc);
    assert(raw.subrange(0, n) =~= raw);
    lemma_any_text_back(s, raw, 0, false);
    encode_utf8_valid_utf8(body);
    crate::text::lemma_valid_prefix_len(raw, n);
    assert(unescape_from(raw, n) == Some(Seq::<u8>::empty()));
    assert(encode_utf8(s) + Seq::<u8>::empty() =~= encode_utf8(s));
    encode_utf8_valid_utf8(s);
    encode_utf8_decode_utf8(s);
}

} // verus!
