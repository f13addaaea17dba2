use vstd::prelude::*;
use crate::text::push_char;

verus! {

// JSON string escapes, in both directions. The `jsonb` crate has routines
// for this (`util::parse_string`, `functions::escape_scalar_string`), but
// they are private in each published version that was read (0.3.0, 0.4.4
// and 0.5.6), so they cannot be called; the escape grammar is written and
// verified here instead.

// ---------------------------------------------------------------------------
// Reading escapes: raw string bytes between the quotes -> UTF-8 bytes.
// ---------------------------------------------------------------------------

pub open spec fn hex_value(b: u8) -> Option<int> {
    if 48 <= b <= 57 {
        Some(b - 48)
    } else if 97 <= b <= 102 {
        Some(b - 87)
    } else if 65 <= b <= 70 {
        Some(b - 55)
    } else {
        None
    }
}

/// Four hex digits at `raw[i..i + 4]`, read as one 16-bit code unit.
pub open spec fn hex4(raw: Seq<u8>, i: int) -> Option<int> {
    if 0 <= i && i + 4 <= raw.len() && hex_value(raw[i]) is Some && hex_value(raw[i + 1]) is Some
        && hex_value(raw[i + 2]) is Some && hex_value(raw[i + 3]) is Some {
        Some(
            hex_value(raw[i])->0 * 4096 + hex_value(raw[i + 1])->0 * 256 + hex_value(raw[i + 2])->0
                * 16 + hex_value(raw[i + 3])->0,
        )
    } else {
        None
    }
}

/// The code unit written after `\u` starting at `k`, as `XXXX` or `{XXXX}`,
/// with the index just past it.
pub open spec fn code_unit_at(raw: Seq<u8>, k: int) -> Option<(int, int)> {
    if 0 <= k < raw.len() && raw[k] == 123u8 {
        if k + 6 <= raw.len() && raw[k + 5] == 125u8 && hex4(raw, k + 1) is Some {
            Some((hex4(raw, k + 1)->0, k + 6))
        } else {
            None
        }
    } else if hex4(raw, k) is Some {
        Some((hex4(raw, k)->0, k + 4))
    } else {
        None
    }
}

/// The byte that a one-letter escape `\e` stands for.
pub open spec fn simple_escape(e: u8) -> Option<u8> {
    if e == 34 {
        Some(34u8)
    } else if e == 92 {
        Some(92u8)
    } else if e == 47 {
        Some(47u8)
    } else if e == 98 {
        Some(8u8)
    } else if e == 102 {
        Some(12u8)
    } else if e == 110 {
        Some(10u8)
    } else if e == 114 {
        Some(13u8)
    } else if e == 116 {
        Some(9u8)
    } else {
        None
    }
}

/// UTF-8 encoding of a code point below 0x110000.
pub open spec fn utf8_of(cp: int) -> Seq<u8> {
    if cp < 0x80 {
        seq![cp as u8]
    } else if cp < 0x800 {
        seq![(0xC0 + cp / 64) as u8, (0x80 + cp % 64) as u8]
    } else if cp < 0x10000 {
        seq![(0xE0 + cp / 4096) as u8, (0x80 + (cp / 64) % 64) as u8, (0x80 + cp % 64) as u8]
    } else {
        seq![
            (0xF0 + cp / 262144) as u8,
            (0x80 + (cp / 4096) % 64) as u8,
            (0x80 + (cp / 64) % 64) as u8,
            (0x80 + cp % 64) as u8,
        ]
    }
}

pub open spec fn is_high_surrogate(u: int) -> bool {
    0xD800 <= u <= 0xDBFF
}

pub open spec fn is_low_surrogate(u: int) -> bool {
    0xDC00 <= u <= 0xDFFF
}

/// The escape starting with the backslash at `raw[i]`: the bytes it stands
/// for and the index just past it. A lone surrogate, or a high surrogate
/// not followed by a low one, is not accepted: it names no character, and
/// keeping its escape text instead would change the string's content.
pub open spec fn escape_at(raw: Seq<u8>, i: int) -> Option<(Seq<u8>, int)> {
    if i + 1 >= raw.len() {
        None
    } else if simple_escape(raw[i + 1]) is Some {
        Some((seq![simple_escape(raw[i + 1])->0], i + 2))
    } else if raw[i + 1] != 117u8 {
        None
    } else {
        match code_unit_at(raw, i + 2) {
            None => None,
            Some((u, j)) => {
                if is_low_surrogate(u) {
                    None
                } else if is_high_surrogate(u) {
                    if j + 1 < raw.len() && raw[j] == 92u8 && raw[j + 1] == 117u8 {
                        match code_unit_at(raw, j + 2) {
                            Some((lo, k)) => if is_low_surrogate(lo) {
                                Some((utf8_of(0x10000 + (u - 0xD800) * 1024 + (lo - 0xDC00)), k))
                            } else {
                                None
                            },
                            None => None,
                        }
                    } else {
                        None
                    }
                } else {
                    Some((utf8_of(u), j))
                }
            },
        }
    }
}

pub open spec fn prepend(a: Seq<u8>, rest: Option<Seq<u8>>) -> Option<Seq<u8>> {
    match rest {
        Some(r) => Some(a + r),
        None => None,
    }
}

/// The bytes that `raw[i..]` stands for once every escape is resolved, or
/// `None` where an escape is malformed.
pub open spec fn unescape_from(raw: Seq<u8>, i: int) -> Option<Seq<u8>>
    decreases raw.len() - i,
{
    if i < 0 || i >= raw.len() {
        Some(Seq::empty())
    } else if raw[i] != 92u8 {
        prepend(seq![raw[i]], unescape_from(raw, i + 1))
    } else {
        match escape_at(raw, i) {
            Some((b, j)) => if j > i {
                prepend(b, unescape_from(raw, j))
            } else {
                None
            },
            None => None,
        }
    }
}

pub open spec fn unescape(raw: Seq<u8>) -> Option<Seq<u8>> {
    unescape_from(raw, 0)
}

/// Where `unescape_from(raw, i)` fails: the index of the backslash that
/// starts the first malformed escape at or after `i`.
pub open spec fn bad_escape_from(raw: Seq<u8>, i: int) -> int
    decreases raw.len() - i,
{
    if i < 0 || i >= raw.len() {
        i
    } else if raw[i] != 92u8 {
        bad_escape_from(raw, i + 1)
    } else {
        match escape_at(raw, i) {
            Some((b, j)) => if j > i {
                bad_escape_from(raw, j)
            } else {
                i
            },
            None => i,
        }
    }
}

fn hex_digit(b: u8) -> (r: Option<u32>)
    ensures
        r is Some <==> hex_value(b) is Some,
        r is Some ==> r->0 as int == hex_value(b)->0,
{
    if 48 <= b && b <= 57 {
        Some((b - 48) as u32)
    } else if 97 <= b && b <= 102 {
        Some((b - 87) as u32)
    } else if 65 <= b && b <= 70 {
        Some((b - 55) as u32)
    } else {
        None
    }
}

fn read_hex4(raw: &Vec<u8>, i: usize) -> (r: Option<u32>)
    ensures
        r is Some <==> hex4(raw@, i as int) is Some,
        r is Some ==> r->0 as int == hex4(raw@, i as int)->0 && r->0 < 0x10000,
{
    if i > raw.len() || raw.len() - i < 4 {
        return None;
    }
    let a = hex_digit(raw[i]);
    let b = hex_digit(raw[i + 1]);
    let c = hex_digit(raw[i + 2]);
    let d = hex_digit(raw[i + 3]);
    match (a, b, c, d) {
        (Some(a), Some(b), Some(c), Some(d)) => Some(a * 4096 + b * 256 + c * 16 + d),
        _ => None,
    }
}

fn read_code_unit(raw: &Vec<u8>, k: usize) -> (r: Option<(u32, usize)>)
    ensures
        r is Some <==> code_unit_at(raw@, k as int) is Some,
        r matches Some((u, j)) ==> code_unit_at(raw@, k as int) == Some((u as int, j as int)) && u
            < 0x10000 && j <= raw@.len(),
{
    if k < raw.len() && raw[k] == 123u8 {
        if raw.len() - k >= 6 && raw[k + 5] == 125u8 {
            match read_hex4(raw, k + 1) {
                Some(v) => Some((v, k + 6)),
                None => None,
            }
        } else {
            None
        }
    } else {
        match read_hex4(raw, k) {
            Some(v) => Some((v, k + 4)),
            None => None,
        }
    }
}

fn simple_escape_byte(e: u8) -> (r: Option<u8>)
    ensures
        r == simple_escape(e),
{
    if e == 34 {
        Some(34u8)
    } else if e == 92 {
        Some(92u8)
    } else if e == 47 {
        Some(47u8)
    } else if e == 98 {
        Some(8u8)
    } else if e == 102 {
        Some(12u8)
    } else if e == 110 {
        Some(10u8)
    } else if e == 114 {
        Some(13u8)
    } else if e == 116 {
        Some(9u8)
    } else {
        None
    }
}

fn push_utf8(out: &mut Vec<u8>, cp: u32)
    requires
        cp < 0x110000,
    ensures
        final(out)@ == old(out)@ + utf8_of(cp as int),
{
    if cp < 0x80 {
        out.push(cp as u8);
    } else if cp < 0x800 {
        out.push((0xC0 + cp / 64) as u8);
        out.push((0x80 + cp % 64) as u8);
    } else if cp < 0x10000 {
        out.push((0xE0 + cp / 4096) as u8);
        out.push((0x80 + (cp / 64) % 64) as u8);
        out.push((0x80 + cp % 64) as u8);
    } else {
        out.push((0xF0 + cp / 262144) as u8);
        out.push((0x80 + (cp / 4096) % 64) as u8);
        out.push((0x80 + (cp / 64) % 64) as u8);
        out.push((0x80 + cp % 64) as u8);
    }
    assert(final(out)@ =~= old(out)@ + utf8_of(cp as int));
}

/// Appends what the escape at `raw[i]` stands for; returns the index past it.
fn read_escape(raw: &Vec<u8>, i: usize, out: &mut Vec<u8>) -> (r: Option<usize>)
    requires
        i < raw@.len(),
        raw@[i as int] == 92u8,
    ensures
        r is Some <==> escape_at(raw@, i as int) is Some,
        r matches Some(j) ==> i < j <= raw@.len() && (escape_at(raw@, i as int) matches Some(
            (b, k),
        ) && k == j && final(out)@ == old(out)@ + b),
{
    if raw.len() - i < 2 {
        return None;
    }
    let e = raw[i + 1];
    match simple_escape_byte(e) {
        Some(b) => {
            out.push(b);
            assert(final(out)@ =~= old(out)@ + seq![b]);
            return Some(i + 2);
        },
        None => {},
    }
    if e != 117u8 {
        return None;
    }
    match read_code_unit(raw, i + 2) {
        None => None,
        Some((u, j)) => {
            if 0xDC00 <= u && u <= 0xDFFF {
                None
            } else if 0xD800 <= u && u <= 0xDBFF {
                if j < raw.len() && raw.len() - j >= 2 && raw[j] == 92u8 && raw[j + 1] == 117u8 {
                    match read_code_unit(raw, j + 2) {
                        Some((lo, k)) => {
                            if 0xDC00 <= lo && lo <= 0xDFFF {
                                push_utf8(out, 0x10000 + (u - 0xD800) * 1024 + (lo - 0xDC00));
                                Some(k)
                            } else {
                                None
                            }
                        },
                        None => None,
                    }
                } else {
                    None
                }
            } else {
                push_utf8(out, u);
                Some(j)
            }
        },
    }
}

/// Resolves every escape of the raw bytes found between a string's quotes.
pub fn unescape_bytes(raw: &Vec<u8>) -> (r: Result<Vec<u8>, usize>)
    ensures
        r is Ok <==> unescape(raw@) is Some,
        r matches Ok(v) ==> v@ == unescape(raw@)->0,
        r matches Err(k) ==> k == bad_escape_from(raw@, 0) && k < raw@.len() && raw@[k as int]
            == 92u8,
{
    let mut out: Vec<u8> = Vec::new();
    let mut i: usize = 0;
    while i < raw.len()
        invariant
            i <= raw@.len(),
            unescape(raw@) == prepend(out@, unescape_from(raw@, i as int)),
            bad_escape_from(raw@, 0) == bad_escape_from(raw@, i as int),
        decreases raw@.len() - i,
    {
        if raw[i] != 92u8 {
            let ghost before = out@;
            out.push(raw[i]);
            proof {
                assert(unescape_from(raw@, i as int) == prepend(
                    seq![raw@[i as int]],
                    unescape_from(raw@, i + 1),
                ));
                match unescape_from(raw@, i + 1) {
                    Some(rest) => {
                        assert(before + (seq![raw@[i as int]] + rest) =~= out@ + rest);
                    },
                    None => {},
                }
            }
            i = i + 1;
        } else {
            let ghost before = out@;
            match read_escape(raw, i, &mut out) {
                Some(j) => {
                    proof {
                        let (b, k) = escape_at(raw@, i as int)->0;
                        match unescape_from(raw@, j as int) {
                            Some(rest) => {
                                assert(before + (b + rest) =~= out@ + rest);
                            },
                            None => {},
                        }
                    }
                    i = j;
                },
                None => {
                    return Err(i);
                },
            }
        }
    }
    assert(unescape_from(raw@, i as int) == Some(Seq::<u8>::empty()));
    assert(out@ + Seq::<u8>::empty() =~= out@);
    Ok(out)
}

// ---------------------------------------------------------------------------
// Writing escapes: characters -> JSON string body.
// ---------------------------------------------------------------------------

pub open spec fn hex_char(d: int) -> char {
    if d < 10 {
        (d + 48) as u8 as char
    } else {
        (d + 87) as u8 as char
    }
}

/// How one character is written inside a JSON string literal.
pub open spec fn escape_char(c: char) -> Seq<char> {
    if c == '"' {
        seq!['\\', '"']
    } else if c == '\\' {
        seq!['\\', '\\']
    } else if c == '\n' {
        seq!['\\', 'n']
    } else if c == '\r' {
        seq!['\\', 'r']
    } else if c == '\t' {
        seq!['\\', 't']
    } else if c == '\x08' {
        seq!['\\', 'b']
    } else if c == '\x0c' {
        seq!['\\', 'f']
    } else if (c as u32) < 32 {
        seq!['\\', 'u', '0', '0', hex_char((c as u32) as int / 16), hex_char((c as u32) as int % 16)]
    } else {
        seq![c]
    }
}

/// The escaped body of a JSON string literal holding `s`.
pub open spec fn escape_chars(s: Seq<char>) -> Seq<char>
    decreases s.len(),
{
    if s.len() == 0 {
        Seq::empty()
    } else {
        escape_chars(s.drop_last()) + escape_char(s.last())
    }
}

fn hex_digit_char(d: u32) -> (c: char)
    requires
        d < 16,
    ensures
        c == hex_char(d as int),
{
    if d < 10 {
        (d as u8 + 48) as char
    } else {
        (d as u8 + 87) as char
    }
}

fn push_escaped_char(out: &mut String, c: char)
    ensures
        final(out)@ == old(out)@ + escape_char(c),
{
    let ghost start = old(out)@;
    if c == '"' {
        push_char(out, '\\');
        push_char(out, '"');
    } else if c == '\\' {
        push_char(out, '\\');
        push_char(out, '\\');
    } else if c == '\n' {
        push_char(out, '\\');
        push_char(out, 'n');
    } else if c == '\r' {
        push_char(out, '\\');
        push_char(out, 'r');
    } else if c == '\t' {
        push_char(out, '\\');
        push_char(out, 't');
    } else if c == '\x08' {
        push_char(out, '\\');
        push_char(out, 'b');
    } else if c == '\x0c' {
        push_char(out, '\\');
        push_char(out, 'f');
    } else if (c as u32) < 32 {
        push_char(out, '\\');
        push_char(out, 'u');
        push_char(out, '0');
        push_char(out, '0');
        push_char(out, hex_digit_char((c as u32) / 16));
        push_char(out, hex_digit_char((c as u32) % 16));
    } else {
        push_char(out, c);
    }
    assert(out@ =~= start + escape_char(c));
}

/// Appends `s` as a quoted JSON string literal.
pub fn push_quoted(out: &mut String, s: &str)
    ensures
        final(out)@ == old(out)@ + seq!['"'] + escape_chars(s@) + seq!['"'],
{
    push_char(out, '"');
    let ghost start = out@;
    let n = s.unicode_len();
    let mut i: usize = 0;
    while i < n
        invariant
            n == s@.len(),
            i <= n,
            out@ == start + escape_chars(s@.take(i as int)),
        decreases n - i,
    {
        let c = s.get_char(i);
        push_escaped_char(out, c);
        proof {
            assert(s@.take(i + 1).drop_last() =~= s@.take(i as int));
            assert(start + escape_chars(s@.take(i as int)) + escape_char(c) =~= start
                + escape_chars(s@.take(i + 1)));
        }
        i = i + 1;
    }
    assert(s@.take(n as int) =~= s@);
    push_char(out, '"');
}

} // verus!
