use vstd::prelude::*;
use vstd::utf8::{decode_utf8, valid_utf8};
use crate::escape::{bad_escape_from, unescape};
use crate::text::utf8_valid_up_to;
use crate::parser::ParseError;
use crate::value::Node;

verus! {

// The accepted JSON text, and what each part of it becomes, as functions of
// the input bytes. Offsets in errors are those of the rejected byte.

pub open spec fn is_ws(b: u8) -> bool {
    b == 32u8 || b == 9u8 || b == 10u8 || b == 13u8
}

/// Index of the first byte at or after `p` that is neither whitespace nor
/// one of the escaped forms `\n`, `\r`, `\t`, `\x0C`.
pub open spec fn skip_ws(buf: Seq<u8>, p: int) -> int
    decreases buf.len() - p,
{
    if p < 0 || p >= buf.len() {
        p
    } else if is_ws(buf[p]) {
        skip_ws(buf, p + 1)
    } else if buf[p] == 92u8 && p + 2 <= buf.len() && (buf[p + 1] == 110u8 || buf[p + 1] == 114u8
        || buf[p + 1] == 116u8) {
        skip_ws(buf, p + 2)
    } else if buf[p] == 92u8 && p + 4 <= buf.len() && buf[p + 1] == 120u8 && buf[p + 2] == 48u8
        && buf[p + 3] == 67u8 {
        skip_ws(buf, p + 4)
    } else {
        p
    }
}

pub open spec fn is_digit(b: u8) -> bool {
    48u8 <= b <= 57u8
}

/// Index just past the run of digits starting at `p`.
pub open spec fn digits_end(buf: Seq<u8>, p: int) -> int
    decreases buf.len() - p,
{
    if p < 0 || p >= buf.len() || !is_digit(buf[p]) {
        p
    } else {
        digits_end(buf, p + 1)
    }
}

/// The fixed bytes `word[i..]` at `pos + i`.
pub open spec fn match_word(buf: Seq<u8>, pos: int, word: Seq<u8>, i: int) -> Result<int, ParseError>
    decreases word.len() - i,
{
    if i < 0 || i >= word.len() {
        Ok(pos + word.len())
    } else if pos + i >= buf.len() {
        Err(ParseError::UnexpectedEndOfInput)
    } else if buf[pos + i] != word[i] {
        Err(ParseError::UnexpectedCharacter { at: (pos + i) as usize })
    } else {
        match_word(buf, pos, word, i + 1)
    }
}

/// A non-empty digit run at `p`, ending the number's part there.
pub open spec fn digit_run(buf: Seq<u8>, p: int) -> Result<int, ParseError> {
    if p >= buf.len() {
        Err(ParseError::UnexpectedEndOfInput)
    } else if digits_end(buf, p) == p {
        Err(ParseError::InvalidNumberLiteral { at: p as usize })
    } else {
        Ok(digits_end(buf, p))
    }
}

/// The integer part `0` or `[1-9][0-9]*` at `p`.
pub open spec fn int_part(buf: Seq<u8>, p: int) -> Result<int, ParseError> {
    if p >= buf.len() {
        Err(ParseError::UnexpectedEndOfInput)
    } else if buf[p] == 48u8 {
        if p + 1 < buf.len() && is_digit(buf[p + 1]) {
            Err(ParseError::InvalidNumberLiteral { at: (p + 1) as usize })
        } else {
            Ok(p + 1)
        }
    } else {
        digit_run(buf, p)
    }
}

/// An optional fraction `.[0-9]+` at `p`.
pub open spec fn frac_part(buf: Seq<u8>, p: int) -> Result<int, ParseError> {
    if p < buf.len() && buf[p] == 46u8 {
        digit_run(buf, p + 1)
    } else {
        Ok(p)
    }
}

/// An optional exponent `[eE][+-]?[0-9]+` at `p`.
pub open spec fn exp_part(buf: Seq<u8>, p: int) -> Result<int, ParseError> {
    if p < buf.len() && (buf[p] == 69u8 || buf[p] == 101u8) {
        let q = if p + 1 < buf.len() && (buf[p + 1] == 43u8 || buf[p + 1] == 45u8) {
            p + 2
        } else {
            p + 1
        };
        digit_run(buf, q)
    } else {
        Ok(p)
    }
}

/// The end of the number literal `-?int frac? exp?` that starts at `pos`.
pub open spec fn number_end(buf: Seq<u8>, pos: int) -> Result<int, ParseError> {
    let p = if pos < buf.len() && buf[pos] == 45u8 {
        pos + 1
    } else {
        pos
    };
    match int_part(buf, p) {
        Err(e) => Err(e),
        Ok(q) => match frac_part(buf, q) {
            Err(e) => Err(e),
            Ok(r) => exp_part(buf, r),
        },
    }
}

/// `t` is the text of one complete JSON number literal.
pub open spec fn number_literal(t: Seq<char>) -> bool {
    exists|b: Seq<u8>|
        number_end(b, 0) == Ok::<int, ParseError>(b.len() as int) && valid_utf8(b) && #[trigger] decode_utf8(b) == t
}

proof fn lemma_digits_end_bounds(buf: Seq<u8>, q: int)
    requires
        0 <= q,
    ensures
        digits_end(buf, q) >= q,
        q <= buf.len() ==> digits_end(buf, q) <= buf.len(),
    decreases buf.len() - q,
{
    if q < buf.len() && is_digit(buf[q]) {
        lemma_digits_end_bounds(buf, q + 1);
    }
}

proof fn lemma_digits_end_sub(buf: Seq<u8>, p: int, e: int, q: int)
    requires
        0 <= p <= q <= e <= buf.len(),
        digits_end(buf, q) <= e,
    ensures
        digits_end(buf.subrange(p, e), q - p) == digits_end(buf, q) - p,
    decreases e - q,
{
    let sub = buf.subrange(p, e);
    lemma_digits_end_bounds(buf, q);
    if q < e {
        assert(sub[q - p] == buf[q]);
        if is_digit(buf[q]) {
            lemma_digits_end_sub(buf, p, e, q + 1);
        }
    }
}

/// A number literal the grammar accepts scans the same when cut out alone.
pub proof fn lemma_number_alone(buf: Seq<u8>, p: int, e: int)
    requires
        0 <= p,
        number_end(buf, p) == Ok::<int, ParseError>(e),
    ensures
        p < e <= buf.len(),
        number_end(buf.subrange(p, e), 0) == Ok::<int, ParseError>(e - p),
{
    let sub = buf.subrange(p, e);
    let a = if p < buf.len() && buf[p] == 45u8 { p + 1 } else { p };
    let q = int_part(buf, a)->Ok_0;
    lemma_digits_end_bounds(buf, a);
    lemma_digits_end_bounds(buf, q);
    lemma_digits_end_bounds(buf, q + 1);
    let r = frac_part(buf, q)->Ok_0;
    lemma_digits_end_bounds(buf, r + 1);
    lemma_digits_end_bounds(buf, r + 2);
    assert(q <= r <= e);
    assert(a < q);
    if p < e {
        assert(sub[0] == buf[p]);
    }
    if buf[a] != 48u8 {
        lemma_digits_end_sub(buf, p, e, a);
    } else if a + 1 < e {
        assert(sub[a + 1 - p] == buf[a + 1]);
    }
    if q < e {
        assert(sub[q - p] == buf[q]);
    }
    if q < buf.len() && buf[q] == 46u8 {
        lemma_digits_end_sub(buf, p, e, q + 1);
    }
    if r < e {
        assert(sub[r - p] == buf[r]);
        if r + 1 < e {
            assert(sub[r + 1 - p] == buf[r + 1]);
        }
    }
    if r < buf.len() && (buf[r] == 69u8 || buf[r] == 101u8) {
        if r + 1 < buf.len() && (buf[r + 1] == 43u8 || buf[r + 1] == 45u8) {
            lemma_digits_end_sub(buf, p, e, r + 2);
        } else {
            lemma_digits_end_sub(buf, p, e, r + 1);
        }
    }
}

/// Scanning a string body from `p`: the index past the closing quote and
/// whether an escape was seen. After `\u` the next four bytes, or six from
/// a `{`, are skipped.
pub open spec fn string_end(buf: Seq<u8>, p: int, escaped: bool) -> Result<(int, bool), ParseError>
    decreases buf.len() - p,
{
    if p < 0 || p >= buf.len() {
        Err(ParseError::UnexpectedEndOfInput)
    } else if buf[p] == 92u8 {
        if p + 1 >= buf.len() {
            Err(ParseError::UnexpectedEndOfInput)
        } else if buf[p + 1] == 117u8 {
            if p + 2 >= buf.len() {
                Err(ParseError::UnexpectedEndOfInput)
            } else {
                let skip: int = if buf[p + 2] == 123u8 {
                    6
                } else {
                    4
                };
                if buf.len() - (p + 2) <= skip {
                    Err(ParseError::UnexpectedEndOfInput)
                } else {
                    string_end(buf, p + 2 + skip, true)
                }
            }
        } else {
            string_end(buf, p + 2, true)
        }
    } else if buf[p] == 34u8 {
        Ok((p + 1, escaped))
    } else {
        string_end(buf, p + 1, escaped)
    }
}

/// The string literal whose opening quote is at `pos`: its text and the
/// index past its closing quote. Of a byte that is not valid UTF-8 and a
/// malformed escape, the one that comes first is reported.
pub open spec fn string_lit(buf: Seq<u8>, pos: int) -> Result<(Seq<char>, int), ParseError> {
    match string_end(buf, pos + 1, false) {
        Err(e) => Err(e),
        Ok((p, escaped)) => {
            let raw = buf.subrange(pos + 1, p - 1);
            let u = utf8_valid_up_to(raw);
            let k = bad_escape_from(raw, 0);
            let bytes = if escaped {
                unescape(raw)
            } else {
                Some(raw)
            };
            match bytes {
                None => if u < raw.len() && u < k {
                    Err(ParseError::UnexpectedCharacter { at: (pos + 1 + u) as usize })
                } else {
                    Err(ParseError::InvalidStringEscape { at: (pos + 1 + k) as usize })
                },
                Some(b) => if u < raw.len() {
                    Err(ParseError::UnexpectedCharacter { at: (pos + 1 + u) as usize })
                } else if valid_utf8(b) {
                    Ok((decode_utf8(b), p))
                } else {
                    Err(ParseError::UnexpectedCharacter { at: (pos + 1 + u) as usize })
                },
            }
        },
    }
}

/// Nodes, string texts and number texts produced by a piece of the input.
pub type Piece = (Seq<Node>, Seq<Seq<char>>, Seq<Seq<char>>);

/// A parsed piece with the index just past it, or the error.
pub type Parsed = Result<(Seq<Node>, Seq<Seq<char>>, Seq<Seq<char>>, int), ParseError>;

/// `first` followed by what `rest` produced.
pub open spec fn then(first: Piece, rest: Parsed) -> Parsed {
    match rest {
        Ok((n, s, m, e)) => Ok((first.0 + n, first.1 + s, first.2 + m, e)),
        Err(x) => Err(x),
    }
}

pub open spec fn piece_plus(a: Piece, b: Piece) -> Piece {
    (a.0 + b.0, a.1 + b.1, a.2 + b.2)
}

/// A fixed word at `p` standing for the one node `n`.
pub open spec fn literal_at(buf: Seq<u8>, p: int, word: Seq<u8>, n: Node) -> Parsed {
    match match_word(buf, p, word, 0) {
        Ok(e) => Ok((seq![n], Seq::empty(), Seq::empty(), e)),
        Err(x) => Err(x),
    }
}

/// A number literal at `p`, kept as its text.
pub open spec fn number_at(buf: Seq<u8>, p: int) -> Parsed {
    match number_end(buf, p) {
        Ok(e) => if valid_utf8(buf.subrange(p, e)) {
            Ok((seq![Node::Number], Seq::empty(), seq![decode_utf8(buf.subrange(p, e))], e))
        } else {
            Err(ParseError::InvalidNumberLiteral { at: p as usize })
        },
        Err(x) => Err(x),
    }
}

/// A string literal at `p`.
pub open spec fn string_at(buf: Seq<u8>, p: int) -> Parsed {
    match string_lit(buf, p) {
        Ok((t, e)) => Ok((seq![Node::String], seq![t], Seq::empty(), e)),
        Err(x) => Err(x),
    }
}

/// One value, after optional whitespace, starting the search at `pos`.
pub open spec fn value_at(buf: Seq<u8>, pos: int) -> Parsed
    decreases buf.len() - pos, 1nat,
{
    let p = skip_ws(buf, pos);
    if pos < 0 || p < pos || p >= buf.len() {
        Err(ParseError::UnexpectedEndOfInput)
    } else {
        let c = buf[p];
        if c == 110u8 {
            literal_at(buf, p, seq![110u8, 117u8, 108u8, 108u8], Node::Null)
        } else if c == 116u8 {
            literal_at(buf, p, seq![116u8, 114u8, 117u8, 101u8], Node::True)
        } else if c == 102u8 {
            literal_at(buf, p, seq![102u8, 97u8, 108u8, 115u8, 101u8], Node::False)
        } else if is_digit(c) || c == 45u8 {
            number_at(buf, p)
        } else if c == 34u8 {
            string_at(buf, p)
        } else if c == 91u8 {
            array_at(buf, p)
        } else if c == 123u8 {
            object_at(buf, p)
        } else {
            Err(ParseError::UnexpectedCharacter { at: p as usize })
        }
    }
}

/// The array whose `[` is at `pos`.
pub open spec fn array_at(buf: Seq<u8>, pos: int) -> Parsed
    decreases buf.len() - pos, 0nat,
{
    if pos < 0 || pos >= buf.len() {
        Err(ParseError::UnexpectedEndOfInput)
    } else {
        then((seq![Node::StartArray], Seq::empty(), Seq::empty()), elements_from(buf, pos + 1, true))
    }
}

/// The rest of an array from `p`: elements separated by commas, then `]`.
pub open spec fn elements_from(buf: Seq<u8>, p: int, first: bool) -> Parsed
    decreases buf.len() - p, 2nat,
{
    let q = skip_ws(buf, p);
    if p < 0 || q < p || q >= buf.len() {
        Err(ParseError::UnexpectedEndOfInput)
    } else if buf[q] == 93u8 {
        Ok((seq![Node::EndArray], Seq::empty(), Seq::empty(), q + 1))
    } else if !first && buf[q] != 44u8 {
        Err(ParseError::UnexpectedCharacter { at: q as usize })
    } else {
        let v = if first {
            q
        } else {
            q + 1
        };
        match value_at(buf, v) {
            Err(x) => Err(x),
            Ok((n, s, m, e)) => if e <= v || e > buf.len() {
                Err(ParseError::UnexpectedEndOfInput)
            } else {
                then((n, s, m), elements_from(buf, e, false))
            },
        }
    }
}

/// The object whose `{` is at `pos`.
pub open spec fn object_at(buf: Seq<u8>, pos: int) -> Parsed
    decreases buf.len() - pos, 0nat,
{
    if pos < 0 || pos >= buf.len() {
        Err(ParseError::UnexpectedEndOfInput)
    } else {
        then((seq![Node::StartObject], Seq::empty(), Seq::empty()), members_from(buf, pos + 1, true))
    }
}

/// The rest of an object from `p`: `"key": value` members separated by
/// commas, then `}`.
pub open spec fn members_from(buf: Seq<u8>, p: int, first: bool) -> Parsed
    decreases buf.len() - p, 2nat,
{
    let q0 = skip_ws(buf, p);
    if p < 0 || q0 < p || q0 >= buf.len() {
        Err(ParseError::UnexpectedEndOfInput)
    } else if buf[q0] == 125u8 {
        Ok((seq![Node::EndObject], Seq::empty(), Seq::empty(), q0 + 1))
    } else if !first && buf[q0] != 44u8 {
        Err(ParseError::UnexpectedCharacter { at: q0 as usize })
    } else {
        let q = if first {
            q0
        } else {
            skip_ws(buf, q0 + 1)
        };
        if q < q0 || q >= buf.len() {
            Err(ParseError::UnexpectedEndOfInput)
        } else if buf[q] != 34u8 {
            Err(ParseError::ExpectedObjectKey { at: q as usize })
        } else {
            match string_lit(buf, q) {
                Err(x) => Err(x),
                Ok((k, q1)) => {
                    let q2 = skip_ws(buf, q1);
                    if q1 <= q || q2 < q1 || q2 >= buf.len() {
                        Err(ParseError::UnexpectedEndOfInput)
                    } else if buf[q2] != 58u8 {
                        Err(ParseError::UnexpectedCharacter { at: q2 as usize })
                    } else {
                        match value_at(buf, q2 + 1) {
                            Err(x) => Err(x),
                            Ok((n, s, m, e)) => if e <= q2 + 1 || e > buf.len() {
                                Err(ParseError::UnexpectedEndOfInput)
                            } else {
                                then(
                                    (seq![Node::Key] + n, seq![k] + s, m),
                                    members_from(buf, e, false),
                                )
                            },
                        }
                    }
                },
            }
        }
    }
}

/// A whole document: one value and nothing after it but whitespace.
pub open spec fn document(buf: Seq<u8>) -> Result<Piece, ParseError> {
    match value_at(buf, 0) {
        Err(x) => Err(x),
        Ok((n, s, m, e)) => {
            let q = skip_ws(buf, e);
            if q < buf.len() {
                Err(ParseError::TrailingCharacters { at: q as usize })
            } else {
                Ok((n, s, m))
            }
        },
    }
}

pub proof fn lemma_then_assoc(a: Piece, b: Piece, rest: Parsed)
    ensures
        then(a, then(b, rest)) == then(piece_plus(a, b), rest),
{
    match rest {
        Ok((n, s, m, e)) => {
            assert(a.0 + (b.0 + n) =~= (a.0 + b.0) + n);
            assert(a.1 + (b.1 + s) =~= (a.1 + b.1) + s);
            assert(a.2 + (b.2 + m) =~= (a.2 + b.2) + m);
        },
        Err(_) => {},
    }
}

} // verus!
