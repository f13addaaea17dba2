use vstd::prelude::*;
use crate::escape::unescape_bytes;
use crate::grammar::{
    lemma_number_alone, number_literal,
    array_at, digits_end, document, elements_from, exp_part, frac_part, int_part, is_digit,
    lemma_then_assoc, literal_at, match_word, members_from, number_at, number_end, object_at,
    piece_plus, skip_ws, string_at, string_end, string_lit, then, value_at, Parsed, Piece,
};
use crate::text::{copy_range, lemma_valid_prefix_len, string_from_utf8, valid_up_to};
use crate::value::{
    balanced, depth, lemma_balanced_never_negative, lemma_depth_push, lemma_never_negative_concat,
    lemma_wrap_balanced, never_negative, pools_match, Jsonc, Node, ReadState, awaits_value,
    lemma_read_concat, lemma_read_single, one_value, read_from, starts_value,
    value_done,
};

verus! {

/// Why a parse failed; `at` is the offset of the rejected byte.
#[derive(Debug, PartialEq, Eq, Structural, Clone, Copy)]
pub enum ParseError {
    UnexpectedEndOfInput,
    UnexpectedCharacter { at: usize },
    InvalidNumberLiteral { at: usize },
    InvalidStringEscape { at: usize },
    ExpectedObjectKey { at: usize },
    TrailingCharacters { at: usize },
}

/// The offset an error carries, if any, lies inside an input of `n` bytes.
pub open spec fn offset_in(e: ParseError, n: int) -> bool {
    match e {
        ParseError::UnexpectedEndOfInput => true,
        ParseError::UnexpectedCharacter { at } => at < n,
        ParseError::InvalidNumberLiteral { at } => at < n,
        ParseError::InvalidStringEscape { at } => at < n,
        ParseError::ExpectedObjectKey { at } => at < n,
        ParseError::TrailingCharacters { at } => at < n,
    }
}

/// What the parser appended to `out` since it held `before` nodes is one
/// complete value, and nothing before it changed.
pub open spec fn appended_value(before: Seq<Node>, after: Seq<Node>) -> bool {
    &&& after.len() > before.len()
    &&& after.take(before.len() as int) == before
    &&& balanced(after.skip(before.len() as int))
}

/// The two pools hold as many entries as the stream consumes, and every
/// number text is a complete number literal.
pub open spec fn pools_ok(j: &Jsonc) -> bool {
    &&& pools_match(j.nodes@, j.strings@.len(), j.numbers@.len())
    &&& forall|i: int| 0 <= i < j.numbers@.len() ==> number_literal(#[trigger] j.numbers@[i]@)
}

/// A position result of the parser agrees with one of the grammar.
pub open spec fn same_pos(r: Result<usize, ParseError>, g: Result<int, ParseError>) -> bool {
    match r {
        Ok(p) => g == Ok::<int, ParseError>(p as int),
        Err(e) => g == Err::<int, ParseError>(e),
    }
}

/// Skips whitespace, and also the escaped forms `\n`, `\r`, `\t` and `\x0C`
/// where whitespace may stand.
fn skip_unused(buf: &[u8], pos: usize) -> (r: usize)
    requires
        pos <= buf@.len(),
    ensures
        pos <= r <= buf@.len(),
        r == skip_ws(buf@, pos as int),
{
    let mut p = pos;
    while p < buf.len()
        invariant
            pos <= p <= buf@.len(),
            skip_ws(buf@, pos as int) == skip_ws(buf@, p as int),
        decreases buf@.len() - p,
    {
        let c = buf[p];
        if c == 32u8 || c == 9u8 || c == 10u8 || c == 13u8 {
            p = p + 1;
        } else if c == 92u8 && buf.len() - p >= 2 && (buf[p + 1] == 110u8 || buf[p + 1] == 114u8
            || buf[p + 1] == 116u8) {
            p = p + 2;
        } else if c == 92u8 && buf.len() - p >= 4 && buf[p + 1] == 120u8 && buf[p + 2] == 48u8
            && buf[p + 3] == 67u8 {
            p = p + 4;
        } else {
            return p;
        }
    }
    p
}

/// Index just past the run of ASCII digits that starts at `pos`.
fn step_digits(buf: &[u8], pos: usize) -> (r: usize)
    requires
        pos <= buf@.len(),
    ensures
        pos <= r <= buf@.len(),
        r == digits_end(buf@, pos as int),
        forall|i: int| pos <= i < r ==> is_digit(#[trigger] buf@[i]),
{
    let mut p = pos;
    while p < buf.len() && 48u8 <= buf[p] && buf[p] <= 57u8
        invariant
            pos <= p <= buf@.len(),
            digits_end(buf@, pos as int) == digits_end(buf@, p as int),
            forall|i: int| pos <= i < p ==> is_digit(#[trigger] buf@[i]),
        decreases buf@.len() - p,
    {
        p = p + 1;
    }
    p
}

/// Matches the fixed bytes of `word` at `pos`; returns the index past them.
fn must_match(buf: &[u8], pos: usize, word: &Vec<u8>) -> (r: Result<usize, ParseError>)
    requires
        pos <= buf@.len(),
    ensures
        r matches Err(e) ==> offset_in(e, buf@.len() as int),
        r matches Ok(p) ==> p == pos + word@.len() && p <= buf@.len(),
        same_pos(r, match_word(buf@, pos as int, word@, 0)),
{
    let n = buf.len();
    let mut i: usize = 0;
    while i < word.len()
        invariant
            i <= word@.len(),
            pos <= buf@.len(),
            pos + i <= buf@.len(),
            n == buf@.len(),
            match_word(buf@, pos as int, word@, 0) == match_word(buf@, pos as int, word@, i as int),
        decreases word@.len() - i,
    {
        if pos + i >= buf.len() {
            return Err(ParseError::UnexpectedEndOfInput);
        }
        if buf[pos + i] != word[i] {
            return Err(ParseError::UnexpectedCharacter { at: pos + i });
        }
        i = i + 1;
    }
    Ok(pos + i)
}

/// The texts of a pool.
pub open spec fn texts(v: Seq<String>) -> Seq<Seq<char>> {
    v.map_values(|s: String| s@)
}

/// `after` is `before` with exactly the piece that the grammar produced
/// appended, and `r` is the grammar's end index or error.
pub open spec fn agrees(r: Result<usize, ParseError>, before: Jsonc, after: Jsonc, g: Parsed) -> bool {
    match g {
        Ok((n, s, m, e)) => {
            &&& r matches Ok(p)
            &&& p as int == e
            &&& after.nodes@ == before.nodes@ + n
            &&& texts(after.strings@) == texts(before.strings@) + s
            &&& texts(after.numbers@) == texts(before.numbers@) + m
        },
        Err(x) => r == Err::<usize, ParseError>(x),
    }
}

proof fn lemma_texts_push(v: Seq<String>, x: String)
    ensures
        texts(v.push(x)) == texts(v) + seq![x@],
{
    assert(texts(v.push(x)) =~= texts(v) + seq![x@]);
}

/// Pushes a one-node value that uses no pool.
fn push_plain(out: &mut Jsonc, n: Node)
    requires
        pools_ok(old(out)),
        n != Node::Key && n != Node::String && n != Node::Number,
        n != Node::StartArray && n != Node::StartObject,
        n != Node::EndArray && n != Node::EndObject,
    ensures
        pools_ok(final(out)),
        final(out).nodes@ == old(out).nodes@.push(n),
        appended_value(old(out).nodes@, final(out).nodes@),
        final(out).strings == old(out).strings,
        final(out).numbers == old(out).numbers,
        one_value(final(out).nodes@.skip(old(out).nodes@.len() as int)),
{
    let ghost before = out.nodes@;
    out.nodes.push(n);
    proof {
        lemma_scalar_one_value(n);
        assert(Seq::<Node>::empty().push(n) =~= seq![n]);
        lemma_depth_push(before, n);
        lemma_depth_push(Seq::empty(), n);
        assert(out.nodes@.take(before.len() as int) =~= before);
        assert(out.nodes@.skip(before.len() as int) =~= Seq::<Node>::empty().push(n));
    }
}

/// Pushes a node that reads one string together with that string.
fn push_with_string(out: &mut Jsonc, n: Node, s: String)
    requires
        pools_ok(old(out)),
        n == Node::Key || n == Node::String,
    ensures
        pools_ok(final(out)),
        final(out).nodes@ == old(out).nodes@.push(n),
        final(out).strings@ == old(out).strings@.push(s),
        texts(final(out).strings@) == texts(old(out).strings@) + seq![s@],
        final(out).numbers == old(out).numbers,
        appended_value(old(out).nodes@, final(out).nodes@),
        n == Node::String ==> one_value(final(out).nodes@.skip(old(out).nodes@.len() as int)),
{
    let ghost before = out.nodes@;
    proof {
        lemma_texts_push(out.strings@, s);
    }
    out.nodes.push(n);
    out.strings.push(s);
    proof {
        if n == Node::String {
            lemma_scalar_one_value(n);
        }
        assert(Seq::<Node>::empty().push(n) =~= seq![n]);
        lemma_depth_push(before, n);
        lemma_depth_push(Seq::empty(), n);
        assert(out.nodes@.take(before.len() as int) =~= before);
        assert(out.nodes@.skip(before.len() as int) =~= Seq::<Node>::empty().push(n));
    }
}

/// Parses the fixed word that stands for the one node `n`.
fn parse_literal(buf: &[u8], pos: usize, word: &Vec<u8>, n: Node, out: &mut Jsonc) -> (r: Result<
    usize,
    ParseError,
>)
    requires
        pos <= buf@.len(),
        word@.len() > 0,
        pools_ok(old(out)),
        n == Node::Null || n == Node::True || n == Node::False,
    ensures
        r is Err ==> *final(out) == *old(out),
        r is Ok ==> one_value(final(out).nodes@.skip(old(out).nodes@.len() as int)),
        r matches Err(e) ==> offset_in(e, buf@.len() as int),
        pools_ok(final(out)),
        agrees(r, *old(out), *final(out), literal_at(buf@, pos as int, word@, n)),
        r matches Ok(p) ==> pos < p <= buf@.len() && appended_value(
            old(out).nodes@,
            final(out).nodes@,
        ),
{
    let p = must_match(buf, pos, word)?;
    push_plain(out, n);
    assert(out.nodes@ =~= old(out).nodes@ + seq![n]);
    assert(texts(out.strings@) =~= texts(old(out).strings@) + Seq::<Seq<char>>::empty());
    assert(texts(out.numbers@) =~= texts(old(out).numbers@) + Seq::<Seq<char>>::empty());
    Ok(p)
}

/// Scans a number literal `-?(0|[1-9][0-9]*)(\.[0-9]+)?([eE][+-]?[0-9]+)?`
/// starting at `pos`; returns the index just past it.
pub fn scan_number(buf: &[u8], pos: usize) -> (r: Result<usize, ParseError>)
    requires
        pos <= buf@.len(),
    ensures
        r matches Err(e) ==> offset_in(e, buf@.len() as int),
        same_pos(r, number_end(buf@, pos as int)),
        r matches Ok(p) ==> pos < p <= buf@.len(),
{
    let mut p = pos;
    if p < buf.len() && buf[p] == 45u8 {
        p = p + 1;
    }
    let ghost after_sign = p as int;
    if p >= buf.len() {
        return Err(ParseError::UnexpectedEndOfInput);
    }
    if buf[p] == 48u8 {
        p = p + 1;
        if p < buf.len() && 48u8 <= buf[p] && buf[p] <= 57u8 {
            return Err(ParseError::InvalidNumberLiteral { at: p });
        }
    } else {
        let q = step_digits(buf, p);
        if q == p {
            return Err(ParseError::InvalidNumberLiteral { at: p });
        }
        p = q;
    }
    assert(int_part(buf@, after_sign) == Ok::<int, ParseError>(p as int));
    let ghost after_int = p as int;
    if p < buf.len() && buf[p] == 46u8 {
        p = p + 1;
        if p >= buf.len() {
            return Err(ParseError::UnexpectedEndOfInput);
        }
        let q = step_digits(buf, p);
        if q == p {
            return Err(ParseError::InvalidNumberLiteral { at: p });
        }
        p = q;
    }
    assert(frac_part(buf@, after_int) == Ok::<int, ParseError>(p as int));
    let ghost after_frac = p as int;
    if p < buf.len() && (buf[p] == 69u8 || buf[p] == 101u8) {
        p = p + 1;
        if p < buf.len() && (buf[p] == 43u8 || buf[p] == 45u8) {
            p = p + 1;
        }
        if p >= buf.len() {
            return Err(ParseError::UnexpectedEndOfInput);
        }
        let q = step_digits(buf, p);
        if q == p {
            return Err(ParseError::InvalidNumberLiteral { at: p });
        }
        p = q;
    }
    assert(exp_part(buf@, after_frac) == Ok::<int, ParseError>(p as int));
    Ok(p)
}

fn parse_json_number(buf: &[u8], pos: usize, out: &mut Jsonc) -> (r: Result<usize, ParseError>)
    requires
        pos <= buf@.len(),
        pools_ok(old(out)),
    ensures
        r is Err ==> *final(out) == *old(out),
        r is Ok ==> one_value(final(out).nodes@.skip(old(out).nodes@.len() as int)),
        r matches Err(e) ==> offset_in(e, buf@.len() as int),
        pools_ok(final(out)),
        agrees(r, *old(out), *final(out), number_at(buf@, pos as int)),
        r matches Ok(p) ==> pos < p <= buf@.len() && appended_value(
            old(out).nodes@,
            final(out).nodes@,
        ),
{
    let p = scan_number(buf, pos)?;
    let lexeme = copy_range(buf, pos, p);
    match string_from_utf8(lexeme) {
        Some(text) => {
            let ghost before = out.nodes@;
            proof {
                lemma_texts_push(out.numbers@, text);
                lemma_number_alone(buf@, pos as int, p as int);
                assert(number_literal(text@));
            }
            out.nodes.push(Node::Number);
            out.numbers.push(text);
            proof {
                lemma_depth_push(before, Node::Number);
                lemma_depth_push(Seq::empty(), Node::Number);
                lemma_scalar_one_value(Node::Number);
                assert(Seq::<Node>::empty().push(Node::Number) =~= seq![Node::Number]);
                assert(out.nodes@.take(before.len() as int) =~= before);
                assert(out.nodes@.skip(before.len() as int) =~= Seq::<Node>::empty().push(
                    Node::Number,
                ));
                assert(texts(out.strings@) =~= texts(old(out).strings@) + Seq::<Seq<char>>::empty());
                assert(out.nodes@ =~= old(out).nodes@ + seq![Node::Number]);
            }
            Ok(p)
        },
        None => Err(ParseError::InvalidNumberLiteral { at: pos }),
    }
}

/// A string result of the parser agrees with the grammar's.
pub open spec fn same_string(r: Result<(String, usize), ParseError>, g: Result<(Seq<char>, int), ParseError>) -> bool {
    match g {
        Ok((t, e)) => r matches Ok((s, p)) && s@ == t && p as int == e,
        Err(x) => r matches Err(y) && y == x,
    }
}

/// Reads the string literal whose opening quote is at `pos`; returns its
/// text and the index just past the closing quote.
pub fn scan_string(buf: &[u8], pos: usize) -> (r: Result<(String, usize), ParseError>)
    requires
        pos < buf@.len(),
        buf@[pos as int] == 34u8,
    ensures
        r matches Err(e) ==> offset_in(e, buf@.len() as int),
        same_string(r, string_lit(buf@, pos as int)),
        r matches Ok((s, p)) ==> pos + 2 <= p <= buf@.len(),
{
    let n = buf.len();
    let start = pos + 1;
    let mut p = start;
    let mut escapes: usize = 0;
    loop
        invariant
            start <= p,
            start == pos + 1,
            p <= buf@.len(),
            escapes <= p - start,
            string_end(buf@, start as int, false) == string_end(buf@, p as int, escapes > 0),
        decreases buf@.len() - p,
    {
        if p >= buf.len() {
            return Err(ParseError::UnexpectedEndOfInput);
        }
        let c = buf[p];
        if c == 92u8 {
            escapes = escapes + 1;
            if p + 1 >= buf.len() {
                return Err(ParseError::UnexpectedEndOfInput);
            }
            if buf[p + 1] == 117u8 {
                if p + 2 >= buf.len() {
                    return Err(ParseError::UnexpectedEndOfInput);
                }
                let skip: usize = if buf[p + 2] == 123u8 {
                    6
                } else {
                    4
                };
                if buf.len() - (p + 2) <= skip {
                    return Err(ParseError::UnexpectedEndOfInput);
                }
                p = p + 2 + skip;
            } else {
                p = p + 2;
            }
        } else if c == 34u8 {
            let end = p + 1;
            let raw = copy_range(buf, start, p);
            assert(raw@ == buf@.subrange(start as int, end - 1));
            let u = valid_up_to(raw.as_slice());
            let raw_len = raw.len();
            proof {
                lemma_valid_prefix_len(raw@, raw@.len() as int);
            }
            let unescaped = if escapes > 0 {
                unescape_bytes(&raw)
            } else {
                Ok(raw)
            };
            return match unescaped {
                Err(k) => if u < raw_len && u < k {
                    Err(ParseError::UnexpectedCharacter { at: start + u })
                } else {
                    Err(ParseError::InvalidStringEscape { at: start + k })
                },
                Ok(bytes) => if u < raw_len {
                    Err(ParseError::UnexpectedCharacter { at: start + u })
                } else {
                    match string_from_utf8(bytes) {
                        Some(s) => Ok((s, end)),
                        None => Err(ParseError::UnexpectedCharacter { at: start + u }),
                    }
                },
            };
        } else {
            p = p + 1;
        }
    }
}

fn parse_json_string(buf: &[u8], pos: usize, out: &mut Jsonc) -> (r: Result<usize, ParseError>)
    requires
        pos < buf@.len(),
        buf@[pos as int] == 34u8,
        pools_ok(old(out)),
    ensures
        r is Err ==> *final(out) == *old(out),
        r is Ok ==> one_value(final(out).nodes@.skip(old(out).nodes@.len() as int)),
        r matches Err(e) ==> offset_in(e, buf@.len() as int),
        pools_ok(final(out)),
        agrees(r, *old(out), *final(out), string_at(buf@, pos as int)),
        r matches Ok(p) ==> pos < p <= buf@.len() && appended_value(
            old(out).nodes@,
            final(out).nodes@,
        ),
{
    let (s, p) = scan_string(buf, pos)?;
    push_with_string(out, Node::String, s);
    assert(texts(out.numbers@) =~= texts(old(out).numbers@) + Seq::<Seq<char>>::empty());
    assert(out.nodes@ =~= old(out).nodes@ + seq![Node::String]);
    Ok(p)
}

/// Parses one value starting at `pos` (after optional whitespace) and
/// appends its nodes and pool entries to `out`.
fn parse_json_value(buf: &[u8], pos: usize, out: &mut Jsonc) -> (r: Result<usize, ParseError>)
    requires
        pos <= buf@.len(),
        pools_ok(old(out)),
    ensures
        r is Ok ==> one_value(final(out).nodes@.skip(old(out).nodes@.len() as int)),
        r matches Err(e) ==> offset_in(e, buf@.len() as int),
        pools_ok(final(out)),
        agrees(r, *old(out), *final(out), value_at(buf@, pos as int)),
        r matches Ok(p) ==> pos < p <= buf@.len() && appended_value(
            old(out).nodes@,
            final(out).nodes@,
        ),
    decreases buf@.len() - pos, 1nat,
{
    let p = skip_unused(buf, pos);
    if p >= buf.len() {
        return Err(ParseError::UnexpectedEndOfInput);
    }
    let c = buf[p];
    if c == 110u8 {
        parse_literal(buf, p, &vec![110u8, 117u8, 108u8, 108u8], Node::Null, out)
    } else if c == 116u8 {
        parse_literal(buf, p, &vec![116u8, 114u8, 117u8, 101u8], Node::True, out)
    } else if c == 102u8 {
        parse_literal(buf, p, &vec![102u8, 97u8, 108u8, 115u8, 101u8], Node::False, out)
    } else if (48u8 <= c && c <= 57u8) || c == 45u8 {
        parse_json_number(buf, p, out)
    } else if c == 34u8 {
        parse_json_string(buf, p, out)
    } else if c == 91u8 {
        parse_json_array(buf, p, out)
    } else if c == 123u8 {
        parse_json_object(buf, p, out)
    } else {
        Err(ParseError::UnexpectedCharacter { at: p })
    }
}

/// The nodes after the opening bracket at `start` never dip below its depth
/// and return to it.
pub open spec fn open_body(nodes: Seq<Node>, start: int) -> bool {
    &&& 0 <= start < nodes.len()
    &&& never_negative(nodes.skip(start + 1))
    &&& depth(nodes.skip(start + 1)) == 0
}

proof fn lemma_extend_body(before: Seq<Node>, mid: Seq<Node>, after: Seq<Node>, start: int)
    requires
        open_body(mid, start),
        start < before.len() <= mid.len(),
        mid.take(before.len() as int) == before,
        appended_value(mid, after),
    ensures
        open_body(after, start),
        after.take(before.len() as int) == before,
{
    let seg = after.skip(mid.len() as int);
    lemma_balanced_never_negative(seg);
    assert(after.skip(start + 1) =~= mid.skip(start + 1) + seg);
    lemma_never_negative_concat(mid.skip(start + 1), seg);
    assert(after.take(before.len() as int) =~= mid.take(before.len() as int));
}

proof fn lemma_close_body(before: Seq<Node>, mid: Seq<Node>, open: Node, close: Node)
    requires
        open_body(mid, before.len() as int),
        mid.take(before.len() as int) == before,
        mid[before.len() as int] == open,
        crate::value::delta(open) == 1,
        crate::value::delta(close) == -1,
    ensures
        appended_value(before, mid.push(close)),
{
    let body = mid.skip(before.len() as int + 1);
    lemma_wrap_balanced(open, body, close);
    assert(mid.push(close).skip(before.len() as int) =~= seq![open] + body + seq![close]);
    assert(mid.push(close).take(before.len() as int) =~= before);
}

/// The state inside a container of kind `obj` opened in state `st`.
pub open spec fn inside(st: ReadState, obj: bool) -> ReadState {
    (st.0.push(obj), false, false)
}

/// The nodes from the opening bracket on read as an open container, whatever
/// state awaiting a value they start in.
pub open spec fn open_reads(x: Seq<Node>, obj: bool) -> bool {
    forall|st: ReadState| awaits_value(st) ==> #[trigger] read_from(st, x) == Some(inside(st, obj))
}

proof fn lemma_scalar_one_value(n: Node)
    requires
        starts_value(n),
        n != Node::StartArray && n != Node::StartObject,
    ensures
        one_value(seq![n]),
{
    assert forall|st: ReadState| awaits_value(st) implies #[trigger] read_from(st, seq![n]) == Some(
        value_done(st),
    ) by {
        lemma_read_single(st, n);
    }
}

proof fn lemma_open_reads(n: Node, obj: bool)
    requires
        (n == Node::StartArray && !obj) || (n == Node::StartObject && obj),
    ensures
        open_reads(seq![n], obj),
{
    assert forall|st: ReadState| awaits_value(st) implies #[trigger] read_from(st, seq![n]) == Some(
        inside(st, obj),
    ) by {
        lemma_read_single(st, n);
    }
}

proof fn lemma_open_element(x: Seq<Node>, v: Seq<Node>)
    requires
        open_reads(x, false),
        one_value(v),
    ensures
        open_reads(x + v, false),
{
    assert forall|st: ReadState| awaits_value(st) implies #[trigger] read_from(st, x + v) == Some(
        inside(st, false),
    ) by {
        lemma_read_concat(st, x, v);
        let t = inside(st, false);
        assert(awaits_value(t));
        assert(read_from(t, v) == Some(value_done(t)));
        assert(value_done(t) == t);
    }
}

proof fn lemma_open_member(x: Seq<Node>, v: Seq<Node>)
    requires
        open_reads(x, true),
        one_value(v),
    ensures
        open_reads(x + seq![Node::Key] + v, true),
{
    assert forall|st: ReadState| awaits_value(st) implies #[trigger] read_from(
        st,
        x + seq![Node::Key] + v,
    ) == Some(inside(st, true)) by {
        let t = inside(st, true);
        lemma_read_concat(st, x, seq![Node::Key]);
        lemma_read_single(t, Node::Key);
        let kd: ReadState = (t.0, true, false);
        lemma_read_concat(st, x + seq![Node::Key], v);
        assert(awaits_value(kd));
        assert(read_from(kd, v) == Some(value_done(kd)));
        assert(value_done(kd) == t);
    }
}

proof fn lemma_close_reads(x: Seq<Node>, obj: bool, close: Node)
    requires
        open_reads(x, obj),
        (close == Node::EndArray && !obj) || (close == Node::EndObject && obj),
    ensures
        one_value(x + seq![close]),
{
    assert forall|st: ReadState| awaits_value(st) implies #[trigger] read_from(
        st,
        x + seq![close],
    ) == Some(value_done(st)) by {
        let t = inside(st, obj);
        lemma_read_concat(st, x, seq![close]);
        lemma_read_single(t, close);
        assert(t.0.drop_last() =~= st.0);
    }
}

/// `out` holds `base` followed by the piece `acc`.
pub open spec fn holds(out: Jsonc, base: Jsonc, acc: Piece) -> bool {
    &&& out.nodes@ == base.nodes@ + acc.0
    &&& texts(out.strings@) == texts(base.strings@) + acc.1
    &&& texts(out.numbers@) == texts(base.numbers@) + acc.2
}

proof fn lemma_holds_extend(base: Jsonc, mid: Jsonc, after: Jsonc, acc: Piece, piece: Piece)
    requires
        holds(mid, base, acc),
        holds(after, mid, piece),
    ensures
        holds(after, base, piece_plus(acc, piece)),
{
    assert(after.nodes@ =~= base.nodes@ + (acc.0 + piece.0));
    assert(texts(after.strings@) =~= texts(base.strings@) + (acc.1 + piece.1));
    assert(texts(after.numbers@) =~= texts(base.numbers@) + (acc.2 + piece.2));
}

fn parse_json_array(buf: &[u8], pos: usize, out: &mut Jsonc) -> (r: Result<usize, ParseError>)
    requires
        pos < buf@.len(),
        buf@[pos as int] == 91u8,
        pools_ok(old(out)),
    ensures
        r is Ok ==> one_value(final(out).nodes@.skip(old(out).nodes@.len() as int)),
        r matches Err(e) ==> offset_in(e, buf@.len() as int),
        pools_ok(final(out)),
        agrees(r, *old(out), *final(out), array_at(buf@, pos as int)),
        r matches Ok(p) ==> pos < p <= buf@.len() && appended_value(
            old(out).nodes@,
            final(out).nodes@,
        ),
    decreases buf@.len() - pos, 0nat,
{
    let ghost base = *out;
    let ghost before = out.nodes@;
    let ghost start = before.len() as int;
    let n = buf.len();
    out.nodes.push(Node::StartArray);
    proof {
        lemma_depth_push(before, Node::StartArray);
        assert(out.nodes@.skip(start + 1) =~= Seq::<Node>::empty());
        assert(out.nodes@.take(start) =~= before);
        assert(Seq::<Node>::empty().take(0) =~= Seq::<Node>::empty());
        assert(out.nodes@.skip(start) =~= seq![Node::StartArray]);
        lemma_open_reads(Node::StartArray, false);
    }
    let ghost mut acc: Piece = (seq![Node::StartArray], Seq::empty(), Seq::empty());
    assert(holds(*out, base, acc)) by {
        assert(out.nodes@ =~= base.nodes@ + acc.0);
        assert(texts(out.strings@) =~= texts(base.strings@) + acc.1);
        assert(texts(out.numbers@) =~= texts(base.numbers@) + acc.2);
    }
    let mut p = pos + 1;
    let mut first = true;
    loop
        invariant
            pos < p <= buf@.len(),
            n == buf@.len(),
            pools_ok(out),
            open_body(out.nodes@, start),
            start == before.len(),
            before == base.nodes@,
            base == *old(out),
            out.nodes@.take(start) == before,
            out.nodes@[start] == Node::StartArray,
            holds(*out, base, acc),
            open_reads(out.nodes@.skip(start), false),
            array_at(buf@, pos as int) == then(acc, elements_from(buf@, p as int, first)),
        decreases buf@.len() - p,
    {
        let q = skip_unused(buf, p);
        if q >= buf.len() {
            return Err(ParseError::UnexpectedEndOfInput);
        }
        if buf[q] == 93u8 {
            let ghost mid = out.nodes@;
            let ghost mid_out = *out;
            out.nodes.push(Node::EndArray);
            proof {
                lemma_close_body(before, mid, Node::StartArray, Node::EndArray);
                assert(out.nodes@.skip(start) =~= mid.skip(start) + seq![Node::EndArray]);
                lemma_close_reads(mid.skip(start), false, Node::EndArray);
                lemma_depth_push(mid, Node::EndArray);
                let piece: Piece = (seq![Node::EndArray], Seq::empty(), Seq::empty());
                assert(holds(*out, mid_out, piece)) by {
                    assert(out.nodes@ =~= mid_out.nodes@ + piece.0);
                    assert(texts(out.strings@) =~= texts(mid_out.strings@) + piece.1);
                    assert(texts(out.numbers@) =~= texts(mid_out.numbers@) + piece.2);
                }
                lemma_holds_extend(base, mid_out, *out, acc, piece);
            }
            return Ok(q + 1);
        }
        if !first && buf[q] != 44u8 {
            return Err(ParseError::UnexpectedCharacter { at: q });
        }
        let v = if first {
            q
        } else {
            q + 1
        };
        let ghost mid = out.nodes@;
        let ghost mid_out = *out;
        proof {
            assert(mid.take(start + 1) =~= before.push(Node::StartArray));
        }
        let e = parse_json_value(buf, v, out)?;
        proof {
            lemma_extend_body(before.push(Node::StartArray), mid, out.nodes@, start);
            assert(out.nodes@.skip(start) =~= mid.skip(start) + out.nodes@.skip(mid.len() as int));
            lemma_open_element(mid.skip(start), out.nodes@.skip(mid.len() as int));
            assert(before.push(Node::StartArray).take(start) =~= before);
            assert(out.nodes@.take(start) =~= out.nodes@.take(start + 1).take(start));
            assert(out.nodes@[start] == out.nodes@.take(start + 1)[start]);
            let piece: Piece = (
                value_at(buf@, v as int)->Ok_0.0,
                value_at(buf@, v as int)->Ok_0.1,
                value_at(buf@, v as int)->Ok_0.2,
            );
            lemma_holds_extend(base, mid_out, *out, acc, piece);
            lemma_then_assoc(acc, piece, elements_from(buf@, e as int, false));
            acc = piece_plus(acc, piece);
        }
        p = e;
        first = false;
    }
}

fn parse_json_object(buf: &[u8], pos: usize, out: &mut Jsonc) -> (r: Result<usize, ParseError>)
    requires
        pos < buf@.len(),
        buf@[pos as int] == 123u8,
        pools_ok(old(out)),
    ensures
        r is Ok ==> one_value(final(out).nodes@.skip(old(out).nodes@.len() as int)),
        r matches Err(e) ==> offset_in(e, buf@.len() as int),
        pools_ok(final(out)),
        agrees(r, *old(out), *final(out), object_at(buf@, pos as int)),
        r matches Ok(p) ==> pos < p <= buf@.len() && appended_value(
            old(out).nodes@,
            final(out).nodes@,
        ),
    decreases buf@.len() - pos, 0nat,
{
    let ghost base = *out;
    let ghost before = out.nodes@;
    let ghost start = before.len() as int;
    let n = buf.len();
    out.nodes.push(Node::StartObject);
    proof {
        lemma_depth_push(before, Node::StartObject);
        assert(out.nodes@.skip(start + 1) =~= Seq::<Node>::empty());
        assert(out.nodes@.take(start) =~= before);
        assert(Seq::<Node>::empty().take(0) =~= Seq::<Node>::empty());
        assert(out.nodes@.skip(start) =~= seq![Node::StartObject]);
        lemma_open_reads(Node::StartObject, true);
    }
    let ghost mut acc: Piece = (seq![Node::StartObject], Seq::empty(), Seq::empty());
    assert(holds(*out, base, acc)) by {
        assert(out.nodes@ =~= base.nodes@ + acc.0);
        assert(texts(out.strings@) =~= texts(base.strings@) + acc.1);
        assert(texts(out.numbers@) =~= texts(base.numbers@) + acc.2);
    }
    let mut p = pos + 1;
    let mut first = true;
    loop
        invariant
            pos < p <= buf@.len(),
            n == buf@.len(),
            pools_ok(out),
            open_body(out.nodes@, start),
            start == before.len(),
            before == base.nodes@,
            base == *old(out),
            out.nodes@.take(start) == before,
            out.nodes@[start] == Node::StartObject,
            holds(*out, base, acc),
            open_reads(out.nodes@.skip(start), true),
            object_at(buf@, pos as int) == then(acc, members_from(buf@, p as int, first)),
        decreases buf@.len() - p,
    {
        let q0 = skip_unused(buf, p);
        if q0 >= buf.len() {
            return Err(ParseError::UnexpectedEndOfInput);
        }
        if buf[q0] == 125u8 {
            let ghost mid = out.nodes@;
            let ghost mid_out = *out;
            out.nodes.push(Node::EndObject);
            proof {
                lemma_close_body(before, mid, Node::StartObject, Node::EndObject);
                assert(out.nodes@.skip(start) =~= mid.skip(start) + seq![Node::EndObject]);
                lemma_close_reads(mid.skip(start), true, Node::EndObject);
                lemma_depth_push(mid, Node::EndObject);
                let piece: Piece = (seq![Node::EndObject], Seq::empty(), Seq::empty());
                assert(holds(*out, mid_out, piece)) by {
                    assert(out.nodes@ =~= mid_out.nodes@ + piece.0);
                    assert(texts(out.strings@) =~= texts(mid_out.strings@) + piece.1);
                    assert(texts(out.numbers@) =~= texts(mid_out.numbers@) + piece.2);
                }
                lemma_holds_extend(base, mid_out, *out, acc, piece);
            }
            return Ok(q0 + 1);
        }
        let mut q = q0;
        if !first {
            if buf[q0] != 44u8 {
                return Err(ParseError::UnexpectedCharacter { at: q0 });
            }
            q = skip_unused(buf, q0 + 1);
            if q >= buf.len() {
                return Err(ParseError::UnexpectedEndOfInput);
            }
        }
        if buf[q] != 34u8 {
            return Err(ParseError::ExpectedObjectKey { at: q });
        }
        let (key, q1) = scan_string(buf, q)?;
        let ghost key_text = key@;
        let ghost mid = out.nodes@;
        let ghost mid_out = *out;
        proof {
            assert(mid.take(start + 1) =~= before.push(Node::StartObject));
        }
        push_with_string(out, Node::Key, key);
        proof {
            lemma_extend_body(before.push(Node::StartObject), mid, out.nodes@, start);
            assert(out.nodes@.take(start) =~= out.nodes@.take(start + 1).take(start));
            assert(out.nodes@[start] == out.nodes@.take(start + 1)[start]);
        }
        let q2 = skip_unused(buf, q1);
        if q2 >= buf.len() {
            return Err(ParseError::UnexpectedEndOfInput);
        }
        if buf[q2] != 58u8 {
            return Err(ParseError::UnexpectedCharacter { at: q2 });
        }
        let ghost mid2 = out.nodes@;
        let ghost key_out = *out;
        proof {
            assert(mid2.take(start + 1) =~= before.push(Node::StartObject));
        }
        let e = parse_json_value(buf, q2 + 1, out)?;
        proof {
            lemma_extend_body(before.push(Node::StartObject), mid2, out.nodes@, start);
            assert(mid2 =~= mid.push(Node::Key));
            assert(out.nodes@.skip(start) =~= mid.skip(start) + seq![Node::Key] + out.nodes@.skip(
                mid2.len() as int,
            ));
            lemma_open_member(mid.skip(start), out.nodes@.skip(mid2.len() as int));
            assert(out.nodes@.take(start) =~= out.nodes@.take(start + 1).take(start));
            assert(out.nodes@[start] == out.nodes@.take(start + 1)[start]);
            let g = value_at(buf@, q2 + 1);
            let piece: Piece = (
                seq![Node::Key] + g->Ok_0.0,
                seq![key_text] + g->Ok_0.1,
                g->Ok_0.2,
            );
            assert(holds(*out, mid_out, piece)) by {
                assert(out.nodes@ =~= mid_out.nodes@ + piece.0);
                assert(texts(out.strings@) =~= texts(mid_out.strings@) + piece.1);
                assert(texts(out.numbers@) =~= texts(mid_out.numbers@) + piece.2);
            }
            lemma_holds_extend(base, mid_out, *out, acc, piece);
            lemma_then_assoc(acc, piece, members_from(buf@, e as int, false));
            acc = piece_plus(acc, piece);
        }
        p = e;
        first = false;
    }
}

/// Parses a whole document: one value, surrounded by optional whitespace.
/// The result is exactly what the grammar gives for the input, and a
/// document it accepts is well formed.
pub fn parse_value(buf: &[u8]) -> (r: Result<Jsonc, ParseError>)
    ensures
        r matches Err(e) ==> offset_in(e, buf@.len() as int),
        match document(buf@) {
            Ok(d) => r matches Ok(j) && d == (j.nodes@, texts(j.strings@), texts(j.numbers@)),
            Err(x) => r == Err::<Jsonc, ParseError>(x),
        },
        r matches Ok(j) ==> j.well_formed(),
{
    let mut json = Jsonc::new();
    let ghost empty = json;
    let p = parse_json_value(buf, 0, &mut json)?;
    let q = skip_unused(buf, p);
    if q < buf.len() {
        return Err(ParseError::TrailingCharacters { at: q });
    }
    proof {
        assert(json.nodes@.skip(0) =~= json.nodes@);
        assert(empty.nodes@ + json.nodes@ =~= json.nodes@);
        let init: ReadState = (Seq::empty(), false, false);
        assert(awaits_value(init));
        assert(read_from(init, json.nodes@) == Some(value_done(init)));
        assert(texts(empty.strings@) + texts(json.strings@) =~= texts(json.strings@));
        assert(texts(empty.numbers@) + texts(json.numbers@) =~= texts(json.numbers@));
    }
    Ok(json)
}

} // verus!
