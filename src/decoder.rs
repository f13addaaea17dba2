use vstd::prelude::*;
use crate::escape::{escape_chars, push_quoted};
use crate::slice::JsoncSlice;
use crate::text::{push_char, push_text};
use crate::value::{number_count, pools_match, string_count, Jsonc, Node};

verus! {

/// The node closes a value: a scalar or a closing bracket.
pub open spec fn ends_value(n: Node) -> bool {
    !(n == Node::StartArray || n == Node::StartObject || n == Node::Key)
}

pub open spec fn is_close(n: Node) -> bool {
    n == Node::EndArray || n == Node::EndObject
}

/// A comma goes before node `i` exactly when the node before it ended a
/// value and node `i` does not close a container.
pub open spec fn separator(nodes: Seq<Node>, i: int) -> Seq<char> {
    if i > 0 && ends_value(nodes[i - 1]) && !is_close(nodes[i]) {
        seq![',']
    } else {
        Seq::empty()
    }
}

pub open spec fn quoted(s: Seq<char>) -> Seq<char> {
    seq!['"'] + escape_chars(s) + seq!['"']
}

/// The text of one node, given the string and number it reads (if any).
pub open spec fn token(n: Node, s: Seq<char>, num: Seq<char>) -> Seq<char> {
    match n {
        Node::Null => "null"@,
        Node::True => "true"@,
        Node::False => "false"@,
        Node::StartArray => seq!['['],
        Node::EndArray => seq![']'],
        Node::StartObject => seq!['{'],
        Node::EndObject => seq!['}'],
        Node::Key => quoted(s) + seq![':'],
        Node::String => quoted(s),
        Node::Number => num,
    }
}

/// The text of the first `k` nodes of a document.
pub open spec fn render(nodes: Seq<Node>, strings: Seq<String>, numbers: Seq<String>, k: int) -> Seq<
    char,
>
    decreases k,
{
    if k <= 0 {
        Seq::empty()
    } else {
        let i = k - 1;
        render(nodes, strings, numbers, i) + separator(nodes, i) + token(
            nodes[i],
            strings[string_count(nodes.take(i)) as int]@,
            numbers[number_count(nodes.take(i)) as int]@,
        )
    }
}

/// The JSON text of a whole document.
pub open spec fn rendered(nodes: Seq<Node>, strings: Seq<String>, numbers: Seq<String>) -> Seq<
    char,
> {
    render(nodes, strings, numbers, nodes.len() as int)
}

/// Writes the document viewed by `json` as minimal JSON text.
pub fn decode_slice(json: JsoncSlice) -> (r: String)
    requires
        pools_match(json.nodes@, json.strings@.len(), json.numbers@.len()),
    ensures
        r@ == rendered(json.nodes@, json.strings@, json.numbers@),
{
    let ghost nodes = json.nodes@;
    let n = json.nodes.len();
    let n_str = json.strings.len();
    let n_num = json.numbers.len();
    let mut out = String::new();
    let mut si: usize = 0;
    let mut ni: usize = 0;
    let mut i: usize = 0;
    while i < n
        invariant
            nodes == json.nodes@,
            n == nodes.len(),
            n_str == json.strings@.len(),
            n_num == json.numbers@.len(),
            pools_match(nodes, n_str as nat, n_num as nat),
            i <= n,
            si == string_count(nodes.take(i as int)),
            ni == number_count(nodes.take(i as int)),
            out@ == render(nodes, json.strings@, json.numbers@, i as int),
        decreases n - i,
    {
        let node = json.nodes[i];
        proof {
            assert(nodes.take(i + 1) =~= nodes.take(i as int).push(node));
            crate::value::lemma_depth_push(nodes.take(i as int), node);
            crate::value::lemma_depth_concat(nodes.take(i + 1), nodes.skip(i + 1));
            assert(nodes.take(i + 1) + nodes.skip(i + 1) =~= nodes);
        }
        let ghost before = out@;
        if i > 0 {
            let prev = json.nodes[i - 1];
            let prev_ends = !(prev == Node::StartArray || prev == Node::StartObject || prev
                == Node::Key);
            if prev_ends && !(node == Node::EndArray || node == Node::EndObject) {
                push_char(&mut out, ',');
            }
        }
        let ghost with_sep = out@;
        assert(with_sep == before + separator(nodes, i as int));
        match node {
            Node::Null => push_text(&mut out, "null"),
            Node::True => push_text(&mut out, "true"),
            Node::False => push_text(&mut out, "false"),
            Node::StartArray => push_char(&mut out, '['),
            Node::EndArray => push_char(&mut out, ']'),
            Node::StartObject => push_char(&mut out, '{'),
            Node::EndObject => push_char(&mut out, '}'),
            Node::Key => {
                push_quoted(&mut out, json.strings[si].as_str());
                push_char(&mut out, ':');
                si = si + 1;
            },
            Node::String => {
                push_quoted(&mut out, json.strings[si].as_str());
                si = si + 1;
            },
            Node::Number => {
                push_text(&mut out, json.numbers[ni].as_str());
                ni = ni + 1;
            },
        }
        assert(out@ =~= render(nodes, json.strings@, json.numbers@, i + 1));
        i = i + 1;
    }
    out
}

/// Writes a whole document as minimal JSON text.
pub fn decode(json: &Jsonc) -> (r: String)
    requires
        pools_match(json.nodes@, json.strings@.len(), json.numbers@.len()),
    ensures
        r@ == rendered(json.nodes@, json.strings@, json.numbers@),
{
    decode_slice(JsoncSlice::new(json))
}

} // verus!
