use vstd::prelude::*;
use vstd::string::StringSliceAdditionalSpecFns;
use vstd::utf8::encode_utf8_decode_utf8;
use crate::value::{
    balanced, delta, depth, lemma_depth_concat, lemma_depth_push, number_count, pools_match,
    string_count, Jsonc, Node,
};

verus! {

/// A read-only view of one document inside the arrays of a `Jsonc`.
#[derive(Debug, PartialEq)]
pub struct JsoncSlice<'a> {
    pub nodes: &'a [Node],
    pub strings: &'a [String],
    pub numbers: &'a [String],
}

/// The value starting at node `s` ends just before node `e`: a container
/// runs to its matching closing bracket, any other node stands alone.
pub open spec fn value_extent(nodes: Seq<Node>, s: int, e: int) -> bool {
    &&& 0 <= s < e <= nodes.len()
    &&& if delta(nodes[s]) == 1 {
        balanced(nodes.subrange(s, e))
    } else {
        e == s + 1
    }
}

/// `v` views nodes `s..e` of the arrays, with the pool entries they read.
pub open spec fn views_range(
    v: Seq<Node>,
    vs: Seq<String>,
    vn: Seq<String>,
    nodes: Seq<Node>,
    strings: Seq<String>,
    numbers: Seq<String>,
    s: int,
    e: int,
) -> bool {
    &&& v == nodes.subrange(s, e)
    &&& vs == strings.subrange(
        string_count(nodes.take(s)) as int,
        string_count(nodes.take(e)) as int,
    )
    &&& vn == numbers.subrange(
        number_count(nodes.take(s)) as int,
        number_count(nodes.take(e)) as int,
    )
}

/// `v` is exactly the value that starts at node `s`.
pub open spec fn value_view(
    v: Seq<Node>,
    vs: Seq<String>,
    vn: Seq<String>,
    nodes: Seq<Node>,
    strings: Seq<String>,
    numbers: Seq<String>,
    s: int,
) -> bool {
    exists|e: int| value_extent(nodes, s, e) && views_range(v, vs, vn, nodes, strings, numbers, s, e)
}

/// Node `i` is a direct member key of the outer object whose text is `key`.
pub open spec fn member_at(nodes: Seq<Node>, strings: Seq<String>, i: int, key: Seq<char>) -> bool {
    &&& 1 <= i < nodes.len()
    &&& nodes[i] == Node::Key
    &&& depth(nodes.take(i)) == 1
    &&& strings[string_count(nodes.take(i)) as int]@ == key
}

/// Node `i` starts a direct element of the outer array.
pub open spec fn element_at(nodes: Seq<Node>, i: int) -> bool {
    &&& 1 <= i < nodes.len()
    &&& depth(nodes.take(i)) == 1
    &&& delta(nodes[i]) != -1
}

/// Number of direct elements of the outer array that start before node `k`.
pub open spec fn elements_before(nodes: Seq<Node>, k: int) -> nat
    decreases k,
{
    if k <= 0 {
        0
    } else {
        elements_before(nodes, k - 1) + if element_at(nodes, k - 1) {
            1nat
        } else {
            0nat
        }
    }
}

/// A path segment that names an object member: the text between the
/// surrounding double quotes.
pub open spec fn key_of(seg: Seq<char>) -> Option<Seq<char>> {
    if seg.len() >= 2 && seg[0] == '"' {
        Some(seg.subrange(1, seg.len() - 1))
    } else {
        None
    }
}

pub open spec fn all_digits(seg: Seq<char>) -> bool {
    seg.len() > 0 && forall|i: int| 0 <= i < seg.len() ==> '0' <= #[trigger] seg[i] <= '9'
}

/// The decimal value of a run of ASCII digits.
pub open spec fn digits_value(seg: Seq<char>) -> nat
    decreases seg.len(),
{
    if seg.len() == 0 {
        0
    } else {
        digits_value(seg.drop_last()) * 10 + ((seg.last() as u32) - 48) as nat
    }
}

/// A view as three sequences: nodes, strings, numbers.
pub open spec fn view_ok(v: (Seq<Node>, Seq<String>, Seq<String>)) -> bool {
    &&& balanced(v.0)
    &&& pools_match(v.0, v.1.len(), v.2.len())
}

/// One path segment leads from view `a` to view `b`.
pub open spec fn step(
    a: (Seq<Node>, Seq<String>, Seq<String>),
    seg: Seq<char>,
    b: (Seq<Node>, Seq<String>, Seq<String>),
) -> bool {
    match key_of(seg) {
        Some(k) => a.0[0] == Node::StartObject && exists|i: int|
            member_at(a.0, a.1, i, k) && (forall|j: int| j < i ==> !member_at(a.0, a.1, j, k))
                && value_view(b.0, b.1, b.2, a.0, a.1, a.2, i + 1),
        None => all_digits(seg) && a.0[0] == Node::StartArray && exists|i: int|
            element_at(a.0, i) && elements_before(a.0, i) == digits_value(seg) && value_view(
                b.0,
                b.1,
                b.2,
                a.0,
                a.1,
                a.2,
                i,
            ),
    }
}

/// Following the segments `segs` from `a`, each intermediate view being a
/// complete document, ends at `b`.
pub open spec fn walk(
    a: (Seq<Node>, Seq<String>, Seq<String>),
    segs: Seq<Seq<char>>,
    b: (Seq<Node>, Seq<String>, Seq<String>),
) -> bool
    decreases segs.len(),
{
    if segs.len() == 0 {
        b == a
    } else {
        exists|m: (Seq<Node>, Seq<String>, Seq<String>)|
            walk(a, segs.drop_last(), m) && view_ok(m) && step(m, segs.last(), b)
    }
}

proof fn lemma_counts_step(nodes: Seq<Node>, i: int)
    requires
        0 <= i < nodes.len(),
    ensures
        depth(nodes.take(i + 1)) == depth(nodes.take(i)) + delta(nodes[i]),
        string_count(nodes.take(i + 1)) == string_count(nodes.take(i)) + if (nodes[i]
            == Node::Key || nodes[i] == Node::String) {
            1int
        } else {
            0int
        },
        number_count(nodes.take(i + 1)) == number_count(nodes.take(i)) + if nodes[i]
            == Node::Number {
            1int
        } else {
            0int
        },
        string_count(nodes.take(i + 1)) <= string_count(nodes),
        number_count(nodes.take(i + 1)) <= number_count(nodes),
{
    assert(nodes.take(i + 1) =~= nodes.take(i).push(nodes[i]));
    lemma_depth_push(nodes.take(i), nodes[i]);
    lemma_depth_concat(nodes.take(i + 1), nodes.skip(i + 1));
    assert(nodes.take(i + 1) + nodes.skip(i + 1) =~= nodes);
}

proof fn lemma_subrange_depth(nodes: Seq<Node>, s: int, e: int)
    requires
        0 <= s <= e <= nodes.len(),
    ensures
        depth(nodes.subrange(s, e)) == depth(nodes.take(e)) - depth(nodes.take(s)),
        string_count(nodes.subrange(s, e)) == string_count(nodes.take(e)) - string_count(
            nodes.take(s),
        ),
        number_count(nodes.subrange(s, e)) == number_count(nodes.take(e)) - number_count(
            nodes.take(s),
        ),
{
    lemma_depth_concat(nodes.take(s), nodes.subrange(s, e));
    assert(nodes.take(s) + nodes.subrange(s, e) =~= nodes.take(e));
}

/// The value starting at node `s` is complete within `nodes`, and pools of
/// the given lengths hold every entry it reads.
pub open spec fn value_fits(nodes: Seq<Node>, n_strings: nat, n_numbers: nat, s: int) -> bool {
    exists|e: int|
        value_extent(nodes, s, e) && string_count(nodes.take(e)) <= n_strings && number_count(
            nodes.take(e),
        ) <= n_numbers
}

/// Scanning on from `j` inside a balanced stream finds the bracket that
/// closes the container opened at `s`.
proof fn lemma_find_close(nodes: Seq<Node>, s: int, j: int)
    requires
        balanced(nodes),
        1 <= s < j <= nodes.len(),
        delta(nodes[s]) == 1,
        forall|k: int| s < k <= j ==> #[trigger] depth(nodes.subrange(s, k)) > 0,
    ensures
        exists|e: int| value_extent(nodes, s, e),
    decreases nodes.len() - j,
{
    lemma_subrange_depth(nodes, s, j);
    lemma_inner_depth(nodes, s);
    if j == nodes.len() {
        assert(nodes.take(j) =~= nodes);
        assert(false);
    }
    lemma_counts_step(nodes, j);
    lemma_subrange_depth(nodes, s, j + 1);
    let sub = nodes.subrange(s, j + 1);
    if depth(sub) == 0 {
        assert forall|i: int| 0 < i < sub.len() implies #[trigger] depth(sub.take(i)) > 0 by {
            assert(sub.take(i) =~= nodes.subrange(s, s + i));
        }
        assert(value_extent(nodes, s, j + 1));
    } else {
        lemma_find_close(nodes, s, j + 1);
    }
}

/// In a balanced view whose pools match, every value starting after the
/// first node is complete and covered by the pools.
proof fn lemma_value_fits(nodes: Seq<Node>, n_strings: nat, n_numbers: nat, s: int)
    requires
        balanced(nodes),
        pools_match(nodes, n_strings, n_numbers),
        1 <= s < nodes.len(),
    ensures
        value_fits(nodes, n_strings, n_numbers, s),
{
    let e = if delta(nodes[s]) == 1 {
        lemma_subrange_depth(nodes, s, s + 1);
        lemma_counts_step(nodes, s);
        lemma_find_close(nodes, s, s + 1);
        choose|e: int| value_extent(nodes, s, e)
    } else {
        s + 1
    };
    assert(value_extent(nodes, s, e));
    lemma_subrange_depth(nodes, e, nodes.len() as int);
    assert(nodes.take(nodes.len() as int) =~= nodes);
}

/// Inside a balanced stream, every proper prefix has positive depth.
proof fn lemma_inner_depth(nodes: Seq<Node>, i: int)
    requires
        balanced(nodes),
        0 < i < nodes.len(),
    ensures
        depth(nodes.take(i)) >= 1,
{
}

impl<'a> JsoncSlice<'a> {
    pub open spec fn well_formed(&self) -> bool {
        &&& balanced(self.nodes@)
        &&& pools_match(self.nodes@, self.strings@.len(), self.numbers@.len())
    }

    pub fn new(jsonc: &'a Jsonc) -> (r: JsoncSlice<'a>)
        ensures
            r.nodes@ == jsonc.nodes@,
            r.strings@ == jsonc.strings@,
            r.numbers@ == jsonc.numbers@,
    {
        JsoncSlice {
            nodes: jsonc.nodes.as_slice(),
            strings: jsonc.strings.as_slice(),
            numbers: jsonc.numbers.as_slice(),
        }
    }

    /// The value of the first direct member of the outer object whose key
    /// is `path`.
    pub fn get_by_path(&self, path: &str) -> (r: Option<JsoncSlice<'a>>)
        requires
            self.well_formed(),
        ensures
            r is Some <==> (self.nodes@[0] == Node::StartObject && exists|i: int|
                member_at(self.nodes@, self.strings@, i, path@)),
            r matches Some(v) ==> exists|i: int|
                member_at(self.nodes@, self.strings@, i, path@) && (forall|j: int|
                    j < i ==> !member_at(self.nodes@, self.strings@, j, path@)) && value_view(
                    v.nodes@,
                    v.strings@,
                    v.numbers@,
                    self.nodes@,
                    self.strings@,
                    self.numbers@,
                    i + 1,
                ),
            r matches Some(v) ==> pools_match(v.nodes@, v.strings@.len(), v.numbers@.len()) && (
            delta(v.nodes@[0]) != -1 ==> v.well_formed()),
    {
        let ghost nodes = self.nodes@;
        let n = self.nodes.len();
        let n_str = self.strings.len();
        let n_num = self.numbers.len();
        if self.nodes[0] != Node::StartObject {
            return None;
        }
        proof {
            lemma_counts_step(nodes, 0);
            assert(nodes.take(0) =~= Seq::<Node>::empty());
        }
        let mut str_idx: usize = 0;
        let mut num_idx: usize = 0;
        let mut level: usize = 1;
        let mut i: usize = 1;
        while i < n
            invariant
                self.well_formed(),
                nodes == self.nodes@,
                n == nodes.len(),
                n_str == self.strings@.len(),
                nodes[0] == Node::StartObject,
                1 <= i <= n,
                level as int == depth(nodes.take(i as int)),
                str_idx == string_count(nodes.take(i as int)),
                num_idx == number_count(nodes.take(i as int)),
                str_idx <= n_str,
                num_idx <= n_num,
                n_num == self.numbers@.len(),
                level <= i,
                forall|j: int| j < i ==> !member_at(nodes, self.strings@, j, path@),
            decreases n - i,
        {
            let node = self.nodes[i];
            proof {
                lemma_counts_step(nodes, i as int);
                lemma_inner_depth(nodes, i as int);
                if i + 1 < n {
                    lemma_inner_depth(nodes, i + 1);
                } else {
                    assert(nodes.take(i + 1) =~= nodes);
                }
            }
            if node == Node::Key {
                if level == 1 && str_equal(self.strings[str_idx].as_str(), path) {
                    assert(member_at(nodes, self.strings@, i as int, path@));
                    proof {
                        lemma_value_fits(nodes, self.strings@.len(), self.numbers@.len(), i + 1);
                    }
                    return Some(self.strip_slice(i + 1, num_idx, str_idx + 1));
                }
                str_idx = str_idx + 1;
            } else if node == Node::String {
                str_idx = str_idx + 1;
            } else if node == Node::Number {
                num_idx = num_idx + 1;
            } else if node == Node::StartArray || node == Node::StartObject {
                level = level + 1;
            } else if node == Node::EndArray || node == Node::EndObject {
                level = level - 1;
            }
            i = i + 1;
        }
        None
    }

    /// The direct element at position `idx` of the outer array.
    pub fn get_by_idx(&self, idx: usize) -> (r: Option<JsoncSlice<'a>>)
        requires
            self.well_formed(),
        ensures
            r is Some <==> (self.nodes@[0] == Node::StartArray && exists|i: int|
                element_at(self.nodes@, i) && elements_before(self.nodes@, i) == idx),
            r matches Some(v) ==> exists|i: int|
                element_at(self.nodes@, i) && elements_before(self.nodes@, i) == idx
                    && value_view(
                    v.nodes@,
                    v.strings@,
                    v.numbers@,
                    self.nodes@,
                    self.strings@,
                    self.numbers@,
                    i,
                ),
            r matches Some(v) ==> v.well_formed(),
    {
        let ghost nodes = self.nodes@;
        let n = self.nodes.len();
        let n_str = self.strings.len();
        let n_num = self.numbers.len();
        if self.nodes[0] != Node::StartArray {
            return None;
        }
        proof {
            lemma_counts_step(nodes, 0);
            assert(nodes.take(0) =~= Seq::<Node>::empty());
            assert(elements_before(nodes, 1) == 0) by {
                assert(elements_before(nodes, 0) == 0);
            }
        }
        let mut count: usize = 0;
        let mut str_idx: usize = 0;
        let mut num_idx: usize = 0;
        let mut level: usize = 1;
        let mut i: usize = 1;
        while i < n
            invariant
                self.well_formed(),
                nodes == self.nodes@,
                n == nodes.len(),
                n_str == self.strings@.len(),
                nodes[0] == Node::StartArray,
                1 <= i <= n,
                count <= i,
                level <= i,
                str_idx <= n_str,
                num_idx <= n_num,
                n_num == self.numbers@.len(),
                count == elements_before(nodes, i as int),
                level as int == depth(nodes.take(i as int)),
                str_idx == string_count(nodes.take(i as int)),
                num_idx == number_count(nodes.take(i as int)),
                forall|j: int|
                    j < i && #[trigger] element_at(nodes, j) ==> elements_before(nodes, j) != idx,
            decreases n - i,
        {
            let node = self.nodes[i];
            proof {
                lemma_counts_step(nodes, i as int);
                lemma_inner_depth(nodes, i as int);
                if i + 1 < n {
                    lemma_inner_depth(nodes, i + 1);
                } else {
                    assert(nodes.take(i + 1) =~= nodes);
                }
            }
            let is_end = node == Node::EndArray || node == Node::EndObject;
            if level == 1 && !is_end {
                assert(element_at(nodes, i as int));
                if count == idx {
                    proof {
                        lemma_value_fits(nodes, self.strings@.len(), self.numbers@.len(), i as int);
                    }
                    return Some(self.strip_slice(i, num_idx, str_idx));
                }
                count = count + 1;
            }
            if node == Node::Key || node == Node::String {
                str_idx = str_idx + 1;
            } else if node == Node::Number {
                num_idx = num_idx + 1;
            } else if node == Node::StartArray || node == Node::StartObject {
                level = level + 1;
            } else if is_end {
                level = level - 1;
            }
            i = i + 1;
        }
        None
    }

    /// An owned copy of the three viewed ranges.
    pub fn to_jsonc(&self) -> (r: Jsonc)
        ensures
            r.nodes@ == self.nodes@,
            r.strings@.len() == self.strings@.len(),
            r.numbers@.len() == self.numbers@.len(),
            forall|i: int| 0 <= i < r.strings@.len() ==> #[trigger] r.strings@[i]@ == self.strings@[i]@,
            forall|i: int| 0 <= i < r.numbers@.len() ==> #[trigger] r.numbers@[i]@ == self.numbers@[i]@,
    {
        let mut nodes: Vec<Node> = Vec::new();
        let mut i: usize = 0;
        while i < self.nodes.len()
            invariant
                i <= self.nodes@.len(),
                nodes@ == self.nodes@.take(i as int),
            decreases self.nodes@.len() - i,
        {
            nodes.push(self.nodes[i]);
            assert(self.nodes@.take(i + 1) =~= self.nodes@.take(i as int).push(self.nodes@[i as int]));
            i = i + 1;
        }
        assert(self.nodes@.take(i as int) =~= self.nodes@);
        Jsonc { nodes, strings: copy_texts(self.strings), numbers: copy_texts(self.numbers) }
    }

    /// Delimits the value that starts at node `node_start`, whose pool
    /// entries start at `str_start` and `num_start`.
    fn strip_slice(&self, node_start: usize, num_start: usize, str_start: usize) -> (r: JsoncSlice<
        'a,
    >)
        requires
            node_start < self.nodes@.len(),
            str_start == string_count(self.nodes@.take(node_start as int)),
            num_start == number_count(self.nodes@.take(node_start as int)),
            value_fits(
                self.nodes@,
                self.strings@.len(),
                self.numbers@.len(),
                node_start as int,
            ),
        ensures
            value_view(
                r.nodes@,
                r.strings@,
                r.numbers@,
                self.nodes@,
                self.strings@,
                self.numbers@,
                node_start as int,
            ),
            pools_match(r.nodes@, r.strings@.len(), r.numbers@.len()),
            delta(self.nodes@[node_start as int]) != -1 ==> r.well_formed(),
    {
        let ghost nodes = self.nodes@;
        let ghost s = node_start as int;
        let ghost e0 = choose|e: int|
            value_extent(nodes, s, e) && string_count(nodes.take(e)) <= self.strings@.len()
                && number_count(nodes.take(e)) <= self.numbers@.len();
        proof {
            lemma_counts_step(nodes, s);
            lemma_subrange_depth(nodes, s, e0);
        }
        let n_nodes = self.nodes.len();
        let n_str = self.strings.len();
        let n_num = self.numbers.len();
        let first = self.nodes[node_start];
        let ghost mut e: int = s + 1;
        let r = if first == Node::StartArray || first == Node::StartObject {
            proof {
                lemma_subrange_depth(nodes, s, s + 1);
            }
            let mut nest: usize = 1;
            let mut node_end = node_start + 1;
            let mut num_end = num_start;
            let mut str_end = str_start;
            while nest > 0
                invariant
                    nodes == self.nodes@,
                    s == node_start,
                    s < node_end <= e0 <= nodes.len(),
                    value_extent(nodes, s, e0),
                    string_count(nodes.take(e0)) <= n_str,
                    number_count(nodes.take(e0)) <= n_num,
                    n_nodes == nodes.len(),
                    n_str == self.strings@.len(),
                    n_num == self.numbers@.len(),
                    nest <= node_end - node_start,
                    str_end <= n_str,
                    num_end <= n_num,
                    nest as int == depth(nodes.subrange(s, node_end as int)),
                    str_end == string_count(nodes.take(node_end as int)),
                    num_end == number_count(nodes.take(node_end as int)),
                    delta(nodes[s]) == 1,
                    forall|j: int|
                        s < j < node_end ==> #[trigger] depth(nodes.subrange(s, j)) > 0,
                decreases nodes.len() - node_end,
            {
                proof {
                    if node_end as int == e0 {
                        assert(false);
                    }
                }
                let n = self.nodes[node_end];
                proof {
                    lemma_counts_step(nodes, node_end as int);
                    lemma_subrange_depth(nodes, s, node_end as int);
                    lemma_subrange_depth(nodes, s, node_end + 1);
                    lemma_subrange_depth(nodes, node_end + 1, e0);
                    if node_end + 1 < e0 {
                        let sub = nodes.subrange(s, e0);
                        assert(sub.take(node_end + 1 - s) =~= nodes.subrange(s, node_end + 1));
                    }
                }
                if n == Node::StartArray || n == Node::StartObject {
                    nest = nest + 1;
                } else if n == Node::EndArray || n == Node::EndObject {
                    nest = nest - 1;
                } else if n == Node::String || n == Node::Key {
                    str_end = str_end + 1;
                } else if n == Node::Number {
                    num_end = num_end + 1;
                }
                node_end = node_end + 1;
            }
            proof {
                lemma_subrange_depth(nodes, s, node_end as int);
                let sub = nodes.subrange(s, node_end as int);
                assert forall|i: int| 0 < i < sub.len() implies #[trigger] depth(sub.take(i)) > 0 by {
                    assert(sub.take(i) =~= nodes.subrange(s, s + i));
                }
                assert(value_extent(nodes, s, node_end as int));
                e = node_end as int;
            }
            let v = JsoncSlice {
                nodes: slice_range(self.nodes, node_start, node_end),
                strings: slice_range(self.strings, str_start, str_end),
                numbers: slice_range(self.numbers, num_start, num_end),
            };
            assert(views_range(v.nodes@, v.strings@, v.numbers@, nodes, self.strings@, self.numbers@, s, node_end as int));
            v
        } else if first == Node::String {
            let v = JsoncSlice {
                nodes: slice_range(self.nodes, node_start, node_start + 1),
                strings: slice_range(self.strings, str_start, str_start + 1),
                numbers: slice_range(self.numbers, num_start, num_start),
            };
            assert(views_range(v.nodes@, v.strings@, v.numbers@, nodes, self.strings@, self.numbers@, s, s + 1));
            v
        } else if first == Node::Number {
            let v = JsoncSlice {
                nodes: slice_range(self.nodes, node_start, node_start + 1),
                strings: slice_range(self.strings, str_start, str_start),
                numbers: slice_range(self.numbers, num_start, num_start + 1),
            };
            assert(views_range(v.nodes@, v.strings@, v.numbers@, nodes, self.strings@, self.numbers@, s, s + 1));
            v
        } else {
            proof {
                assert(first == Node::Key ==> string_count(nodes.take(s + 1)) == str_start + 1);
            }
            let k: usize = if first == Node::Key { 1 } else { 0 };
            let v = JsoncSlice {
                nodes: slice_range(self.nodes, node_start, node_start + 1),
                strings: slice_range(self.strings, str_start, str_start + k),
                numbers: slice_range(self.numbers, num_start, num_start),
            };
            assert(views_range(v.nodes@, v.strings@, v.numbers@, nodes, self.strings@, self.numbers@, s, s + 1));
            v
        };
        proof {
            lemma_subrange_depth(nodes, s, e);
            if delta(first) == 0 {
                lemma_depth_push(Seq::<Node>::empty(), first);
                assert(nodes.subrange(s, e) =~= Seq::<Node>::empty().push(first));
            }
        }
        assert(value_extent(nodes, s, e) && views_range(
            r.nodes@,
            r.strings@,
            r.numbers@,
            nodes,
            self.strings@,
            self.numbers@,
            s,
            e,
        ));
        r
    }
}

/// Compares two strings by their UTF-8 bytes.
pub fn str_equal(a: &str, b: &str) -> (r: bool)
    ensures
        r == (a@ == b@),
{
    let x = a.as_bytes();
    let y = b.as_bytes();
    proof {
        encode_utf8_decode_utf8(a@);
        encode_utf8_decode_utf8(b@);
    }
    if x.len() != y.len() {
        return false;
    }
    let mut i: usize = 0;
    while i < x.len()
        invariant
            x@.len() == y@.len(),
            x@ == a.spec_bytes(),
            y@ == b.spec_bytes(),
            i <= x@.len(),
            forall|k: int| 0 <= k < i ==> x@[k] == y@[k],
        decreases x@.len() - i,
    {
        if x[i] != y[i] {
            assert(x@[i as int] != y@[i as int]);
            assert(x@ == a.spec_bytes());
            assert(y@ == b.spec_bytes());
            assert(a@ == b@ ==> a.spec_bytes() == b.spec_bytes());
            return false;
        }
        i = i + 1;
    }
    assert(x@ =~= y@);
    true
}

/// Owned copies of the given strings.
fn copy_texts(items: &[String]) -> (r: Vec<String>)
    ensures
        r@.len() == items@.len(),
        forall|i: int| 0 <= i < r@.len() ==> #[trigger] r@[i]@ == items@[i]@,
{
    let mut r: Vec<String> = Vec::new();
    let mut i: usize = 0;
    while i < items.len()
        invariant
            i <= items@.len(),
            r@.len() == i,
            forall|k: int| 0 <= k < i ==> #[trigger] r@[k]@ == items@[k]@,
        decreases items@.len() - i,
    {
        r.push(items[i].clone());
        i = i + 1;
    }
    r
}

/// `s[start..end]`, borrowed.
fn slice_range<'b, T>(s: &'b [T], start: usize, end: usize) -> (r: &'b [T])
    requires
        start <= end <= s@.len(),
    ensures
        r@ == s@.subrange(start as int, end as int),
{
    &s[start..end]
}

} // verus!
