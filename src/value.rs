use vstd::prelude::*;
use crate::decoder::{decode_slice, rendered};
use crate::grammar::number_literal;
use crate::slice::{
    all_digits, digits_value, element_at, elements_before, key_of, member_at, value_view, step, view_ok, walk, JsoncSlice,
};

verus! {

/// One structural tag of the flat node stream.
#[derive(Debug, PartialEq, Eq, Structural, Clone, Copy)]
pub enum Node {
    Null,
    StartArray,
    EndArray,
    StartObject,
    EndObject,
    Key,
    String,
    Number,
    True,
    False,
}

/// Change of nesting depth caused by one node.
pub open spec fn delta(n: Node) -> int {
    match n {
        Node::StartArray | Node::StartObject => 1,
        Node::EndArray | Node::EndObject => -1,
        _ => 0,
    }
}

/// Nesting depth reached after reading all of `s`.
pub open spec fn depth(s: Seq<Node>) -> int
    decreases s.len(),
{
    if s.len() == 0 {
        0
    } else {
        depth(s.drop_last()) + delta(s.last())
    }
}

pub open spec fn reads_string(n: Node) -> bool {
    n == Node::Key || n == Node::String
}

/// Number of string-pool entries consumed by `s` (one per `Key` or `String`).
pub open spec fn string_count(s: Seq<Node>) -> nat
    decreases s.len(),
{
    if s.len() == 0 {
        0
    } else {
        string_count(s.drop_last()) + if reads_string(s.last()) {
            1nat
        } else {
            0nat
        }
    }
}

/// Number of number-pool entries consumed by `s` (one per `Number`).
pub open spec fn number_count(s: Seq<Node>) -> nat
    decreases s.len(),
{
    if s.len() == 0 {
        0
    } else {
        number_count(s.drop_last()) + if s.last() == Node::Number {
            1nat
        } else {
            0nat
        }
    }
}

/// `s` is one complete value: non-empty, its depth stays above zero strictly
/// inside it and is zero exactly at its end.
pub open spec fn balanced(s: Seq<Node>) -> bool {
    &&& s.len() > 0
    &&& depth(s) == 0
    &&& forall|i: int| 0 < i < s.len() ==> #[trigger] depth(s.take(i)) > 0
}

/// Every prefix of `s` has a non-negative depth.
pub open spec fn never_negative(s: Seq<Node>) -> bool {
    forall|i: int| 0 <= i <= s.len() ==> #[trigger] depth(s.take(i)) >= 0
}

/// The three arrays are consistent: pools have exactly as many entries as
/// the node stream consumes.
pub open spec fn pools_match(nodes: Seq<Node>, n_strings: nat, n_numbers: nat) -> bool {
    string_count(nodes) == n_strings && number_count(nodes) == n_numbers
}

pub proof fn lemma_depth_concat(a: Seq<Node>, b: Seq<Node>)
    ensures
        depth(a + b) == depth(a) + depth(b),
        string_count(a + b) == string_count(a) + string_count(b),
        number_count(a + b) == number_count(a) + number_count(b),
    decreases b.len(),
{
    if b.len() == 0 {
        assert(a + b =~= a);
    } else {
        lemma_depth_concat(a, b.drop_last());
        assert((a + b).drop_last() =~= a + b.drop_last());
    }
}

pub proof fn lemma_depth_push(a: Seq<Node>, n: Node)
    ensures
        depth(a.push(n)) == depth(a) + delta(n),
        string_count(a.push(n)) == string_count(a) + if reads_string(n) {
            1int
        } else {
            0int
        },
        number_count(a.push(n)) == number_count(a) + if n == Node::Number {
            1int
        } else {
            0int
        },
{
    assert(a.push(n).drop_last() =~= a);
}

pub proof fn lemma_balanced_never_negative(s: Seq<Node>)
    requires
        balanced(s),
    ensures
        never_negative(s),
{
    assert forall|i: int| 0 <= i <= s.len() implies #[trigger] depth(s.take(i)) >= 0 by {
        if i == 0 {
            assert(s.take(0) =~= Seq::<Node>::empty());
        } else if i == s.len() {
            assert(s.take(i) =~= s);
        }
    }
}

/// Appending a value whose prefixes never go negative to a prefix-safe
/// sequence of depth zero keeps it prefix-safe.
pub proof fn lemma_never_negative_concat(a: Seq<Node>, b: Seq<Node>)
    requires
        never_negative(a),
        depth(a) == 0,
        never_negative(b),
    ensures
        never_negative(a + b),
        depth(a + b) == depth(b),
{
    lemma_depth_concat(a, b);
    assert forall|i: int| 0 <= i <= (a + b).len() implies #[trigger] depth((a + b).take(i))
        >= 0 by {
        if i <= a.len() {
            assert((a + b).take(i) =~= a.take(i));
        } else {
            assert((a + b).take(i) =~= a + b.take(i - a.len()));
            lemma_depth_concat(a, b.take(i - a.len()));
        }
    }
}

/// A container made of an opening bracket, a body that never dips below its
/// starting depth and ends at it, and a closing bracket is one value.
pub proof fn lemma_wrap_balanced(open: Node, body: Seq<Node>, close: Node)
    requires
        delta(open) == 1,
        delta(close) == -1,
        never_negative(body),
        depth(body) == 0,
    ensures
        balanced(seq![open] + body + seq![close]),
{
    let s = seq![open] + body + seq![close];
    lemma_depth_concat(seq![open], body);
    lemma_depth_concat(seq![open] + body, seq![close]);
    lemma_depth_push(Seq::<Node>::empty(), open);
    assert(Seq::<Node>::empty().push(open) =~= seq![open]);
    lemma_depth_push(Seq::<Node>::empty(), close);
    assert(Seq::<Node>::empty().push(close) =~= seq![close]);
    assert forall|i: int| 0 < i < s.len() implies #[trigger] depth(s.take(i)) > 0 by {
        assert(s.take(i) =~= seq![open] + body.take(i - 1));
        lemma_depth_concat(seq![open], body.take(i - 1));
    }
}

/// Reading state of a node stream: the open containers (`true` for an
/// object), whether a member key waits for its value, and whether the one
/// top-level value is complete.
pub type ReadState = (Seq<bool>, bool, bool);

pub open spec fn starts_value(n: Node) -> bool {
    n != Node::Key && n != Node::EndArray && n != Node::EndObject
}

/// The state after a value that began in state `st` is complete.
pub open spec fn value_done(st: ReadState) -> ReadState {
    (st.0, false, st.0.len() == 0)
}

/// Reads a node that starts a value.
pub open spec fn begin_value(st: ReadState, n: Node) -> ReadState {
    if n == Node::StartArray {
        (st.0.push(false), false, false)
    } else if n == Node::StartObject {
        (st.0.push(true), false, false)
    } else {
        value_done(st)
    }
}

/// One node read in state `st`; `None` where it may not stand there.
pub open spec fn read_step(st: ReadState, n: Node) -> Option<ReadState> {
    if st.2 {
        None
    } else if st.1 || st.0.len() == 0 {
        if starts_value(n) {
            Some(begin_value(st, n))
        } else {
            None
        }
    } else if st.0.last() {
        if n == Node::Key {
            Some((st.0, true, false))
        } else if n == Node::EndObject {
            Some(value_done((st.0.drop_last(), false, false)))
        } else {
            None
        }
    } else {
        if starts_value(n) {
            Some(begin_value(st, n))
        } else if n == Node::EndArray {
            Some(value_done((st.0.drop_last(), false, false)))
        } else {
            None
        }
    }
}

/// Reads `s` from state `st`.
pub open spec fn read_from(st: ReadState, s: Seq<Node>) -> Option<ReadState>
    decreases s.len(),
{
    if s.len() == 0 {
        Some(st)
    } else {
        match read_from(st, s.drop_last()) {
            Some(t) => read_step(t, s.last()),
            None => None,
        }
    }
}

/// A state in which a value may start.
pub open spec fn awaits_value(st: ReadState) -> bool {
    !st.2 && (st.1 || st.0.len() == 0 || !st.0.last())
}

/// `s` reads as exactly one value from every state that awaits one.
pub open spec fn one_value(s: Seq<Node>) -> bool {
    forall|st: ReadState| awaits_value(st) ==> #[trigger] read_from(st, s) == Some(value_done(st))
}

/// The stream is one properly nested document: every closing bracket
/// matches the kind of its opening one, every `Key` stands directly inside
/// an object and is followed by one value, and there is one top-level value.
pub open spec fn structured(nodes: Seq<Node>) -> bool {
    read_from((Seq::empty(), false, false), nodes) == Some(
        (Seq::<bool>::empty(), false, true),
    )
}

pub proof fn lemma_read_concat(st: ReadState, a: Seq<Node>, b: Seq<Node>)
    ensures
        read_from(st, a + b) == match read_from(st, a) {
            Some(t) => read_from(t, b),
            None => None,
        },
    decreases b.len(),
{
    if b.len() == 0 {
        assert(a + b =~= a);
    } else {
        lemma_read_concat(st, a, b.drop_last());
        assert((a + b).drop_last() =~= a + b.drop_last());
        assert((a + b).last() == b.last());
    }
}

pub proof fn lemma_read_single(st: ReadState, n: Node)
    ensures
        read_from(st, seq![n]) == read_step(st, n),
{
    assert(seq![n].drop_last() =~= Seq::<Node>::empty());
    assert(seq![n].last() == n);
    assert(read_from(st, Seq::<Node>::empty()) == Some(st));
}

/// The numeric code of each tag in the columnar layout.
pub open spec fn node_code(n: Node) -> u8 {
    match n {
        Node::Null => 0,
        Node::StartArray => 1,
        Node::EndArray => 2,
        Node::StartObject => 3,
        Node::EndObject => 4,
        Node::Key => 5,
        Node::String => 6,
        Node::Number => 7,
        Node::True => 8,
        Node::False => 9,
    }
}

impl Node {
    pub fn code(&self) -> (r: u8)
        ensures
            r == node_code(*self),
    {
        match self {
            Node::Null => 0,
            Node::StartArray => 1,
            Node::EndArray => 2,
            Node::StartObject => 3,
            Node::EndObject => 4,
            Node::Key => 5,
            Node::String => 6,
            Node::Number => 7,
            Node::True => 8,
            Node::False => 9,
        }
    }

    /// The tag with the given code; codes above 9 name no tag.
    pub fn from_code(c: u8) -> (r: Option<Node>)
        ensures
            r matches Some(n) ==> node_code(n) == c,
            r is None <==> c > 9,
    {
        match c {
            0 => Some(Node::Null),
            1 => Some(Node::StartArray),
            2 => Some(Node::EndArray),
            3 => Some(Node::StartObject),
            4 => Some(Node::EndObject),
            5 => Some(Node::Key),
            6 => Some(Node::String),
            7 => Some(Node::Number),
            8 => Some(Node::True),
            9 => Some(Node::False),
            _ => None,
        }
    }
}

/// The pool index that node `i` reads, if it reads one.
pub open spec fn node_offset(nodes: Seq<Node>, i: int) -> Option<u64> {
    if reads_string(nodes[i]) {
        Some(string_count(nodes.take(i)) as u64)
    } else if nodes[i] == Node::Number {
        Some(number_count(nodes.take(i)) as u64)
    } else {
        None
    }
}

/// The path segments as character sequences.
pub open spec fn segments(paths: Seq<&str>) -> Seq<Seq<char>> {
    paths.map_values(|p: &str| p@)
}

proof fn lemma_digits_prefix(seg: Seq<char>, i: int)
    requires
        all_digits(seg),
        0 < i <= seg.len(),
    ensures
        all_digits(seg.take(i)),
        digits_value(seg.take(i)) <= digits_value(seg),
    decreases seg.len(),
{
    if i < seg.len() {
        let d = seg.drop_last();
        assert(seg.take(i) =~= d.take(i));
        assert forall|k: int| 0 <= k < d.len() implies '0' <= #[trigger] d[k] <= '9' by {
            assert(d[k] == seg[k]);
        }
        lemma_digits_prefix(d, i);
    } else {
        assert(seg.take(i) =~= seg);
    }
}

proof fn lemma_elements_before_bound(nodes: Seq<Node>, k: int)
    requires
        k >= 0,
    ensures
        elements_before(nodes, k) <= k,
    decreases k,
{
    if k > 0 {
        lemma_elements_before_bound(nodes, k - 1);
    }
}

/// Reads a path segment made of decimal digits as an index.
fn parse_index(seg: &str) -> (r: Option<usize>)
    ensures
        r matches Some(n) ==> all_digits(seg@) && n == digits_value(seg@),
        r is None ==> !all_digits(seg@) || digits_value(seg@) > usize::MAX,
{
    let n = seg.unicode_len();
    if n == 0 {
        return None;
    }
    let mut value: usize = 0;
    let mut i: usize = 0;
    while i < n
        invariant
            n == seg@.len(),
            0 < n,
            i <= n,
            forall|k: int| 0 <= k < i ==> '0' <= #[trigger] seg@[k] <= '9',
            value == digits_value(seg@.take(i as int)),
        decreases n - i,
    {
        let c = seg.get_char(i);
        if !('0' <= c && c <= '9') {
            return None;
        }
        let d = (c as u32 - 48) as usize;
        proof {
            assert(seg@.take(i + 1).drop_last() =~= seg@.take(i as int));
        }
        if value > (usize::MAX - d) / 10 {
            proof {
                assert(value * 10 + d > usize::MAX) by (nonlinear_arith)
                    requires
                        value > (usize::MAX - d) / 10,
                        d <= 9,
                ;
                if all_digits(seg@) {
                    lemma_digits_prefix(seg@, i + 1);
                }
            }
            return None;
        }
        value = value * 10 + d;
        i = i + 1;
    }
    assert(seg@.take(n as int) =~= seg@);
    Some(value)
}

/// A document instance: the node stream and its two value pools.
///
/// Numbers are kept as their JSON literal text, which holds the value exactly.
#[derive(Debug, PartialEq, Eq, Default, Clone)]
pub struct Jsonc {
    pub nodes: Vec<Node>,
    pub strings: Vec<String>,
    pub numbers: Vec<String>,
}

impl Jsonc {
    /// The instance is one complete, properly nested document whose pools
    /// match its stream and whose number texts are number literals.
    pub open spec fn well_formed(&self) -> bool {
        &&& balanced(self.nodes@)
        &&& structured(self.nodes@)
        &&& pools_match(self.nodes@, self.strings@.len(), self.numbers@.len())
        &&& forall|i: int|
            0 <= i < self.numbers@.len() ==> number_literal(#[trigger] self.numbers@[i]@)
    }

    pub fn new() -> (r: Self)
        ensures
            r.nodes@.len() == 0,
            r.strings@.len() == 0,
            r.numbers@.len() == 0,
    {
        Jsonc { nodes: Vec::new(), strings: Vec::new(), numbers: Vec::new() }
    }

    pub fn new_with_values(nodes: Vec<Node>, strings: Vec<String>, numbers: Vec<String>) -> (r:
        Self)
        ensures
            r.nodes == nodes,
            r.strings == strings,
            r.numbers == numbers,
    {
        Jsonc { nodes, strings, numbers }
    }

    pub open spec fn view(&self) -> (Seq<Node>, Seq<String>, Seq<String>) {
        (self.nodes@, self.strings@, self.numbers@)
    }

    pub fn as_slice(&self) -> (r: JsoncSlice<'_>)
        ensures
            r.nodes@ == self.nodes@,
            r.strings@ == self.strings@,
            r.numbers@ == self.numbers@,
    {
        JsoncSlice::new(self)
    }

    /// The tag codes of the node stream, each wrapped in `Some`.
    pub fn node_opt_list(&self) -> (r: Vec<Option<u8>>)
        ensures
            r@.len() == self.nodes@.len(),
            forall|i: int| 0 <= i < r@.len() ==> #[trigger] r@[i] == Some(node_code(self.nodes@[i])),
    {
        let mut r: Vec<Option<u8>> = Vec::new();
        let mut i: usize = 0;
        while i < self.nodes.len()
            invariant
                i <= self.nodes@.len(),
                r@.len() == i,
                forall|k: int| 0 <= k < i ==> #[trigger] r@[k] == Some(node_code(self.nodes@[k])),
            decreases self.nodes@.len() - i,
        {
            r.push(Some(self.nodes[i].code()));
            i = i + 1;
        }
        r
    }

    /// For each node, its index into the pool it reads: the string pool for
    /// `Key` and `String`, the number pool for `Number`; `None` otherwise.
    pub fn offsets(&self) -> (r: Vec<Option<u64>>)
        requires
            pools_match(self.nodes@, self.strings@.len(), self.numbers@.len()),
        ensures
            r@.len() == self.nodes@.len(),
            forall|i: int| 0 <= i < r@.len() ==> #[trigger] r@[i] == node_offset(self.nodes@, i),
    {
        let ghost nodes = self.nodes@;
        let n_str = self.strings.len();
        let n_num = self.numbers.len();
        let mut r: Vec<Option<u64>> = Vec::new();
        let mut si: usize = 0;
        let mut ni: usize = 0;
        let mut i: usize = 0;
        while i < self.nodes.len()
            invariant
                nodes == self.nodes@,
                n_str == self.strings@.len(),
                n_num == self.numbers@.len(),
                pools_match(nodes, n_str as nat, n_num as nat),
                i <= nodes.len(),
                r@.len() == i,
                si == string_count(nodes.take(i as int)),
                ni == number_count(nodes.take(i as int)),
                si <= n_str,
                ni <= n_num,
                forall|k: int| 0 <= k < i ==> #[trigger] r@[k] == node_offset(nodes, k),
            decreases nodes.len() - i,
        {
            let node = self.nodes[i];
            proof {
                assert(nodes.take(i + 1) =~= nodes.take(i as int).push(node));
                lemma_depth_push(nodes.take(i as int), node);
                lemma_depth_concat(nodes.take(i + 1), nodes.skip(i + 1));
                assert(nodes.take(i + 1) + nodes.skip(i + 1) =~= nodes);
            }
            if node == Node::Key || node == Node::String {
                r.push(Some(si as u64));
                si = si + 1;
            } else if node == Node::Number {
                r.push(Some(ni as u64));
                ni = ni + 1;
            } else {
                r.push(None);
            }
            i = i + 1;
        }
        r
    }

    /// The string pool, each entry wrapped in `Some`.
    pub fn string_opt_list(&self) -> (r: Vec<Option<String>>)
        ensures
            r@.len() == self.strings@.len(),
            forall|i: int| 0 <= i < r@.len() ==> (#[trigger] r@[i] matches Some(s) && s@ == self.strings@[i]@),
    {
        opt_list(&self.strings)
    }

    /// The number pool (literal texts), each entry wrapped in `Some`.
    pub fn number_opt_list(&self) -> (r: Vec<Option<String>>)
        ensures
            r@.len() == self.numbers@.len(),
            forall|i: int| 0 <= i < r@.len() ==> (#[trigger] r@[i] matches Some(s) && s@ == self.numbers@[i]@),
    {
        opt_list(&self.numbers)
    }

    /// Follows `paths` (quoted member names or decimal indices) from the
    /// whole document and writes the value reached as JSON text; `None`
    /// where a segment does not lead anywhere.
    pub fn get(&self, paths: &[&str]) -> (r: Option<String>)
        requires
            self.well_formed(),
        ensures
            r matches Some(t) ==> exists|v: (Seq<Node>, Seq<String>, Seq<String>)|
                walk(self.view(), segments(paths@), v) && t@ == rendered(v.0, v.1, v.2),
            r is None ==> exists|k: int, v: (Seq<Node>, Seq<String>, Seq<String>)|
                0 <= k < paths@.len() && walk(self.view(), segments(paths@).take(k), v) && (
                !view_ok(v) || !(exists|b: (Seq<Node>, Seq<String>, Seq<String>)|
                    step(v, segments(paths@)[k], b))),
    {
        let ghost segs = segments(paths@);
        let mut cur = self.as_slice();
        proof {
            assert(segs.take(0) =~= Seq::<Seq<char>>::empty());
        }
        let mut k: usize = 0;
        while k < paths.len()
            invariant
                segs == segments(paths@),
                k <= paths@.len(),
                cur.nodes@.len() > 0,
                pools_match(cur.nodes@, cur.strings@.len(), cur.numbers@.len()),
                delta(cur.nodes@[0]) != -1 ==> cur.well_formed(),
                walk(self.view(), segs.take(k as int), (cur.nodes@, cur.strings@, cur.numbers@)),
            decreases paths@.len() - k,
        {
            let ghost v = (cur.nodes@, cur.strings@, cur.numbers@);
            let first = cur.nodes[0];
            if first == Node::EndArray || first == Node::EndObject {
                proof {
                    lemma_depth_push(Seq::<Node>::empty(), first);
                    assert(cur.nodes@.take(1) =~= Seq::<Node>::empty().push(first));
                    if cur.nodes@.len() == 1 {
                        assert(cur.nodes@ =~= cur.nodes@.take(1));
                    }
                    assert(!view_ok(v));
                }
                return None;
            }
            let path: &str = paths[k];
            assert(segs[k as int] == path@);
            let n = path.unicode_len();
            let next = if n >= 2 && path.get_char(0) == '"' {
                let key = path.substring_char(1, n - 1);
                assert(key_of(segs[k as int]) == Some(key@));
                let found = cur.get_by_path(key);
                proof {
                    if let Some(m) = &found {
                        let i = choose|i: int|
                            member_at(v.0, v.1, i, key@) && (forall|j: int|
                                j < i ==> !member_at(v.0, v.1, j, key@)) && value_view(
                                m.nodes@,
                                m.strings@,
                                m.numbers@,
                                v.0,
                                v.1,
                                v.2,
                                i + 1,
                            );
                        assert(member_at(v.0, v.1, i, key@));
                        assert(v.0[0] == Node::StartObject);
                        let name = key_of(segs[k as int])->0;
                        assert(name == key@);
                        assert(member_at(v.0, v.1, i, name) && (forall|j: int|
                            j < i ==> !member_at(v.0, v.1, j, name)) && value_view(
                            m.nodes@,
                            m.strings@,
                            m.numbers@,
                            v.0,
                            v.1,
                            v.2,
                            i + 1,
                        ));
                        assert(step(v, segs[k as int], (m.nodes@, m.strings@, m.numbers@)));
                    }
                }
                found
            } else {
                assert(key_of(segs[k as int]) is None);
                match parse_index(path) {
                    Some(idx) => {
                        let found = cur.get_by_idx(idx);
                        assert(found matches Some(m) ==> step(v, segs[k as int], (m.nodes@, m.strings@, m.numbers@)));
                        found
                    },
                    None => {
                        proof {
                            assert forall|b: (Seq<Node>, Seq<String>, Seq<String>)|
                                !step(v, segs[k as int], b) by {
                                if all_digits(segs[k as int]) && v.0[0] == Node::StartArray {
                                    assert forall|i: int| element_at(v.0, i) implies elements_before(v.0, i) != digits_value(segs[k as int]) by {
                                        lemma_elements_before_bound(v.0, i);
                                    }
                                }
                            }
                        }
                        return None;
                    },
                }
            };
            match next {
                Some(m) => {
                    proof {
                        let mv = (m.nodes@, m.strings@, m.numbers@);
                        assert(step(v, segs[k as int], mv));
                        assert(segs.take(k + 1).drop_last() =~= segs.take(k as int));
                        assert(segs.take(k + 1).last() == segs[k as int]);
                        assert(view_ok(v));
                        assert(walk(self.view(), segs.take(k + 1), mv));
                    }
                    cur = m;
                },
                None => {
                    return None;
                },
            }
            k = k + 1;
        }
        proof {
            assert(segs.take(k as int) =~= segs);
        }
        Some(decode_slice(cur))
    }

    /// Moves the three arrays of `other` onto the end of this instance's.
    pub fn append(&mut self, other: &mut Jsonc)
        ensures
            final(self).nodes@ == old(self).nodes@ + old(other).nodes@,
            final(self).strings@ == old(self).strings@ + old(other).strings@,
            final(self).numbers@ == old(self).numbers@ + old(other).numbers@,
            final(other).nodes@.len() == 0,
            final(other).strings@.len() == 0,
            final(other).numbers@.len() == 0,
    {
        self.nodes.append(&mut other.nodes);
        self.strings.append(&mut other.strings);
        self.numbers.append(&mut other.numbers);
    }
}

/// A copy of `items` with each entry wrapped in `Some`.
fn opt_list(items: &Vec<String>) -> (r: Vec<Option<String>>)
    ensures
        r@.len() == items@.len(),
        forall|i: int| 0 <= i < r@.len() ==> (#[trigger] r@[i] matches Some(s) && s@ == items@[i]@),
{
    let mut r: Vec<Option<String>> = Vec::new();
    let mut i: usize = 0;
    while i < items.len()
        invariant
            i <= items@.len(),
            r@.len() == i,
            forall|k: int| 0 <= k < i ==> (#[trigger] r@[k] matches Some(s) && s@ == items@[k]@),
        decreases items@.len() - i,
    {
        let s = items[i].as_str().to_owned();
        r.push(Some(s));
        i = i + 1;
    }
    r
}

} // verus!
