//! Loader for edge lists: plain text with two node numbers on each line.
//!
//! Lines that are blank or start with `#` are skipped. Each remaining line holds two
//! unsigned numbers with white space between them. An edge that is listed twice, in
//! either direction, counts once. Self-loops are kept.
use crate::distinct::{lemma_index_of, lemma_orderly, orderly};
use crate::id::Uuid7;
use crate::node::{Edge, EdgeKind, Node, NodeKind};
use crate::sort::{distinct_keys, increasing_keys, key_place};
use crate::source::{copy_edges, copy_nodes, mint, GraphSource};
use crate::text::{
    debug_str, decimal, decimal_text, fields, fields_from, lines, lines_from, parse_unsigned,
    pieces, push_decimal, str_debug, text, to_chars, to_text, trim, trimmed, unsigned_value,
};
use std::collections::BTreeMap;
use vstd::prelude::*;
use vstd::string::StringExecFns;

verus! {

/// An error in an edge list.
#[derive(Debug)]
pub enum EdgeListError {
    /// A line is neither skipped nor two unsigned numbers.
    Parse {
        /// The number of the line, from 1.
        line_no: usize,
        /// The line.
        line: String,
    },
}

impl EdgeListError {
    /// The text of the error.
    pub open spec fn message(&self) -> Seq<char> {
        match self {
            EdgeListError::Parse { line_no, line } => "edge-list parse error at line "@ + decimal(
                *line_no as nat,
            ) + ": "@ + str_debug(line@),
        }
    }

    /// The text of the error.
    pub fn to_string(&self) -> (t: String)
        ensures
            t@ == self.message(),
    {
        match self {
            EdgeListError::Parse { line_no, line } => {
                let mut t = text("edge-list parse error at line ");
                push_decimal(&mut t, *line_no as u64);
                t.append(": ");
                t.append(debug_str(line.as_str()).as_str());
                t
            },
        }
    }
}

/// What a line says.
pub enum LineKind {
    /// It is blank or a comment.
    Skip,
    /// It lists an edge.
    Pair(u64, u64),
    /// It is malformed.
    Bad,
}

/// What a line says.
pub open spec fn line_kind(line: Seq<char>) -> LineKind {
    let t = trim(line);
    let parts = fields_from(t, 0);
    if t.len() == 0 || t[0] == '#' {
        LineKind::Skip
    } else if parts.len() != 2 {
        LineKind::Bad
    } else {
        match (unsigned_value(parts[0]), unsigned_value(parts[1])) {
            (Some(a), Some(b)) => LineKind::Pair(a as u64, b as u64),
            _ => LineKind::Bad,
        }
    }
}

/// The pairs that the first `k` lines list, or the number and text of the first
/// malformed line among them.
pub open spec fn listed(lines: Seq<Seq<char>>, k: nat) -> Result<
    Seq<(u64, u64)>,
    (nat, Seq<char>),
>
    decreases k,
{
    if k == 0 {
        Ok(Seq::empty())
    } else {
        match listed(lines, (k - 1) as nat) {
            Err(e) => Err(e),
            Ok(pairs) => match line_kind(lines[k - 1]) {
                LineKind::Skip => Ok(pairs),
                LineKind::Pair(a, b) => Ok(pairs.push((a, b))),
                LineKind::Bad => Err((k, lines[k - 1])),
            },
        }
    }
}

/// The pairs that a text lists, or its first malformed line.
pub open spec fn listed_pairs(text: Seq<char>) -> Result<Seq<(u64, u64)>, (nat, Seq<char>)> {
    listed(lines_from(text, 0), lines_from(text, 0).len())
}

/// `x` is an end of one of the pairs.
pub open spec fn is_end(pairs: Seq<(u64, u64)>, x: u64) -> bool {
    exists|i: int| 0 <= i < pairs.len() && ((#[trigger] pairs[i]).0 == x || pairs[i].1 == x)
}

/// `ids` holds the ends of the pairs, ascending, each once.
pub open spec fn lists_ends(ids: Seq<u64>, pairs: Seq<(u64, u64)>) -> bool {
    &&& forall|i: int, j: int| 0 <= i < j < ids.len() ==> ids[i] < ids[j]
    &&& forall|x: u64| #[trigger] ids.contains(x) <==> is_end(pairs, x)
}

/// `p` comes before `q`.
pub open spec fn pair_before(p: (u64, u64), q: (u64, u64)) -> bool {
    p.0 < q.0 || (p.0 == q.0 && p.1 < q.1)
}

/// `sorted` holds the pairs with the smaller end first, ascending, each once.
pub open spec fn lists_pairs(sorted: Seq<(u64, u64)>, pairs: Seq<(u64, u64)>) -> bool {
    &&& forall|i: int, j: int|
        0 <= i < j < sorted.len() ==> pair_before(#[trigger] sorted[i], #[trigger] sorted[j])
    &&& forall|a: u64, b: u64| #[trigger]
        sorted.contains((a, b)) <==> a <= b && (pairs.contains((a, b)) || pairs.contains((b, a)))
}

/// There is a node for each number and an edge for each pair, between the nodes of its
/// numbers, and the place of a node is found by its identifier: the last one, should
/// several nodes have it.
pub open spec fn agree(
    nodes: Seq<Node>,
    edges: Seq<Edge>,
    raw: Seq<u64>,
    label_index: Map<u128, usize>,
    pairs: Seq<(u64, u64)>,
) -> bool {
    &&& nodes.len() == raw.len()
    &&& edges.len() == pairs.len()
    &&& forall|k: int|
        0 <= k < edges.len() ==> raw.contains((#[trigger] pairs[k]).0) && raw.contains(pairs[k].1)
    &&& forall|k: int|
        0 <= k < edges.len() ==> (#[trigger] edges[k]).source == nodes[raw.index_of(
            pairs[k].0,
        )].id && edges[k].target == nodes[raw.index_of(pairs[k].1)].id
    &&& forall|i: int|
        0 <= i < nodes.len() ==> #[trigger] label_index.contains_key(nodes[i].id@)
            && label_index[nodes[i].id@] >= i
    &&& forall|x: u128| #[trigger]
        label_index.contains_key(x) ==> label_index[x] < nodes.len()
            && nodes[label_index[x] as int].id@ == x
}

/// A graph read from an edge list.
pub struct EdgeListSource {
    nodes: Vec<Node>,
    edges: Vec<Edge>,
    raw: Vec<u64>,
    label_index: BTreeMap<u128, usize>,
    pairs: Ghost<Seq<(u64, u64)>>,
}

/// A pair as one number, which orders pairs as they are ordered.
spec fn pair_key(a: u64, b: u64) -> u128 {
    (a * 0x1_0000_0000_0000_0000 + b) as u128
}

proof fn lemma_pair_key(a: u64, b: u64)
    ensures
        pair_key(a, b) == a * 0x1_0000_0000_0000_0000 + b,
        pair_key(a, b) / 0x1_0000_0000_0000_0000 == a,
        pair_key(a, b) % 0x1_0000_0000_0000_0000 == b,
{
    let x = a as int;
    let y = b as int;
    assert(0 <= x * 0x1_0000_0000_0000_0000 + y
        <= 0xffff_ffff_ffff_ffff_ffff_ffff_ffff_ffff) by (nonlinear_arith)
        requires
            0 <= x <= 0xffff_ffff_ffff_ffff,
            0 <= y <= 0xffff_ffff_ffff_ffff,
    ;
}

/// What a line says, as a value.
fn read_line(line: &[char]) -> (kind: LineKind)
    ensures
        kind == line_kind(line@),
{
    let t = trimmed(line);
    if t.len() == 0 || t[0] == '#' {
        return LineKind::Skip;
    }
    let parts = fields(t);
    proof {
        assert(pieces(parts@).len() == parts@.len());
    }
    if parts.len() != 2 {
        return LineKind::Bad;
    }
    proof {
        assert(pieces(parts@)[0] == parts@[0]@);
        assert(pieces(parts@)[1] == parts@[1]@);
    }
    match (parse_unsigned(parts[0]), parse_unsigned(parts[1])) {
        (Some(a), Some(b)) => LineKind::Pair(a, b),
        _ => LineKind::Bad,
    }
}

/// The pairs that a text lists.
fn read_pairs(chars: &[char]) -> (r: Result<Vec<(u64, u64)>, EdgeListError>)
    ensures
        match r {
            Ok(pairs) => listed_pairs(chars@) == Ok::<Seq<(u64, u64)>, (nat, Seq<char>)>(pairs@),
            Err(EdgeListError::Parse { line_no, line }) => listed_pairs(chars@) == Err::<
                Seq<(u64, u64)>,
                (nat, Seq<char>),
            >((line_no as nat, line@)),
        },
{
    let all = lines(chars);
    let ghost given = pieces(all@);
    let mut pairs: Vec<(u64, u64)> = Vec::new();
    let mut k: usize = 0;
    while k < all.len()
        invariant
            k <= all.len(),
            given == pieces(all@),
            given == lines_from(chars@, 0),
            listed(given, k as nat) == Ok::<Seq<(u64, u64)>, (nat, Seq<char>)>(pairs@),
        decreases all.len() - k,
    {
        assert(given[k as int] == all@[k as int]@);
        match read_line(all[k]) {
            LineKind::Skip => {},
            LineKind::Pair(a, b) => {
                pairs.push((a, b));
            },
            LineKind::Bad => {
                proof {
                    lemma_listed_stops(given, (k + 1) as nat, given.len());
                }
                return Err(EdgeListError::Parse { line_no: k + 1, line: to_text(all[k]) });
            },
        }
        k += 1;
    }
    Ok(pairs)
}

/// After a malformed line nothing changes.
proof fn lemma_listed_stops(lines: Seq<Seq<char>>, k: nat, n: nat)
    requires
        k <= n,
        listed(lines, k) is Err,
    ensures
        listed(lines, n) == listed(lines, k),
    decreases n,
{
    if k < n {
        lemma_listed_stops(lines, k, (n - 1) as nat);
    }
}

/// Numbers as keys.
fn as_keys(values: &Vec<u64>) -> (keys: Vec<u128>)
    ensures
        keys@.len() == values@.len(),
        forall|i: int| 0 <= i < keys@.len() ==> #[trigger] keys@[i] == values@[i],
{
    let mut keys: Vec<u128> = Vec::new();
    let mut i: usize = 0;
    while i < values.len()
        invariant
            i <= values@.len(),
            keys@.len() == i,
            forall|j: int| 0 <= j < i ==> #[trigger] keys@[j] == values@[j],
        decreases values@.len() - i,
    {
        keys.push(values[i] as u128);
        i += 1;
    }
    keys
}

/// The ends of the pairs, ascending, each once.
pub fn distinct_ends(pairs: &Vec<(u64, u64)>) -> (ends: Vec<u64>)
    ensures
        lists_ends(ends@, pairs@),
{
    let keys = ends_of(pairs);
    let mut ends: Vec<u64> = Vec::new();
    let mut i: usize = 0;
    while i < keys.len()
        invariant
            i <= keys@.len(),
            forall|j: int| 0 <= j < keys@.len() ==> (#[trigger] keys@[j]) <= u64::MAX,
            ends@.len() == i,
            forall|j: int| 0 <= j < i ==> #[trigger] ends@[j] == keys@[j],
        decreases keys@.len() - i,
    {
        assert(keys@[i as int] <= u64::MAX);
        ends.push(keys[i] as u64);
        i += 1;
    }
    proof {
        assert forall|i: int, j: int| 0 <= i < j < ends@.len() implies ends@[i] < ends@[j] by {
            assert(keys@[i] < keys@[j]);
        }
        assert forall|x: u64| #[trigger] ends@.contains(x) <==> is_end(pairs@, x) by {
            assert(keys@.contains(x as u128) <==> is_end(pairs@, x));
            if ends@.contains(x) {
                let j = choose|j: int| 0 <= j < ends@.len() && ends@[j] == x;
                assert(keys@[j] == x as u128);
            }
            if keys@.contains(x as u128) {
                let j = choose|j: int| 0 <= j < keys@.len() && keys@[j] == x as u128;
                assert(ends@[j] == x);
            }
        }
    }
    ends
}

/// The ends of the pairs, ascending, each once, as keys.
fn ends_of(pairs: &Vec<(u64, u64)>) -> (keys: Vec<u128>)
    ensures
        increasing_keys(keys@),
        forall|i: int| 0 <= i < keys@.len() ==> (#[trigger] keys@[i]) <= u64::MAX,
        forall|x: u64| #[trigger] keys@.contains(x as u128) <==> is_end(pairs@, x),
{
    let mut all: Vec<u128> = Vec::new();
    let mut i: usize = 0;
    while i < pairs.len()
        invariant
            i <= pairs.len(),
            all@.len() == 2 * i,
            forall|j: int|
                0 <= j < i ==> all@[2 * j] == (#[trigger] pairs@[j]).0 && all@[2 * j + 1]
                    == pairs@[j].1,
        decreases pairs.len() - i,
    {
        all.push(pairs[i].0 as u128);
        all.push(pairs[i].1 as u128);
        i += 1;
    }
    let keys = distinct_keys(&all);
    proof {
        assert forall|x: u64| #[trigger] keys@.contains(x as u128) <==> is_end(pairs@, x) by {
            assert(keys@.contains(x as u128) <==> all@.contains(x as u128));
            if is_end(pairs@, x) {
                let j = choose|j: int|
                    0 <= j < pairs@.len() && ((#[trigger] pairs@[j]).0 == x || pairs@[j].1 == x);
                assert(all@[2 * j] == pairs@[j].0);
                if pairs@[j].0 != x {
                    assert(all@[2 * j + 1] == x as u128);
                }
            }
            if all@.contains(x as u128) {
                let h = choose|h: int| 0 <= h < all@.len() && all@[h] == x as u128;
                let j = h / 2;
                assert(all@[2 * j] == pairs@[j].0);
                assert(pairs@[j].0 == x || pairs@[j].1 == x);
            }
        }
        assert forall|i: int| 0 <= i < keys@.len() implies (#[trigger] keys@[i]) <= u64::MAX by {
            assert(keys@.contains(keys@[i]));
            assert(all@.contains(keys@[i]));
            let h = choose|h: int| 0 <= h < all@.len() && all@[h] == keys@[i];
            let j = h / 2;
            assert(all@[2 * j] == pairs@[j].0);
        }
    }
    keys
}

/// The pairs with the smaller end first, ascending, each once.
fn sorted_pairs(pairs: &Vec<(u64, u64)>) -> (sorted: Vec<(u64, u64)>)
    ensures
        lists_pairs(sorted@, pairs@),
{
    let mut all: Vec<u128> = Vec::new();
    let mut i: usize = 0;
    while i < pairs.len()
        invariant
            i <= pairs.len(),
            all@.len() == i,
            forall|j: int|
                0 <= j < i ==> #[trigger] all@[j] == (if pairs@[j].0 <= pairs@[j].1 {
                    pair_key(pairs@[j].0, pairs@[j].1)
                } else {
                    pair_key(pairs@[j].1, pairs@[j].0)
                }),
        decreases pairs.len() - i,
    {
        let (a, b) = pairs[i];
        proof {
            lemma_pair_key(a, b);
            lemma_pair_key(b, a);
        }
        if a <= b {
            all.push(a as u128 * 0x1_0000_0000_0000_0000 + b as u128);
        } else {
            all.push(b as u128 * 0x1_0000_0000_0000_0000 + a as u128);
        }
        i += 1;
    }
    let keys = distinct_keys(&all);
    proof {
        assert forall|i: int| 0 <= i < keys@.len() implies exists|a: u64, b: u64|
            a <= b && #[trigger] pair_key(a, b) == #[trigger] keys@[i] && (pairs@.contains((a, b))
                || pairs@.contains((b, a))) by {
            assert(keys@.contains(keys@[i]));
            assert(all@.contains(keys@[i]));
            let j = choose|j: int| 0 <= j < all@.len() && all@[j] == keys@[i];
            let (a, b) = pairs@[j];
            assert(pairs@.contains((a, b)));
            if a <= b {
                assert(pair_key(a, b) == keys@[i]);
            } else {
                assert(pair_key(b, a) == keys@[i]);
            }
        }
    }
    let mut sorted: Vec<(u64, u64)> = Vec::new();
    let mut k: usize = 0;
    while k < keys.len()
        invariant
            k <= keys.len(),
            sorted@.len() == k,
            forall|j: int|
                0 <= j < k ==> pair_key((#[trigger] sorted@[j]).0, sorted@[j].1) == keys@[j],
        decreases keys.len() - k,
    {
        let a: u64 = (keys[k] / 0x1_0000_0000_0000_0000) as u64;
        let b: u64 = (keys[k] % 0x1_0000_0000_0000_0000) as u64;
        proof {
            let x = keys@[k as int] as int;
            assert(x / 0x1_0000_0000_0000_0000 * 0x1_0000_0000_0000_0000 + x
                % 0x1_0000_0000_0000_0000 == x);
            lemma_pair_key(a, b);
        }
        sorted.push((a, b));
        k += 1;
    }
    proof {
        assert forall|i: int, j: int| 0 <= i < j < sorted@.len() implies pair_before(
            #[trigger] sorted@[i],
            #[trigger] sorted@[j],
        ) by {
            lemma_pair_key(sorted@[i].0, sorted@[i].1);
            lemma_pair_key(sorted@[j].0, sorted@[j].1);
            assert(keys@[i] < keys@[j]);
        }
        assert forall|a: u64, b: u64| #[trigger] sorted@.contains((a, b)) <==> a <= b && (
        pairs@.contains((a, b)) || pairs@.contains((b, a))) by {
            lemma_pair_key(a, b);
            if sorted@.contains((a, b)) {
                let j = choose|j: int| 0 <= j < sorted@.len() && sorted@[j] == (a, b);
                assert(pair_key(sorted@[j].0, sorted@[j].1) == keys@[j]);
                let (c, d) = choose|c: u64, d: u64|
                    c <= d && #[trigger] pair_key(c, d) == keys@[j] && (pairs@.contains((c, d))
                        || pairs@.contains((d, c)));
                lemma_pair_key(c, d);
                assert(a == c && b == d);
            }
            if a <= b && (pairs@.contains((a, b)) || pairs@.contains((b, a))) {
                let key = pair_key(a, b);
                if pairs@.contains((a, b)) {
                    let j = choose|j: int| 0 <= j < pairs@.len() && pairs@[j] == (a, b);
                    assert(all@[j] == key);
                } else {
                    let j = choose|j: int| 0 <= j < pairs@.len() && pairs@[j] == (b, a);
                    assert(all@[j] == key);
                }
                assert(all@.contains(key));
                assert(keys@.contains(key));
                let h = choose|h: int| 0 <= h < keys@.len() && keys@[h] == key;
                assert(pair_key(sorted@[h].0, sorted@[h].1) == key);
                lemma_pair_key(sorted@[h].0, sorted@[h].1);
                assert(sorted@[h] == (a, b));
            }
        }
    }
    sorted
}

impl EdgeListSource {
    /// The numbers of the nodes in the text, in the order of the nodes.
    pub closed spec fn raw_ids(&self) -> Seq<u64> {
        self.raw@
    }

    /// The distinct pairs of the text, in the order of the edges.
    pub closed spec fn pairs(&self) -> Seq<(u64, u64)> {
        self.pairs@
    }

    /// There is a node for each number and an edge for each pair, between the nodes
    /// of its numbers, and the label of a node is found by its identifier.
    #[verifier::type_invariant]
    pub closed spec fn wf(&self) -> bool {
        &&& orderly::<u128>()
        &&& agree(self.nodes@, self.edges@, self.raw@, self.label_index@, self.pairs@)
    }

    /// What a well-formed source guarantees of its edges.
    pub proof fn lemma_wf(&self)
        requires
            self.wf(),
        ensures
            self.node_seq().len() == self.raw_ids().len(),
            self.edge_seq().len() == self.pairs().len(),
            forall|k: int|
                0 <= k < self.edge_seq().len() ==> (#[trigger] self.edge_seq()[k]).source
                    == self.node_seq()[self.raw_ids().index_of(self.pairs()[k].0)].id
                    && self.edge_seq()[k].target == self.node_seq()[self.raw_ids().index_of(
                    self.pairs()[k].1,
                )].id,
    {
    }

    /// The nodes of the source.
    pub closed spec fn node_list(&self) -> Seq<Node> {
        self.nodes@
    }

    /// The edges of the source.
    pub closed spec fn edge_list(&self) -> Seq<Edge> {
        self.edges@
    }

    /// Reads an edge list. Nodes are minted in the order of their numbers and edges
    /// in the order of their pairs, and receive the given kinds.
    pub fn from_str(text: &str, node_kind: &NodeKind, edge_kind: &EdgeKind) -> (r: Result<
        Self,
        EdgeListError,
    >)
        ensures
            match (r, listed_pairs(text@)) {
                (Ok(source), Ok(pairs)) => {
                    &&& source.wf()
                    &&& lists_ends(source.raw_ids(), pairs)
                    &&& lists_pairs(source.pairs(), pairs)
                    &&& forall|i: int|
                        0 <= i < source.node_seq().len() ==> (
                        #[trigger] source.node_seq()[i]).kind == *node_kind
                    &&& forall|k: int|
                        0 <= k < source.edge_seq().len() ==> (
                        #[trigger] source.edge_seq()[k]).kind == *edge_kind
                },
                (Err(EdgeListError::Parse { line_no, line }), Err(e)) => line_no == e.0 && line@
                    == e.1,
                _ => false,
            },
    {
        let chars = to_chars(text);
        match read_pairs(chars.as_slice()) {
            Ok(pairs) => {
                let ends = distinct_ends(&pairs);
                let ids = mint(ends.len());
                Ok(Self::with_ids(&pairs, &ends, &ids, node_kind, edge_kind))
            },
            Err(e) => Err(e),
        }
    }

    /// The graph of some pairs of numbers. Their ends are the nodes, and have the given
    /// identifiers, in the order of the numbers.
    pub fn with_ids(
        pairs: &Vec<(u64, u64)>,
        ends: &Vec<u64>,
        ids: &Vec<Uuid7>,
        node_kind: &NodeKind,
        edge_kind: &EdgeKind,
    ) -> (source: Self)
        requires
            lists_ends(ends@, pairs@),
            ids@.len() == ends@.len(),
        ensures
            source.wf(),
            source.raw_ids() == ends@,
            lists_pairs(source.pairs(), pairs@),
            forall|i: int|
                0 <= i < source.node_seq().len() ==> (#[trigger] source.node_seq()[i]).id
                    == ids@[i] && source.node_seq()[i].kind == *node_kind,
            forall|k: int|
                0 <= k < source.edge_seq().len() ==> (#[trigger] source.edge_seq()[k]).kind
                    == *edge_kind,
    {
        let ghost given = ids@;
        let keys = as_keys(ends);
        proof {
            assert(increasing_keys(keys@)) by {
                assert forall|i: int, j: int| 0 <= i < j < keys@.len() implies keys@[i]
                    < keys@[j] by {
                    assert(ends@[i] < ends@[j]);
                }
            }
            assert forall|x: u64| #[trigger] keys@.contains(x as u128) <==> is_end(pairs@, x) by {
                assert(ends@.contains(x) <==> is_end(pairs@, x));
                if ends@.contains(x) {
                    let j = choose|j: int| 0 <= j < ends@.len() && ends@[j] == x;
                    assert(keys@[j] == x as u128);
                }
                if keys@.contains(x as u128) {
                    let j = choose|j: int| 0 <= j < keys@.len() && keys@[j] == x as u128;
                    assert(ends@[j] == x);
                }
            }
        }
        let sorted = sorted_pairs(pairs);
        let mut nodes: Vec<Node> = Vec::new();
        let mut raw: Vec<u64> = Vec::new();
        let mut label_index: BTreeMap<u128, usize> = BTreeMap::new();
        broadcast use vstd::std_specs::btree::group_btree_axioms;

        proof {
            lemma_orderly();
        }
        let mut i: usize = 0;
        while i < keys.len()
            invariant
                i <= keys.len(),
                orderly::<u128>(),
                forall|j: int| 0 <= j < keys@.len() ==> (#[trigger] keys@[j]) <= u64::MAX,
                nodes@.len() == i == raw@.len(),
                ids@ == given,
                keys@.len() == given.len(),
                forall|j: int| 0 <= j < i ==> (#[trigger] nodes@[j]).id == given[j],
                forall|j: int| 0 <= j < i ==> #[trigger] raw@[j] == keys@[j],
                forall|j: int| 0 <= j < i ==> (#[trigger] nodes@[j]).kind == *node_kind,
                forall|j: int|
                    0 <= j < i ==> #[trigger] label_index@.contains_key(nodes@[j].id@)
                        && label_index@[nodes@[j].id@] >= j,
                forall|x: u128| #[trigger]
                    label_index@.contains_key(x) ==> label_index@[x] < nodes@.len()
                        && nodes@[label_index@[x] as int].id@ == x,
            decreases keys.len() - i,
        {
            let id = ids[i];
            let node = Node::new(id, node_kind.clone());
            let ghost before = label_index@;
            let ghost earlier = nodes@;
            label_index.insert(id.as_uuid(), i);
            raw.push(keys[i] as u64);
            nodes.push(node);
            proof {
                assert forall|j: int| 0 <= j < i + 1 implies #[trigger] label_index@.contains_key(
                    nodes@[j].id@,
                ) && label_index@[nodes@[j].id@] >= j by {
                    if j < i {
                        assert(before.contains_key(earlier[j].id@));
                    }
                }
                assert forall|x: u128| #[trigger] label_index@.contains_key(x) implies label_index@[
                x] < nodes@.len() && nodes@[label_index@[x] as int].id@ == x by {
                    if x != id@ {
                        assert(before.contains_key(x));
                    }
                }
            }
            i += 1;
        }
        let ghost ids = raw@;
        proof {
            assert forall|x: u64| #[trigger] ids.contains(x) <==> is_end(pairs@, x) by {
                assert(keys@.contains(x as u128) <==> is_end(pairs@, x));
                if ids.contains(x) {
                    let j = choose|j: int| 0 <= j < ids.len() && ids[j] == x;
                    assert(keys@[j] == x as u128);
                }
                if keys@.contains(x as u128) {
                    let j = choose|j: int| 0 <= j < keys@.len() && keys@[j] == x as u128;
                    assert(ids[j] == x);
                }
            }
            assert forall|i: int, j: int| 0 <= i < j < ids.len() implies ids[i] < ids[j] by {
                assert(keys@[i] < keys@[j]);
            }
        }
        let mut edges: Vec<Edge> = Vec::new();
        let mut k: usize = 0;
        while k < sorted.len()
            invariant
                k <= sorted.len(),
                increasing_keys(keys@),
                ids == raw@,
                nodes@.len() == ids.len() == keys@.len(),
                ids.no_duplicates(),
                forall|j: int| 0 <= j < ids.len() ==> #[trigger] ids[j] == keys@[j],
                forall|x: u64| #[trigger] ids.contains(x) <==> is_end(pairs@, x),
                lists_pairs(sorted@, pairs@),
                edges@.len() == k,
                forall|j: int| 0 <= j < k ==> (#[trigger] edges@[j]).kind == *edge_kind,
                forall|j: int|
                    0 <= j < k ==> (#[trigger] edges@[j]).source == nodes@[ids.index_of(
                        sorted@[j].0,
                    )].id && edges@[j].target == nodes@[ids.index_of(sorted@[j].1)].id,
                forall|j: int|
                    0 <= j < k ==> ids.contains((#[trigger] sorted@[j]).0) && ids.contains(
                        sorted@[j].1,
                    ),
            decreases sorted.len() - k,
        {
            let (a, b) = sorted[k];
            proof {
                assert(sorted@.contains((a, b))) by {
                    assert(sorted@[k as int] == (a, b));
                }
                if pairs@.contains((a, b)) {
                    let h = choose|h: int| 0 <= h < pairs@.len() && pairs@[h] == (a, b);
                    assert(pairs@[h].0 == a && pairs@[h].1 == b);
                } else {
                    let h = choose|h: int| 0 <= h < pairs@.len() && pairs@[h] == (b, a);
                    assert(pairs@[h].0 == b && pairs@[h].1 == a);
                }
                assert(is_end(pairs@, a) && is_end(pairs@, b));
                assert(ids.contains(a) && ids.contains(b));
                let x = ids.index_of(a);
                let y = ids.index_of(b);
                assert(keys@[x] == a as u128 && keys@[y] == b as u128);
                assert(keys@.contains(a as u128) && keys@.contains(b as u128));
            }
            let pa: usize = match key_place(&keys, a as u128) {
                Some(p) => p,
                None => 0,
            };
            let pb: usize = match key_place(&keys, b as u128) {
                Some(p) => p,
                None => 0,
            };
            proof {
                assert(ids[pa as int] == a && ids[pb as int] == b);
                lemma_index_of(ids, pa as int);
                lemma_index_of(ids, pb as int);
            }
            edges.push(Edge::fresh(nodes[pa].id, nodes[pb].id, edge_kind.clone()));
            k += 1;
        }
        proof {
            lemma_orderly();
        }
        assert(raw@ =~= ends@);
        assert(agree(nodes@, edges@, raw@, label_index@, sorted@)) by {
            assert forall|k: int| 0 <= k < edges@.len() implies (#[trigger] edges@[k]).source
                == nodes@[raw@.index_of(sorted@[k].0)].id && edges@[k].target
                == nodes@[raw@.index_of(sorted@[k].1)].id by {}
        }
        EdgeListSource { nodes, edges, raw, label_index, pairs: Ghost(sorted@) }
    }

    /// The number of distinct nodes.
    pub fn node_count(&self) -> (n: usize)
        ensures
            n == self.node_seq().len(),
    {
        self.nodes.len()
    }

    /// The number of distinct edges.
    pub fn edge_count(&self) -> (n: usize)
        ensures
            n == self.edge_seq().len(),
    {
        self.edges.len()
    }
}

impl GraphSource for EdgeListSource {
    open spec fn node_seq(&self) -> Seq<Node> {
        self.node_list()
    }

    open spec fn edge_seq(&self) -> Seq<Edge> {
        self.edge_list()
    }

    fn nodes(&self) -> (nodes: Vec<Node>) {
        copy_nodes(self.nodes.as_slice())
    }

    fn edges(&self) -> (edges: Vec<Edge>) {
        copy_edges(self.edges.as_slice())
    }

    /// The number of a node in the text, as its label. Of nodes with the same
    /// identifier the last one counts.
    fn label_of(&self, node_id: Uuid7) -> (label: Option<String>)
        ensures
            match label {
                None => forall|i: int|
                    0 <= i < self.node_seq().len() ==> (#[trigger] self.node_seq()[i]).id
                        != node_id,
                Some(t) => exists|i: int|
                    {
                        &&& 0 <= i < self.node_seq().len()
                        &&& (#[trigger] self.node_seq()[i]).id == node_id
                        &&& forall|j: int|
                            i < j < self.node_seq().len() ==> (#[trigger] self.node_seq()[j]).id
                                != node_id
                        &&& t@ == decimal(self.raw_ids()[i] as nat)
                    },
            },
    {
        broadcast use vstd::std_specs::btree::group_btree_axioms;

        proof {
            use_type_invariant(self);
        }
        match self.label_index.get(&node_id.as_uuid()) {
            None => {
                proof {
                    assert forall|i: int| 0 <= i < self.nodes@.len() implies (
                    #[trigger] self.nodes@[i]).id != node_id by {
                        assert(self.label_index@.contains_key(self.nodes@[i].id@));
                    }
                }
                None
            },
            Some(place) => {
                let i: usize = *place;
                proof {
                    assert(self.label_index@.contains_key(node_id@));
                    Uuid7::lemma_view_injective(self.nodes@[i as int].id, node_id);
                    assert forall|j: int| i < j < self.nodes@.len() implies (
                    #[trigger] self.nodes@[j]).id != node_id by {
                        assert(self.label_index@.contains_key(self.nodes@[j].id@));
                    }
                    assert(self.node_seq()[i as int].id == node_id);
                }
                Some(decimal_text(self.raw[i]))
            },
        }
    }
}

} // verus!
