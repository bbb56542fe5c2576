//! Labels in a store.
//!
//! A build asks its source for the label of each node and stores what it is told twice:
//! under the node, and under the label. A label is stored as its bytes in UTF-8. One that
//! is empty or too long for a key is left out.
use crate::codec::{corrupt, id_at, read_id, uuid_key, with_number, Failure, SwIndexError};
use crate::id::{version_of, Uuid7};
use crate::index::{entries, node_key, raw_value, Entry, Table, Write};
use crate::node::Node;
use crate::source::GraphSource;
use crate::text::{decimal, text};
use vstd::prelude::*;
use vstd::slice::slice_to_vec;
use vstd::utf8::{decode_utf8, encode_utf8, valid_utf8};

verus! {

/// What a source answers when it is asked for the labels of some nodes, one answer for
/// each.
pub open spec fn answered<G: GraphSource>(
    source: &G,
    nodes: Seq<Node>,
    answers: Seq<Option<String>>,
) -> bool {
    &&& answers.len() == nodes.len()
    &&& forall|i: int|
        0 <= i < nodes.len() ==> call_ensures(
            G::label_of,
            (source, nodes[i].id),
            #[trigger] answers[i],
        )
}

/// A label can be a key of the store: its bytes are at least one and at most 65,535.
pub open spec fn storable(label: Seq<char>) -> bool {
    0 < encode_utf8(label).len() <= 0xffff
}

/// The labels among the answers for the first `k` nodes that can be stored, each with its
/// node.
pub open spec fn named(nodes: Seq<Node>, answers: Seq<Option<String>>, k: nat) -> Seq<
    (u128, Seq<char>),
>
    decreases k,
{
    if k == 0 {
        Seq::empty()
    } else {
        let front = named(nodes, answers, (k - 1) as nat);
        match answers[k - 1] {
            Some(label) => if storable(label@) {
                front.push((nodes[k - 1].id@, label@))
            } else {
                front
            },
            None => front,
        }
    }
}

/// The `i`-th value to write of those of the labels: two for each.
pub open spec fn label_entry(named: Seq<(u128, Seq<char>)>, i: int) -> Entry {
    let (id, label) = named[i / 2];
    if i % 2 == 0 {
        (Table::UuidToLabel, node_key(id), encode_utf8(label))
    } else {
        (Table::LabelToUuid, encode_utf8(label), node_key(id))
    }
}

/// The values to write of some labels.
pub open spec fn label_entries(named: Seq<(u128, Seq<char>)>) -> Seq<Entry> {
    Seq::new(2 * named.len(), |i: int| label_entry(named, i))
}

/// The nodes that have labels are of version 7.
pub open spec fn all_named_version_7(named: Seq<(u128, Seq<char>)>) -> bool {
    forall|i: int| 0 <= i < named.len() ==> version_of((#[trigger] named[i]).0) == 7
}

/// The label in a value that was read, if it was there.
pub open spec fn label_in(raw: Option<Seq<u8>>) -> Result<Option<Seq<char>>, Failure> {
    match raw {
        None => Ok(None),
        Some(bytes) => if valid_utf8(bytes) {
            Ok(Some(decode_utf8(bytes)))
        } else {
            Err(Failure::Corruption("label_of: stored label is not UTF-8"@))
        },
    }
}

/// The node in a value that was read, if it was there.
pub open spec fn node_in(raw: Option<Seq<u8>>) -> Result<Option<u128>, Failure> {
    match raw {
        None => Ok(None),
        Some(bytes) => if bytes.len() != 16 {
            Err(
                Failure::Corruption(
                    "uuid_of_label"@ + ": expected 16 bytes, got "@ + decimal(bytes.len()),
                ),
            )
        } else if version_of(id_at(bytes, 0)) == 7 {
            Ok(Some(id_at(bytes, 0)))
        } else {
            Err(Failure::Corruption("uuid_of_label: stored UUID is not version 7"@))
        },
    }
}

/// The bytes as text.
///
/// Calls `std::str::from_utf8`, which fails exactly on what is not UTF-8, and otherwise
/// gives the text that the bytes encode.
#[verifier::external_body]
fn utf8_text<'a>(bytes: &'a [u8]) -> (r: Option<&'a str>)
    ensures
        match r {
            Some(t) => valid_utf8(bytes@) && t@ == decode_utf8(bytes@),
            None => !valid_utf8(bytes@),
        },
{
    std::str::from_utf8(bytes).ok()
}

/// The key of a label.
pub fn label_key(label: &str) -> (key: Vec<u8>)
    ensures
        key@ == encode_utf8(label@),
{
    slice_to_vec(label.as_bytes())
}

/// Whether a label can be a key of the store.
pub fn is_storable(label: &str) -> (r: bool)
    ensures
        r == storable(label@),
{
    let n: usize = label.as_bytes().len();
    0 < n && n <= 0xffff
}

/// The label of a node, given what the store holds for it.
pub fn label_of(raw: Option<&[u8]>) -> (r: Result<Option<String>, SwIndexError>)
    ensures
        match (r, label_in(raw_value(raw))) {
            (Ok(Some(a)), Ok(Some(b))) => a@ == b,
            (Ok(None), Ok(None)) => true,
            (Err(e), Err(f)) => e@ == f,
            _ => false,
        },
{
    match raw {
        None => Ok(None),
        Some(bytes) => match utf8_text(bytes) {
            Some(label) => Ok(Some(text(label))),
            None => Err(corrupt("label_of: stored label is not UTF-8")),
        },
    }
}

/// The node with a label, given what the store holds for the label.
pub fn uuid_of_label(raw: Option<&[u8]>) -> (r: Result<Option<Uuid7>, SwIndexError>)
    ensures
        match (r, node_in(raw_value(raw))) {
            (Ok(Some(a)), Ok(Some(b))) => a@ == b,
            (Ok(None), Ok(None)) => true,
            (Err(e), Err(f)) => e@ == f,
            _ => false,
        },
{
    match raw {
        None => Ok(None),
        Some(bytes) => {
            if bytes.len() != 16 {
                return Err(
                    SwIndexError::Corruption(
                        with_number(
                            text("uuid_of_label"),
                            ": expected 16 bytes, got ",
                            bytes.len() as u64,
                        ),
                    ),
                );
            }
            match Uuid7::from_uuid(read_id(bytes, 0)) {
                Some(id) => Ok(Some(id)),
                None => Err(corrupt("uuid_of_label: stored UUID is not version 7")),
            }
        },
    }
}

/// Asks a source for the labels of its nodes, and gives the values to write.
pub(crate) fn label_writes<G: GraphSource>(source: &G) -> (r: (Vec<Write>, Ghost<Seq<Option<String>>>))
    ensures
        answered(source, source.node_seq(), r.1@),
        entries(r.0@) == label_entries(named(source.node_seq(), r.1@, source.node_seq().len())),
        all_named_version_7(named(source.node_seq(), r.1@, source.node_seq().len())),
{
    let nodes = source.nodes();
    let ghost mut answers: Seq<Option<String>> = Seq::empty();
    let mut writes: Vec<Write> = Vec::new();
    let mut i: usize = 0;
    assert(entries(writes@) =~= label_entries(Seq::empty()));
    while i < nodes.len()
        invariant
            i <= nodes@.len(),
            nodes@ == source.node_seq(),
            answers.len() == i,
            forall|j: int|
                0 <= j < i ==> call_ensures(
                    G::label_of,
                    (source, nodes@[j].id),
                    #[trigger] answers[j],
                ),
            entries(writes@) == label_entries(named(nodes@, answers, i as nat)),
            all_named_version_7(named(nodes@, answers, i as nat)),
        decreases nodes@.len() - i,
    {
        let id = nodes[i].id;
        let answer = source.label_of(id);
        let ghost before = answers;
        let ghost so_far = named(nodes@, answers, i as nat);
        proof {
            answers = answers.push(answer);
            lemma_named_prefix(nodes@, before, answers, i as nat);
        }
        match answer {
            Some(label) => if is_storable(label.as_str()) {
                let ghost now = so_far.push((id@, label@));
                let ghost first = entries(writes@);
                writes.push(
                    Write {
                        table: Table::UuidToLabel,
                        key: uuid_key(&id),
                        value: label_key(label.as_str()),
                    },
                );
                writes.push(
                    Write {
                        table: Table::LabelToUuid,
                        key: label_key(label.as_str()),
                        value: uuid_key(&id),
                    },
                );
                proof {
                    assert(named(nodes@, answers, (i + 1) as nat) == now);
                    let n = so_far.len() as int;
                    assert(now[n] == (id@, label@));
                    assert(entries(writes@) =~= first.push(label_entry(now, 2 * n)).push(
                        label_entry(now, 2 * n + 1),
                    ));
                    assert forall|j: int| 0 <= j < 2 * n implies label_entry(so_far, j)
                        == label_entry(now, j) by {
                        assert(now[j / 2] == so_far[j / 2]);
                    }
                    assert(entries(writes@) =~= label_entries(now));
                    assert(all_named_version_7(now)) by {
                        assert forall|j: int| 0 <= j < now.len() implies version_of(
                            (#[trigger] now[j]).0,
                        ) == 7 by {
                            if j < n {
                                assert(now[j] == so_far[j]);
                            }
                        }
                    }
                }
            },
            None => {},
        }
        i += 1;
    }
    (writes, Ghost(answers))
}

/// The labels of the first nodes depend on the first answers only.
proof fn lemma_named_prefix(
    nodes: Seq<Node>,
    answers: Seq<Option<String>>,
    more: Seq<Option<String>>,
    k: nat,
)
    requires
        k <= answers.len() <= more.len(),
        forall|i: int| 0 <= i < k ==> answers[i] == more[i],
    ensures
        named(nodes, answers, k) == named(nodes, more, k),
    decreases k,
{
    if k > 0 {
        lemma_named_prefix(nodes, answers, more, (k - 1) as nat);
        assert(answers[k - 1] == more[k - 1]);
    }
}

} // verus!
