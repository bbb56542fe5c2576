//! The bytes in which an index is stored.
//!
//! Values of variable layout begin with a format version byte. Readers refuse other
//! versions, and tell them from malformed data. Numbers are stored least significant
//! byte first, identifiers as their sixteen bytes.
use crate::bytes::{
    be_bytes, be_value, hex_digits, le_bytes, le_value, lemma_be_bytes_len, lemma_be_round_trip,
    lemma_le_bytes_len, lemma_le_round_trip, lemma_pow256, push_le, read_le,
};
use crate::graph::GraphError;
use crate::id::{uuid_value, version_of, Uuid7};
use crate::text::{decimal, push_decimal, push_hex_byte, text};
use vstd::prelude::*;
use vstd::slice::slice_subrange;
use vstd::string::StringExecFns;

verus! {

/// The version byte at the head of every value of variable layout.
pub const FORMAT_V1: u8 = 0x01;

/// An error of an index.
#[derive(Debug)]
pub enum SwIndexError {
    /// The graph could not be built from its source.
    Graph(GraphError),
    /// Stored data does not have the expected shape, or a request does not fit it.
    Corruption(String),
    /// Stored data has a format version that is not known.
    UnsupportedFormat {
        /// The version byte.
        found: u8,
        /// What was being read.
        context: &'static str,
    },
}

/// An error as a value.
pub enum Failure {
    /// The graph has an edge to a node that is not there.
    Dangling(u128),
    /// The data is malformed, for the reason given.
    Corruption(Seq<char>),
    /// The data has an unknown format version.
    Unsupported { found: u8, context: Seq<char> },
}

impl View for SwIndexError {
    type V = Failure;

    open spec fn view(&self) -> Failure {
        match self {
            SwIndexError::Graph(GraphError::DanglingEdge { which }) => Failure::Dangling(which@),
            SwIndexError::Corruption(message) => Failure::Corruption(message@),
            SwIndexError::UnsupportedFormat { found, context } => Failure::Unsupported {
                found: *found,
                context: context@,
            },
        }
    }
}

impl From<GraphError> for SwIndexError {
    fn from(e: GraphError) -> (r: Self) {
        SwIndexError::Graph(e)
    }
}

impl vstd::std_specs::convert::FromSpecImpl<GraphError> for SwIndexError {
    open spec fn obeys_from_spec() -> bool {
        true
    }

    open spec fn from_spec(e: GraphError) -> Self {
        SwIndexError::Graph(e)
    }
}

impl SwIndexError {
    /// The text of the error.
    pub open spec fn message(&self) -> Seq<char> {
        match self {
            SwIndexError::Graph(e) => "swindex graph error: "@ + e.message(),
            SwIndexError::Corruption(reason) => "swindex on-disk corruption: "@ + reason@,
            SwIndexError::UnsupportedFormat { found, context } => "swindex unsupported format: "@
                + context@ + " carries version byte 0x"@ + hex_digits(*found as nat, 2)
                + ", this build only knows 0x"@ + hex_digits(FORMAT_V1 as nat, 2)
                + ". Upgrade swindex or rebuild the index."@,
        }
    }

    /// The text of the error.
    pub fn to_string(&self) -> (t: String)
        ensures
            t@ == self.message(),
    {
        match self {
            SwIndexError::Graph(e) => {
                let mut t = text("swindex graph error: ");
                t.append(e.to_string().as_str());
                t
            },
            SwIndexError::Corruption(reason) => {
                let mut t = text("swindex on-disk corruption: ");
                t.append(reason.as_str());
                t
            },
            SwIndexError::UnsupportedFormat { found, context } => {
                let mut t = text("swindex unsupported format: ");
                t.append(context);
                t.append(" carries version byte 0x");
                push_hex_byte(&mut t, *found);
                t.append(", this build only knows 0x");
                push_hex_byte(&mut t, FORMAT_V1);
                t.append(". Upgrade swindex or rebuild the index.");
                t
            },
        }
    }
}

/// The error for malformed data.
pub fn corrupt(message: &str) -> (e: SwIndexError)
    ensures
        e@ == Failure::Corruption(message@),
{
    SwIndexError::Corruption(message.to_owned())
}

/// A text with another and a number behind it.
pub(crate) fn with_number(mut text: String, part: &str, n: u64) -> (t: String)
    ensures
        t@ == text@ + part@ + decimal(n as nat),
{
    text.append(part);
    push_decimal(&mut text, n);
    text
}

/// The values of some identifiers.
pub open spec fn values(ids: Seq<Uuid7>) -> Seq<u128> {
    ids.map_values(|id: Uuid7| id@)
}

/// The bytes of some identifiers, one after another.
pub open spec fn id_bytes(ids: Seq<u128>) -> Seq<u8>
    decreases ids.len(),
{
    if ids.len() == 0 {
        Seq::empty()
    } else {
        id_bytes(ids.drop_last()) + be_bytes(ids.last() as nat, 16)
    }
}

/// The stored form of a list of identifiers.
pub open spec fn uuid_vec_bytes(ids: Seq<u128>) -> Seq<u8> {
    seq![FORMAT_V1] + le_bytes(ids.len(), 4) + id_bytes(ids)
}

/// The bytes of some links, one after another.
pub open spec fn link_bytes(links: Seq<(u128, u32)>) -> Seq<u8>
    decreases links.len(),
{
    if links.len() == 0 {
        Seq::empty()
    } else {
        link_bytes(links.drop_last()) + (be_bytes(links.last().0 as nat, 16) + le_bytes(
            links.last().1 as nat,
            4,
        ))
    }
}

/// The stored form of a list of links.
pub open spec fn hub_neighbors_bytes(links: Seq<(u128, u32)>) -> Seq<u8> {
    seq![FORMAT_V1] + le_bytes(links.len(), 4) + link_bytes(links)
}

/// The stored form of the size and the number of hubs of a cluster.
pub open spec fn cluster_meta_bytes(size: u32, hub_count: u32) -> Seq<u8> {
    seq![FORMAT_V1] + le_bytes(size as nat, 4) + le_bytes(hub_count as nat, 4)
}

/// The stored form of the drift of a cluster.
pub open spec fn cluster_drift_bytes(generation: u64, delta_inserts: u32) -> Seq<u8> {
    seq![FORMAT_V1] + le_bytes(generation as nat, 8) + le_bytes(delta_inserts as nat, 4)
}

/// What follows the version byte.
pub open spec fn versioned_body(bytes: Seq<u8>, context: Seq<char>) -> Result<Seq<u8>, Failure> {
    if bytes.len() == 0 {
        Err(
            Failure::Corruption(
                context + ": payload is empty (expected at least 1 byte for format version)"@,
            ),
        )
    } else if bytes[0] != FORMAT_V1 {
        Err(Failure::Unsupported { found: bytes[0], context })
    } else {
        Ok(bytes.skip(1))
    }
}

/// The body of a list whose entries have `width` bytes, and its length.
pub open spec fn list_body(bytes: Seq<u8>, context: Seq<char>, width: nat) -> Result<
    (Seq<u8>, nat),
    Failure,
> {
    match versioned_body(bytes, context) {
        Err(e) => Err(e),
        Ok(body) => {
            let n = le_value(body.take(4));
            let expected = 4 + n * width;
            if body.len() < 4 {
                Err(Failure::Corruption(context + ": payload body < 4 bytes after version byte"@))
            } else if body.len() != expected {
                Err(
                    Failure::Corruption(
                        context + ": expected "@ + decimal(expected) + " body bytes for len="@
                            + decimal(n) + ", got "@ + decimal(body.len()),
                    ),
                )
            } else {
                Ok((body, n))
            }
        },
    }
}

/// The identifier value in the sixteen bytes from `start` on.
pub open spec fn id_at(body: Seq<u8>, start: int) -> u128 {
    be_value(body.subrange(start, start + 16)) as u128
}

/// The first `k` identifiers of a list.
pub open spec fn uuid_entries(body: Seq<u8>, context: Seq<char>, k: nat) -> Result<
    Seq<u128>,
    Failure,
>
    decreases k,
{
    if k == 0 {
        Ok(Seq::empty())
    } else {
        let start = (4 + (k - 1) * 16) as nat;
        match uuid_entries(body, context, (k - 1) as nat) {
            Err(e) => Err(e),
            Ok(front) => if version_of(id_at(body, start as int)) == 7 {
                Ok(front.push(id_at(body, start as int)))
            } else {
                Err(
                    Failure::Corruption(
                        context + ": stored UUID at body offset "@ + decimal(start)
                            + " is not version 7"@,
                    ),
                )
            },
        }
    }
}

/// The identifiers that a stored list holds.
pub open spec fn stored_uuids(bytes: Seq<u8>, context: Seq<char>) -> Result<Seq<u128>, Failure> {
    match list_body(bytes, context, 16) {
        Err(e) => Err(e),
        Ok((body, n)) => uuid_entries(body, context, n),
    }
}

/// The first `k` links of a list.
pub open spec fn link_entries(body: Seq<u8>, context: Seq<char>, k: nat) -> Result<
    Seq<(u128, u32)>,
    Failure,
>
    decreases k,
{
    if k == 0 {
        Ok(Seq::empty())
    } else {
        let base = (4 + (k - 1) * 20) as nat;
        let weight = le_value(body.subrange(base as int + 16, base as int + 20)) as u32;
        match link_entries(body, context, (k - 1) as nat) {
            Err(e) => Err(e),
            Ok(front) => if version_of(id_at(body, base as int)) == 7 {
                Ok(front.push((id_at(body, base as int), weight)))
            } else {
                Err(
                    Failure::Corruption(
                        context + ": stored hub neighbor at body offset "@ + decimal(base)
                            + " is not v7"@,
                    ),
                )
            },
        }
    }
}

/// The links that a stored list holds.
pub open spec fn stored_links(bytes: Seq<u8>, context: Seq<char>) -> Result<
    Seq<(u128, u32)>,
    Failure,
> {
    match list_body(bytes, context, 20) {
        Err(e) => Err(e),
        Ok((body, n)) => link_entries(body, context, n),
    }
}

/// The size and the number of hubs that are stored.
pub open spec fn stored_meta(bytes: Seq<u8>) -> Result<(u32, u32), Failure> {
    match versioned_body(bytes, "cluster_meta"@) {
        Err(e) => Err(e),
        Ok(body) => if body.len() != 8 {
            Err(
                Failure::Corruption(
                    "cluster_meta expected 8 body bytes after version, got "@ + decimal(body.len()),
                ),
            )
        } else {
            Ok((le_value(body.subrange(0, 4)) as u32, le_value(body.subrange(4, 8)) as u32))
        },
    }
}

/// The drift that is stored.
pub open spec fn stored_drift(bytes: Seq<u8>) -> Result<(u64, u32), Failure> {
    match versioned_body(bytes, "cluster_drift"@) {
        Err(e) => Err(e),
        Ok(body) => if body.len() != 12 {
            Err(
                Failure::Corruption(
                    "cluster_drift expected 12 body bytes after version, got "@ + decimal(
                        body.len(),
                    ),
                ),
            )
        } else {
            Ok((le_value(body.subrange(0, 8)) as u64, le_value(body.subrange(8, 12)) as u32))
        },
    }
}

/// The number that is stored.
pub open spec fn stored_u32(bytes: Seq<u8>, context: Seq<char>) -> Result<u32, Failure> {
    if bytes.len() != 4 {
        Err(Failure::Corruption(context + ": expected 4 bytes, got "@ + decimal(bytes.len())))
    } else {
        Ok(le_value(bytes) as u32)
    }
}

/// What follows the version byte.
fn read_format_byte<'a>(bytes: &'a [u8], context: &'static str) -> (r: Result<
    &'a [u8],
    SwIndexError,
>)
    ensures
        match (r, versioned_body(bytes@, context@)) {
            (Ok(body), Ok(b)) => body@ == b,
            (Err(e), Err(f)) => e@ == f,
            _ => false,
        },
{
    if bytes.len() == 0 {
        let mut message = context.to_owned();
        message.append(": payload is empty (expected at least 1 byte for format version)");
        return Err(SwIndexError::Corruption(message));
    }
    if bytes[0] != FORMAT_V1 {
        return Err(SwIndexError::UnsupportedFormat { found: bytes[0], context });
    }
    assert(bytes@.subrange(1, bytes@.len() as int) =~= bytes@.skip(1));
    Ok(slice_subrange(bytes, 1, bytes.len()))
}

/// The body of a list whose entries have `width` bytes, and its length.
pub(crate) fn read_list_body<'a>(bytes: &'a [u8], context: &'static str, width: u64) -> (r: Result<
    (&'a [u8], usize),
    SwIndexError,
>)
    requires
        0 < width <= 0xffff,
    ensures
        match (r, list_body(bytes@, context@, width as nat)) {
            (Ok((body, n)), Ok((b, k))) => body@ == b && n == k && body@.len() == 4 + n * width,
            (Err(e), Err(f)) => e@ == f,
            _ => false,
        },
{
    let body = match read_format_byte(bytes, context) {
        Ok(body) => body,
        Err(e) => {
            return Err(e);
        },
    };
    if body.len() < 4 {
        let mut message = context.to_owned();
        message.append(": payload body < 4 bytes after version byte");
        return Err(SwIndexError::Corruption(message));
    }
    let n: u64 = read_le(body, 0, 4);
    proof {
        assert(body@.subrange(0, 4) =~= body@.take(4));
        lemma_pow256();
        assert(0 <= n * width <= 0xffff_ffff * 0xffff) by (nonlinear_arith)
            requires
                0 <= n <= 0xffff_ffff,
                0 < width <= 0xffff,
        ;
    }
    let expected: u64 = 4 + n * width;
    if body.len() as u64 != expected {
        let message = with_number(context.to_owned(), ": expected ", expected);
        let message = with_number(message, " body bytes for len=", n);
        return Err(
            SwIndexError::Corruption(with_number(message, ", got ", body.len() as u64)),
        );
    }
    proof {
        assert(n <= n * width) by (nonlinear_arith)
            requires
                0 <= n,
                width > 0,
        ;
    }
    Ok((body, n as usize))
}

/// The value of the sixteen bytes from `start` on.
pub(crate) fn read_id(body: &[u8], start: usize) -> (x: u128)
    requires
        start + 16 <= body@.len(),
    ensures
        x == id_at(body@, start as int),
        x == be_value(body@.subrange(start as int, start + 16)),
{
    let mut bytes: [u8; 16] = [0u8;16];
    let mut i: usize = 0;
    while i < 16
        invariant
            i <= 16,
            start + 16 <= body@.len(),
            forall|j: int| 0 <= j < i ==> bytes@[j] == body@[start + j],
        decreases 16 - i,
    {
        assert(body.len() == body@.len());
        bytes[i] = body[start + i];
        i += 1;
    }
    assert(bytes@ =~= body@.subrange(start as int, start + 16));
    uuid_value(bytes)
}

/// Appends the bytes of an identifier.
fn push_id(out: &mut Vec<u8>, id: &Uuid7)
    ensures
        final(out)@ == old(out)@ + be_bytes(id@ as nat, 16),
        version_of(id@) == 7,
{
    let bytes = id.as_bytes();
    let mut i: usize = 0;
    let ghost before = out@;
    while i < 16
        invariant
            i <= 16,
            bytes@ == be_bytes(id@ as nat, 16),
            bytes@.len() == 16,
            out@ == before + bytes@.take(i as int),
        decreases 16 - i,
    {
        out.push(bytes[i]);
        assert(bytes@.take(i + 1) =~= bytes@.take(i as int).push(bytes@[i as int]));
        i += 1;
    }
    assert(bytes@.take(16) =~= bytes@);
}

/// The stored form of a list of identifiers.
pub fn encode_uuid_vec(uuids: &[Uuid7]) -> (r: Result<Vec<u8>, SwIndexError>)
    ensures
        match r {
            Ok(bytes) => uuids@.len() <= u32::MAX && bytes@ == uuid_vec_bytes(values(uuids@)),
            Err(e) => uuids@.len() > u32::MAX && e@ == Failure::Corruption(
                "vec len exceeds u32"@,
            ),
        },
{
    if uuids.len() as u64 > 0xffff_ffff {
        return Err(corrupt("vec len exceeds u32"));
    }
    let mut out: Vec<u8> = Vec::new();
    out.push(FORMAT_V1);
    push_le(&mut out, uuids.len() as u64, 4);
    let ghost head = out@;
    let ghost all = values(uuids@);
    let mut i: usize = 0;
    while i < uuids.len()
        invariant
            i <= uuids@.len(),
            all == values(uuids@),
            out@ == head + id_bytes(all.take(i as int)),
        decreases uuids@.len() - i,
    {
        push_id(&mut out, &uuids[i]);
        proof {
            let now = all.take(i + 1);
            assert(now.drop_last() =~= all.take(i as int));
            assert(now.last() == uuids@[i as int]@);
            assert(out@ =~= head + id_bytes(now));
        }
        i += 1;
    }
    proof {
        assert(all.take(i as int) =~= all);
        assert(head =~= seq![FORMAT_V1] + le_bytes(all.len(), 4));
    }
    Ok(out)
}

/// The identifiers that a stored list holds.
pub fn decode_uuid_vec(bytes: &[u8], context: &'static str) -> (r: Result<Vec<Uuid7>, SwIndexError>)
    ensures
        match (r, stored_uuids(bytes@, context@)) {
            (Ok(ids), Ok(s)) => values(ids@) == s,
            (Err(e), Err(f)) => e@ == f,
            _ => false,
        },
{
    let (body, n) = match read_list_body(bytes, context, 16) {
        Ok(pair) => pair,
        Err(e) => {
            return Err(e);
        },
    };
    let ghost goal = stored_uuids(bytes@, context@);
    let mut ids: Vec<Uuid7> = Vec::new();
    let mut i: usize = 0;
    assert(body.len() == body@.len());
    assert(values(ids@) =~= Seq::empty());
    while i < n
        invariant
            i <= n,
            body@.len() == 4 + n * 16 <= usize::MAX,
            goal == stored_uuids(bytes@, context@),
            goal == uuid_entries(body@, context@, n as nat),
            uuid_entries(body@, context@, i as nat) == Ok::<Seq<u128>, Failure>(values(ids@)),
        decreases n - i,
    {
        let start: usize = 4 + i * 16;
        match Uuid7::from_uuid(read_id(body, start)) {
            Some(id) => {
                let ghost before = values(ids@);
                ids.push(id);
                assert(values(ids@) =~= before.push(id@));
            },
            None => {
                let mut message = with_number(
                    context.to_owned(),
                    ": stored UUID at body offset ",
                    start as u64,
                );
                message.append(" is not version 7");
                proof {
                    lemma_uuid_entries_stop(body@, context@, (i + 1) as nat, n as nat);
                }
                return Err(SwIndexError::Corruption(message));
            },
        }
        i += 1;
    }
    Ok(ids)
}

/// After a malformed entry nothing changes.
proof fn lemma_uuid_entries_stop(body: Seq<u8>, context: Seq<char>, k: nat, n: nat)
    requires
        k <= n,
        uuid_entries(body, context, k) is Err,
    ensures
        uuid_entries(body, context, n) == uuid_entries(body, context, k),
    decreases n,
{
    if k < n {
        lemma_uuid_entries_stop(body, context, k, (n - 1) as nat);
    }
}

/// The links behind some identifiers and weights.
pub open spec fn link_values(links: Seq<(Uuid7, u32)>) -> Seq<(u128, u32)> {
    links.map_values(|l: (Uuid7, u32)| (l.0@, l.1))
}

/// The stored form of a list of links. A link is an identifier and a weight, which is
/// the bit pattern of a single-precision number.
pub fn encode_hub_neighbors(items: &[(Uuid7, u32)]) -> (r: Result<Vec<u8>, SwIndexError>)
    ensures
        match r {
            Ok(bytes) => items@.len() <= u32::MAX && bytes@ == hub_neighbors_bytes(
                link_values(items@),
            ),
            Err(e) => items@.len() > u32::MAX && e@ == Failure::Corruption(
                "hub-neighbors len exceeds u32"@,
            ),
        },
{
    if items.len() as u64 > 0xffff_ffff {
        return Err(corrupt("hub-neighbors len exceeds u32"));
    }
    let mut out: Vec<u8> = Vec::new();
    out.push(FORMAT_V1);
    push_le(&mut out, items.len() as u64, 4);
    let ghost head = out@;
    let ghost all = link_values(items@);
    let mut i: usize = 0;
    while i < items.len()
        invariant
            i <= items@.len(),
            all == link_values(items@),
            out@ == head + link_bytes(all.take(i as int)),
        decreases items@.len() - i,
    {
        push_id(&mut out, &items[i].0);
        push_le(&mut out, items[i].1 as u64, 4);
        proof {
            let now = all.take(i + 1);
            assert(now.drop_last() =~= all.take(i as int));
            assert(now.last() == (items@[i as int].0@, items@[i as int].1));
            assert(out@ =~= head + link_bytes(now));
        }
        i += 1;
    }
    proof {
        assert(all.take(i as int) =~= all);
        assert(head =~= seq![FORMAT_V1] + le_bytes(all.len(), 4));
    }
    Ok(out)
}

/// The links that a stored list holds.
pub fn decode_hub_neighbors(bytes: &[u8], context: &'static str) -> (r: Result<
    Vec<(Uuid7, u32)>,
    SwIndexError,
>)
    ensures
        match (r, stored_links(bytes@, context@)) {
            (Ok(links), Ok(s)) => link_values(links@) == s && links@.len() < usize::MAX,
            (Err(e), Err(f)) => e@ == f,
            _ => false,
        },
{
    let (body, n) = match read_list_body(bytes, context, 20) {
        Ok(pair) => pair,
        Err(e) => {
            return Err(e);
        },
    };
    let ghost goal = stored_links(bytes@, context@);
    let mut links: Vec<(Uuid7, u32)> = Vec::new();
    let mut i: usize = 0;
    assert(body.len() == body@.len());
    assert(link_values(links@) =~= Seq::empty());
    while i < n
        invariant
            i <= n,
            body@.len() == 4 + n * 20 <= usize::MAX,
            goal == stored_links(bytes@, context@),
            goal == link_entries(body@, context@, n as nat),
            links@.len() == i,
            link_entries(body@, context@, i as nat) == Ok::<Seq<(u128, u32)>, Failure>(
                link_values(links@),
            ),
        decreases n - i,
    {
        let base: usize = 4 + i * 20;
        match Uuid7::from_uuid(read_id(body, base)) {
            Some(id) => {
                proof {
                    lemma_pow256();
                }
                let weight: u32 = read_le(body, base + 16, 4) as u32;
                let ghost before = link_values(links@);
                links.push((id, weight));
                assert(link_values(links@) =~= before.push((id@, weight)));
            },
            None => {
                let mut message = with_number(
                    context.to_owned(),
                    ": stored hub neighbor at body offset ",
                    base as u64,
                );
                message.append(" is not v7");
                proof {
                    lemma_link_entries_stop(body@, context@, (i + 1) as nat, n as nat);
                }
                return Err(SwIndexError::Corruption(message));
            },
        }
        i += 1;
    }
    Ok(links)
}

/// After a malformed entry nothing changes.
proof fn lemma_link_entries_stop(body: Seq<u8>, context: Seq<char>, k: nat, n: nat)
    requires
        k <= n,
        link_entries(body, context, k) is Err,
    ensures
        link_entries(body, context, n) == link_entries(body, context, k),
    decreases n,
{
    if k < n {
        lemma_link_entries_stop(body, context, k, (n - 1) as nat);
    }
}

/// The stored form of the size and the number of hubs of a cluster.
pub fn encode_cluster_meta(size: u32, hub_count: u32) -> (out: Vec<u8>)
    ensures
        out@ == cluster_meta_bytes(size, hub_count),
{
    let mut out: Vec<u8> = Vec::new();
    out.push(FORMAT_V1);
    push_le(&mut out, size as u64, 4);
    push_le(&mut out, hub_count as u64, 4);
    assert(out@ =~= cluster_meta_bytes(size, hub_count));
    out
}

/// The size and the number of hubs that are stored.
pub fn decode_cluster_meta(bytes: &[u8]) -> (r: Result<(u32, u32), SwIndexError>)
    ensures
        match (r, stored_meta(bytes@)) {
            (Ok(a), Ok(b)) => a == b,
            (Err(e), Err(f)) => e@ == f,
            _ => false,
        },
{
    let body = match read_format_byte(bytes, "cluster_meta") {
        Ok(body) => body,
        Err(e) => {
            return Err(e);
        },
    };
    if body.len() != 8 {
        let mut message = "cluster_meta expected 8 body bytes after version, got ".to_owned();
        push_decimal(&mut message, body.len() as u64);
        return Err(SwIndexError::Corruption(message));
    }
    proof {
        lemma_pow256();
    }
    Ok((read_le(body, 0, 4) as u32, read_le(body, 4, 4) as u32))
}

/// The stored form of the drift of a cluster.
pub fn encode_cluster_drift(generation: u64, delta_inserts: u32) -> (out: Vec<u8>)
    ensures
        out@ == cluster_drift_bytes(generation, delta_inserts),
{
    let mut out: Vec<u8> = Vec::new();
    out.push(FORMAT_V1);
    push_le(&mut out, generation, 8);
    push_le(&mut out, delta_inserts as u64, 4);
    assert(out@ =~= cluster_drift_bytes(generation, delta_inserts));
    out
}

/// The drift that is stored.
pub fn decode_cluster_drift(bytes: &[u8]) -> (r: Result<(u64, u32), SwIndexError>)
    ensures
        match (r, stored_drift(bytes@)) {
            (Ok(a), Ok(b)) => a == b,
            (Err(e), Err(f)) => e@ == f,
            _ => false,
        },
{
    let body = match read_format_byte(bytes, "cluster_drift") {
        Ok(body) => body,
        Err(e) => {
            return Err(e);
        },
    };
    if body.len() != 12 {
        let mut message = "cluster_drift expected 12 body bytes after version, got ".to_owned();
        push_decimal(&mut message, body.len() as u64);
        return Err(SwIndexError::Corruption(message));
    }
    proof {
        lemma_pow256();
    }
    Ok((read_le(body, 0, 8), read_le(body, 8, 4) as u32))
}

/// The stored form of a number.
pub fn encode_u32(x: u32) -> (out: Vec<u8>)
    ensures
        out@ == le_bytes(x as nat, 4),
{
    let mut out: Vec<u8> = Vec::new();
    push_le(&mut out, x as u64, 4);
    assert(out@ =~= le_bytes(x as nat, 4));
    out
}

/// The number that is stored.
pub fn decode_u32(bytes: &[u8], context: &str) -> (r: Result<u32, SwIndexError>)
    ensures
        match (r, stored_u32(bytes@, context@)) {
            (Ok(a), Ok(b)) => a == b,
            (Err(e), Err(f)) => e@ == f,
            _ => false,
        },
{
    if bytes.len() != 4 {
        return Err(
            SwIndexError::Corruption(
                with_number(context.to_owned(), ": expected 4 bytes, got ", bytes.len() as u64),
            ),
        );
    }
    proof {
        lemma_pow256();
        assert(bytes@.subrange(0, 4) =~= bytes@);
    }
    Ok(read_le(bytes, 0, 4) as u32)
}

/// The key of an identifier.
pub fn uuid_key(id: &Uuid7) -> (key: Vec<u8>)
    ensures
        key@ == be_bytes(id@ as nat, 16),
        version_of(id@) == 7,
{
    let mut key: Vec<u8> = Vec::new();
    push_id(&mut key, id);
    assert(key@ =~= be_bytes(id@ as nat, 16));
    key
}

/// Where an identifier stands among the bytes of a list.
proof fn lemma_id_bytes(ids: Seq<u128>)
    ensures
        id_bytes(ids).len() == 16 * ids.len(),
        forall|j: int|
            0 <= j < ids.len() ==> id_bytes(ids).subrange(16 * j, 16 * j + 16) == be_bytes(
                #[trigger] ids[j] as nat,
                16,
            ),
    decreases ids.len(),
{
    if ids.len() > 0 {
        let front = ids.drop_last();
        lemma_id_bytes(front);
        lemma_be_bytes_len(ids.last() as nat, 16);
        assert forall|j: int| 0 <= j < ids.len() implies id_bytes(ids).subrange(
            16 * j,
            16 * j + 16,
        ) == be_bytes(#[trigger] ids[j] as nat, 16) by {
            if j < front.len() {
                assert(front[j] == ids[j]);
                assert(id_bytes(ids).subrange(16 * j, 16 * j + 16) =~= id_bytes(front).subrange(
                    16 * j,
                    16 * j + 16,
                ));
            } else {
                assert(id_bytes(ids).subrange(16 * j, 16 * j + 16) =~= be_bytes(
                    ids[j] as nat,
                    16,
                ));
            }
        }
    }
}

/// Where a link stands among the bytes of a list.
proof fn lemma_link_bytes(links: Seq<(u128, u32)>)
    ensures
        link_bytes(links).len() == 20 * links.len(),
        forall|j: int|
            0 <= j < links.len() ==> link_bytes(links).subrange(20 * j, 20 * j + 20) == be_bytes(
                (#[trigger] links[j]).0 as nat,
                16,
            ) + le_bytes(links[j].1 as nat, 4),
    decreases links.len(),
{
    if links.len() > 0 {
        let front = links.drop_last();
        lemma_link_bytes(front);
        lemma_be_bytes_len(links.last().0 as nat, 16);
        lemma_le_bytes_len(links.last().1 as nat, 4);
        assert forall|j: int| 0 <= j < links.len() implies link_bytes(links).subrange(
            20 * j,
            20 * j + 20,
        ) == be_bytes((#[trigger] links[j]).0 as nat, 16) + le_bytes(links[j].1 as nat, 4) by {
            if j < front.len() {
                assert(front[j] == links[j]);
                assert(link_bytes(links).subrange(20 * j, 20 * j + 20) =~= link_bytes(
                    front,
                ).subrange(20 * j, 20 * j + 20));
            } else {
                assert(link_bytes(links).subrange(20 * j, 20 * j + 20) =~= be_bytes(
                    links[j].0 as nat,
                    16,
                ) + le_bytes(links[j].1 as nat, 4));
            }
        }
    }
}

/// A list of identifiers that was stored reads back as it was.
pub proof fn law_uuid_vec_round_trip(ids: Seq<u128>, context: Seq<char>)
    requires
        ids.len() <= u32::MAX,
        forall|i: int| 0 <= i < ids.len() ==> version_of(#[trigger] ids[i]) == 7,
    ensures
        stored_uuids(uuid_vec_bytes(ids), context) == Ok::<Seq<u128>, Failure>(ids),
{
    let bytes = uuid_vec_bytes(ids);
    let head = le_bytes(ids.len(), 4);
    let body = head + id_bytes(ids);
    lemma_pow256();
    lemma_le_round_trip(ids.len(), 4);
    lemma_id_bytes(ids);
    assert(bytes.skip(1) =~= body);
    assert(body.take(4) =~= head);
    lemma_uuid_entries(ids, body, context, ids.len());
    assert(ids.take(ids.len() as int) =~= ids);
}

proof fn lemma_uuid_entries(ids: Seq<u128>, body: Seq<u8>, context: Seq<char>, k: nat)
    requires
        k <= ids.len(),
        body == le_bytes(ids.len(), 4) + id_bytes(ids),
        forall|i: int| 0 <= i < ids.len() ==> version_of(#[trigger] ids[i]) == 7,
    ensures
        uuid_entries(body, context, k) == Ok::<Seq<u128>, Failure>(ids.take(k as int)),
    decreases k,
{
    lemma_le_bytes_len(ids.len(), 4);
    lemma_id_bytes(ids);
    if k > 0 {
        lemma_uuid_entries(ids, body, context, (k - 1) as nat);
        let j = k - 1;
        let start = 4 + j * 16;
        assert(body.subrange(start, start + 16) =~= id_bytes(ids).subrange(16 * j, 16 * j + 16));
        assert(version_of(ids[j]) == 7);
        lemma_pow256();
        lemma_be_round_trip(ids[j] as nat, 16);
        assert(ids.take(k as int) =~= ids.take(j).push(ids[j]));
    } else {
        assert(ids.take(0) =~= Seq::empty());
    }
}

/// A list of links that was stored reads back as it was.
pub proof fn law_hub_neighbors_round_trip(links: Seq<(u128, u32)>, context: Seq<char>)
    requires
        links.len() <= u32::MAX,
        forall|i: int| 0 <= i < links.len() ==> version_of((#[trigger] links[i]).0) == 7,
    ensures
        stored_links(hub_neighbors_bytes(links), context) == Ok::<Seq<(u128, u32)>, Failure>(
            links,
        ),
{
    let bytes = hub_neighbors_bytes(links);
    let head = le_bytes(links.len(), 4);
    let body = head + link_bytes(links);
    lemma_pow256();
    lemma_le_round_trip(links.len(), 4);
    lemma_link_bytes(links);
    assert(bytes.skip(1) =~= body);
    assert(body.take(4) =~= head);
    lemma_link_entries(links, body, context, links.len());
    assert(links.take(links.len() as int) =~= links);
}

proof fn lemma_link_entries(links: Seq<(u128, u32)>, body: Seq<u8>, context: Seq<char>, k: nat)
    requires
        k <= links.len(),
        body == le_bytes(links.len(), 4) + link_bytes(links),
        forall|i: int| 0 <= i < links.len() ==> version_of((#[trigger] links[i]).0) == 7,
    ensures
        link_entries(body, context, k) == Ok::<Seq<(u128, u32)>, Failure>(links.take(k as int)),
    decreases k,
{
    lemma_le_bytes_len(links.len(), 4);
    lemma_link_bytes(links);
    if k > 0 {
        lemma_link_entries(links, body, context, (k - 1) as nat);
        let j = k - 1;
        let base = 4 + j * 20;
        let (id, weight) = links[j];
        let piece = link_bytes(links).subrange(20 * j, 20 * j + 20);
        assert(piece == be_bytes(id as nat, 16) + le_bytes(weight as nat, 4));
        lemma_be_bytes_len(id as nat, 16);
        lemma_le_bytes_len(weight as nat, 4);
        assert(body.subrange(base, base + 20) =~= piece);
        assert(body.subrange(base, base + 16) =~= be_bytes(id as nat, 16)) by {
            assert(body.subrange(base, base + 16) =~= piece.take(16));
        }
        assert(body.subrange(base + 16, base + 20) =~= le_bytes(weight as nat, 4)) by {
            assert(body.subrange(base + 16, base + 20) =~= piece.skip(16));
        }
        assert(version_of(links[j].0) == 7);
        lemma_pow256();
        lemma_be_round_trip(id as nat, 16);
        lemma_le_round_trip(weight as nat, 4);
        assert(links.take(k as int) =~= links.take(j).push(links[j]));
    } else {
        assert(links.take(0) =~= Seq::empty());
    }
}

/// A size and a number of hubs that were stored read back as they were.
pub proof fn law_cluster_meta_round_trip(size: u32, hub_count: u32)
    ensures
        stored_meta(cluster_meta_bytes(size, hub_count)) == Ok::<(u32, u32), Failure>(
            (size, hub_count),
        ),
{
    lemma_pow256();
    lemma_le_round_trip(size as nat, 4);
    lemma_le_round_trip(hub_count as nat, 4);
    let body = cluster_meta_bytes(size, hub_count).skip(1);
    assert(body =~= le_bytes(size as nat, 4) + le_bytes(hub_count as nat, 4));
    assert(body.subrange(0, 4) =~= le_bytes(size as nat, 4));
    assert(body.subrange(4, 8) =~= le_bytes(hub_count as nat, 4));
}

/// A drift that was stored reads back as it was.
pub proof fn law_cluster_drift_round_trip(generation: u64, delta_inserts: u32)
    ensures
        stored_drift(cluster_drift_bytes(generation, delta_inserts)) == Ok::<(u64, u32), Failure>(
            (generation, delta_inserts),
        ),
{
    lemma_pow256();
    lemma_le_round_trip(generation as nat, 8);
    lemma_le_round_trip(delta_inserts as nat, 4);
    let body = cluster_drift_bytes(generation, delta_inserts).skip(1);
    assert(body =~= le_bytes(generation as nat, 8) + le_bytes(delta_inserts as nat, 4));
    assert(body.subrange(0, 8) =~= le_bytes(generation as nat, 8));
    assert(body.subrange(8, 12) =~= le_bytes(delta_inserts as nat, 4));
}

/// A number that was stored reads back as it was.
pub proof fn law_u32_round_trip(x: u32, context: Seq<char>)
    ensures
        stored_u32(le_bytes(x as nat, 4), context) == Ok::<u32, Failure>(x),
{
    lemma_pow256();
    lemma_le_round_trip(x as nat, 4);
}

} // verus!
