//! Stable intrinsic identity for nodes and edges.
//!
//! Every node and every edge has a 128-bit identifier, a version-7 UUID. Such
//! an identifier is minted where the entity is created, needs no coordination,
//! and leads with a millisecond timestamp, so byte order is creation order.
//!
//! The library reads an identifier as the 128-bit number that its sixteen bytes
//! denote, most significant byte first. [`Uuid7`] holds that number and
//! guarantees that its version field says 7. The only ways to obtain one are
//! [`Uuid7::now`], which mints it, and [`Uuid7::from_uuid`] and [`Uuid7::from_bytes`],
//! which validate it.
use crate::bytes::{be_bytes, be_value, hex_digits, lemma_be_round_trip, lemma_pow256};
use uuid::Uuid;
use vstd::prelude::*;

verus! {

/// The version field of a UUID: the high nibble of its seventh byte.
pub open spec fn version_of(x: u128) -> nat {
    (x as nat / 0x1000_0000_0000_0000_0000) % 16
}

/// The canonical text of a UUID: lower-case hexadecimal in groups of 8, 4, 4, 4
/// and 12 digits, with hyphens between them.
pub open spec fn hyphenated(x: u128) -> Seq<char> {
    let h = hex_digits(x as nat, 32);
    h.subrange(0, 8).push('-') + h.subrange(8, 12).push('-') + h.subrange(12, 16).push('-')
        + h.subrange(16, 20).push('-') + h.subrange(20, 32)
}

/// Calls `uuid::Uuid::now_v7`. The result is a version-7 UUID; which one depends
/// on the clock and on chance, and nothing more is claimed of it. The call needs
/// a clock that is not set before 1970 and a working source of random bytes.
#[verifier::external_body]
fn mint_v7() -> (x: u128)
    ensures
        version_of(x) == 7,
{
    Uuid::now_v7().as_u128()
}

/// Calls `uuid::Uuid::get_version_num` on the UUID with the value `x`. It reads
/// the high nibble of the seventh byte.
#[verifier::external_body]
fn version_num(x: u128) -> (v: usize)
    ensures
        v == version_of(x),
{
    Uuid::from_u128(x).get_version_num()
}

/// Calls `uuid::Uuid::into_bytes` on the UUID with the value `x`. The bytes are
/// those of the value, most significant first.
#[verifier::external_body]
fn uuid_bytes(x: u128) -> (b: [u8; 16])
    ensures
        b@ == be_bytes(x as nat, 16),
{
    Uuid::from_u128(x).into_bytes()
}

/// Calls `uuid::Uuid::from_bytes`. The value is the number that the bytes denote,
/// most significant first.
#[verifier::external_body]
pub(crate) fn uuid_value(b: [u8; 16]) -> (x: u128)
    ensures
        x == be_value(b@),
{
    Uuid::from_bytes(b).as_u128()
}

/// Formats the UUID with the value `x` through its `Display`, which writes the
/// canonical hyphenated text.
#[verifier::external_body]
fn uuid_text(x: u128) -> (s: String)
    ensures
        s@ == hyphenated(x),
{
    Uuid::from_u128(x).to_string()
}

/// A UUID version 7: a time-ordered 128-bit identifier.
#[derive(Clone, Copy, Debug, PartialEq, Eq, Hash, PartialOrd, Ord, Structural)]
pub struct Uuid7 {
    value: u128,
}

impl View for Uuid7 {
    type V = u128;

    closed spec fn view(&self) -> u128 {
        self.value
    }
}

impl Uuid7 {
    #[verifier::type_invariant]
    spec fn is_version_seven(self) -> bool {
        version_of(self.value) == 7
    }

    /// Two identifiers with the same value are the same.
    pub proof fn lemma_view_injective(a: Uuid7, b: Uuid7)
        requires
            a@ == b@,
        ensures
            a == b,
    {
    }

    /// Mints a fresh identifier from the system clock.
    pub fn now() -> (id: Self)
        ensures
            version_of(id@) == 7,
    {
        Uuid7 { value: mint_v7() }
    }

    /// Wraps the UUID with the value `uuid` if its version field says 7.
    pub fn from_uuid(uuid: u128) -> (id: Option<Self>)
        ensures
            id is Some <==> version_of(uuid) == 7,
            id is Some ==> id->0@ == uuid,
    {
        if version_num(uuid) == 7 {
            Some(Uuid7 { value: uuid })
        } else {
            None
        }
    }

    /// Wraps the UUID with the given bytes if its version field says 7.
    pub fn from_bytes(bytes: [u8; 16]) -> (id: Option<Self>)
        ensures
            id is Some <==> version_of(be_value(bytes@) as u128) == 7,
            id is Some ==> id->0@ == be_value(bytes@),
    {
        Self::from_uuid(uuid_value(bytes))
    }

    /// The value of the UUID.
    pub fn as_uuid(&self) -> (uuid: u128)
        ensures
            uuid == self@,
            version_of(uuid) == 7,
    {
        proof {
            use_type_invariant(self);
        }
        self.value
    }

    /// The sixteen bytes of the UUID, most significant first.
    pub fn as_bytes(&self) -> (bytes: [u8; 16])
        ensures
            bytes@ == be_bytes(self@ as nat, 16),
            version_of(self@) == 7,
    {
        proof {
            use_type_invariant(self);
        }
        uuid_bytes(self.value)
    }

    /// The canonical hyphenated text of the UUID.
    pub fn to_string(&self) -> (s: String)
        ensures
            s@ == hyphenated(self@),
    {
        uuid_text(self.value)
    }
}

/// Reading the bytes of an identifier gives the identifier's value back.
pub proof fn law_bytes_round_trip(id: Uuid7)
    ensures
        be_value(be_bytes(id@ as nat, 16)) == id@,
{
    lemma_pow256();
    lemma_be_round_trip(id@ as nat, 16);
}

} // verus!
