//! Identifiers and timestamps that the layers share.

use vstd::prelude::*;
use crate::clock::now_millis;

verus! {

/// The bits of a random identifier that are not random: its version and
/// its variant.
pub const FIXED_BITS: u128 = 0x0000_0000_0000_F000_C000_0000_0000_0000;

/// What the fixed bits of a random identifier are: version 4, variant 1.
pub const RANDOM_MARK: u128 = 0x0000_0000_0000_4000_8000_0000_0000_0000;

/// The text of an identifier, as `uuid::Uuid` displays the identifier of
/// this number: 32 hexadecimal digits in five groups.
pub uninterp spec fn uuid_text(id: u128) -> Seq<char>;

/// `uuid::Uuid::new_v4`, as the number that `as_u128` gives for it: 122
/// random bits around the marks of version 4 and of the variant of RFC 9562.
#[verifier::external_body]
pub(crate) fn fresh_uuid() -> (id: u128)
    ensures
        id & FIXED_BITS == RANDOM_MARK,
{
    uuid::Uuid::new_v4().as_u128()
}

/// The `Display` of `uuid::Uuid`, for the identifier that `from_u128` makes
/// of the number.
#[verifier::external_body]
pub(crate) fn show_uuid(id: u128) -> (text: String)
    ensures
        text@ == uuid_text(id),
{
    uuid::Uuid::from_u128(id).to_string()
}

/// Node identifier in the cluster: a UUID as a number.
#[derive(Debug, Clone, Copy, PartialEq, Eq, Hash, Structural)]
pub struct NodeId(pub u128);

impl NodeId {
    /// A random identifier.
    pub fn new() -> (id: Self)
        ensures
            id.0 & FIXED_BITS == RANDOM_MARK,
    {
        NodeId(fresh_uuid())
    }

    /// The identifier as text.
    pub fn to_string(&self) -> (text: String)
        ensures
            text@ == uuid_text(self.0),
    {
        show_uuid(self.0)
    }
}

/// Partition identifier for data sharding.
#[derive(Debug, Clone, Copy, PartialEq, Eq, Hash, Structural)]
pub struct PartitionId(pub u64);

impl PartitionId {
    /// The partition of this number.
    pub fn new(id: u64) -> (partition: Self)
        ensures
            partition.0 == id,
    {
        PartitionId(id)
    }
}

/// Transaction identifier: a UUID as a number.
#[derive(Debug, Clone, Copy, PartialEq, Eq, Hash, Structural)]
pub struct TransactionId(pub u128);

impl TransactionId {
    /// A random identifier.
    pub fn new() -> (id: Self)
        ensures
            id.0 & FIXED_BITS == RANDOM_MARK,
    {
        TransactionId(fresh_uuid())
    }
}

/// Key type for database operations.
pub type Key = Vec<u8>;

/// Value type for database operations.
pub type Value = Vec<u8>;

/// Timestamp for versioning: milliseconds since the Unix epoch.
#[derive(Debug, Clone, Copy, PartialEq, Eq, PartialOrd, Ord, Structural)]
pub struct Timestamp(pub u64);

impl Timestamp {
    /// The time that the system clock shows.
    pub fn now() -> (time: Self) {
        Timestamp(now_millis())
    }
}

} // verus!
