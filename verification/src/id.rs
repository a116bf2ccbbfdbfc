//! Asset identifiers.

use std::borrow::Borrow;
use uuid::Uuid;
use vstd::prelude::*;

verus! {

/// The bits of a UUID that hold its version and its variant.
pub const VERSION_AND_VARIANT_BITS: u128 = 0x0000_0000_0000_f000_c000_0000_0000_0000;

/// Those bits as a random UUID has them: the version 4 and the variant of
/// RFC 9562.
pub const RANDOM_VERSION_AND_VARIANT: u128 = 0x0000_0000_0000_4000_8000_0000_0000_0000;

/// `value` is the value of a random UUID: a UUID of the version 4 and of the
/// variant of RFC 9562. Its other 122 bits are free.
pub open spec fn is_random_uuid(value: u128) -> bool {
    (value & VERSION_AND_VARIANT_BITS) == RANDOM_VERSION_AND_VARIANT
}

/// `Uuid::new_v4`, the UUID taken as a 128-bit value (`Uuid::as_u128`): a
/// random UUID. Whatever the random bits are, the version is 4 and the
/// variant is that of RFC 9562; nothing else is known of the value
/// beforehand.
#[verifier::external_body]
pub(crate) fn random_uuid() -> (value: u128)
    ensures
        is_random_uuid(value),
{
    Uuid::new_v4().as_u128()
}

#[verifier::external_type_specification]
#[verifier::external_body]
pub struct ExUuid(Uuid);

/// The 128-bit value that `Uuid::as_u128` gives for `uuid`.
pub uninterp spec fn uuid_value(uuid: Uuid) -> u128;

/// The UUID that `Uuid::from_u128` makes of `value`.
pub uninterp spec fn uuid_of(value: u128) -> Uuid;

/// `Uuid::as_u128`: the 128-bit value of the UUID.
#[verifier::external_body]
pub(crate) fn uuid_as_u128(uuid: Uuid) -> (value: u128)
    ensures
        value == uuid_value(uuid),
{
    uuid.as_u128()
}

/// `Uuid::from_u128`: the UUID with the 128-bit value `value`.
#[verifier::external_body]
pub(crate) fn uuid_from_u128(value: u128) -> (uuid: Uuid)
    ensures
        uuid == uuid_of(value),
        uuid_value(uuid) == value,
{
    Uuid::from_u128(value)
}

/// The number that `bytes` hold, the most significant byte first.
pub open spec fn be_value(bytes: Seq<u8>) -> nat
    decreases bytes.len(),
{
    if bytes.len() == 0 {
        0
    } else {
        be_value(bytes.drop_last()) * 256 + bytes.last() as nat
    }
}

/// `u128::from_be_bytes`: the number that the bytes hold, the most
/// significant byte first.
#[verifier::external_body]
pub(crate) fn u128_from_be_bytes(bytes: [u8; 16]) -> (value: u128)
    ensures
        value == be_value(bytes@),
{
    u128::from_be_bytes(bytes)
}

/// `u128::to_be_bytes`: the sixteen bytes that hold the number, the most
/// significant byte first.
#[verifier::external_body]
pub(crate) fn u128_to_be_bytes(value: u128) -> (bytes: [u8; 16])
    ensures
        be_value(bytes@) == value,
{
    value.to_be_bytes()
}

/// The number of values that `len` bytes can hold.
pub open spec fn span(len: nat) -> nat
    decreases len,
{
    if len == 0 {
        1
    } else {
        256 * span((len - 1) as nat)
    }
}

/// Bytes hold a number below their span, and sixteen bytes one that fits in
/// 128 bits.
pub proof fn lemma_be_value_fits(bytes: Seq<u8>)
    ensures
        be_value(bytes) < span(bytes.len()),
        bytes.len() == 16 ==> be_value(bytes) <= u128::MAX,
    decreases bytes.len(),
{
    if bytes.len() > 0 {
        lemma_be_value_fits(bytes.drop_last());
    }
    if bytes.len() == 16 {
        reveal_with_fuel(span, 17);
        assert(span(16) == 0x1_0000_0000_0000_0000_0000_0000_0000_0000);
    }
}

/// Bytes of one length that hold the same number are the same bytes.
pub proof fn lemma_be_value_one_to_one(first: Seq<u8>, second: Seq<u8>)
    requires
        first.len() == second.len(),
        be_value(first) == be_value(second),
    ensures
        first == second,
    decreases first.len(),
{
    if first.len() > 0 {
        lemma_be_value_one_to_one(first.drop_last(), second.drop_last());
        assert(first == first.drop_last().push(first.last()));
        assert(second == second.drop_last().push(second.last()));
    } else {
        assert(first == second);
    }
}

/// The byte of `value` that `shift` bits stand below.
pub open spec fn byte_at(value: u128, shift: u128) -> u8 {
    ((value >> shift) & 0xff) as u8
}

/// The sixteen bytes that hold `value`, the most significant byte first.
pub open spec fn be_bytes(value: u128) -> [u8; 16] {
    [
        byte_at(value, 120),
        byte_at(value, 112),
        byte_at(value, 104),
        byte_at(value, 96),
        byte_at(value, 88),
        byte_at(value, 80),
        byte_at(value, 72),
        byte_at(value, 64),
        byte_at(value, 56),
        byte_at(value, 48),
        byte_at(value, 40),
        byte_at(value, 32),
        byte_at(value, 24),
        byte_at(value, 16),
        byte_at(value, 8),
        byte_at(value, 0),
    ]
}

/// The first `count` of the bytes of `value` hold what stands above the
/// other bytes.
proof fn lemma_be_bytes_upto(value: u128, count: nat)
    requires
        1 <= count <= 16,
    ensures
        be_value(be_bytes(value)@.take(count as int)) == value >> ((128 - 8 * count) as u128),
    decreases count,
{
    let bytes = be_bytes(value)@;
    let shift = (128 - 8 * count) as u128;
    assert(bytes.take(count as int).drop_last() == bytes.take(count - 1));
    assert(bytes.take(count as int).last() == byte_at(value, shift));
    if count == 1 {
        assert(byte_at(value, 120) == value >> 120u128) by (bit_vector);
        assert(be_value(bytes.take(0)) == 0);
    } else {
        lemma_be_bytes_upto(value, (count - 1) as nat);
        let above = (shift + 8) as u128;
        assert(shift <= 112 && above == shift + 8 ==> (value >> above) * 256 + (((value >> shift)
            & 0xff) as u8) as u128 == value >> shift) by (bit_vector);
    }
}

/// The bytes of `value` hold `value`.
pub proof fn lemma_be_bytes(value: u128)
    ensures
        be_value(be_bytes(value)@) == value,
{
    lemma_be_bytes_upto(value, 16);
    assert(be_bytes(value)@.take(16) == be_bytes(value)@);
    assert(value >> 0u128 == value) by (bit_vector);
}

/// A unique ID associated with an asset: sixteen bytes, which hold a 128-bit
/// value, the most significant byte first.
#[derive(Copy, Clone, Debug, Hash, PartialEq, Eq, PartialOrd, Ord)]
pub struct WassetId {
    bytes: [u8; 16],
}

impl View for WassetId {
    type V = u128;

    closed spec fn view(&self) -> u128 {
        be_value(self.bytes@) as u128
    }
}

impl From<Uuid> for WassetId {
    fn from(value: Uuid) -> (id: Self) {
        let id = WassetId::from_u128(uuid_as_u128(value));
        proof {
            lemma_be_bytes(uuid_value(value));
            lemma_same_value(id, WassetId { bytes: be_bytes(uuid_value(value)) });
        }
        id
    }
}

impl vstd::std_specs::convert::FromSpecImpl<Uuid> for WassetId {
    open spec fn obeys_from_spec() -> bool {
        true
    }

    closed spec fn from_spec(value: Uuid) -> Self {
        WassetId { bytes: be_bytes(uuid_value(value)) }
    }
}

impl From<WassetId> for Uuid {
    fn from(value: WassetId) -> (uuid: Uuid) {
        uuid_from_u128(value.as_u128())
    }
}

impl vstd::std_specs::convert::FromSpecImpl<WassetId> for Uuid {
    open spec fn obeys_from_spec() -> bool {
        true
    }

    open spec fn from_spec(value: WassetId) -> Uuid {
        uuid_of(value@)
    }
}

impl Borrow<[u8; 16]> for WassetId {
    fn borrow(&self) -> (bytes: &[u8; 16])
        ensures
            be_value(vstd::array::array_view(*bytes)) == self@,
    {
        self.as_bytes()
    }
}

/// IDs with the same value are the same ID.
pub proof fn lemma_same_value(first: WassetId, second: WassetId)
    requires
        first@ == second@,
    ensures
        first == second,
{
    lemma_be_value_fits(first.bytes@);
    lemma_be_value_fits(second.bytes@);
    lemma_be_value_one_to_one(first.bytes@, second.bytes@);
    assert(first.bytes =~= second.bytes);
}

/// The ID that is made of a UUID has the value of the UUID.
pub proof fn lemma_id_of_uuid(uuid: Uuid)
    ensures
        <WassetId as vstd::std_specs::convert::FromSpec<Uuid>>::from_spec(uuid)@ == uuid_value(uuid),
{
    lemma_be_bytes(uuid_value(uuid));
}

impl WassetId {
    /// Creates a new ID from the given group of bytes, the most significant
    /// byte first.
    pub fn from_bytes(bytes: [u8; 16]) -> (id: Self)
        ensures
            id@ == be_value(bytes@),
    {
        proof {
            lemma_be_value_fits(bytes@);
        }
        WassetId { bytes }
    }

    /// Gets a representation of this ID as bytes, the most significant byte
    /// first.
    pub fn as_bytes(&self) -> (bytes: &[u8; 16])
        ensures
            be_value(bytes@) == self@,
    {
        proof {
            lemma_be_value_fits(self.bytes@);
        }
        &self.bytes
    }

    /// Creates the ID with the given 128-bit value.
    pub fn from_u128(value: u128) -> (id: Self)
        ensures
            id@ == value,
    {
        WassetId { bytes: u128_to_be_bytes(value) }
    }

    /// Creates a new random ID: the value of a random UUID, with the version
    /// and the variant that every random UUID has.
    pub fn generate() -> (id: Self)
        ensures
            is_random_uuid(id@),
    {
        WassetId::from_u128(random_uuid())
    }

    /// Gets the 128-bit value of this ID.
    pub fn as_u128(&self) -> (value: u128)
        ensures
            value == self@,
    {
        u128_from_be_bytes(self.bytes)
    }
}

} // verus!
