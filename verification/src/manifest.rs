//! Byte ranges and the manifest that maps asset IDs to them.

use crate::error::{ErrorCause, WassetError};
use crate::id::WassetId;
use fxhash::{FxHashMap, FxHasher};
use std::collections::BTreeMap;
use std::hash::BuildHasherDefault;
use std::ops::Range;
use uuid::Uuid;
use vstd::prelude::*;

verus! {

#[verifier::external_type_specification]
#[verifier::external_body]
pub struct ExFxHasher(FxHasher);

#[verifier::external_type_specification]
#[verifier::external_body]
#[verifier::reject_recursive_types(H)]
pub struct ExBuildHasherDefault<H>(BuildHasherDefault<H>);

/// A half-open range `[start, end)` of byte offsets.
///
/// A range that encoding records starts no later than it ends. A range
/// that was read from a manifest is taken as it stands: where it starts
/// after its end, or ends after the buffer, loading by it fails.
#[derive(Copy, Clone, Debug, PartialEq, Eq, Structural)]
pub struct ByteRange {
    pub start: u32,
    pub end: u32,
}

impl ByteRange {
    /// The range lies within a buffer of `len` bytes.
    pub open spec fn within(self, len: nat) -> bool {
        self.start <= self.end && self.end <= len
    }
}

/// Every range of `manifest` lies within a buffer of `len` bytes.
pub open spec fn ranges_within(manifest: Map<u128, ByteRange>, len: nat) -> bool {
    forall|id: u128| #[trigger] manifest.contains_key(id) ==> manifest[id].within(len)
}

/// `entries` holds every entry of `map` once.
pub open spec fn lists<V>(entries: Seq<(u128, V)>, map: Map<u128, V>) -> bool {
    &&& forall|i: int, j: int|
        0 <= i < j < entries.len() ==> (#[trigger] entries[i]).0 != (#[trigger] entries[j]).0
    &&& forall|i: int|
        0 <= i < entries.len() ==> map.contains_key((#[trigger] entries[i]).0) && map[entries[i].0]
            == entries[i].1
    &&& forall|key: u128| #[trigger]
        map.contains_key(key) ==> exists|i: int|
            0 <= i < entries.len() && (#[trigger] entries[i]).0 == key
}

/// `HashMap::insert` on a map that hashes with `FxHasher`: the hasher is
/// deterministic, so the map holds the entry afterwards and every other entry
/// as before.
#[verifier::external_body]
pub(crate) fn fx_insert<V>(map: &mut FxHashMap<u128, V>, key: u128, value: V)
    ensures
        final(map)@ == old(map)@.insert(key, value),
{
    map.insert(key, value);
}

/// `HashMap::get` on a map that hashes with `FxHasher`: the value stored under
/// the key, if there is one.
#[verifier::external_body]
pub(crate) fn fx_get<V: Copy>(map: &FxHashMap<u128, V>, key: u128) -> (value: Option<V>)
    ensures
        value == if map@.contains_key(key) {
            Some(map@[key])
        } else {
            None::<V>
        },
{
    map.get(&key).copied()
}

/// `HashMap::iter` on a map that hashes with `FxHasher`: every entry once, in
/// an order that is not specified.
#[verifier::external_body]
pub(crate) fn fx_entries<V: Copy>(map: &FxHashMap<u128, V>) -> (entries: Vec<(u128, V)>)
    ensures
        lists(entries@, map@),
{
    map.iter().map(|(key, value)| (*key, *value)).collect()
}

/// No two entries of `table` have the same ID.
pub open spec fn distinct_ids(table: Seq<(u128, ByteRange)>) -> bool {
    forall|i: int, j: int|
        0 <= i < j < table.len() ==> (#[trigger] table[i]).0 != (#[trigger] table[j]).0
}

/// The name of the field of a serialized manifest that holds its table.
pub const ASSET_RANGES_FIELD: &'static str = "asset_ranges";

/// A serialized table of ranges, read as a value: its fields by name, each
/// of them a table from asset IDs to ranges.
pub type Fields = Seq<(Seq<char>, Seq<(u128, ByteRange)>)>;

/// What a list of fields is as a value.
pub open spec fn fields_view(fields: Seq<(String, Vec<(u128, ByteRange)>)>) -> Fields {
    fields.map_values(|field: (String, Vec<(u128, ByteRange)>)| (field.0@, field.1@))
}

/// What `rmp_serde::from_slice` reads from `bytes` as a map from field names
/// to maps from UUIDs to ranges, each map taken in the order of its keys;
/// `None` where it reads no such map.
pub uninterp spec fn decoded_fields(bytes: Seq<u8>) -> Option<Fields>;

/// `rmp_serde::from_slice` for a map from field names to maps from UUIDs to
/// ranges, each map handed out as a list in the order of its keys. No key
/// occurs twice in a map.
#[verifier::external_body]
pub(crate) fn decode_fields(bytes: &[u8]) -> (r: Result<
    Vec<(String, Vec<(u128, ByteRange)>)>,
    rmp_serde::decode::Error,
>)
    ensures
        match r {
            Ok(fields) => {
                &&& decoded_fields(bytes@) == Some(fields_view(fields@))
                &&& forall|i: int| 0 <= i < fields@.len() ==> distinct_ids((#[trigger] fields@[i]).1@)
            },
            Err(_) => decoded_fields(bytes@) is None,
        },
{
    let wire: BTreeMap<String, BTreeMap<Uuid, Range<u32>>> = rmp_serde::from_slice(bytes)?;
    let table = |(id, r): (Uuid, Range<u32>)| (id.as_u128(), ByteRange { start: r.start, end: r.end });
    Ok(wire.into_iter().map(|(name, ranges)| (name, ranges.into_iter().map(table).collect())).collect())
}

/// What `rmp_serde::to_vec_named` writes for a map with the one field
/// `name`, which holds a map from UUIDs to ranges with the entries of
/// `table`; `None` where it fails.
pub uninterp spec fn encoded_field(name: Seq<char>, table: Map<u128, ByteRange>) -> Option<
    Seq<u8>,
>;

/// `rmp_serde::to_vec_named` for a map with the one field `name`, which
/// holds a map from UUIDs to ranges with the entries of `table`. The bytes
/// that it returns read back as that one field with those entries.
#[verifier::external_body]
pub(crate) fn encode_field(name: &str, table: &Vec<(u128, ByteRange)>) -> (r: Result<
    Vec<u8>,
    rmp_serde::encode::Error,
>)
    requires
        distinct_ids(table@),
    ensures
        match r {
            Ok(bytes) => {
                &&& encoded_field(name@, table_map(table@)) == Some(bytes@)
                &&& decoded_fields(bytes@) matches Some(fields)
                &&& fields.len() == 1
                &&& fields[0].0 == name@
                &&& table_map(fields[0].1) == table_map(table@)
                &&& distinct_ids(fields[0].1)
            },
            Err(_) => encoded_field(name@, table_map(table@)) is None,
        },
{
    let entry = |(id, r): &(u128, ByteRange)| (Uuid::from_u128(*id), r.start..r.end);
    let ranges: BTreeMap<Uuid, Range<u32>> = table.iter().map(entry).collect();
    rmp_serde::to_vec_named(&BTreeMap::from([(name, ranges)]))
}

/// A list which describes the assets present in a data blob or a module.
#[derive(Clone, Debug)]
pub struct WassetManifest {
    /// A mapping from asset IDs to offsets within a custom data section.
    asset_ranges: FxHashMap<u128, ByteRange>,
}

impl View for WassetManifest {
    type V = Map<u128, ByteRange>;

    closed spec fn view(&self) -> Map<u128, ByteRange> {
        self.asset_ranges@
    }
}

impl Default for WassetManifest {
    fn default() -> (manifest: Self)
        ensures
            manifest@ == Map::<u128, ByteRange>::empty(),
    {
        WassetManifest::new()
    }
}

impl WassetManifest {
    /// The manifest without entries.
    pub fn new() -> (manifest: Self)
        ensures
            manifest@ == Map::<u128, ByteRange>::empty(),
    {
        WassetManifest { asset_ranges: FxHashMap::default() }
    }

    /// Records `range` under `id`, in place of any range that `id` had.
    pub fn insert(&mut self, id: WassetId, range: ByteRange)
        ensures
            final(self)@ == old(self)@.insert(id@, range),
    {
        fx_insert(&mut self.asset_ranges, id.as_u128(), range);
    }

    /// The range recorded under `id`.
    pub fn get(&self, id: WassetId) -> (range: Option<ByteRange>)
        ensures
            range == if self@.contains_key(id@) {
                Some(self@[id@])
            } else {
                None::<ByteRange>
            },
    {
        fx_get(&self.asset_ranges, id.as_u128())
    }

    /// Gets the IDs of all assets of the manifest, each once, in no
    /// particular order.
    pub fn ids(&self) -> (ids: Vec<WassetId>)
        ensures
            ids@.len() == self@.len(),
            forall|i: int, j: int| 0 <= i < j < ids@.len() ==> (#[trigger] ids@[i])@ != (#[trigger] ids@[j])@,
            forall|i: int| 0 <= i < ids@.len() ==> self@.contains_key((#[trigger] ids@[i])@),
            forall|id: u128| #[trigger]
                self@.contains_key(id) ==> exists|i: int|
                    0 <= i < ids@.len() && (#[trigger] ids@[i])@ == id,
    {
        let entries = self.entries();
        let mut ids: Vec<WassetId> = Vec::new();
        let mut i: usize = 0;
        while i < entries.len()
            invariant
                i <= entries@.len(),
                ids@.len() == i,
                forall|k: int| 0 <= k < i ==> (#[trigger] ids@[k])@ == entries@[k].0,
            decreases entries@.len() - i,
        {
            ids.push(WassetId::from_u128(entries[i].0));
            i = i + 1;
        }
        proof {
            lemma_lists_len(entries@, self@);
            assert forall|id: u128| #[trigger] self@.contains_key(id) implies exists|i: int|
                0 <= i < ids@.len() && (#[trigger] ids@[i])@ == id by {
                let k = choose|k: int| 0 <= k < entries@.len() && (#[trigger] entries@[k]).0 == id;
                assert(ids@[k]@ == id);
            }
        }
        ids
    }

    /// The entries of the manifest, each once, in no particular order.
    pub fn entries(&self) -> (entries: Vec<(u128, ByteRange)>)
        ensures
            lists(entries@, self@),
    {
        fx_entries(&self.asset_ranges)
    }

    /// Serializes the manifest.
    ///
    /// The bytes read back as a manifest with the same entries. It fails
    /// exactly where the serializer does.
    pub fn to_bytes(&self) -> (r: Result<Vec<u8>, WassetError>)
        ensures
            match encoded_field(ASSET_RANGES_FIELD@, self@) {
                Some(encoded) => {
                    &&& r matches Ok(bytes)
                    &&& bytes@ == encoded
                    &&& manifest_table(bytes@) matches Some(table)
                    &&& distinct_ids(table)
                    &&& table_map(table) == self@
                },
                None => r matches Err(WassetError::Serialize(ErrorCause::Encode(_))),
            },
    {
        let table = self.entries();
        proof {
            lemma_listed(table@, self@);
        }
        match encode_field(ASSET_RANGES_FIELD, &table) {
            Ok(bytes) => Ok(bytes),
            Err(err) => Err(WassetError::from_serialize(ErrorCause::Encode(err))),
        }
    }
}

/// The table of the last field of `fields` that is named `name`.
pub open spec fn field_named(fields: Fields, name: Seq<char>) -> Option<Seq<(u128, ByteRange)>>
    decreases fields.len(),
{
    if fields.len() == 0 {
        None
    } else if fields.last().0 == name {
        Some(fields.last().1)
    } else {
        field_named(fields.drop_last(), name)
    }
}

/// The table of ranges that `bytes` hold as a serialized manifest: the
/// field `asset_ranges` of the fields that they decode to. `None` where they
/// do not decode, or hold no such field.
pub open spec fn manifest_table(bytes: Seq<u8>) -> Option<Seq<(u128, ByteRange)>> {
    match decoded_fields(bytes) {
        Some(fields) => field_named(fields, ASSET_RANGES_FIELD@),
        None => None,
    }
}

/// The map that a table stands for: each ID with the range of its last
/// entry.
pub open spec fn table_map(table: Seq<(u128, ByteRange)>) -> Map<u128, ByteRange>
    decreases table.len(),
{
    if table.len() == 0 {
        Map::empty()
    } else {
        table_map(table.drop_last()).insert(table.last().0, table.last().1)
    }
}

/// The map of a table holds the IDs of its entries, and where no ID occurs
/// twice, each with the range of its entry.
pub proof fn lemma_table_map(table: Seq<(u128, ByteRange)>)
    ensures
        forall|id: u128| #[trigger]
            table_map(table).contains_key(id) <==> exists|i: int|
                0 <= i < table.len() && (#[trigger] table[i]).0 == id,
        distinct_ids(table) ==> forall|i: int|
            0 <= i < table.len() ==> table_map(table)[(#[trigger] table[i]).0] == table[i].1,
    decreases table.len(),
{
    if table.len() > 0 {
        let front = table.drop_last();
        lemma_table_map(front);
        assert forall|id: u128| #[trigger]
            table_map(table).contains_key(id) <==> exists|i: int|
                0 <= i < table.len() && (#[trigger] table[i]).0 == id by {
            if table_map(table).contains_key(id) && id != table.last().0 {
                assert(table_map(front).contains_key(id));
            }
            if exists|i: int| 0 <= i < table.len() && (#[trigger] table[i]).0 == id {
                let i = choose|i: int| 0 <= i < table.len() && (#[trigger] table[i]).0 == id;
                if i < table.len() - 1 {
                    assert(front[i].0 == id);
                    assert(table_map(front).contains_key(id));
                }
            }
        }
        if distinct_ids(table) {
            assert(distinct_ids(front));
            assert forall|i: int| 0 <= i < table.len() implies table_map(table)[(#[trigger] table[i]).0]
                == table[i].1 by {
                if i < table.len() - 1 {
                    assert(front[i] == table[i]);
                }
            }
        }
    }
}

/// A table that lists a map stands for that map.
pub proof fn lemma_listed(table: Seq<(u128, ByteRange)>, map: Map<u128, ByteRange>)
    requires
        lists(table, map),
    ensures
        table_map(table) == map,
{
    lemma_table_map(table);
    assert(table_map(table) =~= map);
}

/// A map that a list holds is finite, and as large as the list is long.
pub proof fn lemma_lists_len<V>(entries: Seq<(u128, V)>, map: Map<u128, V>)
    requires
        lists(entries, map),
    ensures
        map.dom().finite(),
        entries.len() == map.len(),
    decreases entries.len(),
{
    if entries.len() == 0 {
        assert(map.dom() =~= Set::empty());
    } else {
        let last = entries.last();
        let front = entries.drop_last();
        let rest = map.remove(last.0);
        assert(lists(front, rest)) by {
            assert forall|key: u128| #[trigger] rest.contains_key(key) implies exists|i: int|
                0 <= i < front.len() && (#[trigger] front[i]).0 == key by {
                let i = choose|i: int| 0 <= i < entries.len() && (#[trigger] entries[i]).0 == key;
                assert(front[i].0 == key);
            }
        }
        lemma_lists_len(front, rest);
    }
}

} // verus!
