//! Combines the manifests of the embeddings of a module into one manifest
//! that addresses the module buffer.

use crate::error::{ErrorCause, WassetError};
use crate::id::WassetId;
use crate::manifest::{
    decode_fields, distinct_ids, field_named, fields_view, lists, manifest_table, ByteRange,
    WassetManifest, ASSET_RANGES_FIELD,
};
use crate::scan::{ModuleScan, WassetOffsets};
use vstd::prelude::*;
use vstd::slice::slice_subrange;

verus! {

/// One embedding, decoded: where its data starts in the module, and the
/// entries of its manifest, which address its data.
#[derive(Debug)]
pub struct Embedding {
    pub data_offset: u32,
    pub entries: Vec<(u128, ByteRange)>,
}

/// Both ends of `range` still fit in 32 bits when moved up by `offset`.
pub open spec fn fits(range: ByteRange, offset: u32) -> bool {
    range.start + offset <= u32::MAX && range.end + offset <= u32::MAX
}

/// `range` moved up by `offset`.
pub open spec fn moved(range: ByteRange, offset: u32) -> ByteRange {
    ByteRange { start: (range.start + offset) as u32, end: (range.end + offset) as u32 }
}

/// `acc` after each entry of `entries` was inserted in turn, moved up by
/// `offset`; `None` where an entry does not fit.
pub open spec fn merged_entries(
    acc: Map<u128, ByteRange>,
    offset: u32,
    entries: Seq<(u128, ByteRange)>,
) -> Option<Map<u128, ByteRange>>
    decreases entries.len(),
{
    if entries.len() == 0 {
        Some(acc)
    } else {
        match merged_entries(acc, offset, entries.drop_last()) {
            Some(acc) => if fits(entries.last().1, offset) {
                Some(acc.insert(entries.last().0, moved(entries.last().1, offset)))
            } else {
                None
            },
            None => None,
        }
    }
}

/// The manifest of all of `embeddings`: the entries of each in turn, moved
/// up by the data offset of their embedding. An entry replaces an earlier
/// one with the same ID. `None` where an entry does not fit.
pub open spec fn merged_all(embeddings: Seq<Embedding>) -> Option<Map<u128, ByteRange>>
    decreases embeddings.len(),
{
    if embeddings.len() == 0 {
        Some(Map::empty())
    } else {
        match merged_all(embeddings.drop_last()) {
            Some(acc) => merged_entries(
                acc,
                embeddings.last().data_offset,
                embeddings.last().entries@,
            ),
            None => None,
        }
    }
}

/// Merges decoded embeddings into one manifest with absolute ranges.
///
/// It fails where a range, moved up by the data offset of its embedding,
/// has an end that does not fit in 32 bits.
pub fn merge_embeddings(embeddings: &Vec<Embedding>) -> (r: Result<WassetManifest, WassetError>)
    ensures
        match merged_all(embeddings@) {
            Some(merged) => r matches Ok(manifest) && manifest@ == merged,
            None => r matches Err(err) && err is Deserialize,
        },
{
    let mut manifest = WassetManifest::new();
    let mut i: usize = 0;
    while i < embeddings.len()
        invariant
            i <= embeddings@.len(),
            merged_all(embeddings@.take(i as int)) == Some(manifest@),
        decreases embeddings@.len() - i,
    {
        let embedding = &embeddings[i];
        let ghost before = manifest@;
        let mut j: usize = 0;
        while j < embedding.entries.len()
            invariant
                j <= embedding.entries@.len(),
                i < embeddings@.len(),
                embedding == embeddings@[i as int],
                merged_all(embeddings@.take(i as int)) == Some(before),
                merged_entries(before, embedding.data_offset, embedding.entries@.take(j as int))
                    == Some(manifest@),
                embeddings@.take(i + 1).drop_last() == embeddings@.take(i as int),
            decreases embedding.entries@.len() - j,
        {
            let (id, range) = embedding.entries[j];
            assert(embedding.entries@.take(j + 1).drop_last() =~= embedding.entries@.take(j as int));
            let limit: u32 = u32::MAX - embedding.data_offset;
            if range.start > limit || range.end > limit {
                proof {
                    lemma_merged_entries_fails(
                        before,
                        embedding.data_offset,
                        embedding.entries@,
                        j as int,
                    );
                    lemma_merged_all_fails(embeddings@, i as int);
                }
                return Err(WassetError::from_deserialize(ErrorCause::RangeOutOfBounds));
            }
            manifest.insert(
                WassetId::from_u128(id),
                ByteRange {
                    start: range.start + embedding.data_offset,
                    end: range.end + embedding.data_offset,
                },
            );
            j = j + 1;
        }
        assert(embedding.entries@.take(j as int) =~= embedding.entries@);
        i = i + 1;
    }
    assert(embeddings@.take(i as int) =~= embeddings@);
    Ok(manifest)
}

/// Where the entry at `at` does not fit, no table that goes on past it can be
/// merged.
pub proof fn lemma_merged_entries_fails(
    acc: Map<u128, ByteRange>,
    offset: u32,
    entries: Seq<(u128, ByteRange)>,
    at: int,
)
    requires
        0 <= at < entries.len(),
        !fits(entries[at].1, offset),
    ensures
        merged_entries(acc, offset, entries) is None,
    decreases entries.len(),
{
    if at < entries.len() - 1 {
        lemma_merged_entries_fails(acc, offset, entries.drop_last(), at);
    }
}

/// Where the embedding at `at` cannot be merged, no list that goes on past
/// it can be merged.
pub proof fn lemma_merged_all_fails(embeddings: Seq<Embedding>, at: int)
    requires
        0 <= at < embeddings.len(),
        match merged_all(embeddings.take(at)) {
            Some(acc) => merged_entries(acc, embeddings[at].data_offset, embeddings[at].entries@)
                is None,
            None => true,
        },
    ensures
        merged_all(embeddings) is None,
    decreases embeddings.len(),
{
    if at < embeddings.len() - 1 {
        assert(embeddings.drop_last().take(at) =~= embeddings.take(at));
        lemma_merged_all_fails(embeddings.drop_last(), at);
    }
}

/// The entry at `at` of `entries` has the ID `id` and, moved up by `offset`,
/// the range `range`.
pub open spec fn table_gives(
    entries: Seq<(u128, ByteRange)>,
    offset: u32,
    at: int,
    id: u128,
    range: ByteRange,
) -> bool {
    0 <= at < entries.len() && entries[at].0 == id && range == moved(entries[at].1, offset)
}

/// The entry at `at` of the embedding at `of` has the ID `id` and, moved up
/// by the data offset of its embedding, the range `range`.
pub open spec fn list_gives(
    embeddings: Seq<Embedding>,
    of: int,
    at: int,
    id: u128,
    range: ByteRange,
) -> bool {
    0 <= of < embeddings.len() && table_gives(
        embeddings[of].entries@,
        embeddings[of].data_offset,
        at,
        id,
        range,
    )
}

/// What merging a table into `acc` gives: every ID of `acc` and of the
/// table, each ID of the table with the moved range of one of its entries,
/// each other ID as in `acc`.
pub proof fn lemma_merged_entries(
    acc: Map<u128, ByteRange>,
    offset: u32,
    entries: Seq<(u128, ByteRange)>,
)
    requires
        merged_entries(acc, offset, entries) is Some,
    ensures
        forall|at: int| 0 <= at < entries.len() ==> fits((#[trigger] entries[at]).1, offset),
        forall|id: u128| #[trigger]
            acc.contains_key(id) ==> merged_entries(acc, offset, entries)->Some_0.contains_key(id),
        forall|at: int|
            0 <= at < entries.len() ==> merged_entries(
                acc,
                offset,
                entries,
            )->Some_0.contains_key((#[trigger] entries[at]).0),
        forall|id: u128| #[trigger]
            merged_entries(acc, offset, entries)->Some_0.contains_key(id) ==> {
                let merged = merged_entries(acc, offset, entries)->Some_0;
                ||| acc.contains_key(id) && merged[id] == acc[id]
                ||| exists|at: int| #[trigger] table_gives(entries, offset, at, id, merged[id])
            },
    decreases entries.len(),
{
    if entries.len() > 0 {
        let front = entries.drop_last();
        lemma_merged_entries(acc, offset, front);
        let before = merged_entries(acc, offset, front)->Some_0;
        let merged = merged_entries(acc, offset, entries)->Some_0;
        let last = entries.len() - 1;
        assert forall|at: int| 0 <= at < entries.len() implies fits(
            (#[trigger] entries[at]).1,
            offset,
        ) && merged.contains_key(entries[at].0) by {
            if at < last {
                assert(front[at] == entries[at]);
            }
        }
        assert forall|id: u128| #[trigger] merged.contains_key(id) implies {
            ||| acc.contains_key(id) && merged[id] == acc[id]
            ||| exists|at: int| #[trigger] table_gives(entries, offset, at, id, merged[id])
        } by {
            if id == entries[last].0 {
                assert(table_gives(entries, offset, last, id, merged[id]));
            } else {
                if !(acc.contains_key(id) && before[id] == acc[id]) {
                    let at = choose|at: int| #[trigger]
                        table_gives(front, offset, at, id, before[id]);
                    assert(table_gives(entries, offset, at, id, merged[id]));
                }
            }
        }
    }
}

/// What merging embeddings gives: the ID of every entry of every embedding,
/// each with the moved range of one of the entries that have it.
pub proof fn lemma_merged_all(embeddings: Seq<Embedding>)
    requires
        merged_all(embeddings) is Some,
    ensures
        forall|of: int, at: int|
            0 <= of < embeddings.len() && 0 <= at < embeddings[of].entries@.len() ==> {
                &&& fits((#[trigger] embeddings[of].entries@[at]).1, embeddings[of].data_offset)
                &&& merged_all(embeddings)->Some_0.contains_key(embeddings[of].entries@[at].0)
            },
        forall|id: u128| #[trigger]
            merged_all(embeddings)->Some_0.contains_key(id) ==> exists|of: int, at: int| #[trigger]
                list_gives(embeddings, of, at, id, merged_all(embeddings)->Some_0[id]),
    decreases embeddings.len(),
{
    if embeddings.len() > 0 {
        let front = embeddings.drop_last();
        let last = embeddings.len() - 1;
        lemma_merged_all(front);
        let before = merged_all(front)->Some_0;
        let merged = merged_all(embeddings)->Some_0;
        lemma_merged_entries(before, embeddings[last].data_offset, embeddings[last].entries@);
        assert forall|of: int, at: int|
            0 <= of < embeddings.len() && 0 <= at < embeddings[of].entries@.len() implies {
            &&& fits((#[trigger] embeddings[of].entries@[at]).1, embeddings[of].data_offset)
            &&& merged.contains_key(embeddings[of].entries@[at].0)
        } by {
            if of < last {
                assert(before.contains_key(front[of].entries@[at].0));
            }
        }
        assert forall|id: u128| #[trigger] merged.contains_key(id) implies exists|
            of: int,
            at: int,
        | #[trigger] list_gives(embeddings, of, at, id, merged[id]) by {
            if before.contains_key(id) && merged[id] == before[id] {
                let (of, at) = choose|of: int, at: int| #[trigger]
                    list_gives(front, of, at, id, before[id]);
                assert(list_gives(embeddings, of, at, id, merged[id]));
            } else {
                let at = choose|at: int| #[trigger]
                    table_gives(
                        embeddings[last].entries@,
                        embeddings[last].data_offset,
                        at,
                        id,
                        merged[id],
                    );
                assert(list_gives(embeddings, last, at, id, merged[id]));
            }
        }
    }
}

/// Where every entry fits, the table can be merged.
pub proof fn lemma_merged_entries_succeeds(
    acc: Map<u128, ByteRange>,
    offset: u32,
    entries: Seq<(u128, ByteRange)>,
)
    requires
        forall|at: int| 0 <= at < entries.len() ==> fits((#[trigger] entries[at]).1, offset),
    ensures
        merged_entries(acc, offset, entries) is Some,
    decreases entries.len(),
{
    if entries.len() > 0 {
        let front = entries.drop_last();
        lemma_merged_entries_succeeds(acc, offset, front);
    }
}

/// Where every entry of every embedding fits, the embeddings can be merged.
pub proof fn lemma_merged_all_succeeds(embeddings: Seq<Embedding>)
    requires
        forall|of: int, at: int|
            0 <= of < embeddings.len() && 0 <= at < embeddings[of].entries@.len() ==> fits(
                (#[trigger] embeddings[of].entries@[at]).1,
                embeddings[of].data_offset,
            ),
    ensures
        merged_all(embeddings) is Some,
    decreases embeddings.len(),
{
    if embeddings.len() > 0 {
        let front = embeddings.drop_last();
        let last = embeddings.len() - 1;
        lemma_merged_all_succeeds(front);
        lemma_merged_entries_succeeds(
            merged_all(front)->Some_0,
            embeddings[last].data_offset,
            embeddings[last].entries@,
        );
    }
}

/// Reads a serialized manifest: the table of ranges of the bytes.
///
/// It fails where the bytes do not decode, or hold no table of ranges.
pub fn decode_manifest(bytes: &[u8]) -> (r: Result<Vec<(u128, ByteRange)>, WassetError>)
    ensures
        match manifest_table(bytes@) {
            Some(table) => r matches Ok(entries) && entries@ == table && distinct_ids(table),
            None => r matches Err(err) && err is Deserialize,
        },
{
    let mut fields = match decode_fields(bytes) {
        Ok(fields) => fields,
        Err(err) => {
            return Err(WassetError::from_deserialize(ErrorCause::ManifestDecode(err)));
        },
    };
    let wanted = ASSET_RANGES_FIELD.to_owned();
    loop
        invariant
            wanted@ == ASSET_RANGES_FIELD@,
            field_named(fields_view(fields@), wanted@) == manifest_table(bytes@),
            forall|i: int| 0 <= i < fields@.len() ==> distinct_ids((#[trigger] fields@[i]).1@),
        decreases fields@.len(),
    {
        let ghost before = fields@;
        match fields.pop() {
            None => {
                return Err(WassetError::from_deserialize(ErrorCause::ManifestField));
            },
            Some(field) => {
                assert(fields_view(before).drop_last() =~= fields_view(fields@));
                if field.0 == wanted {
                    return Ok(field.1);
                }
            },
        }
    }
}

/// The table of the manifest that `offsets` points to in `module`.
pub open spec fn embedding_table(offsets: WassetOffsets, module: Seq<u8>) -> Option<
    Seq<(u128, ByteRange)>,
> {
    match offsets.manifest {
        Some((start, end)) => if start <= end <= module.len() {
            manifest_table(module.subrange(start as int, end as int))
        } else {
            None
        },
        None => None,
    }
}

/// The embedding can be decoded: both of its sections were seen, and its
/// manifest lies within the module and decodes.
pub open spec fn decodable(offsets: WassetOffsets, module: Seq<u8>) -> bool {
    offsets.data_offset is Some && embedding_table(offsets, module) is Some
}

/// `embedding` is what `offsets` points to in `module`.
pub open spec fn decodes(embedding: Embedding, offsets: WassetOffsets, module: Seq<u8>) -> bool {
    &&& offsets.data_offset == Some(embedding.data_offset)
    &&& embedding_table(offsets, module) == Some(embedding.entries@)
}

/// The embedding `key` of `scan` has at `at` an entry with the ID `id` and,
/// moved up by the data offset of the embedding, the range `range`.
pub open spec fn embedding_gives(
    scan: Map<u128, WassetOffsets>,
    module: Seq<u8>,
    key: u128,
    at: int,
    id: u128,
    range: ByteRange,
) -> bool {
    &&& scan.contains_key(key)
    &&& decodable(scan[key], module)
    &&& table_gives(
        embedding_table(scan[key], module)->Some_0,
        scan[key].data_offset->Some_0,
        at,
        id,
        range,
    )
}

/// Every embedding of `scan` can be decoded, and each of their entries fits
/// when moved up by the data offset of its embedding.
pub open spec fn mergeable(scan: Map<u128, WassetOffsets>, module: Seq<u8>) -> bool {
    forall|key: u128| #[trigger]
        scan.contains_key(key) ==> {
            &&& decodable(scan[key], module)
            &&& forall|at: int|
                0 <= at < embedding_table(scan[key], module)->Some_0.len() ==> fits(
                    (#[trigger] embedding_table(scan[key], module)->Some_0[at]).1,
                    scan[key].data_offset->Some_0,
                )
        }
}

/// What a scan found of one embedding, decoded.
///
/// It fails where one of the two sections of the embedding is missing, or
/// where its manifest does not lie within the module or does not decode.
pub fn decode_embedding(key: u128, offsets: &WassetOffsets, module: &[u8]) -> (r: Result<
    Embedding,
    WassetError,
>)
    ensures
        match r {
            Ok(embedding) => decodes(embedding, *offsets, module@) && distinct_ids(
                embedding.entries@,
            ),
            Err(err) => !decodable(*offsets, module@) && err is Deserialize,
        },
{
    let data_offset = match offsets.data_offset {
        Some(data_offset) => data_offset,
        None => {
            return Err(
                WassetError::from_deserialize(ErrorCause::IncompleteEmbedding { embedding: key }),
            );
        },
    };
    let (start, end) = match offsets.manifest {
        Some(range) => range,
        None => {
            return Err(
                WassetError::from_deserialize(ErrorCause::IncompleteEmbedding { embedding: key }),
            );
        },
    };
    if start > end || end > module.len() {
        return Err(WassetError::from_deserialize(ErrorCause::SectionOutOfRange));
    }
    match decode_manifest(slice_subrange(module, start, end)) {
        Ok(entries) => Ok(Embedding { data_offset, entries }),
        Err(err) => Err(err),
    }
}

/// Folds the manifests of all embeddings of a module into one manifest,
/// taking the data offset of each embedding into account.
///
/// It succeeds exactly where every embedding can be decoded and every moved
/// range fits in 32 bits. The manifest then holds the ID of every entry of
/// every embedding, each with the moved range of one of the entries that
/// have it.
pub fn collect_manifests(scan: &ModuleScan, module: &[u8]) -> (r: Result<
    WassetManifest,
    WassetError,
>)
    ensures
        match r {
            Ok(manifest) => {
                &&& mergeable(scan@, module@)
                &&& forall|key: u128, at: int, id: u128, range: ByteRange| #[trigger]
                    embedding_gives(scan@, module@, key, at, id, range) ==> manifest@.contains_key(
                        id,
                    )
                &&& forall|id: u128| #[trigger]
                    manifest@.contains_key(id) ==> exists|key: u128, at: int| #[trigger]
                        embedding_gives(scan@, module@, key, at, id, manifest@[id])
            },
            Err(err) => !mergeable(scan@, module@) && err is Deserialize,
        },
{
    let found = scan.embeddings();
    let mut embeddings: Vec<Embedding> = Vec::new();
    let mut i: usize = 0;
    while i < found.len()
        invariant
            i <= found@.len(),
            lists(found@, scan@),
            embeddings@.len() == i,
            forall|of: int|
                0 <= of < i ==> decodes(#[trigger] embeddings@[of], found@[of].1, module@),
        decreases found@.len() - i,
    {
        let (key, offsets) = found[i];
        match decode_embedding(key, &offsets, module) {
            Ok(embedding) => {
                embeddings.push(embedding);
            },
            Err(err) => {
                return Err(err);
            },
        }
        i = i + 1;
    }
    let r = merge_embeddings(&embeddings);
    proof {
        let list = embeddings@;
        if merged_all(list) is Some {
            lemma_merged_all(list);
            let merged = merged_all(list)->Some_0;
            assert forall|key: u128| #[trigger] scan@.contains_key(key) implies {
                &&& decodable(scan@[key], module@)
                &&& forall|at: int|
                    0 <= at < embedding_table(scan@[key], module@)->Some_0.len() ==> fits(
                        (#[trigger] embedding_table(scan@[key], module@)->Some_0[at]).1,
                        scan@[key].data_offset->Some_0,
                    )
            } by {
                let of = choose|of: int| 0 <= of < found@.len() && (#[trigger] found@[of]).0 == key;
                assert(decodes(list[of], found@[of].1, module@));
            }
            assert forall|key: u128, at: int, id: u128, range: ByteRange| #[trigger]
                embedding_gives(scan@, module@, key, at, id, range) implies merged.contains_key(
                id,
            ) by {
                let of = choose|of: int| 0 <= of < found@.len() && (#[trigger] found@[of]).0 == key;
                assert(merged.contains_key(list[of].entries@[at].0));
            }
            assert forall|id: u128| #[trigger] merged.contains_key(id) implies exists|
                key: u128,
                at: int,
            | #[trigger] embedding_gives(scan@, module@, key, at, id, merged[id]) by {
                let (of, at) = choose|of: int, at: int| #[trigger]
                    list_gives(list, of, at, id, merged[id]);
                assert(embedding_gives(scan@, module@, found@[of].0, at, id, merged[id]));
            }
        } else {
            if mergeable(scan@, module@) {
                assert forall|of: int, at: int|
                    0 <= of < list.len() && 0 <= at < list[of].entries@.len() implies fits(
                    (#[trigger] list[of].entries@[at]).1,
                    list[of].data_offset,
                ) by {
                    assert(fits(
                        embedding_table(scan@[found@[of].0], module@)->Some_0[at].1,
                        scan@[found@[of].0].data_offset->Some_0,
                    ));
                }
                lemma_merged_all_succeeds(list);
            }
        }
    }
    r
}

} // verus!
