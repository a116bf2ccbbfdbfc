//! What holds of encoding, merging and loading taken together.

use crate::encode::{
    blob_of, bundles, lemma_manifest_of_last, lemma_records_within, lemma_table_of, manifest_of,
    table_of, AssetEncoder, AssetFolder, EncodedAssets, Records,
};
use crate::manifest::{
    distinct_ids, lemma_table_map, manifest_table, ranges_within, table_map, ByteRange,
};
use crate::merge::{
    embedding_gives, fits, lemma_merged_all, lemma_merged_all_succeeds, lemma_merged_entries,
    list_gives, merged_all, merged_entries, moved, table_gives, Embedding,
};
use crate::names::{
    hyphenated, lemma_prefixes_differ, parsed_uuid, ASSET_DATA_SECTION_PREFIX,
    ASSET_MANIFEST_SECTION_PREFIX,
};
use crate::parse::{asset_bytes, loaded};
use crate::scan::{scan_custom, with_data, with_manifest, WassetOffsets};
use crate::names::is_asset_section;
use crate::section::{component_header, module_header, PayloadInfo, SectionEvent};
use crate::strip::{strip_from, strip_step, with_section, StripState, StripStep};
use std::ops::Range;
use vstd::prelude::*;

verus! {

/// Loading the ID of a record from the data blob of an encoding, by its
/// manifest, gives the record, unless a later record was appended under the
/// same ID.
pub proof fn law_record_loads(records: Records, at: int)
    requires
        blob_of(records).len() <= u32::MAX,
        0 <= at < records.len(),
        forall|later: int| at < later < records.len() ==> (#[trigger] records[later]).0 != records[at].0,
    ensures
        loaded(manifest_of(records), blob_of(records), records[at].0) == Some(Some(records[at].1)),
    decreases records.len(),
{
    let front = records.drop_last();
    lemma_manifest_of_last(records);
    if at < records.len() - 1 {
        law_record_loads(front, at);
        lemma_records_within(front);
        law_append_keeps_assets(blob_of(front), records.last().1, manifest_of(front)[records[at].0]);
    } else {
        assert(blob_of(records).subrange(
            blob_of(front).len() as int,
            blob_of(records).len() as int,
        ) =~= records[at].1);
    }
}

/// An encoding whose records were all appended under different IDs has as
/// many manifest entries as records.
pub proof fn law_records_count(records: Records)
    requires
        forall|i: int, j: int|
            0 <= i < j < records.len() ==> (#[trigger] records[i]).0 != (#[trigger] records[j]).0,
    ensures
        manifest_of(records).dom().finite(),
        manifest_of(records).len() == records.len(),
{
    lemma_table_of(records);
    law_distinct_ids_count(table_of(records));
}

/// A bundle whose records were all made under different IDs has as many
/// manifest entries as its hierarchy has leaves, and as it has records.
pub proof fn law_bundle_count<A: AssetEncoder>(
    folder: AssetFolder,
    records: Records,
    assets: EncodedAssets,
)
    requires
        bundles::<A>(folder, records, assets),
        forall|i: int, j: int|
            0 <= i < j < records.len() ==> (#[trigger] records[i]).0 != (#[trigger] records[j]).0,
    ensures
        manifest_table(assets.manifest@) matches Some(table) && table_map(table).len()
            == records.len() && records.len() == assets.encoded_assets@[0].1.leaf_count(),
{
    law_records_count(records);
}

/// A record that was appended to a data blob under an ID is what loading
/// that ID from the blob gives.
pub proof fn law_appended_record_loads(
    manifest: Map<u128, ByteRange>,
    blob: Seq<u8>,
    id: u128,
    record: Seq<u8>,
)
    requires
        blob.len() + record.len() <= u32::MAX,
    ensures
        loaded(
            manifest.insert(
                id,
                ByteRange { start: blob.len() as u32, end: (blob.len() + record.len()) as u32 },
            ),
            blob + record,
            id,
        ) == Some(Some(record)),
{
}

/// Where every range of a manifest lies within a data blob, every ID of the
/// manifest loads from the blob, and gives as many bytes as its range is
/// long.
pub proof fn law_valid_ranges_load(manifest: Map<u128, ByteRange>, blob: Seq<u8>, id: u128)
    requires
        ranges_within(manifest, blob.len()),
        manifest.contains_key(id),
    ensures
        loaded(manifest, blob, id) matches Some(Some(bytes)) && bytes.len() == manifest[id].end
            - manifest[id].start,
{
}

/// What a range addresses in a data blob stays the same when the blob
/// grows at its end.
pub proof fn law_append_keeps_assets(blob: Seq<u8>, more: Seq<u8>, range: ByteRange)
    requires
        range.within(blob.len()),
    ensures
        asset_bytes(blob + more, range) == asset_bytes(blob, range),
{
}

/// Where a module holds a data blob at `offset`, a range of the blob, moved
/// up by `offset`, addresses in the module what the range addresses in the
/// blob.
pub proof fn law_embedded_blob_loads(
    module: Seq<u8>,
    blob: Seq<u8>,
    offset: u32,
    range: ByteRange,
)
    requires
        range.within(blob.len()),
        offset + blob.len() <= module.len(),
        offset + blob.len() <= u32::MAX,
        module.subrange(offset as int, offset + blob.len()) == blob,
    ensures
        fits(range, offset),
        asset_bytes(module, moved(range, offset)) == asset_bytes(blob, range),
{
}

/// A table in which no ID occurs twice stands for a manifest with as many
/// entries as the table has.
pub proof fn law_distinct_ids_count(table: Seq<(u128, ByteRange)>)
    requires
        distinct_ids(table),
    ensures
        table_map(table).dom().finite(),
        table_map(table).len() == table.len(),
    decreases table.len(),
{
    if table.len() > 0 {
        let front = table.drop_last();
        assert(distinct_ids(front));
        law_distinct_ids_count(front);
        lemma_table_map(front);
        assert(!table_map(front).contains_key(table.last().0));
    }
}

/// An ID that only one entry of all the embeddings has is merged to the
/// range of that entry, moved up by the data offset of its embedding.
pub proof fn law_merge_moves_ranges(embeddings: Seq<Embedding>, of: int, at: int)
    requires
        merged_all(embeddings) is Some,
        0 <= of < embeddings.len(),
        0 <= at < embeddings[of].entries@.len(),
        forall|other: int, entry: int|
            0 <= other < embeddings.len() && 0 <= entry < embeddings[other].entries@.len() && (
            #[trigger] embeddings[other].entries@[entry]).0 == embeddings[of].entries@[at].0
                ==> other == of && entry == at,
    ensures
        merged_all(embeddings)->Some_0.contains_key(embeddings[of].entries@[at].0),
        merged_all(embeddings)->Some_0[embeddings[of].entries@[at].0] == moved(
            embeddings[of].entries@[at].1,
            embeddings[of].data_offset,
        ),
{
    lemma_merged_all(embeddings);
}

/// Embeddings whose IDs all differ never collide: the merged manifest has
/// one entry for each entry of each embedding.
pub proof fn law_merge_distinct_ids(embeddings: Seq<Embedding>)
    requires
        merged_all(embeddings) is Some,
        forall|of: int, at: int, other: int, entry: int|
            0 <= of < embeddings.len() && 0 <= at < embeddings[of].entries@.len() && 0 <= other
                < embeddings.len() && 0 <= entry < embeddings[other].entries@.len() && (
            #[trigger] embeddings[of].entries@[at]).0 == (
            #[trigger] embeddings[other].entries@[entry]).0 ==> other == of && entry == at,
    ensures
        forall|of: int, at: int|
            0 <= of < embeddings.len() && 0 <= at < embeddings[of].entries@.len() ==> {
                &&& merged_all(embeddings)->Some_0.contains_key(
                    (#[trigger] embeddings[of].entries@[at]).0,
                )
                &&& merged_all(embeddings)->Some_0[embeddings[of].entries@[at].0] == moved(
                    embeddings[of].entries@[at].1,
                    embeddings[of].data_offset,
                )
            },
{
    assert forall|of: int, at: int|
        0 <= of < embeddings.len() && 0 <= at < embeddings[of].entries@.len() implies {
        &&& merged_all(embeddings)->Some_0.contains_key((#[trigger] embeddings[of].entries@[at]).0)
        &&& merged_all(embeddings)->Some_0[embeddings[of].entries@[at].0] == moved(
            embeddings[of].entries@[at].1,
            embeddings[of].data_offset,
        )
    } by {
        law_merge_moves_ranges(embeddings, of, at);
    }
}

/// Encoding, embedding, merging and loading give back what was encoded:
/// where a module holds the data blob of records at the data offset of an
/// embedding whose entries are the manifest of the records, loading the ID
/// of a record from the module, by the merged manifest of the embedding,
/// gives the record, unless a later record was appended under the same ID.
pub proof fn law_round_trip(records: Records, module: Seq<u8>, embedding: Embedding, at: int)
    requires
        embedding.data_offset + blob_of(records).len() <= u32::MAX,
        embedding.data_offset + blob_of(records).len() <= module.len(),
        module.subrange(
            embedding.data_offset as int,
            embedding.data_offset + blob_of(records).len(),
        ) == blob_of(records),
        distinct_ids(embedding.entries@),
        table_map(embedding.entries@) == manifest_of(records),
        0 <= at < records.len(),
        forall|later: int| at < later < records.len() ==> (#[trigger] records[later]).0 != records[at].0,
    ensures
        merged_all(seq![embedding]) matches Some(merged) && loaded(merged, module, records[at].0)
            == Some(Some(records[at].1)),
{
    let list = seq![embedding];
    let id = records[at].0;
    let entries = embedding.entries@;
    let blob = blob_of(records);
    lemma_records_within(records);
    lemma_table_map(entries);
    law_record_loads(records, at);
    assert forall|of: int, entry: int|
        0 <= of < list.len() && 0 <= entry < list[of].entries@.len() implies fits(
        (#[trigger] list[of].entries@[entry]).1,
        list[of].data_offset,
    ) by {
        assert(manifest_of(records).contains_key(entries[entry].0));
        law_embedded_blob_loads(module, blob, embedding.data_offset, entries[entry].1);
    }
    lemma_merged_all_succeeds(list);
    let entry = choose|entry: int| 0 <= entry < entries.len() && (#[trigger] entries[entry]).0 == id;
    law_merge_moves_ranges(list, 0, entry);
    law_embedded_blob_loads(module, blob, embedding.data_offset, entries[entry].1);
}

/// The number of entries that the manifests of `embeddings` have together.
pub open spec fn entry_count(embeddings: Seq<Embedding>) -> nat
    decreases embeddings.len(),
{
    if embeddings.len() == 0 {
        0
    } else {
        entry_count(embeddings.drop_last()) + embeddings.last().entries@.len()
    }
}

/// Merging a table whose IDs all differ, and none of which the manifest
/// has, adds one entry for each entry of the table.
pub proof fn lemma_merged_entries_count(
    acc: Map<u128, ByteRange>,
    offset: u32,
    entries: Seq<(u128, ByteRange)>,
)
    requires
        acc.dom().finite(),
        merged_entries(acc, offset, entries) is Some,
        distinct_ids(entries),
        forall|at: int| 0 <= at < entries.len() ==> !acc.contains_key((#[trigger] entries[at]).0),
    ensures
        merged_entries(acc, offset, entries)->Some_0.dom().finite(),
        merged_entries(acc, offset, entries)->Some_0.len() == acc.len() + entries.len(),
    decreases entries.len(),
{
    if entries.len() > 0 {
        let front = entries.drop_last();
        let last = entries.len() - 1;
        assert(distinct_ids(front)) by {
            assert forall|i: int, j: int| 0 <= i < j < front.len() implies (#[trigger] front[i]).0
                != (#[trigger] front[j]).0 by {
                assert(entries[i].0 != entries[j].0);
            }
        }
        assert forall|at: int| 0 <= at < front.len() implies !acc.contains_key(
            (#[trigger] front[at]).0,
        ) by {
            assert(front[at] == entries[at]);
        }
        lemma_merged_entries_count(acc, offset, front);
        lemma_merged_entries(acc, offset, front);
        let before = merged_entries(acc, offset, front)->Some_0;
        if before.contains_key(entries[last].0) {
            assert(!acc.contains_key(entries[last].0));
            let at = choose|at: int| #[trigger]
                table_gives(front, offset, at, entries[last].0, before[entries[last].0]);
            assert(entries[at].0 != entries[last].0);
        }
    }
}

/// Embeddings whose IDs all differ are merged without loss: the merged
/// manifest has as many entries as the embeddings have together.
pub proof fn law_merge_count(embeddings: Seq<Embedding>)
    requires
        merged_all(embeddings) is Some,
        forall|of: int, at: int, other: int, entry: int|
            0 <= of < embeddings.len() && 0 <= at < embeddings[of].entries@.len() && 0 <= other
                < embeddings.len() && 0 <= entry < embeddings[other].entries@.len() && (
            #[trigger] embeddings[of].entries@[at]).0 == (
            #[trigger] embeddings[other].entries@[entry]).0 ==> other == of && entry == at,
    ensures
        merged_all(embeddings)->Some_0.dom().finite(),
        merged_all(embeddings)->Some_0.len() == entry_count(embeddings),
    decreases embeddings.len(),
{
    if embeddings.len() > 0 {
        let front = embeddings.drop_last();
        let last = embeddings.len() - 1;
        assert forall|of: int, at: int, other: int, entry: int|
            0 <= of < front.len() && 0 <= at < front[of].entries@.len() && 0 <= other < front.len()
                && 0 <= entry < front[other].entries@.len() && (#[trigger] front[of].entries@[at]).0
                == (#[trigger] front[other].entries@[entry]).0 implies other == of && entry == at by {
            assert(front[of] == embeddings[of]);
            assert(front[other] == embeddings[other]);
            assert(embeddings[of].entries@[at].0 == embeddings[other].entries@[entry].0);
        }
        law_merge_count(front);
        lemma_merged_all(front);
        let before = merged_all(front)->Some_0;
        let entries = embeddings[last].entries@;
        assert(distinct_ids(entries)) by {
            assert forall|i: int, j: int| 0 <= i < j < entries.len() implies (#[trigger] entries[i]).0
                != (#[trigger] entries[j]).0 by {
                if embeddings[last].entries@[i].0 == embeddings[last].entries@[j].0 {
                    assert(false);
                }
            }
        }
        assert forall|at: int| 0 <= at < entries.len() implies !before.contains_key(
            (#[trigger] entries[at]).0,
        ) by {
            if before.contains_key(entries[at].0) {
                let (of, entry) = choose|of: int, entry: int| #[trigger]
                    list_gives(front, of, entry, entries[at].0, before[entries[at].0]);
                assert(front[of] == embeddings[of]);
                assert(embeddings[of].entries@[entry].0 == embeddings[last].entries@[at].0);
            }
        }
        lemma_merged_entries_count(before, embeddings[last].data_offset, entries);
    }
}

/// In a manifest that holds, for the embeddings found in a module, what
/// `WassetParser::parse` says, an ID that only one entry of all the
/// embeddings has is mapped to the range of that entry, moved up by the
/// data offset of its embedding.
pub proof fn law_parsed_manifest_moves_ranges(
    scan: Map<u128, WassetOffsets>,
    module: Seq<u8>,
    manifest: Map<u128, ByteRange>,
    key: u128,
    at: int,
    id: u128,
    range: ByteRange,
)
    requires
        forall|key: u128, at: int, id: u128, range: ByteRange| #[trigger]
            embedding_gives(scan, module, key, at, id, range) ==> manifest.contains_key(id),
        forall|id: u128| #[trigger]
            manifest.contains_key(id) ==> exists|key: u128, at: int| #[trigger]
                embedding_gives(scan, module, key, at, id, manifest[id]),
        embedding_gives(scan, module, key, at, id, range),
        forall|other: u128, entry: int, moved: ByteRange| #[trigger]
            embedding_gives(scan, module, other, entry, id, moved) ==> other == key && entry == at,
    ensures
        manifest.contains_key(id),
        manifest[id] == range,
{
}

/// A scan takes a section that is named as `manifest_section_name` names
/// it for the manifest of that embedding, and one that is named as
/// `data_section_name` names it for its data, where the UUID reads back from
/// its hyphenated form as both functions say.
pub proof fn law_scan_reads_section_names(
    offsets: Map<u128, WassetOffsets>,
    len: nat,
    embedding: u128,
    data: Range<u64>,
)
    ensures
        parsed_uuid(hyphenated(embedding)) == Some(embedding) && data.start <= data.end <= len
            ==> scan_custom(
            offsets,
            len,
            ASSET_MANIFEST_SECTION_PREFIX@ + hyphenated(embedding),
            data,
        ) == Some(with_manifest(offsets, embedding, data.start as usize, data.end as usize)),
        parsed_uuid(hyphenated(embedding)) == Some(embedding) && data.start <= u32::MAX
            ==> scan_custom(
            offsets,
            len,
            ASSET_DATA_SECTION_PREFIX@ + hyphenated(embedding),
            data,
        ) == Some(with_data(offsets, embedding, data.start as u32)),
{
    let text = hyphenated(embedding);
    let manifest_name = ASSET_MANIFEST_SECTION_PREFIX@ + text;
    let data_name = ASSET_DATA_SECTION_PREFIX@ + text;
    assert(manifest_name.skip(ASSET_MANIFEST_SECTION_PREFIX@.len() as int) =~= text);
    assert(data_name.skip(ASSET_DATA_SECTION_PREFIX@.len() as int) =~= text);
    lemma_prefixes_differ(text);
}

/// What a rewrite keeps of a payload that stands for a section of the
/// module itself: nothing of a custom section that holds assets, and of any
/// other section its tag, its length and its contents. `None` where the
/// module does not hold the section.
pub open spec fn kept(module: Seq<u8>, payload: PayloadInfo) -> Option<Seq<u8>> {
    match payload.event {
        SectionEvent::Custom { name, .. } => if is_asset_section(name@) {
            Some(Seq::empty())
        } else {
            with_section(Seq::empty(), module, payload.section)
        },
        _ => with_section(Seq::empty(), module, payload.section),
    }
}

/// The payloads from `at` on are those of a module without nested modules:
/// payloads of sections, and then the end.
pub open spec fn flat_from(payloads: Seq<Option<PayloadInfo>>, at: int) -> bool {
    &&& 0 <= at < payloads.len()
    &&& payloads.last() matches Some(last) && last.event is End
    &&& forall|i: int|
        at <= i < payloads.len() - 1 ==> section_payload(#[trigger] payloads[i])
}

/// The payload is that of a section: it is no error, no header, no end, and
/// begins nothing nested.
pub open spec fn section_payload(payload: Option<PayloadInfo>) -> bool {
    &&& payload is Some
    &&& payload->Some_0.event is Custom || payload->Some_0.event is Code || payload->Some_0.event
        is Other
}

/// What a rewrite keeps of the sections from `at` on, one after the other.
pub open spec fn kept_from(module: Seq<u8>, payloads: Seq<Option<PayloadInfo>>, at: int) -> Option<
    Seq<u8>,
>
    decreases payloads.len() - at,
{
    if at < 0 || at >= payloads.len() - 1 {
        Some(Seq::empty())
    } else {
        match (kept(module, payloads[at]->Some_0), kept_from(module, payloads, at + 1)) {
            (Some(bytes), Some(rest)) => Some(bytes + rest),
            _ => None,
        }
    }
}

/// The rewrite of the sections of a module without nested modules is what
/// was written before, and then what is kept of each section: every
/// section but those that hold assets, in their order, each with its tag
/// and its contents.
pub proof fn law_strip_keeps_other_sections(
    module: Seq<u8>,
    payloads: Seq<Option<PayloadInfo>>,
    at: int,
    state: StripState,
)
    requires
        flat_from(payloads, at),
        state.stack.len() == 0,
    ensures
        strip_from(module, payloads, at, state) == match kept_from(module, payloads, at) {
            Some(rest) => Some(state.output + rest),
            None => None,
        },
    decreases payloads.len() - at,
{
    if at < payloads.len() - 1 {
        let payload = payloads[at]->Some_0;
        match strip_step(state, module, payload) {
            StripStep::Continue(next) => {
                law_strip_keeps_other_sections(module, payloads, at + 1, next);
                let bytes = kept(module, payload)->Some_0;
                assert(next.output =~= state.output + bytes);
                match kept_from(module, payloads, at + 1) {
                    Some(rest) => {
                        assert(next.output + rest =~= state.output + (bytes + rest));
                    },
                    None => {},
                }
            },
            _ => {},
        }
    } else {
        assert(state.output + Seq::<u8>::empty() =~= state.output);
    }
}

/// The rewrite of a module without nested modules is its header and what is
/// kept of each of its sections.
pub proof fn law_strip_flat_module(module: Seq<u8>, payloads: Seq<Option<PayloadInfo>>)
    requires
        payloads.len() >= 2,
        payloads[0] matches Some(first) && first.event is Header && first.section is None,
        flat_from(payloads, 1),
    ensures
        strip_from(
            module,
            payloads,
            0,
            StripState { output: Seq::empty(), stack: Seq::empty() },
        ) == match kept_from(module, payloads, 1) {
            Some(rest) => Some(
                if payloads[0]->Some_0.event->Header_component {
                    component_header()
                } else {
                    module_header()
                } + rest,
            ),
            None => None,
        },
{
    let header = if payloads[0]->Some_0.event->Header_component {
        component_header()
    } else {
        module_header()
    };
    assert(Seq::<u8>::empty() + header =~= header);
    law_strip_keeps_other_sections(
        module,
        payloads,
        1,
        StripState { output: header, stack: Seq::empty() },
    );
}

} // verus!
