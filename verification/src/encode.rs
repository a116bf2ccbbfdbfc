//! Turns a folder of files into a data blob, a manifest and a hierarchy of
//! display names.

use crate::error::{ErrorCause, WassetError};
use crate::id::WassetId;
use crate::manifest::{
    distinct_ids, encoded_field, lemma_table_map, manifest_table, ranges_within, table_map,
    ByteRange, WassetManifest, ASSET_RANGES_FIELD,
};
use crate::parse::asset_bytes;
use toml::{Table, Value};
use vstd::prelude::*;

verus! {

#[verifier::external_type_specification]
#[verifier::external_body]
#[verifier::reject_recursive_types(K)]
#[verifier::reject_recursive_types(V)]
pub struct ExMetadataMap<K, V>(toml::map::Map<K, V>);

#[verifier::external_type_specification]
#[verifier::external_body]
pub struct ExMetadataValue(Value);

/// The keys of a metadata table, each with whether its value is a table.
pub uninterp spec fn table_kinds(table: Table) -> Map<Seq<char>, bool>;

/// The table that a metadata table holds under `key`, where it holds one.
pub uninterp spec fn table_under(table: Table, key: Seq<char>) -> Table;

/// What `str::parse` reads from `text` as a table, by `table_kinds`; `None`
/// where the text is not a table.
pub uninterp spec fn parsed_kinds(text: Seq<char>) -> Option<Map<Seq<char>, bool>>;

/// What a metadata table holds under a key.
#[derive(Debug)]
pub enum MetadataEntry {
    /// The table has no such key.
    Missing,
    /// The key holds this table.
    Table(Table),
    /// The key holds a value that is not a table.
    Other,
}

/// `Table::new`: a table without keys.
#[verifier::external_body]
pub(crate) fn empty_table() -> (table: Table)
    ensures
        forall|key: Seq<char>| !table_kinds(table).contains_key(key),
{
    Table::new()
}

/// `str::parse` for a `Table`: the table that the text holds, or the error
/// of the parser.
#[verifier::external_body]
pub(crate) fn parse_table(text: &str) -> (r: Result<Table, toml::de::Error>)
    ensures
        match r {
            Ok(table) => parsed_kinds(text@) == Some(table_kinds(table)),
            Err(_) => parsed_kinds(text@) is None,
        },
{
    text.parse::<Table>()
}

/// `Map::get` on a table, the value told apart by whether it is a table; a
/// table is handed out as a copy.
#[verifier::external_body]
pub(crate) fn table_entry(table: &Table, key: &str) -> (entry: MetadataEntry)
    ensures
        match entry {
            MetadataEntry::Missing => !table_kinds(*table).contains_key(key@),
            MetadataEntry::Table(found) => table_kinds(*table).contains_key(key@) && table_kinds(
                *table,
            )[key@] && found == table_under(*table, key@),
            MetadataEntry::Other => table_kinds(*table).contains_key(key@) && !table_kinds(
                *table,
            )[key@],
        },
{
    match table.get(key) {
        None => MetadataEntry::Missing,
        Some(Value::Table(table)) => MetadataEntry::Table(table.clone()),
        Some(_) => MetadataEntry::Other,
    }
}

/// Represents a type that can load assets from files on disk.
pub trait AssetEncoder {
    /// Creates the serialized record of a new asset from file data. The
    /// record may depend on the file `extension`, or on the `metadata` of the
    /// file from the metadata table of its folder. `None` declines the file.
    fn encode(extension: &str, metadata: &Table, data: Vec<u8>) -> Result<
        Option<Vec<u8>>,
        WassetError,
    >;
}

/// Denotes an asset that has been serialized.
#[derive(Clone, Debug)]
pub struct EncodedAsset {
    /// The name of the asset that should be displayed to the developer.
    pub name: String,
    /// The asset ID.
    pub id: WassetId,
}

/// Represents a hierarchy of assets that have been serialized.
#[derive(Debug)]
pub struct AssetHierarchy {
    /// The assets on this level of the hierarchy.
    pub assets: Vec<EncodedAsset>,
    /// The subhierarchies, each with its display name.
    pub sub_hierarchies: Vec<(String, AssetHierarchy)>,
}

/// Holds an entire set of assets that have been serialized from files on disk.
#[derive(Debug)]
pub struct EncodedAssets {
    /// The data that should be written to the custom section for holding the assets.
    pub data: Vec<u8>,
    /// The encoded asset names and IDs, under the name of the folder that
    /// they were read from.
    pub encoded_assets: Vec<(String, AssetHierarchy)>,
    /// The serialized manifest describing the assets.
    pub manifest: Vec<u8>,
}

/// A file of an asset folder.
#[derive(Debug)]
pub struct AssetFile {
    /// The name of the file without its extension.
    pub name: String,
    /// The extension of the file, empty where it has none.
    pub extension: String,
    /// The contents of the file.
    pub data: Vec<u8>,
}

/// A folder of assets, as it was read.
#[derive(Debug)]
pub struct AssetFolder {
    /// The name of the folder, if it has one.
    pub name: Option<String>,
    /// The text of the metadata file of the folder, if it has one.
    pub metadata: Option<String>,
    /// The folders inside the folder.
    pub folders: Vec<AssetFolder>,
    /// The files inside the folder.
    pub files: Vec<AssetFile>,
}

/// The records of an encoding as a value: each record with the ID that it
/// was appended under, in the order in which they were appended.
pub type Records = Seq<(u128, Seq<u8>)>;

/// The data blob that holds `records`: one record after the other.
pub open spec fn blob_of(records: Records) -> Seq<u8>
    decreases records.len(),
{
    if records.len() == 0 {
        Seq::empty()
    } else {
        blob_of(records.drop_last()) + records.last().1
    }
}

/// The table of `records`: for each record its ID and the range that it
/// takes in the data blob.
pub open spec fn table_of(records: Records) -> Seq<(u128, ByteRange)>
    decreases records.len(),
{
    if records.len() == 0 {
        Seq::empty()
    } else {
        table_of(records.drop_last()).push((records.last().0, last_range(records)))
    }
}

/// The manifest of `records`: each ID with the range of the last record
/// that was appended under it.
pub open spec fn manifest_of(records: Records) -> Map<u128, ByteRange> {
    table_map(table_of(records))
}

/// The range that the last of `records` takes in their data blob.
pub open spec fn last_range(records: Records) -> ByteRange {
    ByteRange {
        start: blob_of(records.drop_last()).len() as u32,
        end: blob_of(records).len() as u32,
    }
}

/// The manifest of records is the manifest of all but the last of them,
/// with the range of the last one under its ID.
pub proof fn lemma_manifest_of_last(records: Records)
    requires
        records.len() > 0,
    ensures
        manifest_of(records) == manifest_of(records.drop_last()).insert(
            records.last().0,
            last_range(records),
        ),
{
    let table = table_of(records.drop_last());
    assert(table.push((records.last().0, last_range(records))).drop_last() =~= table);
}

/// Represents an ongoing operation to encode assets: the data blob and the
/// manifest of what it holds.
pub struct EncodingOperation {
    /// The data section.
    data: Vec<u8>,
    /// The manifest.
    manifest: WassetManifest,
    /// What was appended.
    records: Ghost<Records>,
}

impl View for EncodingOperation {
    type V = Records;

    closed spec fn view(&self) -> Records {
        self.records@
    }
}

impl EncodingOperation {
    /// The data blob.
    pub closed spec fn data_view(&self) -> Seq<u8> {
        self.data@
    }

    /// The manifest.
    pub closed spec fn manifest_view(&self) -> Map<u128, ByteRange> {
        self.manifest@
    }

    /// The data blob and the manifest are those of the records that were
    /// appended, and 32 bits address the blob.
    pub open spec fn wf(&self) -> bool {
        &&& self.data_view() == blob_of(self@)
        &&& self.manifest_view() == manifest_of(self@)
        &&& self.data_view().len() <= u32::MAX
    }

    /// An operation that has encoded nothing.
    pub fn new() -> (operation: Self)
        ensures
            operation.wf(),
            operation@ == Records::empty(),
            operation.data_view() == Seq::<u8>::empty(),
            operation.manifest_view() == Map::<u128, ByteRange>::empty(),
    {
        EncodingOperation {
            data: Vec::new(),
            manifest: WassetManifest::new(),
            records: Ghost(Seq::empty()),
        }
    }

    /// Appends the serialized record `record` to the data blob and records
    /// the range that it takes under `id`.
    ///
    /// It fails, and changes nothing, where the blob would grow past what 32
    /// bits address.
    pub fn append(&mut self, id: WassetId, record: &[u8]) -> (r: Result<ByteRange, WassetError>)
        ensures
            old(self).wf() ==> final(self).wf(),
            match r {
                Ok(range) => {
                    &&& range.start == old(self).data_view().len()
                    &&& range.end == old(self).data_view().len() + record@.len()
                    &&& final(self)@ == old(self)@.push((id@, record@))
                    &&& final(self).data_view() == old(self).data_view() + record@
                    &&& final(self).manifest_view() == old(self).manifest_view().insert(id@, range)
                    &&& asset_bytes(final(self).data_view(), range) == Some(record@)
                },
                Err(err) => {
                    &&& old(self).data_view().len() + record@.len() > u32::MAX
                    &&& err == WassetError::Serialize(ErrorCause::TooLarge)
                    &&& final(self)@ == old(self)@
                    &&& final(self).data_view() == old(self).data_view()
                    &&& final(self).manifest_view() == old(self).manifest_view()
                },
            },
    {
        let limit: usize = u32::MAX as usize;
        if self.data.len() > limit || record.len() > limit - self.data.len() {
            return Err(WassetError::from_serialize(ErrorCause::TooLarge));
        }
        let start: u32 = self.data.len() as u32;
        self.data.extend_from_slice(record);
        let end: u32 = self.data.len() as u32;
        let range = ByteRange { start, end };
        self.manifest.insert(id, range);
        self.records = Ghost(self.records@.push((id@, record@)));
        proof {
            assert(self@.drop_last() =~= old(self)@);
            assert(self.data@ =~= old(self).data_view() + record@);
            lemma_manifest_of_last(self@);
        }
        Ok(range)
    }

    /// Serializes the manifest and hands out the data blob with it.
    ///
    /// The bytes of the manifest read back as a manifest with the same
    /// entries. It fails exactly where the serializer does.
    pub fn finish(self) -> (r: Result<(Vec<u8>, Vec<u8>), WassetError>)
        ensures
            match encoded_field(ASSET_RANGES_FIELD@, self.manifest_view()) {
                Some(encoded) => {
                    &&& r matches Ok((data, manifest))
                    &&& data@ == self.data_view()
                    &&& manifest@ == encoded
                    &&& manifest_table(manifest@) matches Some(table)
                    &&& distinct_ids(table)
                    &&& table_map(table) == self.manifest_view()
                },
                None => r matches Err(WassetError::Serialize(ErrorCause::Encode(_))),
            },
    {
        match self.manifest.to_bytes() {
            Ok(manifest) => Ok((self.data, manifest)),
            Err(err) => Err(err),
        }
    }
}

/// The ranges of the manifest of `records` lie within their data blob,
/// where 32 bits address the blob.
pub proof fn lemma_records_within(records: Records)
    requires
        blob_of(records).len() <= u32::MAX,
    ensures
        ranges_within(manifest_of(records), blob_of(records).len()),
    decreases records.len(),
{
    if records.len() > 0 {
        lemma_records_within(records.drop_last());
        lemma_manifest_of_last(records);
    }
}

/// The metadata of the file named `name` by the metadata table `master`
/// of its folder: the table under the name, or an empty table where the
/// name is missing.
///
/// It fails exactly where the name holds a value that is not a table.
pub fn file_metadata(master: &Table, name: &str) -> (r: Result<Table, WassetError>)
    ensures
        match r {
            Ok(metadata) => if table_kinds(*master).contains_key(name@) {
                table_kinds(*master)[name@] && metadata == table_under(*master, name@)
            } else {
                forall|key: Seq<char>| !table_kinds(metadata).contains_key(key)
            },
            Err(err) => {
                &&& table_kinds(*master).contains_key(name@)
                &&& !table_kinds(*master)[name@]
                &&& err matches WassetError::Serialize(ErrorCause::MetadataNotTable { name: named })
                &&& named@ == name@
            },
        },
{
    match table_entry(master, name) {
        MetadataEntry::Table(table) => Ok(table),
        MetadataEntry::Missing => Ok(empty_table()),
        MetadataEntry::Other => Err(
            WassetError::from_serialize(ErrorCause::MetadataNotTable { name: name.to_owned() }),
        ),
    }
}

/// The metadata table of a folder whose metadata file holds `text`, or an
/// empty table where the folder has no such file.
///
/// It fails exactly where the text is not a table.
pub fn folder_metadata(text: &Option<String>) -> (r: Result<Table, WassetError>)
    ensures
        match r {
            Ok(table) => match text {
                Some(text) => parsed_kinds(text@) == Some(table_kinds(table)),
                None => forall|key: Seq<char>| !table_kinds(table).contains_key(key),
            },
            Err(err) => {
                &&& text matches Some(text)
                &&& parsed_kinds(text@) is None
                &&& err matches WassetError::Serialize(ErrorCause::Metadata(_))
            },
        },
{
    match text {
        Some(text) => match parse_table(text.as_str()) {
            Ok(table) => Ok(table),
            Err(err) => Err(WassetError::from_serialize(ErrorCause::Metadata(err))),
        },
        None => Ok(empty_table()),
    }
}

impl Default for EncodedAssets {
    fn default() -> (assets: Self)
        ensures
            assets.data@.len() == 0,
            assets.encoded_assets@.len() == 0,
            assets.manifest@.len() == 0,
    {
        EncodedAssets { data: Vec::new(), encoded_assets: Vec::new(), manifest: Vec::new() }
    }
}

impl Default for AssetHierarchy {
    fn default() -> (hierarchy: Self)
        ensures
            hierarchy.assets@.len() == 0,
            hierarchy.sub_hierarchies@.len() == 0,
    {
        AssetHierarchy::new()
    }
}

impl AssetHierarchy {
    /// A hierarchy without assets.
    pub fn new() -> (hierarchy: Self)
        ensures
            hierarchy.assets@.len() == 0,
            hierarchy.sub_hierarchies@.len() == 0,
    {
        AssetHierarchy { assets: Vec::new(), sub_hierarchies: Vec::new() }
    }

    /// Every asset of the hierarchy, at whatever depth, has its ID in
    /// `manifest`.
    pub open spec fn listed(self, manifest: Map<u128, ByteRange>) -> bool
        decreases self,
    {
        &&& forall|i: int|
            0 <= i < self.assets@.len() ==> manifest.contains_key((#[trigger] self.assets@[i]).id@)
        &&& forall|i: int|
            0 <= i < self.sub_hierarchies@.len() ==> (#[trigger] self.sub_hierarchies@[i]).1.listed(
                manifest,
            )
    }
}

impl AssetHierarchy {
    /// Some asset of the hierarchy, at whatever depth, has the ID `id`.
    pub open spec fn has_leaf(self, id: u128) -> bool
        decreases self,
    {
        ||| exists|i: int| 0 <= i < self.assets@.len() && (#[trigger] self.assets@[i]).id@ == id
        ||| exists|c: int|
            0 <= c < self.sub_hierarchies@.len() && (#[trigger] self.sub_hierarchies@[c]).1.has_leaf(
                id,
            )
    }
}

impl AssetHierarchy {
    /// The number of assets of the hierarchy, at whatever depth.
    pub open spec fn leaf_count(self) -> nat
        decreases self, self.sub_hierarchies@.len() + 1,
    {
        self.assets@.len() + self.leaves_upto(self.sub_hierarchies@.len())
    }

    /// The number of assets in the first `upto` subhierarchies.
    pub open spec fn leaves_upto(self, upto: nat) -> nat
        decreases self, upto,
    {
        if upto == 0 || upto > self.sub_hierarchies@.len() {
            0
        } else {
            self.leaves_upto((upto - 1) as nat) + self.sub_hierarchies@[upto - 1].1.leaf_count()
        }
    }
}

/// The assets of the first subhierarchies of two hierarchies are as many,
/// where these subhierarchies are the same.
pub proof fn lemma_leaves_upto_same(a: AssetHierarchy, b: AssetHierarchy, upto: nat)
    requires
        upto <= a.sub_hierarchies@.len(),
        upto <= b.sub_hierarchies@.len(),
        forall|i: int| 0 <= i < upto ==> a.sub_hierarchies@[i] == b.sub_hierarchies@[i],
    ensures
        a.leaves_upto(upto) == b.leaves_upto(upto),
    decreases upto,
{
    if upto > 0 {
        lemma_leaves_upto_same(a, b, (upto - 1) as nat);
    }
}

/// A hierarchy without the subhierarchy at `at` of another has the assets
/// of the other but those of that subhierarchy.
pub proof fn lemma_leaves_upto_removed(a: AssetHierarchy, b: AssetHierarchy, at: int, upto: nat)
    requires
        0 <= at < a.sub_hierarchies@.len(),
        b.sub_hierarchies@ == a.sub_hierarchies@.remove(at),
        upto <= b.sub_hierarchies@.len(),
    ensures
        upto <= at ==> b.leaves_upto(upto) == a.leaves_upto(upto),
        upto >= at ==> b.leaves_upto(upto) + a.sub_hierarchies@[at].1.leaf_count() == a.leaves_upto(
            upto + 1,
        ),
    decreases upto,
{
    if upto > 0 {
        lemma_leaves_upto_removed(a, b, at, (upto - 1) as nat);
        if upto - 1 < at {
            assert(b.sub_hierarchies@[upto - 1] == a.sub_hierarchies@[upto - 1]);
        } else {
            assert(b.sub_hierarchies@[upto - 1] == a.sub_hierarchies@[upto as int]);
        }
    }
    if upto == at {
        lemma_leaves_upto_same(a, b, upto);
    }
}

/// One of `records` at or after `from` was appended under the ID `id`.
pub open spec fn recorded_from(records: Records, from: int, id: u128) -> bool {
    exists|k: int| from <= k < records.len() && (#[trigger] records[k]).0 == id
}

/// What was recorded from `from` on in records that go on after `middle`
/// was recorded before `middle` or after it.
pub proof fn lemma_recorded_from(before: Records, after: Records, from: int, id: u128)
    requires
        before.is_prefix_of(after),
        0 <= from <= before.len(),
    ensures
        recorded_from(after, from, id) <==> recorded_from(before, from, id) || recorded_from(
            after,
            before.len() as int,
            id,
        ),
{
    if recorded_from(after, from, id) {
        let k = choose|k: int| from <= k < after.len() && (#[trigger] after[k]).0 == id;
        if k < before.len() {
            assert(before[k] == after[k]);
        }
    }
    if recorded_from(before, from, id) {
        let k = choose|k: int| from <= k < before.len() && (#[trigger] before[k]).0 == id;
        assert(after[k] == before[k]);
    }
}

/// A hierarchy whose assets are in a manifest has them in every manifest
/// that holds at least the same IDs.
pub proof fn lemma_listed_grows(
    hierarchy: AssetHierarchy,
    before: Map<u128, ByteRange>,
    after: Map<u128, ByteRange>,
)
    requires
        hierarchy.listed(before),
        forall|id: u128| #[trigger] before.contains_key(id) ==> after.contains_key(id),
    ensures
        hierarchy.listed(after),
    decreases hierarchy,
{
    assert forall|i: int| 0 <= i < hierarchy.sub_hierarchies@.len() implies (
    #[trigger] hierarchy.sub_hierarchies@[i]).1.listed(after) by {
        lemma_listed_grows(hierarchy.sub_hierarchies@[i].1, before, after);
    }
}

/// No two of `children` have the same name.
pub open spec fn distinct_names(children: Seq<(String, AssetHierarchy)>) -> bool {
    forall|i: int, j: int|
        0 <= i < j < children.len() ==> (#[trigger] children[i]).0@ != (#[trigger] children[j]).0@
}

/// None of `children` is named `name`.
pub open spec fn unnamed(children: Seq<(String, AssetHierarchy)>, name: Seq<char>) -> bool {
    forall|i: int| 0 <= i < children.len() ==> (#[trigger] children[i]).0@ != name
}

/// The index of the first of `children` that is named `name`, or the number
/// of children where none is.
pub open spec fn first_named(children: Seq<(String, AssetHierarchy)>, name: Seq<char>) -> int
    decreases children.len(),
{
    if children.len() == 0 {
        0
    } else if children[0].0@ == name {
        0
    } else {
        1 + first_named(children.skip(1), name)
    }
}

/// `first_named` is the index of a child of that name, or the number of
/// children, and no child before it has the name.
pub proof fn lemma_first_named(children: Seq<(String, AssetHierarchy)>, name: Seq<char>)
    ensures
        0 <= first_named(children, name) <= children.len(),
        first_named(children, name) < children.len() ==> children[first_named(children, name)].0@
            == name,
        forall|i: int| 0 <= i < first_named(children, name) ==> (#[trigger] children[i]).0@ != name,
    decreases children.len(),
{
    if children.len() > 0 && children[0].0@ != name {
        let rest = children.skip(1);
        lemma_first_named(rest, name);
        assert forall|i: int| 0 <= i < first_named(children, name) implies (
        #[trigger] children[i]).0@ != name by {
            if i > 0 {
                assert(rest[i - 1].0@ != name);
            }
        }
    }
}

impl AssetHierarchy {
    /// Takes the first subhierarchy named `name` out of the hierarchy, or
    /// makes an empty one where the hierarchy has none of that name.
    pub fn take_child(&mut self, name: &String) -> (child: AssetHierarchy)
        ensures
            final(self).assets@ == old(self).assets@,
            ({
                let at = first_named(old(self).sub_hierarchies@, name@);
                if at < old(self).sub_hierarchies@.len() {
                    &&& child == old(self).sub_hierarchies@[at].1
                    &&& final(self).sub_hierarchies@ == old(self).sub_hierarchies@.remove(at)
                } else {
                    &&& child.assets@.len() == 0
                    &&& child.sub_hierarchies@.len() == 0
                    &&& final(self).sub_hierarchies@ == old(self).sub_hierarchies@
                }
            }),
            forall|manifest: Map<u128, ByteRange>| #[trigger]
                old(self).listed(manifest) ==> final(self).listed(manifest) && child.listed(
                    manifest,
                ),
            distinct_names(old(self).sub_hierarchies@) ==> distinct_names(
                final(self).sub_hierarchies@,
            ) && unnamed(final(self).sub_hierarchies@, name@),
            forall|id: u128| #[trigger]
                old(self).has_leaf(id) <==> final(self).has_leaf(id) || child.has_leaf(id),
            old(self).leaf_count() == final(self).leaf_count() + child.leaf_count(),
    {
        let ghost all = self.sub_hierarchies@;
        proof {
            lemma_first_named(all, name@);
            assert(all.skip(0) =~= all);
        }
        let mut i: usize = 0;
        while i < self.sub_hierarchies.len()
            invariant
                i <= self.sub_hierarchies@.len(),
                self.sub_hierarchies@ == all,
                self.assets@ == old(self).assets@,
                all == old(self).sub_hierarchies@,
                first_named(all, name@) == i + first_named(all.skip(i as int), name@),
            decreases self.sub_hierarchies@.len() - i,
        {
            if self.sub_hierarchies[i].0 == *name {
                let entry = self.sub_hierarchies.remove(i);
                proof {
                    let at = i as int;
                    let rest = self.sub_hierarchies@;
                    lemma_leaves_upto_removed(*old(self), *self, at, rest.len());
                    assert forall|id: u128| #[trigger]
                        old(self).has_leaf(id) <==> self.has_leaf(id) || entry.1.has_leaf(id) by {
                        if old(self).has_leaf(id) && !self.has_leaf(id) && !(exists|k: int|
                            0 <= k < self.assets@.len() && (#[trigger] self.assets@[k]).id@ == id) {
                            let c = choose|c: int|
                                0 <= c < all.len() && (#[trigger] all[c]).1.has_leaf(id);
                            if c < at {
                                assert(rest[c].1.has_leaf(id));
                            } else if c > at {
                                assert(rest[c - 1].1.has_leaf(id));
                            }
                        }
                        if self.has_leaf(id) && !(exists|k: int|
                            0 <= k < self.assets@.len() && (#[trigger] self.assets@[k]).id@ == id) {
                            let c = choose|c: int|
                                0 <= c < rest.len() && (#[trigger] rest[c]).1.has_leaf(id);
                            if c < at {
                                assert(all[c].1.has_leaf(id));
                            } else {
                                assert(all[c + 1].1.has_leaf(id));
                            }
                        }
                        if entry.1.has_leaf(id) {
                            assert(all[at].1.has_leaf(id));
                        }
                    }
                }
                return entry.1;
            }
            assert(all.skip(i as int).skip(1) =~= all.skip(i + 1));
            i = i + 1;
        }
        proof {
            lemma_leaves_upto_same(*old(self), *self, all.len());
        }
        AssetHierarchy::new()
    }

    /// Puts the subhierarchy `child` into the hierarchy under `name`.
    pub fn put_child(&mut self, name: String, child: AssetHierarchy)
        ensures
            final(self).assets@ == old(self).assets@,
            final(self).sub_hierarchies@ == old(self).sub_hierarchies@.push((name, child)),
            forall|manifest: Map<u128, ByteRange>| #[trigger]
                old(self).listed(manifest) && child.listed(manifest) ==> final(self).listed(
                    manifest,
                ),
            distinct_names(old(self).sub_hierarchies@) && unnamed(
                old(self).sub_hierarchies@,
                name@,
            ) ==> distinct_names(final(self).sub_hierarchies@),
            forall|id: u128| #[trigger]
                final(self).has_leaf(id) <==> old(self).has_leaf(id) || child.has_leaf(id),
            final(self).leaf_count() == old(self).leaf_count() + child.leaf_count(),
    {
        self.sub_hierarchies.push((name, child));
        proof {
            let before = old(self).sub_hierarchies@;
            let after = self.sub_hierarchies@;
            lemma_leaves_upto_same(*old(self), *self, before.len());
            assert forall|id: u128| #[trigger]
                self.has_leaf(id) <==> old(self).has_leaf(id) || child.has_leaf(id) by {
                if self.has_leaf(id) && !(exists|k: int|
                    0 <= k < self.assets@.len() && (#[trigger] self.assets@[k]).id@ == id) {
                    let c = choose|c: int|
                        0 <= c < after.len() && (#[trigger] after[c]).1.has_leaf(id);
                    if c < before.len() {
                        assert(before[c].1.has_leaf(id));
                    }
                }
                if old(self).has_leaf(id) && !(exists|k: int|
                    0 <= k < self.assets@.len() && (#[trigger] self.assets@[k]).id@ == id) {
                    let c = choose|c: int|
                        0 <= c < before.len() && (#[trigger] before[c]).1.has_leaf(id);
                    assert(after[c].1.has_leaf(id));
                }
                if child.has_leaf(id) {
                    assert(after[after.len() - 1].1.has_leaf(id));
                }
            }
        }
    }
}

/// Records what the encoder made of one file: nothing where it declined
/// the file, its error where it failed, and else the record, which goes to
/// the end of the data blob, with its range in the manifest under `id` and a
/// leaf named `name` in the hierarchy.
///
/// It fails with the error of the encoder, or where the blob would grow
/// past what 32 bits address. It then changes nothing.
pub fn record_encoded(
    operation: &mut EncodingOperation,
    hierarchy: &mut AssetHierarchy,
    name: &str,
    id: WassetId,
    outcome: Result<Option<Vec<u8>>, WassetError>,
) -> (r: Result<(), WassetError>)
    ensures
        old(operation).wf() ==> final(operation).wf(),
        final(hierarchy).sub_hierarchies == old(hierarchy).sub_hierarchies,
        old(hierarchy).listed(old(operation).manifest_view()) ==> final(hierarchy).listed(
            final(operation).manifest_view(),
        ),
        forall|other: u128| #[trigger]
            final(hierarchy).has_leaf(other) <==> old(hierarchy).has_leaf(other) || (r is Ok
                && outcome is Ok && outcome->Ok_0 is Some && other == id@),
        final(hierarchy).leaf_count() - old(hierarchy).leaf_count() == final(operation)@.len()
            - old(operation)@.len(),
        match outcome {
            Ok(Some(record)) if old(operation).data_view().len() + record@.len() <= u32::MAX => {
                let range = ByteRange {
                    start: old(operation).data_view().len() as u32,
                    end: (old(operation).data_view().len() + record@.len()) as u32,
                };
                &&& r is Ok
                &&& final(operation)@ == old(operation)@.push((id@, record@))
                &&& final(operation).data_view() == old(operation).data_view() + record@
                &&& final(operation).manifest_view() == old(operation).manifest_view().insert(
                    id@,
                    range,
                )
                &&& asset_bytes(final(operation).data_view(), range) == Some(record@)
                &&& final(hierarchy).assets@.len() == old(hierarchy).assets@.len() + 1
                &&& final(hierarchy).assets@.drop_last() == old(hierarchy).assets@
                &&& final(hierarchy).assets@.last().name@ == name@
                &&& final(hierarchy).assets@.last().id == id
            },
            _ => {
                &&& final(operation)@ == old(operation)@
                &&& final(operation).data_view() == old(operation).data_view()
                &&& final(operation).manifest_view() == old(operation).manifest_view()
                &&& final(hierarchy).assets@ == old(hierarchy).assets@
                &&& match outcome {
                    Ok(Some(_)) => r == Err::<(), WassetError>(
                        WassetError::Serialize(ErrorCause::TooLarge),
                    ),
                    Ok(None) => r is Ok,
                    Err(err) => r == Err::<(), WassetError>(err),
                }
            },
        },
{
    match outcome {
        Ok(Some(record)) => match operation.append(id, record.as_slice()) {
            Ok(_) => {
                hierarchy.assets.push(EncodedAsset { name: name.to_owned(), id });
                proof {
                    if old(hierarchy).listed(old(operation).manifest_view()) {
                        lemma_listed_grows(
                            *old(hierarchy),
                            old(operation).manifest_view(),
                            operation.manifest_view(),
                        );
                    }
                    let before = old(hierarchy).assets@;
                    let after = hierarchy.assets@;
                    assert(after.drop_last() =~= before);
                    lemma_leaves_upto_same(
                        *old(hierarchy),
                        *hierarchy,
                        hierarchy.sub_hierarchies@.len(),
                    );
                    assert(hierarchy.sub_hierarchies@ == old(hierarchy).sub_hierarchies@);
                    assert(after[after.len() - 1].id@ == id@);
                    assert forall|other: u128| #[trigger]
                        hierarchy.has_leaf(other) <==> old(hierarchy).has_leaf(other) || other
                            == id@ by {
                        if exists|k: int| 0 <= k < after.len() && (#[trigger] after[k]).id@ == other {
                            let k = choose|k: int|
                                0 <= k < after.len() && (#[trigger] after[k]).id@ == other;
                            if k < before.len() {
                                assert(after.drop_last()[k] == after[k]);
                                assert(before[k].id@ == other);
                            }
                        }
                        if exists|k: int| 0 <= k < before.len() && (#[trigger] before[k]).id@ == other {
                            let k = choose|k: int|
                                0 <= k < before.len() && (#[trigger] before[k]).id@ == other;
                            assert(after.drop_last()[k] == after[k]);
                            assert(after[k].id@ == other);
                        }
                    }
                }
                Ok(())
            },
            Err(err) => Err(err),
        },
        Ok(None) => Ok(()),
        Err(err) => Err(err),
    }
}

/// What a metadata table holds under `name` does not stop the encoding of
/// a file of that name: nothing, or a table.
pub open spec fn entry_accepted(kinds: Map<Seq<char>, bool>, name: Seq<char>) -> bool {
    !kinds.contains_key(name) || kinds[name]
}

/// The metadata of the folder and of every folder inside it can be used:
/// the metadata file of each folder, where it has one, is a table; what it
/// holds under the name of a file of the folder is a table; and each folder
/// inside another has a name.
pub open spec fn metadata_accepted(folder: AssetFolder) -> bool
    decreases folder,
{
    &&& match folder.metadata {
        Some(text) => parsed_kinds(text@) matches Some(kinds) && forall|i: int|
            0 <= i < folder.files@.len() ==> entry_accepted(kinds, (#[trigger] folder.files@[i]).name@),
        None => true,
    }
    &&& forall|i: int|
        0 <= i < folder.folders@.len() ==> (#[trigger] folder.folders@[i]).name is Some
            && metadata_accepted(folder.folders@[i])
}

/// One of `children` is named `name`.
pub open spec fn has_child(children: Seq<(String, AssetHierarchy)>, name: Seq<char>) -> bool {
    exists|c: int| 0 <= c < children.len() && (#[trigger] children[c]).0@ == name
}

/// One of `files` is named `name`.
pub open spec fn has_file(files: Seq<AssetFile>, name: Seq<char>) -> bool {
    exists|j: int| 0 <= j < files.len() && (#[trigger] files[j]).name@ == name
}

/// Neither the folder nor any folder inside it holds a file.
pub open spec fn without_files(folder: AssetFolder) -> bool
    decreases folder,
{
    &&& folder.files@.len() == 0
    &&& forall|i: int|
        0 <= i < folder.folders@.len() ==> without_files(#[trigger] folder.folders@[i])
}

/// One of `folders` is named `name`.
pub open spec fn has_folder(folders: Seq<AssetFolder>, name: Seq<char>) -> bool {
    exists|i: int|
        0 <= i < folders.len() && (#[trigger] folders[i]).name is Some && folders[i].name->Some_0@
            == name
}

/// The table has no key.
pub open spec fn no_keys(table: Table) -> bool {
    forall|key: Seq<char>| !table_kinds(table).contains_key(key)
}

/// `master` is the metadata table of the folder: what its metadata file
/// holds, or a table without keys where it has no metadata file.
pub open spec fn folder_table(folder: AssetFolder, master: Table) -> bool {
    match folder.metadata {
        Some(text) => parsed_kinds(text@) == Some(table_kinds(master)),
        None => no_keys(master),
    }
}

/// The encoder was handed the file: its extension as `extension`, its
/// contents as `data`, and as `metadata` the table that `master` holds
/// under its name, or a table without keys where it holds none. It made
/// `outcome` of them.
pub open spec fn handed<A: AssetEncoder>(
    master: Table,
    file: AssetFile,
    extension: &str,
    metadata: Table,
    data: Vec<u8>,
    outcome: Result<Option<Vec<u8>>, WassetError>,
) -> bool {
    &&& extension@ == file.extension@
    &&& data@ == file.data@
    &&& if table_kinds(master).contains_key(file.name@) {
        metadata == table_under(master, file.name@)
    } else {
        no_keys(metadata)
    }
    &&& call_ensures(A::encode, (extension, &metadata, data), outcome)
}

/// The encoder, handed the file with its metadata from `master`, made
/// `outcome` of it.
pub open spec fn encoded_file<A: AssetEncoder>(
    master: Table,
    file: AssetFile,
    outcome: Result<Option<Vec<u8>>, WassetError>,
) -> bool {
    exists|extension: &str, metadata: Table, data: Vec<u8>| #[trigger]
        handed::<A>(master, file, extension, metadata, data, outcome)
}

/// One of `records` at or after `from` holds the bytes `bytes`.
pub open spec fn holds_from(records: Records, from: int, bytes: Seq<u8>) -> bool {
    exists|k: int| 0 <= k && from <= k < records.len() && (#[trigger] records[k]).1 == bytes
}

/// What the encoder made of the file was used: it declined the file, or it
/// made a record that is among `records` from `from` on.
pub open spec fn used<A: AssetEncoder>(
    master: Table,
    file: AssetFile,
    outcome: Result<Option<Vec<u8>>, WassetError>,
    records: Records,
    from: int,
) -> bool {
    &&& encoded_file::<A>(master, file, outcome)
    &&& match outcome {
        Ok(Some(record)) => holds_from(records, from, record@),
        Ok(None) => true,
        Err(_) => false,
    }
}

/// The encoder was asked for the file, and what it made was used.
pub open spec fn file_used<A: AssetEncoder>(
    master: Table,
    file: AssetFile,
    records: Records,
    from: int,
) -> bool {
    exists|outcome: Result<Option<Vec<u8>>, WassetError>| #[trigger]
        used::<A>(master, file, outcome, records, from)
}

/// `master` is the metadata table of the folder, and the encoder was asked
/// for each file of the folder itself, and what it made was used.
pub open spec fn files_used<A: AssetEncoder>(
    folder: AssetFolder,
    master: Table,
    records: Records,
    from: int,
) -> bool {
    &&& folder_table(folder, master)
    &&& forall|j: int|
        0 <= j < folder.files@.len() ==> file_used::<A>(
            master,
            #[trigger] folder.files@[j],
            records,
            from,
        )
}

/// The encoder was asked for every file of the folder and of the folders
/// inside it, and what it made of each was used: each record that it made
/// is among `records` from `from` on.
pub open spec fn folder_used<A: AssetEncoder>(folder: AssetFolder, records: Records, from: int) -> bool
    decreases folder,
{
    &&& exists|master: Table| #[trigger] files_used::<A>(folder, master, records, from)
    &&& forall|i: int|
        0 <= i < folder.folders@.len() ==> folder_used::<A>(
            #[trigger] folder.folders@[i],
            records,
            from,
        )
}

/// The encoder made `outcome` of the file at `at` of the folder itself.
pub open spec fn made_of<A: AssetEncoder>(
    folder: AssetFolder,
    master: Table,
    at: int,
    outcome: Result<Option<Vec<u8>>, WassetError>,
) -> bool {
    &&& folder_table(folder, master)
    &&& 0 <= at < folder.files@.len()
    &&& encoded_file::<A>(master, folder.files@[at], outcome)
}

/// The encoder made the record `bytes` of a file of the folder or of a
/// folder inside it.
pub open spec fn made_in<A: AssetEncoder>(folder: AssetFolder, bytes: Seq<u8>) -> bool
    decreases folder,
{
    ||| exists|master: Table, at: int, outcome: Result<Option<Vec<u8>>, WassetError>| #[trigger]
        made_of::<A>(folder, master, at, outcome) && outcome is Ok && outcome->Ok_0 is Some
            && outcome->Ok_0->Some_0@ == bytes
    ||| exists|i: int|
        0 <= i < folder.folders@.len() && made_in::<A>(#[trigger] folder.folders@[i], bytes)
}

/// The encoder failed with `err` on a file of the folder or of a folder
/// inside it.
pub open spec fn failed_in<A: AssetEncoder>(folder: AssetFolder, err: WassetError) -> bool
    decreases folder,
{
    ||| exists|master: Table, at: int, outcome: Result<Option<Vec<u8>>, WassetError>| #[trigger]
        made_of::<A>(folder, master, at, outcome) && outcome == Err::<
            Option<Vec<u8>>,
            WassetError,
        >(err)
    ||| exists|i: int|
        0 <= i < folder.folders@.len() && failed_in::<A>(#[trigger] folder.folders@[i], err)
}

/// The encoder made, of a file of the folder or of a folder inside it, a
/// record that does not fit behind `len` bytes of data that 32 bits are to
/// address.
pub open spec fn too_large_in<A: AssetEncoder>(folder: AssetFolder, len: nat) -> bool {
    exists|bytes: Seq<u8>| #[trigger] made_in::<A>(folder, bytes) && len + bytes.len() > u32::MAX
}

/// Why an encoding failed although the metadata could be used: the encoder
/// failed with this error on a file, or the error says that the data grew
/// too large, and the encoder made a record that did not fit behind `len`
/// bytes of data.
pub open spec fn failed_by<A: AssetEncoder>(folder: AssetFolder, err: WassetError, len: nat) -> bool {
    ||| failed_in::<A>(folder, err)
    ||| err == WassetError::Serialize(ErrorCause::TooLarge) && too_large_in::<A>(folder, len)
}

/// What was used stays used where more is recorded, and where records are
/// looked at from further back.
pub proof fn lemma_file_used_grows<A: AssetEncoder>(
    master: Table,
    file: AssetFile,
    before: Records,
    from: int,
    after: Records,
    back: int,
)
    requires
        file_used::<A>(master, file, before, from),
        before.is_prefix_of(after),
        back <= from,
    ensures
        file_used::<A>(master, file, after, back),
{
    let outcome = choose|outcome: Result<Option<Vec<u8>>, WassetError>| #[trigger]
        used::<A>(master, file, outcome, before, from);
    if outcome is Ok && outcome->Ok_0 is Some {
        let bytes = outcome->Ok_0->Some_0@;
        let k = choose|k: int|
            0 <= k && from <= k < before.len() && (#[trigger] before[k]).1 == bytes;
        assert(after[k] == before[k]);
    }
    assert(used::<A>(master, file, outcome, after, back));
}

/// What the encoder made of the files of a folder stays used where more is
/// recorded, and where records are looked at from further back.
pub proof fn lemma_folder_used_grows<A: AssetEncoder>(
    folder: AssetFolder,
    before: Records,
    from: int,
    after: Records,
    back: int,
)
    requires
        folder_used::<A>(folder, before, from),
        before.is_prefix_of(after),
        back <= from,
    ensures
        folder_used::<A>(folder, after, back),
    decreases folder,
{
    let master = choose|master: Table| #[trigger] files_used::<A>(folder, master, before, from);
    assert forall|j: int| 0 <= j < folder.files@.len() implies file_used::<A>(
        master,
        #[trigger] folder.files@[j],
        after,
        back,
    ) by {
        lemma_file_used_grows::<A>(master, folder.files@[j], before, from, after, back);
    }
    assert(files_used::<A>(folder, master, after, back));
    assert forall|i: int| 0 <= i < folder.folders@.len() implies folder_used::<A>(
        #[trigger] folder.folders@[i],
        after,
        back,
    ) by {
        lemma_folder_used_grows::<A>(folder.folders@[i], before, from, after, back);
    }
}

/// One of `leaves` bears the name `name` and the ID of one of `records` at
/// or after `from` that holds the bytes `bytes`.
pub open spec fn leaf_holds(
    leaves: Seq<EncodedAsset>,
    name: Seq<char>,
    records: Records,
    from: int,
    bytes: Seq<u8>,
) -> bool {
    exists|a: int, k: int|
        0 <= a < leaves.len() && 0 <= k && from <= k < records.len() && (#[trigger] leaves[a]).name@
            == name && leaves[a].id@ == (#[trigger] records[k]).0 && records[k].1 == bytes
}

/// What the encoder made of the file has its place: it declined the file,
/// or a leaf of `leaves` that is named after the file bears the ID of a
/// record, among `records` from `from` on, that holds what it made.
pub open spec fn placed<A: AssetEncoder>(
    master: Table,
    file: AssetFile,
    outcome: Result<Option<Vec<u8>>, WassetError>,
    leaves: Seq<EncodedAsset>,
    records: Records,
    from: int,
) -> bool {
    &&& encoded_file::<A>(master, file, outcome)
    &&& match outcome {
        Ok(Some(record)) => leaf_holds(leaves, file.name@, records, from, record@),
        Ok(None) => true,
        Err(_) => false,
    }
}

/// What the encoder made of the files of a folder, file by file.
pub type Outcomes = Seq<Result<Option<Vec<u8>>, WassetError>>;

/// The number of records among `outcomes`.
pub open spec fn accepted(outcomes: Outcomes) -> nat
    decreases outcomes.len(),
{
    if outcomes.len() == 0 {
        0
    } else {
        accepted(outcomes.drop_last()) + if outcomes.last() matches Ok(Some(_)) {
            1nat
        } else {
            0nat
        }
    }
}

/// `master` is the metadata table of the folder, `outcomes` are what the
/// encoder made of the files of the folder itself, one after the other,
/// each has its place among `leaves`, and there are as many leaves as the
/// encoder made records.
pub open spec fn files_placed<A: AssetEncoder>(
    folder: AssetFolder,
    master: Table,
    outcomes: Outcomes,
    leaves: Seq<EncodedAsset>,
    records: Records,
    from: int,
) -> bool {
    &&& folder_table(folder, master)
    &&& outcomes.len() == folder.files@.len()
    &&& forall|j: int|
        0 <= j < folder.files@.len() ==> placed::<A>(
            master,
            #[trigger] folder.files@[j],
            outcomes[j],
            leaves,
            records,
            from,
        )
    &&& leaves.len() == accepted(outcomes)
}

/// What the encoder made of each file has its place in the hierarchy: the
/// hierarchy itself has one leaf for each file of the folder itself that
/// the encoder made a record of, under the name of the file and the ID of
/// the record, and the subhierarchy at the place of a folder inside the
/// folder holds the leaves of that folder, in the same way.
pub open spec fn folder_placed<A: AssetEncoder>(
    folder: AssetFolder,
    hierarchy: AssetHierarchy,
    records: Records,
    from: int,
) -> bool
    decreases folder,
{
    &&& exists|master: Table, outcomes: Outcomes| #[trigger]
        files_placed::<A>(folder, master, outcomes, hierarchy.assets@, records, from)
    &&& folder.folders@.len() <= hierarchy.sub_hierarchies@.len()
    &&& forall|i: int|
        0 <= i < folder.folders@.len() ==> folder_placed::<A>(
            #[trigger] folder.folders@[i],
            hierarchy.sub_hierarchies@[i].1,
            records,
            from,
        )
}

/// What has its place keeps it where more leaves and records follow, and
/// where records are looked at from further back.
pub proof fn lemma_placed_grows<A: AssetEncoder>(
    master: Table,
    file: AssetFile,
    outcome: Result<Option<Vec<u8>>, WassetError>,
    leaves: Seq<EncodedAsset>,
    before: Records,
    from: int,
    more_leaves: Seq<EncodedAsset>,
    after: Records,
    back: int,
)
    requires
        placed::<A>(master, file, outcome, leaves, before, from),
        leaves.is_prefix_of(more_leaves),
        before.is_prefix_of(after),
        back <= from,
    ensures
        placed::<A>(master, file, outcome, more_leaves, after, back),
{
    if outcome is Ok && outcome->Ok_0 is Some {
        let bytes = outcome->Ok_0->Some_0@;
        let (a, k) = choose|a: int, k: int|
            0 <= a < leaves.len() && 0 <= k && from <= k < before.len() && (#[trigger] leaves[a]).name@
                == file.name@ && leaves[a].id@ == (#[trigger] before[k]).0 && before[k].1 == bytes;
        assert(more_leaves[a] == leaves[a]);
        assert(after[k] == before[k]);
        assert(leaf_holds(more_leaves, file.name@, after, back, bytes));
    }
}

/// What has its place in a hierarchy keeps it where more is recorded, and
/// where records are looked at from further back.
pub proof fn lemma_folder_placed_grows<A: AssetEncoder>(
    folder: AssetFolder,
    hierarchy: AssetHierarchy,
    before: Records,
    from: int,
    after: Records,
    back: int,
)
    requires
        folder_placed::<A>(folder, hierarchy, before, from),
        before.is_prefix_of(after),
        back <= from,
    ensures
        folder_placed::<A>(folder, hierarchy, after, back),
    decreases folder,
{
    let leaves = hierarchy.assets@;
    let (master, outcomes) = choose|master: Table, outcomes: Outcomes| #[trigger]
        files_placed::<A>(folder, master, outcomes, leaves, before, from);
    assert forall|j: int| 0 <= j < folder.files@.len() implies placed::<A>(
        master,
        #[trigger] folder.files@[j],
        outcomes[j],
        leaves,
        after,
        back,
    ) by {
        lemma_placed_grows::<A>(
            master,
            folder.files@[j],
            outcomes[j],
            leaves,
            before,
            from,
            leaves,
            after,
            back,
        );
    }
    assert(files_placed::<A>(folder, master, outcomes, leaves, after, back));
    assert forall|i: int| 0 <= i < folder.folders@.len() implies folder_placed::<A>(
        #[trigger] folder.folders@[i],
        hierarchy.sub_hierarchies@[i].1,
        after,
        back,
    ) by {
        lemma_folder_placed_grows::<A>(
            folder.folders@[i],
            hierarchy.sub_hierarchies@[i].1,
            before,
            from,
            after,
            back,
        );
    }
}

/// No two folders inside the folder have the same name, and the same holds
/// of every folder inside it.
pub open spec fn distinct_folders(folder: AssetFolder) -> bool
    decreases folder,
{
    &&& forall|i: int, j: int|
        0 <= i < j < folder.folders@.len() ==> (#[trigger] folder.folders@[i]).name->Some_0@ != (
        #[trigger] folder.folders@[j]).name->Some_0@
    &&& forall|i: int|
        0 <= i < folder.folders@.len() ==> distinct_folders(#[trigger] folder.folders@[i])
}

/// The hierarchy has the shape of the folder: its leaves bear names of
/// files of the folder, and it has one subhierarchy for each folder inside
/// the folder, in their order and under their names, each of the shape of
/// its folder.
pub open spec fn mirrors(hierarchy: AssetHierarchy, folder: AssetFolder) -> bool
    decreases folder,
{
    &&& forall|k: int|
        0 <= k < hierarchy.assets@.len() ==> has_file(
            folder.files@,
            (#[trigger] hierarchy.assets@[k]).name@,
        )
    &&& hierarchy.sub_hierarchies@.len() == folder.folders@.len()
    &&& forall|i: int|
        0 <= i < folder.folders@.len() ==> (#[trigger] hierarchy.sub_hierarchies@[i]).0@
            == folder.folders@[i].name->Some_0@ && mirrors(
            hierarchy.sub_hierarchies@[i].1,
            folder.folders@[i],
        )
}

/// The hierarchy has neither assets nor subhierarchies.
pub open spec fn is_empty(hierarchy: AssetHierarchy) -> bool {
    hierarchy.assets@.len() == 0 && hierarchy.sub_hierarchies@.len() == 0
}

/// The metadata of the folder itself can be used: its metadata file, where
/// it has one, is a table, and what that holds under the name of a file of
/// the folder is a table.
pub open spec fn own_metadata_accepted(folder: AssetFolder) -> bool {
    match folder.metadata {
        Some(text) => parsed_kinds(text@) matches Some(kinds) && forall|i: int|
            0 <= i < folder.files@.len() ==> entry_accepted(kinds, (#[trigger] folder.files@[i]).name@),
        None => true,
    }
}

/// Checks that the metadata of a folder and of every folder inside it can be
/// used, as `metadata_accepted` says, before anything is encoded.
///
/// The metadata of the folder itself is checked first: a metadata file
/// that is not a table and a file whose metadata is not a table are
/// reported as such.
pub fn check_metadata(folder: &AssetFolder) -> (r: Result<(), WassetError>)
    ensures
        match r {
            Ok(()) => metadata_accepted(*folder),
            Err(err) => !metadata_accepted(*folder) && err is Serialize,
        },
        folder.metadata matches Some(text) && parsed_kinds(text@) is None ==> r matches Err(
            WassetError::Serialize(ErrorCause::Metadata(_)),
        ),
        folder.metadata matches Some(text) && parsed_kinds(text@) is Some && !own_metadata_accepted(
            *folder,
        ) ==> r matches Err(WassetError::Serialize(ErrorCause::MetadataNotTable { .. })),
    decreases folder,
{
    let master = match folder_metadata(&folder.metadata) {
        Ok(master) => master,
        Err(err) => {
            return Err(err);
        },
    };
    let mut j: usize = 0;
    while j < folder.files.len()
        invariant
            j <= folder.files@.len(),
            match folder.metadata {
                Some(text) => parsed_kinds(text@) == Some(table_kinds(master)),
                None => forall|key: Seq<char>| !table_kinds(master).contains_key(key),
            },
            forall|k: int|
                0 <= k < j ==> entry_accepted(table_kinds(master), (#[trigger] folder.files@[k]).name@),
        decreases folder.files@.len() - j,
    {
        match file_metadata(&master, folder.files[j].name.as_str()) {
            Ok(_) => {},
            Err(err) => {
                assert(!entry_accepted(table_kinds(master), folder.files@[j as int].name@));
                return Err(err);
            },
        }
        j = j + 1;
    }
    let mut i: usize = 0;
    while i < folder.folders.len()
        invariant
            i <= folder.folders@.len(),
            own_metadata_accepted(*folder),
            forall|k: int|
                0 <= k < i ==> (#[trigger] folder.folders@[k]).name is Some && metadata_accepted(
                    folder.folders@[k],
                ),
        decreases folder.folders@.len() - i,
    {
        let sub = &folder.folders[i];
        if sub.name.is_none() {
            return Err(WassetError::from_serialize(ErrorCause::FolderName));
        }
        match check_metadata(sub) {
            Ok(()) => {},
            Err(err) => {
                return Err(err);
            },
        }
        i = i + 1;
    }
    Ok(())
}

/// Loads all assets from a certain folder into the `operation`, and their
/// names into `hierarchy`.
///
/// Each folder inside the folder goes to the subhierarchy of its name, each
/// file to the encoder with its extension, its metadata and its contents.
/// What the encoder makes of a file is recorded as `record_encoded` says,
/// under a new random ID. The first failure ends the encoding: a metadata
/// file that is not a table, a file whose metadata is not a table, a folder
/// without a name, a failure of the encoder, or a blob that grows too
/// large. Where there is no file to encode, it succeeds exactly where the
/// metadata can be used, and records nothing.
///
/// Whatever the encoder does, the hierarchy has a leaf for each ID that
/// was recorded and for no other, and no subhierarchy but those that it had
/// and those of the folders inside the folder.
fn load_folder<A: AssetEncoder>(
    folder: &AssetFolder,
    operation: &mut EncodingOperation,
    hierarchy: &mut AssetHierarchy,
) -> (r: Result<(), WassetError>)
    ensures
        old(operation).wf() ==> final(operation).wf(),
        old(hierarchy).listed(old(operation).manifest_view()) ==> final(hierarchy).listed(
            final(operation).manifest_view(),
        ),
        old(operation)@.is_prefix_of(final(operation)@),
        old(operation).data_view().is_prefix_of(final(operation).data_view()),
        forall|id: u128| #[trigger]
            old(operation).manifest_view().contains_key(id)
                ==> final(operation).manifest_view().contains_key(id),
        without_files(*folder) ==> {
            &&& final(operation)@ == old(operation)@
            &&& final(operation).data_view() == old(operation).data_view()
            &&& final(operation).manifest_view() == old(operation).manifest_view()
        },
        old(hierarchy).assets@.is_prefix_of(final(hierarchy).assets@),
        forall|k: int|
            old(hierarchy).assets@.len() <= k < final(hierarchy).assets@.len() ==> has_file(
                folder.files@,
                (#[trigger] final(hierarchy).assets@[k]).name@,
            ),
        forall|id: u128| #[trigger]
            final(hierarchy).has_leaf(id) <==> old(hierarchy).has_leaf(id) || recorded_from(
                final(operation)@,
                old(operation)@.len() as int,
                id,
            ),
        forall|k: int|
            old(operation)@.len() <= k < final(operation)@.len() ==> made_in::<A>(
                *folder,
                (#[trigger] final(operation)@[k]).1,
            ),
        r is Ok ==> folder_used::<A>(*folder, final(operation)@, old(operation)@.len() as int),
        r is Err && metadata_accepted(*folder) ==> failed_by::<A>(
            *folder,
            r->Err_0,
            final(operation).data_view().len(),
        ),
        final(hierarchy).leaf_count() - old(hierarchy).leaf_count() == final(operation)@.len()
            - old(operation)@.len(),
        forall|c: int|
            0 <= c < final(hierarchy).sub_hierarchies@.len() ==> has_child(
                old(hierarchy).sub_hierarchies@,
                (#[trigger] final(hierarchy).sub_hierarchies@[c]).0@,
            ) || has_folder(folder.folders@, final(hierarchy).sub_hierarchies@[c].0@),
        r is Ok ==> forall|i: int|
            0 <= i < folder.folders@.len() ==> has_child(
                final(hierarchy).sub_hierarchies@,
                (#[trigger] folder.folders@[i]).name->Some_0@,
            ),
        r is Ok ==> metadata_accepted(*folder),
        r is Err ==> !metadata_accepted(*folder) || !without_files(*folder),
        distinct_names(old(hierarchy).sub_hierarchies@) ==> distinct_names(
            final(hierarchy).sub_hierarchies@,
        ),
        r is Ok && is_empty(*old(hierarchy)) && distinct_folders(*folder) ==> mirrors(
            *final(hierarchy),
            *folder,
        ),
        r is Ok && is_empty(*old(hierarchy)) && distinct_folders(*folder) ==> folder_placed::<A>(
            *folder,
            *final(hierarchy),
            final(operation)@,
            old(operation)@.len() as int,
        ),
    decreases folder,
{
    let master = match folder_metadata(&folder.metadata) {
        Ok(master) => master,
        Err(err) => {
            proof {
                lemma_nothing_recorded(operation@);
                lemma_children_kept(hierarchy.sub_hierarchies@);
            }
            return Err(err);
        },
    };
    proof {
        lemma_nothing_recorded(operation@);
        lemma_children_kept(hierarchy.sub_hierarchies@);
    }
    let mut i: usize = 0;
    while i < folder.folders.len()
        invariant
            i <= folder.folders@.len(),
            old(operation).wf() ==> operation.wf(),
            old(hierarchy).listed(old(operation).manifest_view()) ==> hierarchy.listed(
                operation.manifest_view(),
            ),
            old(operation)@.is_prefix_of(operation@),
            old(operation).data_view().is_prefix_of(operation.data_view()),
            forall|id: u128| #[trigger]
                old(operation).manifest_view().contains_key(id)
                    ==> operation.manifest_view().contains_key(id),
            (forall|k: int| 0 <= k < i ==> without_files(#[trigger] folder.folders@[k])) ==> {
                &&& operation@ == old(operation)@
                &&& operation.data_view() == old(operation).data_view()
                &&& operation.manifest_view() == old(operation).manifest_view()
            },
            forall|id: u128| #[trigger]
                hierarchy.has_leaf(id) <==> old(hierarchy).has_leaf(id) || recorded_from(
                    operation@,
                    old(operation)@.len() as int,
                    id,
                ),
            forall|k: int|
                old(operation)@.len() <= k < operation@.len() ==> made_in::<A>(
                    *folder,
                    (#[trigger] operation@[k]).1,
                ),
            folder_table(*folder, master),
            forall|k: int|
                0 <= k < i ==> folder_used::<A>(
                    #[trigger] folder.folders@[k],
                    operation@,
                    old(operation)@.len() as int,
                ),
            hierarchy.leaf_count() - old(hierarchy).leaf_count() == operation@.len()
                - old(operation)@.len(),
            forall|c: int|
                0 <= c < hierarchy.sub_hierarchies@.len() ==> has_child(
                    old(hierarchy).sub_hierarchies@,
                    (#[trigger] hierarchy.sub_hierarchies@[c]).0@,
                ) || has_folder(folder.folders@, hierarchy.sub_hierarchies@[c].0@),
            forall|k: int|
                0 <= k < i ==> (#[trigger] folder.folders@[k]).name is Some && metadata_accepted(
                    folder.folders@[k],
                ),
            distinct_names(old(hierarchy).sub_hierarchies@) ==> distinct_names(
                hierarchy.sub_hierarchies@,
            ),
            hierarchy.assets@ == old(hierarchy).assets@,
            forall|k: int|
                0 <= k < i ==> has_child(
                    hierarchy.sub_hierarchies@,
                    (#[trigger] folder.folders@[k]).name->Some_0@,
                ),
            is_empty(*old(hierarchy)) && distinct_folders(*folder) ==> {
                &&& hierarchy.sub_hierarchies@.len() == i
                &&& forall|k: int|
                    0 <= k < i ==> (#[trigger] hierarchy.sub_hierarchies@[k]).0@
                        == folder.folders@[k].name->Some_0@ && mirrors(
                        hierarchy.sub_hierarchies@[k].1,
                        folder.folders@[k],
                    ) && folder_placed::<A>(
                        folder.folders@[k],
                        hierarchy.sub_hierarchies@[k].1,
                        operation@,
                        old(operation)@.len() as int,
                    )
            },
        decreases folder.folders@.len() - i,
    {
        let sub = &folder.folders[i];
        let name = match &sub.name {
            Some(name) => name.clone(),
            None => {
                return Err(WassetError::from_serialize(ErrorCause::FolderName));
            },
        };
        let ghost manifest_before = operation.manifest_view();
        let ghost records_before = operation@;
        let ghost listed_before = hierarchy.listed(manifest_before);
        let ghost before = *hierarchy;
        let ghost children_before = hierarchy.sub_hierarchies@;
        let mut child = hierarchy.take_child(&name);
        let ghost taken = *hierarchy;
        let ghost child_before = child;
        let loaded = load_folder::<A>(sub, operation, &mut child);
        proof {
            if listed_before {
                lemma_listed_grows(*hierarchy, manifest_before, operation.manifest_view());
            }
            let from = old(operation)@.len() as int;
            assert forall|k: int| from <= k < operation@.len() implies made_in::<A>(
                *folder,
                (#[trigger] operation@[k]).1,
            ) by {
                if k < records_before.len() {
                    assert(operation@[k] == records_before[k]);
                } else {
                    assert(made_in::<A>(folder.folders@[i as int], operation@[k].1));
                }
            }
            assert forall|k: int| 0 <= k < i implies folder_used::<A>(
                #[trigger] folder.folders@[k],
                operation@,
                from,
            ) by {
                lemma_folder_used_grows::<A>(folder.folders@[k], records_before, from, operation@, from);
            }
            if loaded is Ok {
                lemma_folder_used_grows::<A>(
                    folder.folders@[i as int],
                    operation@,
                    records_before.len() as int,
                    operation@,
                    from,
                );
            }
            if loaded is Err && metadata_accepted(*folder) {
                let sub = folder.folders@[i as int];
                let len = operation.data_view().len();
                assert(metadata_accepted(sub));
                assert(failed_by::<A>(sub, loaded->Err_0, len));
                if failed_in::<A>(sub, loaded->Err_0) {
                    assert(failed_in::<A>(*folder, loaded->Err_0));
                } else {
                    let bytes = choose|bytes: Seq<u8>| #[trigger]
                        made_in::<A>(sub, bytes) && len + bytes.len() > u32::MAX;
                    assert(made_in::<A>(*folder, bytes));
                }
                assert(failed_by::<A>(*folder, loaded->Err_0, len));
            }
        }
        hierarchy.put_child(name, child);
        proof {
            let children = hierarchy.sub_hierarchies@;
            let at = first_named(children_before, name@);
            lemma_first_named(children_before, name@);
            assert(children[children.len() - 1].0@ == name@);
            assert(has_folder(folder.folders@, name@)) by {
                assert(folder.folders@[i as int].name->Some_0@ == name@);
            }
            assert forall|k: int| 0 <= k <= i implies has_child(
                children,
                (#[trigger] folder.folders@[k]).name->Some_0@,
            ) by {
                let wanted = folder.folders@[k].name->Some_0@;
                if k < i && wanted != name@ {
                    let c = choose|c: int|
                        0 <= c < children_before.len() && (#[trigger] children_before[c]).0@
                            == wanted;
                    if at < children_before.len() {
                        let moved = if c < at { c } else { c - 1 };
                        assert(children[moved].0@ == wanted);
                    } else {
                        assert(children[c].0@ == wanted);
                    }
                }
            }
            assert forall|c: int| 0 <= c < children.len() implies has_child(
                old(hierarchy).sub_hierarchies@,
                (#[trigger] children[c]).0@,
            ) || has_folder(folder.folders@, children[c].0@) by {
                if c < children.len() - 1 {
                    if at < children_before.len() {
                        let from = if c < at { c } else { c + 1 };
                        assert(children[c] == children_before[from]);
                    } else {
                        assert(children[c] == children_before[c]);
                    }
                }
            }
            assert forall|id: u128| #[trigger]
                hierarchy.has_leaf(id) <==> old(hierarchy).has_leaf(id) || recorded_from(
                    operation@,
                    old(operation)@.len() as int,
                    id,
                ) by {
                lemma_recorded_from(records_before, operation@, old(operation)@.len() as int, id);
                assert(before.has_leaf(id) <==> taken.has_leaf(id) || child_before.has_leaf(id));
                assert(child.has_leaf(id) <==> child_before.has_leaf(id) || recorded_from(
                    operation@,
                    records_before.len() as int,
                    id,
                ));
                assert(hierarchy.has_leaf(id) <==> taken.has_leaf(id) || child.has_leaf(id));
            }
        }
        match loaded {
            Ok(()) => {},
            Err(err) => {
                return Err(err);
            },
        }
        proof {
            if is_empty(*old(hierarchy)) && distinct_folders(*folder) {
                let children = hierarchy.sub_hierarchies@;
                lemma_first_named(children_before, name@);
                let at = first_named(children_before, name@);
                if at < children_before.len() {
                    assert(folder.folders@[at].name->Some_0@ != folder.folders@[i as int].name->Some_0@);
                }
                assert(distinct_folders(folder.folders@[i as int]));
                let from = old(operation)@.len() as int;
                assert forall|k: int| 0 <= k <= i implies (#[trigger] children[k]).0@
                    == folder.folders@[k].name->Some_0@ && mirrors(
                    children[k].1,
                    folder.folders@[k],
                ) && folder_placed::<A>(folder.folders@[k], children[k].1, operation@, from) by {
                    if k < i {
                        assert(children[k] == children_before[k]);
                        lemma_folder_placed_grows::<A>(
                            folder.folders@[k],
                            children_before[k].1,
                            records_before,
                            from,
                            operation@,
                            from,
                        );
                    } else {
                        assert(children[k].1 == child);
                        assert(is_empty(child_before));
                        lemma_folder_placed_grows::<A>(
                            folder.folders@[k],
                            child,
                            operation@,
                            records_before.len() as int,
                            operation@,
                            from,
                        );
                    }
                }
            }
        }
        i = i + 1;
    }
    let ghost children = hierarchy.sub_hierarchies;
    let ghost folders_done = *operation;
    proof {
        if without_files(*folder) {
            assert forall|k: int| 0 <= k < folder.folders@.len() implies without_files(
                #[trigger] folder.folders@[k],
            ) by {}
        }
    }
    let ghost mut outcomes: Outcomes = Seq::empty();
    let mut j: usize = 0;
    while j < folder.files.len()
        invariant
            j <= folder.files@.len(),
            j == 0 ==> {
                &&& operation@ == folders_done@
                &&& operation.data_view() == folders_done.data_view()
                &&& operation.manifest_view() == folders_done.manifest_view()
            },
            old(operation).wf() ==> operation.wf(),
            old(hierarchy).listed(old(operation).manifest_view()) ==> hierarchy.listed(
                operation.manifest_view(),
            ),
            hierarchy.sub_hierarchies == children,
            is_empty(*old(hierarchy)) && distinct_folders(*folder) ==> {
                &&& hierarchy.sub_hierarchies@.len() == folder.folders@.len()
                &&& forall|k: int|
                    0 <= k < folder.folders@.len() ==> (#[trigger] hierarchy.sub_hierarchies@[k]).0@
                        == folder.folders@[k].name->Some_0@ && mirrors(
                        hierarchy.sub_hierarchies@[k].1,
                        folder.folders@[k],
                    ) && folder_placed::<A>(
                        folder.folders@[k],
                        hierarchy.sub_hierarchies@[k].1,
                        operation@,
                        old(operation)@.len() as int,
                    )
            },
            outcomes.len() == j,
            forall|k: int|
                0 <= k < j ==> placed::<A>(
                    master,
                    #[trigger] folder.files@[k],
                    outcomes[k],
                    hierarchy.assets@,
                    operation@,
                    old(operation)@.len() as int,
                ),
            hierarchy.assets@.len() == old(hierarchy).assets@.len() + accepted(outcomes),
            forall|k: int|
                old(operation)@.len() <= k < operation@.len() ==> made_in::<A>(
                    *folder,
                    (#[trigger] operation@[k]).1,
                ),
            folder_table(*folder, master),
            forall|k: int|
                0 <= k < folder.folders@.len() ==> folder_used::<A>(
                    #[trigger] folder.folders@[k],
                    operation@,
                    old(operation)@.len() as int,
                ),
            forall|k: int|
                0 <= k < j ==> file_used::<A>(
                    master,
                    #[trigger] folder.files@[k],
                    operation@,
                    old(operation)@.len() as int,
                ),
            hierarchy.leaf_count() - old(hierarchy).leaf_count() == operation@.len()
                - old(operation)@.len(),
            forall|c: int|
                0 <= c < hierarchy.sub_hierarchies@.len() ==> has_child(
                    old(hierarchy).sub_hierarchies@,
                    (#[trigger] hierarchy.sub_hierarchies@[c]).0@,
                ) || has_folder(folder.folders@, hierarchy.sub_hierarchies@[c].0@),
            distinct_names(old(hierarchy).sub_hierarchies@) ==> distinct_names(
                hierarchy.sub_hierarchies@,
            ),
            old(hierarchy).assets@.is_prefix_of(hierarchy.assets@),
            forall|k: int|
                old(hierarchy).assets@.len() <= k < hierarchy.assets@.len() ==> has_file(
                    folder.files@,
                    (#[trigger] hierarchy.assets@[k]).name@,
                ),
            old(operation)@.is_prefix_of(operation@),
            old(operation).data_view().is_prefix_of(operation.data_view()),
            forall|id: u128| #[trigger]
                old(operation).manifest_view().contains_key(id)
                    ==> operation.manifest_view().contains_key(id),
            forall|id: u128| #[trigger]
                hierarchy.has_leaf(id) <==> old(hierarchy).has_leaf(id) || recorded_from(
                    operation@,
                    old(operation)@.len() as int,
                    id,
                ),
            match folder.metadata {
                Some(text) => parsed_kinds(text@) == Some(table_kinds(master)),
                None => forall|key: Seq<char>| !table_kinds(master).contains_key(key),
            },
            forall|k: int|
                0 <= k < j ==> entry_accepted(table_kinds(master), (#[trigger] folder.files@[k]).name@),
        decreases folder.files@.len() - j,
    {
        let file = &folder.files[j];
        let metadata = match file_metadata(&master, file.name.as_str()) {
            Ok(metadata) => metadata,
            Err(err) => {
                return Err(err);
            },
        };
        let data = vstd::slice::slice_to_vec(file.data.as_slice());
        let extension = file.extension.as_str();
        let ghost sent = data;
        let ghost from = old(operation)@.len() as int;
        let outcome = A::encode(extension, &metadata, data);
        let ghost made = outcome;
        proof {
            assert(handed::<A>(master, *file, extension, metadata, sent, made));
            assert(made_of::<A>(*folder, master, j as int, made));
        }
        if let Ok(None) = &outcome {
            assert(used::<A>(master, *file, made, operation@, from));
            assert(placed::<A>(master, *file, made, hierarchy.assets@, operation@, from));
            proof {
                assert(outcomes.push(made).drop_last() == outcomes);
                outcomes = outcomes.push(made);
            }
        } else {
            let id = WassetId::generate();
            let ghost leaves = hierarchy.assets@;
            let ghost leaved = *hierarchy;
            let ghost records_before = operation@;
            match record_encoded(operation, hierarchy, file.name.as_str(), id, outcome) {
                Ok(()) => {},
                Err(err) => {
                    proof {
                        if made is Err {
                            assert(failed_in::<A>(*folder, err));
                        } else {
                            assert(made_in::<A>(*folder, made->Ok_0->Some_0@));
                        }
                        assert(failed_by::<A>(*folder, err, operation.data_view().len()));
                    }
                    return Err(err);
                },
            }
            proof {
                let record = made->Ok_0->Some_0@;
                assert(operation@[operation@.len() - 1].1 == record);
                assert(holds_from(operation@, from, record));
                assert(used::<A>(master, *file, made, operation@, from));
                assert(hierarchy.assets@[hierarchy.assets@.len() - 1].name@ == file.name@);
                assert(hierarchy.assets@[hierarchy.assets@.len() - 1].id@ == operation@[operation@.len()
                    - 1].0);
                assert(leaf_holds(hierarchy.assets@, file.name@, operation@, from, record));
                assert(placed::<A>(master, *file, made, hierarchy.assets@, operation@, from));
                assert(leaves.is_prefix_of(hierarchy.assets@)) by {
                    assert(hierarchy.assets@.drop_last() == leaves);
                }
                assert forall|k: int| 0 <= k < j implies placed::<A>(
                    master,
                    #[trigger] folder.files@[k],
                    outcomes[k],
                    hierarchy.assets@,
                    operation@,
                    from,
                ) by {
                    lemma_placed_grows::<A>(
                        master,
                        folder.files@[k],
                        outcomes[k],
                        leaves,
                        records_before,
                        from,
                        hierarchy.assets@,
                        operation@,
                        from,
                    );
                }
                assert(outcomes.push(made).drop_last() == outcomes);
                outcomes = outcomes.push(made);
                if is_empty(*old(hierarchy)) && distinct_folders(*folder) {
                    assert forall|k: int| 0 <= k < folder.folders@.len() implies folder_placed::<A>(
                        #[trigger] folder.folders@[k],
                        hierarchy.sub_hierarchies@[k].1,
                        operation@,
                        from,
                    ) by {
                        lemma_folder_placed_grows::<A>(
                            folder.folders@[k],
                            hierarchy.sub_hierarchies@[k].1,
                            records_before,
                            from,
                            operation@,
                            from,
                        );
                    }
                }
                assert forall|k: int| from <= k < operation@.len() implies made_in::<A>(
                    *folder,
                    (#[trigger] operation@[k]).1,
                ) by {
                    if k < records_before.len() {
                        assert(operation@[k] == records_before[k]);
                    }
                }
                assert forall|k: int| 0 <= k < folder.folders@.len() implies folder_used::<A>(
                    #[trigger] folder.folders@[k],
                    operation@,
                    from,
                ) by {
                    lemma_folder_used_grows::<A>(
                        folder.folders@[k],
                        records_before,
                        from,
                        operation@,
                        from,
                    );
                }
                assert forall|k: int| 0 <= k < j implies file_used::<A>(
                    master,
                    #[trigger] folder.files@[k],
                    operation@,
                    from,
                ) by {
                    lemma_file_used_grows::<A>(
                        master,
                        folder.files@[k],
                        records_before,
                        from,
                        operation@,
                        from,
                    );
                }
                assert forall|k: int|
                    old(hierarchy).assets@.len() <= k < hierarchy.assets@.len() implies has_file(
                    folder.files@,
                    (#[trigger] hierarchy.assets@[k]).name@,
                ) by {
                    if k < leaves.len() {
                        assert(has_file(folder.files@, leaves[k].name@));
                    }
                }
                assert forall|other: u128| #[trigger]
                    hierarchy.has_leaf(other) <==> old(hierarchy).has_leaf(other) || recorded_from(
                        operation@,
                        old(operation)@.len() as int,
                        other,
                    ) by {
                    lemma_recorded_from(
                        records_before,
                        operation@,
                        old(operation)@.len() as int,
                        other,
                    );
                    assert(hierarchy.has_leaf(other) <==> leaved.has_leaf(other) || other == id@);
                    assert(operation@[operation@.len() - 1].0 == id@);
                }
            }
        }
        j = j + 1;
    }
    proof {
        let from = old(operation)@.len() as int;
        assert(files_used::<A>(*folder, master, operation@, from));
        if is_empty(*old(hierarchy)) {
            assert(files_placed::<A>(*folder, master, outcomes, hierarchy.assets@, operation@, from));
        }
    }
    Ok(())
}

/// Nothing is recorded from the end of `records` on.
pub proof fn lemma_nothing_recorded(records: Records)
    ensures
        forall|id: u128| !recorded_from(records, records.len() as int, id),
{
}

/// Each of `children` is one of `children`.
pub proof fn lemma_children_kept(children: Seq<(String, AssetHierarchy)>)
    ensures
        forall|c: int|
            0 <= c < children.len() ==> has_child(children, (#[trigger] children[c]).0@),
{
}

/// Loads all assets from a certain folder into the `operation`, and their
/// names into `hierarchy`.
///
/// The metadata of the folder and of every folder inside it is checked
/// first, as `check_metadata` says: where it cannot be used, nothing is
/// encoded and nothing changes. Then each folder inside the folder goes to
/// the subhierarchy of its name, and each file to the encoder with its
/// extension, its metadata and its contents. What the encoder makes of a
/// file is recorded as `record_encoded` says, under a new random ID. The
/// first failure of the encoder ends the encoding, and so does a blob that
/// grows too large.
///
/// Where there is no file to encode, it succeeds exactly where the metadata
/// can be used, and records nothing. Whatever the encoder does, every new
/// record is one that the encoder made of a file, the hierarchy has a leaf
/// for each ID that was recorded and for no other, and no subhierarchy but
/// those that it had and those of the folders inside the folder. Where it
/// succeeds, the encoder was asked for every file and each record that it
/// made was recorded; where it fails although the metadata can be used, the
/// encoder failed with that error, or made a record that did not fit.
///
/// Into an empty hierarchy, from a folder in which no two folders share a
/// name, it builds the shape of the folder: one subhierarchy for each folder
/// inside it, and where a folder stands one leaf for each of its files that
/// the encoder made a record of, under the name of the file and the ID of
/// its record.
pub fn load_assets_in_folder<A: AssetEncoder>(
    folder: &AssetFolder,
    operation: &mut EncodingOperation,
    hierarchy: &mut AssetHierarchy,
) -> (r: Result<(), WassetError>)
    ensures
        old(operation).wf() ==> final(operation).wf(),
        old(hierarchy).listed(old(operation).manifest_view()) ==> final(hierarchy).listed(
            final(operation).manifest_view(),
        ),
        old(operation)@.is_prefix_of(final(operation)@),
        old(operation).data_view().is_prefix_of(final(operation).data_view()),
        forall|id: u128| #[trigger]
            old(operation).manifest_view().contains_key(id)
                ==> final(operation).manifest_view().contains_key(id),
        !metadata_accepted(*folder) ==> {
            &&& r matches Err(err) && err is Serialize
            &&& final(operation)@ == old(operation)@
            &&& final(operation).data_view() == old(operation).data_view()
            &&& final(operation).manifest_view() == old(operation).manifest_view()
            &&& final(hierarchy).assets@ == old(hierarchy).assets@
            &&& final(hierarchy).sub_hierarchies@ == old(hierarchy).sub_hierarchies@
        },
        folder.metadata matches Some(text) && parsed_kinds(text@) is None ==> r matches Err(
            WassetError::Serialize(ErrorCause::Metadata(_)),
        ),
        folder.metadata matches Some(text) && parsed_kinds(text@) is Some && !own_metadata_accepted(
            *folder,
        ) ==> r matches Err(WassetError::Serialize(ErrorCause::MetadataNotTable { .. })),
        without_files(*folder) ==> {
            &&& r is Ok <==> metadata_accepted(*folder)
            &&& final(operation)@ == old(operation)@
            &&& final(operation).data_view() == old(operation).data_view()
            &&& final(operation).manifest_view() == old(operation).manifest_view()
        },
        old(hierarchy).assets@.is_prefix_of(final(hierarchy).assets@),
        forall|k: int|
            old(hierarchy).assets@.len() <= k < final(hierarchy).assets@.len() ==> has_file(
                folder.files@,
                (#[trigger] final(hierarchy).assets@[k]).name@,
            ),
        forall|id: u128| #[trigger]
            final(hierarchy).has_leaf(id) <==> old(hierarchy).has_leaf(id) || recorded_from(
                final(operation)@,
                old(operation)@.len() as int,
                id,
            ),
        forall|k: int|
            old(operation)@.len() <= k < final(operation)@.len() ==> made_in::<A>(
                *folder,
                (#[trigger] final(operation)@[k]).1,
            ),
        r is Ok ==> folder_used::<A>(*folder, final(operation)@, old(operation)@.len() as int),
        r is Err && metadata_accepted(*folder) ==> failed_by::<A>(
            *folder,
            r->Err_0,
            final(operation).data_view().len(),
        ),
        final(hierarchy).leaf_count() - old(hierarchy).leaf_count() == final(operation)@.len()
            - old(operation)@.len(),
        forall|c: int|
            0 <= c < final(hierarchy).sub_hierarchies@.len() ==> has_child(
                old(hierarchy).sub_hierarchies@,
                (#[trigger] final(hierarchy).sub_hierarchies@[c]).0@,
            ) || has_folder(folder.folders@, final(hierarchy).sub_hierarchies@[c].0@),
        r is Ok ==> forall|i: int|
            0 <= i < folder.folders@.len() ==> has_child(
                final(hierarchy).sub_hierarchies@,
                (#[trigger] folder.folders@[i]).name->Some_0@,
            ),
        distinct_names(old(hierarchy).sub_hierarchies@) ==> distinct_names(
            final(hierarchy).sub_hierarchies@,
        ),
        r is Ok && is_empty(*old(hierarchy)) && distinct_folders(*folder) ==> mirrors(
            *final(hierarchy),
            *folder,
        ),
        r is Ok && is_empty(*old(hierarchy)) && distinct_folders(*folder) ==> folder_placed::<A>(
            *folder,
            *final(hierarchy),
            final(operation)@,
            old(operation)@.len() as int,
        ),
{
    match check_metadata(folder) {
        Ok(()) => load_folder::<A>(folder, operation, hierarchy),
        Err(err) => {
            proof {
                lemma_nothing_recorded(operation@);
                lemma_children_kept(hierarchy.sub_hierarchies@);
            }
            Err(err)
        },
    }
}

/// `data` and `manifest` are the data blob and the serialized manifest of
/// `records`.
pub open spec fn encodes(records: Records, data: Seq<u8>, manifest: Seq<u8>) -> bool {
    &&& data == blob_of(records)
    &&& data.len() <= u32::MAX
    &&& manifest_table(manifest) matches Some(table) && table_map(table) == manifest_of(records)
}

/// The table of records has an entry for each record, under its ID.
pub proof fn lemma_table_of(records: Records)
    ensures
        table_of(records).len() == records.len(),
        forall|i: int| 0 <= i < records.len() ==> (#[trigger] table_of(records)[i]).0 == records[i].0,
    decreases records.len(),
{
    if records.len() > 0 {
        lemma_table_of(records.drop_last());
    }
}

/// The manifest of records holds the IDs that they were appended under.
pub proof fn lemma_manifest_ids(records: Records)
    ensures
        forall|id: u128| #[trigger]
            manifest_of(records).contains_key(id) <==> recorded_from(records, 0, id),
{
    lemma_table_of(records);
    lemma_table_map(table_of(records));
    let table = table_of(records);
    assert forall|id: u128| #[trigger]
        manifest_of(records).contains_key(id) <==> recorded_from(records, 0, id) by {
        if manifest_of(records).contains_key(id) {
            let i = choose|i: int| 0 <= i < table.len() && (#[trigger] table[i]).0 == id;
            assert(records[i].0 == id);
        }
        if recorded_from(records, 0, id) {
            let k = choose|k: int| 0 <= k < records.len() && (#[trigger] records[k]).0 == id;
            assert(table[k].0 == id);
        }
    }
}

/// The bundle holds `records`, which are what the encoder made of the files
/// of the folder: its data and its manifest are those of the records, its
/// hierarchy has as many assets as there are records, the encoder made each
/// record of a file, and what it made of each file is among the records.
/// Where no two folders in the folder share a name, each record has its
/// leaf where the folder of its file stands.
pub open spec fn bundles<A: AssetEncoder>(
    folder: AssetFolder,
    records: Records,
    assets: EncodedAssets,
) -> bool {
    &&& encodes(records, assets.data@, assets.manifest@)
    &&& assets.encoded_assets@.len() == 1
    &&& records.len() == assets.encoded_assets@[0].1.leaf_count()
    &&& encoded_from::<A>(folder, records)
    &&& distinct_folders(folder) ==> folder_placed::<A>(
        folder,
        assets.encoded_assets@[0].1,
        records,
        0,
    )
}

/// `records` are what the encoder made of the files of the folder: it made
/// each record of a file, and what it made of each file is among the
/// records.
pub open spec fn encoded_from<A: AssetEncoder>(folder: AssetFolder, records: Records) -> bool {
    &&& folder_used::<A>(folder, records, 0)
    &&& forall|k: int| 0 <= k < records.len() ==> made_in::<A>(folder, (#[trigger] records[k]).1)
}

/// The encoder made `records` and then `bytes` of files of the folder, and
/// `bytes` does not fit behind the data of `records` where 32 bits address
/// the data.
pub open spec fn overflows<A: AssetEncoder>(
    folder: AssetFolder,
    records: Records,
    bytes: Seq<u8>,
) -> bool {
    &&& forall|k: int| 0 <= k < records.len() ==> made_in::<A>(folder, (#[trigger] records[k]).1)
    &&& made_in::<A>(folder, bytes)
    &&& blob_of(records).len() + bytes.len() > u32::MAX
}

/// The encoder made records of the files of the folder whose manifest the
/// serializer does not write.
pub open spec fn unwritable<A: AssetEncoder>(folder: AssetFolder) -> bool {
    exists|records: Records| #[trigger]
        encoded_from::<A>(folder, records) && encoded_field(
            ASSET_RANGES_FIELD@,
            manifest_of(records),
        ) is None
}

/// Loads all assets from the provided folder into an `EncodedAssets`
/// structure, whose hierarchy stands under the name of the folder.
///
/// It fails with a serialize error, before anything is encoded, where the
/// folder has no name or where metadata cannot be used, as `check_metadata`
/// says. Where there is no file to encode, it succeeds exactly where it
/// does not fail so and the empty manifest can be serialized, and gives
/// empty data. Else it fails where the encoder does, where the data grows
/// past what 32 bits address, or where the manifest cannot be serialized.
///
/// Where it succeeds, the data and the manifest are those of the records
/// that the encoder made: the serialized manifest reads back as a table
/// without repeated IDs, every range of the table lies within the data, and
/// the IDs of the table are those of the assets of the hierarchy. The
/// hierarchy has a leaf only under the name of a file, and a subhierarchy
/// under the name of each folder inside the folder and under no other.
/// Where no two folders in the folder share a name, the hierarchy has the
/// shape of the folder, and where a folder stands there is one leaf for
/// each of its files that the encoder made a record of, as `folder_placed`
/// says.
pub fn encode_asset_folder<A: AssetEncoder>(folder: &AssetFolder) -> (r: Result<
    EncodedAssets,
    WassetError,
>)
    ensures
        folder.name is None ==> r == Err::<EncodedAssets, WassetError>(
            WassetError::Serialize(ErrorCause::FolderName),
        ),
        folder.name is Some && !metadata_accepted(*folder) ==> r is Err && r->Err_0 is Serialize,
        folder.metadata matches Some(text) && folder.name is Some && parsed_kinds(text@) is None
            ==> r matches Err(WassetError::Serialize(ErrorCause::Metadata(_))),
        folder.metadata matches Some(text) && folder.name is Some && parsed_kinds(text@) is Some
            && !own_metadata_accepted(*folder) ==> r matches Err(
            WassetError::Serialize(ErrorCause::MetadataNotTable { .. }),
        ),
        folder.name is Some && metadata_accepted(*folder) && without_files(*folder) ==> match encoded_field(
            ASSET_RANGES_FIELD@,
            Map::<u128, ByteRange>::empty(),
        ) {
            Some(bytes) => r matches Ok(assets) && assets.data@.len() == 0 && assets.manifest@
                == bytes,
            None => r matches Err(err) && err is Serialize,
        },
        match r {
            Ok(assets) => {
                &&& folder.name is Some
                &&& metadata_accepted(*folder)
                &&& exists|records: Records| #[trigger] bundles::<A>(*folder, records, assets)
                &&& manifest_table(assets.manifest@) matches Some(table)
                &&& distinct_ids(table)
                &&& ranges_within(table_map(table), assets.data@.len())
                &&& assets.encoded_assets@.len() == 1
                &&& Some(assets.encoded_assets@[0].0) == folder.name
                &&& assets.encoded_assets@[0].1.listed(table_map(table))
                &&& forall|id: u128| #[trigger]
                    table_map(table).contains_key(id) <==> assets.encoded_assets@[0].1.has_leaf(id)
                &&& distinct_names(assets.encoded_assets@[0].1.sub_hierarchies@)
                &&& forall|k: int|
                    0 <= k < assets.encoded_assets@[0].1.assets@.len() ==> has_file(
                        folder.files@,
                        (#[trigger] assets.encoded_assets@[0].1.assets@[k]).name@,
                    )
                &&& forall|i: int|
                    0 <= i < folder.folders@.len() ==> has_child(
                        assets.encoded_assets@[0].1.sub_hierarchies@,
                        (#[trigger] folder.folders@[i]).name->Some_0@,
                    )
                &&& forall|c: int|
                    0 <= c < assets.encoded_assets@[0].1.sub_hierarchies@.len() ==> has_folder(
                        folder.folders@,
                        (#[trigger] assets.encoded_assets@[0].1.sub_hierarchies@[c]).0@,
                    )
                &&& distinct_folders(*folder) ==> mirrors(assets.encoded_assets@[0].1, *folder)
            },
            Err(err) => {
                ||| folder.name is None
                ||| !metadata_accepted(*folder)
                ||| failed_in::<A>(*folder, err)
                ||| err == WassetError::Serialize(ErrorCause::TooLarge) && exists|
                    records: Records,
                    bytes: Seq<u8>,
                | #[trigger] overflows::<A>(*folder, records, bytes)
                ||| err matches WassetError::Serialize(ErrorCause::Encode(_)) && unwritable::<A>(
                    *folder,
                )
            },
        },
{
    let name = match &folder.name {
        Some(name) => name.clone(),
        None => {
            return Err(WassetError::from_serialize(ErrorCause::FolderName));
        },
    };
    let mut operation = EncodingOperation::new();
    let mut hierarchy = AssetHierarchy::new();
    let ghost fresh = hierarchy;
    match load_assets_in_folder::<A>(folder, &mut operation, &mut hierarchy) {
        Ok(()) => {},
        Err(err) => {
            proof {
                let len = operation.data_view().len();
                if metadata_accepted(*folder) && !failed_in::<A>(*folder, err) {
                    assert(failed_by::<A>(*folder, err, len));
                    let bytes = choose|bytes: Seq<u8>| #[trigger]
                        made_in::<A>(*folder, bytes) && len + bytes.len() > u32::MAX;
                    assert(overflows::<A>(*folder, operation@, bytes));
                }
            }
            return Err(err);
        },
    }
    let ghost records = operation@;
    proof {
        assert(encoded_from::<A>(*folder, records));
        lemma_records_within(records);
        lemma_manifest_ids(records);
        assert(!metadata_accepted(*folder) ==> false);
        assert forall|id: u128| #[trigger]
            manifest_of(records).contains_key(id) <==> hierarchy.has_leaf(id) by {
            assert(!fresh.has_leaf(id));
        }
    }
    match operation.finish() {
        Ok((data, manifest)) => {
            let mut encoded_assets: Vec<(String, AssetHierarchy)> = Vec::new();
            encoded_assets.push((name, hierarchy));
            let assets = EncodedAssets { data, encoded_assets, manifest };
            proof {
                assert(assets.encoded_assets@[0].1 == hierarchy);
                assert(encodes(records, assets.data@, assets.manifest@));
                assert(bundles::<A>(*folder, records, assets));
            }
            Ok(assets)
        },
        Err(err) => Err(err),
    }
}

} // verus!
