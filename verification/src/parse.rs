//! Reads the assets of a module.

use crate::error::{ErrorCause, WassetError};
use crate::id::WassetId;
use crate::manifest::{ByteRange, WassetManifest};
use crate::merge::{collect_manifests, embedding_gives, mergeable};
use crate::scan::{scan_module, scanned};
use crate::strip::{strip_module, stripped};
use vstd::prelude::*;
use vstd::slice::slice_subrange;

verus! {

/// References the raw data representing an asset from within a module.
#[derive(Copy, Clone, Debug)]
pub struct WassetItem<'a> {
    /// The inner data.
    data: &'a [u8],
}

impl<'a> View for WassetItem<'a> {
    type V = Seq<u8>;

    closed spec fn view(&self) -> Seq<u8> {
        self.data@
    }
}

impl<'a> WassetItem<'a> {
    /// The item that stands for `data`.
    pub fn from(data: &'a [u8]) -> (item: Self)
        ensures
            item@ == data@,
    {
        WassetItem { data }
    }

    /// The serialized bytes of the asset.
    pub fn data(&self) -> (data: &'a [u8])
        ensures
            data@ == self@,
    {
        self.data
    }
}

/// The bytes of `module` that `range` addresses, or `None` where the range
/// does not lie within the module.
pub open spec fn asset_bytes(module: Seq<u8>, range: ByteRange) -> Option<Seq<u8>> {
    if range.within(module.len()) {
        Some(module.subrange(range.start as int, range.end as int))
    } else {
        None
    }
}

/// What loading `id` from `module` by `manifest` gives: nothing where the
/// manifest does not know the ID, else the bytes that its range addresses.
/// `None` where the range does not lie within the module.
pub open spec fn loaded(manifest: Map<u128, ByteRange>, module: Seq<u8>, id: u128) -> Option<
    Option<Seq<u8>>,
> {
    if manifest.contains_key(id) {
        match asset_bytes(module, manifest[id]) {
            Some(bytes) => Some(Some(bytes)),
            None => None,
        }
    } else {
        Some(None)
    }
}

/// Parses all assets from a module.
pub struct WassetParser<'a> {
    /// The manifest associated with the module.
    manifest: WassetManifest,
    /// The module data itself.
    module: &'a [u8],
}

impl<'a> WassetParser<'a> {
    /// The merged manifest of the module.
    pub closed spec fn manifest_view(&self) -> Map<u128, ByteRange> {
        self.manifest@
    }

    /// The bytes of the module.
    pub closed spec fn module_view(&self) -> Seq<u8> {
        self.module@
    }

    /// A parser for `module` that goes by `manifest`.
    pub fn with_manifest(manifest: WassetManifest, module: &'a [u8]) -> (parser: Self)
        ensures
            parser.manifest_view() == manifest@,
            parser.module_view() == module@,
    {
        WassetParser { manifest, module }
    }

    /// Attempts to parse the asset list from the given module.
    ///
    /// It succeeds exactly where the scan of the module succeeds and what
    /// it finds can be merged. The manifest of the parser then holds the ID
    /// of every entry of every embedding, each with the range of one of the
    /// entries that have it, moved up by the data offset of the embedding.
    pub fn parse(module: &'a [u8]) -> (r: Result<Self, WassetError>)
        ensures
            match r {
                Ok(parser) => {
                    &&& parser.module_view() == module@
                    &&& scanned(module@) matches Some(scan)
                    &&& mergeable(scan, module@)
                    &&& forall|key: u128, at: int, id: u128, range: ByteRange| #[trigger]
                        embedding_gives(scan, module@, key, at, id, range)
                            ==> parser.manifest_view().contains_key(id)
                    &&& forall|id: u128| #[trigger]
                        parser.manifest_view().contains_key(id) ==> exists|key: u128, at: int| #[trigger]
                            embedding_gives(scan, module@, key, at, id, parser.manifest_view()[id])
                },
                Err(err) => {
                    &&& err is Deserialize
                    &&& match scanned(module@) {
                        Some(scan) => !mergeable(scan, module@),
                        None => true,
                    }
                },
            },
    {
        let scan = match scan_module(module) {
            Ok(scan) => scan,
            Err(err) => {
                return Err(err);
            },
        };
        match collect_manifests(&scan, module) {
            Ok(manifest) => Ok(WassetParser { manifest, module }),
            Err(err) => Err(err),
        }
    }

    /// Gets the IDs of all assets stored in the module, each once, in no
    /// particular order.
    pub fn ids(&self) -> (ids: Vec<WassetId>)
        ensures
            ids@.len() == self.manifest_view().len(),
            forall|i: int, j: int| 0 <= i < j < ids@.len() ==> (#[trigger] ids@[i])@ != (#[trigger] ids@[j])@,
            forall|i: int| 0 <= i < ids@.len() ==> self.manifest_view().contains_key((#[trigger] ids@[i])@),
            forall|id: u128| #[trigger]
                self.manifest_view().contains_key(id) ==> exists|i: int|
                    0 <= i < ids@.len() && (#[trigger] ids@[i])@ == id,
    {
        self.manifest.ids()
    }

    /// Creates an iterator over the IDs and assets in this parser.
    pub fn iter(&self) -> (iter: WassetIter<'_>)
        ensures
            iter.wf(),
            iter.position() == 0,
            iter.parser() == self,
    {
        WassetIter { ids: self.ids(), next: 0, parser: self }
    }

    /// Loads the bytes of the provided asset from the module, returning
    /// `None` if it did not exist.
    ///
    /// It fails where the range of the asset does not lie within the module.
    pub fn load(&self, id: WassetId) -> (r: Result<Option<Vec<u8>>, WassetError>)
        ensures
            match loaded(self.manifest_view(), self.module_view(), id@) {
                Some(Some(bytes)) => r matches Ok(Some(asset)) && asset@ == bytes,
                Some(None) => r matches Ok(None),
                None => r matches Err(err) && err == WassetError::Deserialize(
                    ErrorCause::RangeOutOfBounds,
                ),
            },
    {
        match self.load_raw(id) {
            Ok(Some(item)) => Ok(Some(vstd::slice::slice_to_vec(item.data()))),
            Ok(None) => Ok(None),
            Err(err) => Err(err),
        }
    }

    /// Loads the raw data associated with the given ID, returning `None` if
    /// it did not exist.
    ///
    /// It fails where the range of the asset does not lie within the module.
    pub fn load_raw(&self, id: WassetId) -> (r: Result<Option<WassetItem<'a>>, WassetError>)
        ensures
            match loaded(self.manifest_view(), self.module_view(), id@) {
                Some(Some(bytes)) => r matches Ok(Some(item)) && item@ == bytes,
                Some(None) => r matches Ok(None),
                None => r matches Err(err) && err == WassetError::Deserialize(
                    ErrorCause::RangeOutOfBounds,
                ),
            },
    {
        match self.manifest.get(id) {
            Some(range) => match self.load_by_range(range) {
                Ok(item) => Ok(Some(item)),
                Err(err) => Err(err),
            },
            None => Ok(None),
        }
    }

    /// Gets a reference to the module manifest.
    pub fn manifest(&self) -> (manifest: &WassetManifest)
        ensures
            manifest@ == self.manifest_view(),
    {
        &self.manifest
    }

    /// Returns the module bytecode with any custom asset sections removed.
    ///
    /// It fails where the module is malformed or truncated.
    pub fn strip_module(&self) -> (r: Result<Vec<u8>, WassetError>)
        ensures
            match r {
                Ok(output) => stripped(self.module_view()) == Some(output@),
                Err(err) => stripped(self.module_view()) is None && err is Deserialize,
            },
    {
        strip_module(self.module)
    }

    /// Loads an asset from the provided byte range in the module.
    fn load_by_range(&self, range: ByteRange) -> (r: Result<WassetItem<'a>, WassetError>)
        ensures
            match asset_bytes(self.module_view(), range) {
                Some(bytes) => r matches Ok(item) && item@ == bytes,
                None => r matches Err(err) && err == WassetError::Deserialize(
                    ErrorCause::RangeOutOfBounds,
                ),
            },
    {
        if range.start <= range.end && range.end as usize <= self.module.len() {
            Ok(WassetItem::from(slice_subrange(self.module, range.start as usize, range.end as usize)))
        } else {
            Err(WassetError::from_deserialize(ErrorCause::RangeOutOfBounds))
        }
    }
}

/// Allows for iterating over all assets in a module.
pub struct WassetIter<'a> {
    /// The IDs of the assets, in the order in which they are handed out.
    ids: Vec<WassetId>,
    /// How many assets were handed out.
    next: usize,
    /// The parser.
    parser: &'a WassetParser<'a>,
}

impl<'a> WassetIter<'a> {
    /// How many assets were handed out.
    pub closed spec fn position(&self) -> nat {
        self.next as nat
    }

    /// The parser whose assets are handed out.
    pub closed spec fn parser(&self) -> &'a WassetParser<'a> {
        self.parser
    }

    /// The IDs of the assets, in the order in which they are handed out.
    pub closed spec fn order(&self) -> Seq<WassetId> {
        self.ids@
    }

    /// The iterator hands out every asset of the manifest once: its order
    /// holds every ID of the manifest, none twice and no other, and as many
    /// as the manifest has entries.
    pub open spec fn wf(&self) -> bool {
        &&& self.position() <= self.order().len()
        &&& self.order().len() == self.parser().manifest_view().len()
        &&& forall|i: int, j: int|
            0 <= i < j < self.order().len() ==> (#[trigger] self.order()[i])@ != (
            #[trigger] self.order()[j])@
        &&& forall|i: int|
            0 <= i < self.order().len() ==> self.parser().manifest_view().contains_key(
                (#[trigger] self.order()[i])@,
            )
        &&& forall|id: u128| #[trigger]
            self.parser().manifest_view().contains_key(id) ==> exists|i: int|
                0 <= i < self.order().len() && (#[trigger] self.order()[i])@ == id
    }

    /// Hands out the next asset: its ID, and its bytes or the failure to
    /// load them. `None` once every asset of the manifest was handed out.
    pub fn next(&mut self) -> (item: Option<(WassetId, Result<WassetItem<'a>, WassetError>)>)
        ensures
            final(self).parser() == old(self).parser(),
            final(self).order() == old(self).order(),
            old(self).wf() ==> final(self).wf() && match item {
                Some((id, asset)) => {
                    &&& old(self).position() < old(self).order().len()
                    &&& final(self).position() == old(self).position() + 1
                    &&& id == old(self).order()[old(self).position() as int]
                    &&& old(self).parser().manifest_view().contains_key(id@)
                    &&& match asset_bytes(
                        old(self).parser().module_view(),
                        old(self).parser().manifest_view()[id@],
                    ) {
                        Some(bytes) => asset matches Ok(found) && found@ == bytes,
                        None => asset matches Err(err) && err == WassetError::Deserialize(
                            ErrorCause::RangeOutOfBounds,
                        ),
                    }
                },
                None => {
                    &&& old(self).position() == old(self).order().len()
                    &&& final(self).position() == old(self).position()
                },
            },
    {
        if self.next < self.ids.len() {
            let id = self.ids[self.next];
            self.next = self.next + 1;
            match self.parser.manifest.get(id) {
                Some(range) => Some((id, self.parser.load_by_range(range))),
                None => None,
            }
        } else {
            None
        }
    }
}

} // verus!
