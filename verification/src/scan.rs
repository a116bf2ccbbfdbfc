//! Finds the manifest and data sections of each embedding in a module.

use crate::error::{ErrorCause, WassetError};
use crate::manifest::{fx_entries, fx_get, fx_insert, lists};
use crate::names::{
    parse_uuid, parsed_uuid, strip_prefix, ASSET_DATA_SECTION_PREFIX,
    ASSET_MANIFEST_SECTION_PREFIX,
};
use crate::section::{
    after_skip, chunk_outcome, fresh_parser, new_parser, parse_chunk, read_payload,
    skip_code_section, ChunkOutcome, PayloadInfo, SectionEvent,
};
use fxhash::FxHashMap;
use std::ops::Range;
use vstd::prelude::*;
use vstd::slice::slice_subrange;
use wasmparser::Parser;

verus! {

/// What a module holds of one embedding.
#[derive(Copy, Clone, Debug)]
pub struct WassetOffsets {
    /// The offset in the module of the first byte of the embedding's data,
    /// if its data section was seen.
    pub data_offset: Option<u32>,
    /// Where in the module the serialized manifest of the embedding lies, if
    /// its manifest section was seen.
    pub manifest: Option<(usize, usize)>,
}

/// What is known of the embedding `embedding` in `offsets`: its entry, or
/// nothing yet.
pub open spec fn known(offsets: Map<u128, WassetOffsets>, embedding: u128) -> WassetOffsets {
    if offsets.contains_key(embedding) {
        offsets[embedding]
    } else {
        WassetOffsets { data_offset: None, manifest: None }
    }
}

/// `offsets` after the manifest of `embedding` was found at `start..end`.
pub open spec fn with_manifest(
    offsets: Map<u128, WassetOffsets>,
    embedding: u128,
    start: usize,
    end: usize,
) -> Map<u128, WassetOffsets> {
    offsets.insert(
        embedding,
        WassetOffsets {
            data_offset: known(offsets, embedding).data_offset,
            manifest: Some((start, end)),
        },
    )
}

/// `offsets` after the data of `embedding` was found at `offset`.
pub open spec fn with_data(offsets: Map<u128, WassetOffsets>, embedding: u128, offset: u32) -> Map<
    u128,
    WassetOffsets,
> {
    offsets.insert(
        embedding,
        WassetOffsets {
            data_offset: Some(offset),
            manifest: known(offsets, embedding).manifest,
        },
    )
}

/// `offsets` after a custom section named `name`, whose payload lies at
/// `data`, was seen in a module of `len` bytes; `None` where the section
/// must be rejected.
///
/// A name that starts with the manifest prefix must go on with a UUID, and
/// the payload must lie within the module: the payload is then the manifest
/// of that embedding. A name that starts with the data prefix must go on
/// with a UUID, and the payload must start at an offset that fits in 32
/// bits: that offset is then the data offset of that embedding. A section
/// seen twice replaces what the first one gave. Any other section changes
/// nothing.
pub open spec fn scan_custom(
    offsets: Map<u128, WassetOffsets>,
    len: nat,
    name: Seq<char>,
    data: Range<u64>,
) -> Option<Map<u128, WassetOffsets>> {
    if ASSET_MANIFEST_SECTION_PREFIX@.is_prefix_of(name) {
        match parsed_uuid(name.skip(ASSET_MANIFEST_SECTION_PREFIX@.len() as int)) {
            Some(embedding) => if data.start <= data.end <= len {
                Some(with_manifest(offsets, embedding, data.start as usize, data.end as usize))
            } else {
                None
            },
            None => None,
        }
    } else if ASSET_DATA_SECTION_PREFIX@.is_prefix_of(name) {
        match parsed_uuid(name.skip(ASSET_DATA_SECTION_PREFIX@.len() as int)) {
            Some(embedding) => if data.start <= u32::MAX {
                Some(with_data(offsets, embedding, data.start as u32))
            } else {
                None
            },
            None => None,
        }
    } else {
        Some(offsets)
    }
}

/// The embeddings found in a module so far, by UUID.
pub struct ModuleScan {
    offsets: FxHashMap<u128, WassetOffsets>,
}

impl View for ModuleScan {
    type V = Map<u128, WassetOffsets>;

    closed spec fn view(&self) -> Map<u128, WassetOffsets> {
        self.offsets@
    }
}

impl ModuleScan {
    /// A scan that has found nothing.
    pub fn new() -> (scan: Self)
        ensures
            scan@ == Map::<u128, WassetOffsets>::empty(),
    {
        ModuleScan { offsets: FxHashMap::default() }
    }

    /// What was found of `embedding`.
    pub fn get(&self, embedding: u128) -> (found: WassetOffsets)
        ensures
            found == known(self@, embedding),
    {
        match fx_get(&self.offsets, embedding) {
            Some(found) => found,
            None => WassetOffsets { data_offset: None, manifest: None },
        }
    }

    /// Records that the manifest of `embedding` lies at `start..end`.
    pub fn record_manifest(&mut self, embedding: u128, start: usize, end: usize)
        ensures
            final(self)@ == with_manifest(old(self)@, embedding, start, end),
    {
        let found = self.get(embedding);
        fx_insert(
            &mut self.offsets,
            embedding,
            WassetOffsets { data_offset: found.data_offset, manifest: Some((start, end)) },
        );
    }

    /// Records that the data of `embedding` starts at `offset`.
    pub fn record_data(&mut self, embedding: u128, offset: u32)
        ensures
            final(self)@ == with_data(old(self)@, embedding, offset),
    {
        let found = self.get(embedding);
        fx_insert(
            &mut self.offsets,
            embedding,
            WassetOffsets { data_offset: Some(offset), manifest: found.manifest },
        );
    }

    /// Checks whether a custom section of a module of `len` bytes holds an
    /// asset manifest or asset data, and records it if so.
    pub fn parse_module_custom_section(&mut self, name: &str, data: &Range<u64>, len: usize) -> (r:
        Result<(), WassetError>)
        ensures
            match scan_custom(old(self)@, len as nat, name@, *data) {
                Some(offsets) => r is Ok && final(self)@ == offsets,
                None => r is Err && r->Err_0 is Deserialize && final(self)@ == old(self)@,
            },
    {
        if let Some(rest) = strip_prefix(name, ASSET_MANIFEST_SECTION_PREFIX) {
            assert(name@.skip(ASSET_MANIFEST_SECTION_PREFIX@.len() as int) =~= rest@);
            let embedding = match parse_uuid(rest) {
                Ok(embedding) => embedding,
                Err(err) => {
                    return Err(WassetError::from_deserialize(ErrorCause::SectionName(err)));
                },
            };
            if data.start <= data.end && data.end <= len as u64 {
                self.record_manifest(embedding, data.start as usize, data.end as usize);
                Ok(())
            } else {
                Err(WassetError::from_deserialize(ErrorCause::SectionOutOfRange))
            }
        } else if let Some(rest) = strip_prefix(name, ASSET_DATA_SECTION_PREFIX) {
            assert(name@.skip(ASSET_DATA_SECTION_PREFIX@.len() as int) =~= rest@);
            let embedding = match parse_uuid(rest) {
                Ok(embedding) => embedding,
                Err(err) => {
                    return Err(WassetError::from_deserialize(ErrorCause::SectionName(err)));
                },
            };
            if data.start <= u32::MAX as u64 {
                self.record_data(embedding, data.start as u32);
                Ok(())
            } else {
                Err(WassetError::from_deserialize(ErrorCause::TooLarge))
            }
        } else {
            Ok(())
        }
    }

    /// The embeddings that were found, each once, in no particular order.
    pub fn embeddings(&self) -> (found: Vec<(u128, WassetOffsets)>)
        ensures
            lists(found@, self@),
    {
        fx_entries(&self.offsets)
    }
}

/// The number of bytes that a scan passes over behind the payload `payload`
/// without handing them to the parser: the function bodies of a code
/// section, and the contents of a nested module or component, of which the
/// parser consumes the tag and the length only. `None` where the range of a
/// nested section ends before it starts.
pub open spec fn passed_over(payload: PayloadInfo) -> Option<nat> {
    match payload.event {
        SectionEvent::Code { size } => Some(size as nat),
        SectionEvent::Module | SectionEvent::Component => match payload.section {
            Some((_, range)) => if range.start <= range.end {
                Some((range.end - range.start) as nat)
            } else {
                None
            },
            None => Some(0),
        },
        _ => Some(0),
    }
}

/// `offsets` after the payload `payload` of a module of `len` bytes was
/// seen: a custom section is handed to `scan_custom`, and nothing else
/// changes what was found.
pub open spec fn scan_payload(offsets: Map<u128, WassetOffsets>, len: nat, payload: PayloadInfo)
    -> Option<Map<u128, WassetOffsets>> {
    match payload.event {
        SectionEvent::Custom { name, data } => scan_custom(offsets, len, name@, data),
        _ => Some(offsets),
    }
}

/// The state in which the parser goes on behind the payload `payload`, which
/// left it in the state `next`: at the start of a code section it is told
/// to leave the section.
pub open spec fn resumed(payload: PayloadInfo, next: Parser) -> Parser {
    if payload.event is Code {
        after_skip(next)
    } else {
        next
    }
}

/// What a scan of `module` from the offset `pos` on finds, where `cur` is the
/// state of the parser and `offsets` is what was found before. The scan
/// follows the sections of the module itself: it passes over the code
/// section without reading it and over each nested module or component
/// without entering it, hands each custom section to `scan_custom`, and
/// ends where the parser reports the end. `None` where the parser fails,
/// where the module ends inside a section that is passed over, or where a
/// custom section must be rejected.
pub open spec fn scan_from(
    module: Seq<u8>,
    pos: int,
    cur: Parser,
    offsets: Map<u128, WassetOffsets>,
) -> Option<Map<u128, WassetOffsets>>
    decreases module.len() - pos,
{
    if pos < 0 || pos > module.len() {
        None
    } else {
        match chunk_outcome(cur, module.skip(pos)) {
            ChunkOutcome::Failed => None,
            ChunkOutcome::Parsed { consumed, payload, next } => {
                if payload.event is End {
                    Some(offsets)
                } else if consumed == 0 || consumed > module.len() - pos {
                    None
                } else {
                    match (passed_over(payload), scan_payload(offsets, module.len(), payload)) {
                        (Some(skipped), Some(offsets)) => if skipped <= module.len() - pos
                            - consumed {
                            scan_from(
                                module,
                                pos + consumed + skipped,
                                resumed(payload, next),
                                offsets,
                            )
                        } else {
                            None
                        },
                        _ => None,
                    }
                }
            },
        }
    }
}

/// What a scan of the whole of `module` finds.
pub open spec fn scanned(module: Seq<u8>) -> Option<Map<u128, WassetOffsets>> {
    scan_from(module, 0, fresh_parser(0), Map::empty())
}

/// Scans the sections of `module` in one forward pass and returns, for each
/// embedding, where its manifest lies and where its data starts. Modules and
/// components nested in `module` are passed over.
///
/// It fails where the module is malformed or truncated, or where an asset
/// section is not named after a UUID.
pub fn scan_module(module: &[u8]) -> (r: Result<ModuleScan, WassetError>)
    ensures
        match r {
            Ok(scan) => scanned(module@) == Some(scan@),
            Err(err) => scanned(module@) is None && err is Deserialize,
        },
{
    let mut scan = ModuleScan::new();
    let mut parser = new_parser(0);
    let mut pos: usize = 0;
    loop
        invariant
            pos <= module@.len(),
            scan_from(module@, pos as int, parser, scan@) == scanned(module@),
        decreases module@.len() - pos,
    {
        let rest = slice_subrange(module, pos, module.len());
        let (consumed, payload) = match parse_chunk(&mut parser, rest) {
            Ok(Some(chunk)) => chunk,
            Ok(None) => {
                // With `eof` set the parser asks for no more data.
                return Err(WassetError::from_deserialize(ErrorCause::SectionOutOfRange));
            },
            Err(err) => {
                return Err(WassetError::from_deserialize(ErrorCause::Module(err)));
            },
        };
        let payload = read_payload(&payload);
        pos = pos + consumed;
        match payload.event {
            SectionEvent::End => {
                return Ok(scan);
            },
            SectionEvent::Code { size } => {
                if size as usize > module.len() - pos {
                    return Err(WassetError::from_deserialize(ErrorCause::SectionOutOfRange));
                }
                skip_code_section(&mut parser);
                pos = pos + size as usize;
            },
            SectionEvent::Module | SectionEvent::Component => {
                if let Some((_, range)) = payload.section {
                    if range.start > range.end || range.end - range.start > (module.len()
                        - pos) as u64 {
                        return Err(WassetError::from_deserialize(ErrorCause::SectionOutOfRange));
                    }
                    pos = pos + (range.end - range.start) as usize;
                }
            },
            SectionEvent::Custom { name, data } => {
                match scan.parse_module_custom_section(name.as_str(), &data, module.len()) {
                    Ok(()) => {},
                    Err(err) => {
                        return Err(err);
                    },
                }
            },
            _ => {},
        }
    }
}

} // verus!
