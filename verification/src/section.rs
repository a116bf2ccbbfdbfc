//! The section stream of a module as `wasmparser` reports it, and the framing
//! of sections as `wasm_encoder` writes it.

use std::ops::Range;
use vstd::prelude::*;
use wasm_encoder::{Component, ComponentSectionId, Encode, Module, RawSection, Section};
use wasmparser::{Chunk, Encoding, Parser, Payload};

verus! {

#[verifier::external_type_specification]
#[verifier::external_body]
pub struct ExParser(Parser);

#[verifier::external_type_specification]
#[verifier::external_body]
pub struct ExPayload<'a>(Payload<'a>);

/// What a payload is, as far as the library tells payloads apart.
#[derive(Debug)]
pub enum SectionEvent {
    /// The eight-byte header of a core module, or of a component.
    Header { component: bool },
    /// The end of the module or component that is being parsed.
    End,
    /// A nested core module begins.
    Module,
    /// A nested component begins.
    Component,
    /// The code section begins; `size` bytes of function bodies follow.
    Code { size: u32 },
    /// A custom section, with its name and the range of its payload.
    Custom { name: String, data: Range<u64> },
    /// Any other payload.
    Other,
}

/// What the library reads of one parsed payload.
#[derive(Debug)]
pub struct PayloadInfo {
    /// The tag and the range of the contents of the section that the payload
    /// stands for, if it stands for a whole section.
    pub section: Option<(u8, Range<u64>)>,
    /// What the payload is.
    pub event: SectionEvent,
}

/// The outcome of one parser step, as a value.
pub enum ChunkOutcome {
    /// The parser reported an error.
    Failed,
    /// The parser consumed `consumed` bytes, produced `payload` and went on
    /// to the state `next`.
    Parsed { consumed: usize, payload: PayloadInfo, next: Parser },
}

/// The state of a parser that `Parser::new` has just made for `offset`.
pub uninterp spec fn fresh_parser(offset: u64) -> Parser;

/// What `Parser::parse` yields, with `eof` set, for a parser in the state
/// `state` that is handed `data`.
pub uninterp spec fn chunk_outcome(state: Parser, data: Seq<u8>) -> ChunkOutcome;

/// The parser in the state `state` is inside a code section.
pub uninterp spec fn in_code_section(state: Parser) -> bool;

/// The state that `Parser::skip_section` leaves a parser in that was in the
/// state `state`.
pub uninterp spec fn after_skip(state: Parser) -> Parser;

/// What the library reads of the payload `payload`: the section that
/// `Payload::as_section` gives for it, the kind of the payload, whether a
/// header is that of a component, the size that the start of a code section
/// gives, and the name and the data range of a custom section.
pub uninterp spec fn payload_info(payload: Payload) -> PayloadInfo;

/// The payloads that `Parser::parse_all` yields for `module` from a parser
/// in the state `state`, in their order, each by `payload_info`; `None`
/// stands for an error.
pub uninterp spec fn module_payloads(state: Parser, module: Seq<u8>) -> Seq<Option<PayloadInfo>>;

/// What a list of parse results is as a value: each payload by
/// `payload_info`, each error as `None`.
pub open spec fn outcomes<'a>(results: Seq<Result<Payload<'a>, wasmparser::Error>>) -> Seq<
    Option<PayloadInfo>,
> {
    results.map_values(
        |result: Result<Payload<'a>, wasmparser::Error>|
            match result {
                Ok(payload) => Some(payload_info(payload)),
                Err(_) => None,
            },
    )
}

/// `Parser::new`: a parser that expects the header of a module or component
/// at `offset`.
#[verifier::external_body]
pub(crate) fn new_parser(offset: u64) -> (parser: Parser)
    ensures
        parser == fresh_parser(offset),
{
    Parser::new(offset)
}

/// `Parser::parse` with `eof` set. With `eof` set the parser never asks for
/// more data. It consumes no more than it was given, and at least one byte
/// unless it reports the end. After the start of a code section it is
/// inside one.
#[verifier::external_body]
pub(crate) fn parse_chunk<'a>(parser: &mut Parser, data: &'a [u8]) -> (r: Result<
    Option<(usize, Payload<'a>)>,
    wasmparser::Error,
>)
    ensures
        match r {
            Ok(Some((consumed, payload))) => {
                &&& chunk_outcome(*old(parser), data@) == (ChunkOutcome::Parsed {
                    consumed,
                    payload: payload_info(payload),
                    next: *final(parser),
                })
                &&& consumed <= data@.len()
                &&& !(payload_info(payload).event is End) ==> consumed > 0
                &&& payload_info(payload).event is Code ==> in_code_section(*final(parser))
            },
            Ok(None) => false,
            Err(_) => chunk_outcome(*old(parser), data@) is Failed,
        },
{
    match parser.parse(data, true)? {
        Chunk::Parsed { consumed, payload } => Ok(Some((consumed, payload))),
        Chunk::NeedMoreData(_) => Ok(None),
    }
}

/// `Parser::parse_all`: every payload of the module, and of the modules and
/// components nested in it, up to the first error.
#[verifier::external_body]
pub(crate) fn parse_all<'a>(parser: Parser, module: &'a [u8]) -> (results: Vec<
    Result<Payload<'a>, wasmparser::Error>,
>)
    ensures
        outcomes(results@) == module_payloads(parser, module@),
{
    parser.parse_all(module).collect()
}

/// Reduces a payload to what the library reads of it: the section from
/// `Payload::as_section`, the kind of the payload, the encoding that a
/// header announces, the size from the start of a code section, and the
/// name and the data range of a custom section from
/// `CustomSectionReader::name` and `CustomSectionReader::data_range`.
#[verifier::external_body]
pub(crate) fn read_payload(payload: &Payload) -> (info: PayloadInfo)
    ensures
        info == payload_info(*payload),
{
    let event = match payload {
        Payload::Version { encoding, .. } => SectionEvent::Header { component: matches!(encoding, Encoding::Component) },
        Payload::End(_) => SectionEvent::End,
        Payload::ModuleSection { .. } => SectionEvent::Module,
        Payload::ComponentSection { .. } => SectionEvent::Component,
        Payload::CodeSectionStart { size, .. } => SectionEvent::Code { size: *size },
        Payload::CustomSection(c) => SectionEvent::Custom { name: c.name().to_string(), data: c.data_range() },
        _ => SectionEvent::Other,
    };
    PayloadInfo { section: payload.as_section(), event }
}

/// `Parser::skip_section`: leaves the code section without reading it. The
/// caller passes over the bytes of the section itself.
#[verifier::external_body]
pub(crate) fn skip_code_section(parser: &mut Parser)
    requires
        in_code_section(*old(parser)),
    ensures
        *final(parser) == after_skip(*old(parser)),
{
    parser.skip_section()
}

/// The unsigned LEB128 encoding of `n`: seven bits to a byte, the low bits
/// first, the high bit of a byte set where more bytes follow.
pub open spec fn leb128(n: nat) -> Seq<u8>
    decreases n,
{
    if n < 128 {
        seq![n as u8]
    } else {
        seq![(n % 128 + 128) as u8] + leb128(n / 128)
    }
}

/// The eight bytes at the start of every core module.
pub open spec fn module_header() -> Seq<u8> {
    seq![0x00u8, 0x61u8, 0x73u8, 0x6du8, 0x01u8, 0x00u8, 0x00u8, 0x00u8]
}

/// The eight bytes at the start of every component.
pub open spec fn component_header() -> Seq<u8> {
    seq![0x00u8, 0x61u8, 0x73u8, 0x6du8, 0x0du8, 0x00u8, 0x01u8, 0x00u8]
}

/// The tag of a core module section inside a component.
pub open spec fn core_module_tag() -> u8 {
    1u8
}

/// The tag of a component section inside a component.
pub open spec fn component_tag() -> u8 {
    4u8
}

/// A section as it is framed: its tag, the length of its contents in
/// LEB128, and its contents.
pub open spec fn framed(tag: u8, contents: Seq<u8>) -> Seq<u8> {
    seq![tag] + leb128(contents.len()) + contents
}

/// `Module::HEADER`: the magic number and the version of a core module.
#[verifier::external_body]
pub(crate) fn header_bytes() -> (header: [u8; 8])
    ensures
        header@ == module_header(),
{
    Module::HEADER
}

/// `Component::HEADER`: the magic number, the version and the layer of a
/// component.
#[verifier::external_body]
pub(crate) fn component_header_bytes() -> (header: [u8; 8])
    ensures
        header@ == component_header(),
{
    Component::HEADER
}

/// `ComponentSectionId::Component` as a byte.
#[verifier::external_body]
pub(crate) fn component_id() -> (tag: u8)
    ensures
        tag == component_tag(),
{
    ComponentSectionId::Component.into()
}

/// `ComponentSectionId::CoreModule` as a byte.
#[verifier::external_body]
pub(crate) fn core_module_id() -> (tag: u8)
    ensures
        tag == core_module_tag(),
{
    ComponentSectionId::CoreModule.into()
}

/// `Encode::encode` for a byte slice: appends the length of the slice in
/// LEB128 and then its bytes. It panics on a slice whose length does not fit
/// in 32 bits.
#[verifier::external_body]
pub(crate) fn encode_bytes(bytes: &[u8], sink: &mut Vec<u8>)
    requires
        bytes@.len() <= u32::MAX,
    ensures
        final(sink)@ == old(sink)@ + leb128(bytes@.len()) + bytes@,
{
    bytes.encode(sink)
}

/// `Section::append_to` for a `RawSection`: appends the tag, the length of
/// the contents in LEB128, and the contents. It panics on contents whose
/// length does not fit in 32 bits.
#[verifier::external_body]
pub(crate) fn append_raw_section(tag: u8, contents: &[u8], sink: &mut Vec<u8>)
    requires
        contents@.len() <= u32::MAX,
    ensures
        final(sink)@ == old(sink)@ + framed(tag, contents@),
{
    RawSection { id: tag, data: contents }.append_to(sink)
}

} // verus!
