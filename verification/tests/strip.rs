use std::borrow::Cow;
use wasm_encoder::{
    Component, CustomSection, Module, ModuleSection, NestedComponentSection, RawSection,
};
use wasset::error::{ErrorCause, WassetError};
use wasset::names::{data_section_name, is_asset_section_name, manifest_section_name};
use wasset::parse::WassetParser;
use wasset::section::{PayloadInfo, SectionEvent};
use wasset::strip::{strip_module, strip_payloads, Stripper};
use wasset::WassetManifest;

const EMBEDDING: u128 = 0x936da01f_9abd_4d9d_80c7_02af85c822a8;
const HEADER: [u8; 8] = [0x00, 0x61, 0x73, 0x6d, 0x01, 0x00, 0x00, 0x00];

fn custom_section<'a>(name: &'a str, data: &'a [u8]) -> CustomSection<'a> {
    CustomSection { name: Cow::Borrowed(name), data: Cow::Borrowed(data) }
}

fn module(with_assets: bool) -> Module {
    let mut module = Module::new();
    module.section(&RawSection { id: 1, data: &[0x01, 0x60, 0x00, 0x00] });
    if with_assets {
        module.section(&custom_section(&manifest_section_name(EMBEDDING), b"manifest"));
    }
    module.section(&custom_section("unrelated", b"kept as it is"));
    if with_assets {
        module.section(&custom_section(&data_section_name(EMBEDDING), b"asset data"));
    }
    module.section(&RawSection { id: 3, data: &[0x01, 0x00] });
    module.section(&RawSection { id: 10, data: &[0x01, 0x02, 0x00, 0x0b] });
    module
}

#[test]
fn strip_leaves_out_manifest_and_data_sections() {
    let stripped = strip_module(&module(true).finish()).unwrap();
    assert_eq!(stripped, module(false).finish());
}

#[test]
fn strip_keeps_only_the_unrelated_custom_section() {
    let mut with_assets = Module::new();
    with_assets.section(&custom_section(&manifest_section_name(EMBEDDING), b"manifest"));
    with_assets.section(&custom_section(&data_section_name(EMBEDDING), b"asset data"));
    with_assets.section(&custom_section("unrelated", b"kept"));
    let stripped = strip_module(&with_assets.finish()).unwrap();
    let mut expected = Module::new();
    expected.section(&custom_section("unrelated", b"kept"));
    assert_eq!(stripped, expected.finish());
}

#[test]
fn strip_of_stripped_module_changes_nothing() {
    let once = strip_module(&module(true).finish()).unwrap();
    let twice = strip_module(&once).unwrap();
    assert_eq!(once, twice);
}

#[test]
fn strip_of_module_without_assets_changes_nothing() {
    let bytes = module(false).finish();
    assert_eq!(strip_module(&bytes).unwrap(), bytes);
}

#[test]
fn strip_of_header_alone_is_the_header() {
    assert_eq!(strip_module(&HEADER).unwrap(), HEADER.to_vec());
}

#[test]
fn strip_writes_long_lengths_in_several_bytes() {
    let long = vec![0xabu8; 300];
    let mut module = Module::new();
    module.section(&custom_section("big", &long));
    module.section(&custom_section(&data_section_name(EMBEDDING), &long));
    let stripped = strip_module(&module.finish()).unwrap();
    // The contents are the name with its length and the 300 bytes: 304
    // bytes, which LEB128 writes as 0xb0 0x02.
    let mut expected = HEADER.to_vec();
    expected.extend_from_slice(&[0x00, 0xb0, 0x02, 0x03]);
    expected.extend_from_slice(b"big");
    expected.extend_from_slice(&long);
    assert_eq!(stripped, expected);
}

#[test]
fn strip_rewrites_lengths_that_were_padded() {
    // A custom section whose length 5 is written in two bytes.
    let mut module = HEADER.to_vec();
    module.extend_from_slice(&[0x00, 0x85, 0x00, 0x01, b'n', 1, 2, 3]);
    let stripped = strip_module(&module).unwrap();
    let mut expected = HEADER.to_vec();
    expected.extend_from_slice(&[0x00, 0x05, 0x01, b'n', 1, 2, 3]);
    assert_eq!(stripped, expected);
}

#[test]
fn strip_rejects_malformed_module() {
    let err = strip_module(b"\0asm\x01\0\0\0\x00\x7f").err().unwrap();
    assert!(matches!(err, WassetError::Deserialize(ErrorCause::Module(_))));
    let err = strip_module(b"").err().unwrap();
    assert!(matches!(err, WassetError::Deserialize(ErrorCause::Module(_))));
}

#[test]
fn strip_rejects_code_section_that_leaves_the_module() {
    let mut module = HEADER.to_vec();
    module.extend_from_slice(&[10, 100, 0x00]);
    let err = strip_module(&module).err().unwrap();
    assert!(matches!(err, WassetError::Deserialize(ErrorCause::SectionOutOfRange)));
}

#[test]
fn strip_reaches_into_nested_modules() {
    let mut nested = Module::new();
    nested.section(&custom_section(&manifest_section_name(EMBEDDING), b"manifest"));
    nested.section(&custom_section("inner", b"kept"));
    nested.section(&custom_section(&data_section_name(EMBEDDING), b"asset data"));
    let mut component = Component::new();
    component.section(&custom_section("outer", b"kept too"));
    component.section(&ModuleSection(&nested));
    component.section(&custom_section(&data_section_name(EMBEDDING), b"outer data"));
    let stripped = strip_module(&component.finish()).unwrap();

    let mut nested = Module::new();
    nested.section(&custom_section("inner", b"kept"));
    let mut expected = Component::new();
    expected.section(&custom_section("outer", b"kept too"));
    expected.section(&ModuleSection(&nested));
    assert_eq!(stripped, expected.finish());
}

#[test]
fn parser_strips_its_module() {
    let bytes = module(true).finish();
    let parser = WassetParser::with_manifest(WassetManifest::new(), &bytes);
    assert_eq!(parser.strip_module().unwrap(), module(false).finish());
}

#[test]
fn asset_sections_are_told_by_their_prefix() {
    assert!(is_asset_section_name("__wasset_manifest:anything"));
    assert!(is_asset_section_name("__wasset_data:"));
    assert!(!is_asset_section_name("__wasset_data"));
    assert!(!is_asset_section_name("wasset_manifest:936da01f-9abd-4d9d-80c7-02af85c822a8"));
    assert!(!is_asset_section_name(""));
}

fn chunk(section: Option<(u8, std::ops::Range<u64>)>, event: SectionEvent) -> PayloadInfo {
    PayloadInfo { section, event }
}

#[test]
fn stripper_frames_nested_output_as_core_module_section() {
    let module = [9u8, 8, 7, 6, 5];
    let mut stripper = Stripper::new();
    let header = SectionEvent::Header { component: false };
    assert!(!stripper.apply(&module, &chunk(None, header)).unwrap());
    assert!(!stripper.apply(&module, &chunk(Some((1, 0..5)), SectionEvent::Module)).unwrap());
    assert!(!stripper.apply(&module, &chunk(Some((7, 1..3)), SectionEvent::Other)).unwrap());
    assert!(!stripper.apply(&module, &chunk(None, SectionEvent::End)).unwrap());
    assert!(stripper.apply(&module, &chunk(None, SectionEvent::End)).unwrap());
    let mut expected = HEADER.to_vec();
    expected.extend_from_slice(&[0x01, 0x04, 0x07, 0x02, 8, 7]);
    assert_eq!(stripper.into_output(), expected);
}

#[test]
fn stripper_copies_sections_with_their_tag_and_length() {
    let module = [9u8, 8, 7, 6, 5];
    let mut stripper = Stripper::new();
    let kept = SectionEvent::Custom { name: "kept".to_string(), data: 2..3 };
    let dropped = SectionEvent::Custom { name: "__wasset_data:x".to_string(), data: 2..3 };
    assert!(!stripper.apply(&module, &chunk(Some((0, 0..3)), kept)).unwrap());
    assert!(!stripper.apply(&module, &chunk(Some((0, 0..3)), dropped)).unwrap());
    assert!(!stripper.apply(&module, &chunk(Some((11, 5..5)), SectionEvent::Other)).unwrap());
    assert!(!stripper.apply(&module, &chunk(None, SectionEvent::Other)).unwrap());
    assert!(!stripper.apply(&module, &chunk(Some((10, 3..5)), SectionEvent::Code { size: 2 })).unwrap());
    assert_eq!(stripper.into_output(), vec![0x00, 0x03, 9, 8, 7, 11, 0x00, 10, 0x02, 6, 5]);
}

#[test]
fn stripper_rejects_section_outside_the_module() {
    let module = [9u8, 8, 7, 6, 5];
    let mut stripper = Stripper::new();
    let err = stripper.apply(&module, &chunk(Some((2, 3..6)), SectionEvent::Other)).err().unwrap();
    assert!(matches!(err, WassetError::Deserialize(ErrorCause::SectionOutOfRange)));
    let mut stripper = Stripper::new();
    let err = stripper.apply(&module, &chunk(Some((2, 4..3)), SectionEvent::Other)).err().unwrap();
    assert!(matches!(err, WassetError::Deserialize(ErrorCause::SectionOutOfRange)));
}

fn nested_module() -> Module {
    let mut nested = Module::new();
    nested.section(&RawSection { id: 1, data: &[0x01, 0x60, 0x00, 0x00] });
    nested.section(&custom_section(&manifest_section_name(EMBEDDING), b"manifest"));
    nested.section(&RawSection { id: 3, data: &[0x01, 0x00] });
    nested.section(&RawSection { id: 10, data: &[0x01, 0x02, 0x00, 0x0b] });
    nested.section(&custom_section("inner", b"kept"));
    nested
}

fn stripped_nested_module() -> Module {
    let mut nested = Module::new();
    nested.section(&RawSection { id: 1, data: &[0x01, 0x60, 0x00, 0x00] });
    nested.section(&RawSection { id: 3, data: &[0x01, 0x00] });
    nested.section(&RawSection { id: 10, data: &[0x01, 0x02, 0x00, 0x0b] });
    nested.section(&custom_section("inner", b"kept"));
    nested
}

#[test]
fn strip_reaches_into_nested_components() {
    let mut component = Component::new();
    component.section(&ModuleSection(&nested_module()));
    component.section(&custom_section(&data_section_name(EMBEDDING), b"inner data"));
    component.section(&custom_section("outer", b"kept too"));
    let mut deep = Component::new();
    deep.section(&custom_section(&manifest_section_name(EMBEDDING), b"outer manifest"));
    deep.section(&NestedComponentSection(&component));
    deep.section(&custom_section("last", b"."));
    let stripped = strip_module(&deep.finish()).unwrap();

    let mut component = Component::new();
    component.section(&ModuleSection(&stripped_nested_module()));
    component.section(&custom_section("outer", b"kept too"));
    let mut expected = Component::new();
    expected.section(&NestedComponentSection(&component));
    expected.section(&custom_section("last", b"."));
    let expected = expected.finish();
    assert_eq!(stripped, expected);
    assert_eq!(strip_module(&expected).unwrap(), expected);
}

#[test]
fn stripper_frames_nested_component_as_component_section() {
    let module = [9u8, 8, 7, 6, 5];
    let mut stripper = Stripper::new();
    let header = || SectionEvent::Header { component: true };
    assert!(!stripper.apply(&module, &chunk(None, header())).unwrap());
    assert!(!stripper.apply(&module, &chunk(Some((4, 0..5)), SectionEvent::Component)).unwrap());
    assert!(!stripper.apply(&module, &chunk(None, header())).unwrap());
    assert!(!stripper.apply(&module, &chunk(None, SectionEvent::End)).unwrap());
    assert!(stripper.apply(&module, &chunk(None, SectionEvent::End)).unwrap());
    let component = [0x00, 0x61, 0x73, 0x6d, 0x0d, 0x00, 0x01, 0x00];
    let mut expected = component.to_vec();
    expected.extend_from_slice(&[0x04, 0x08]);
    expected.extend_from_slice(&component);
    assert_eq!(stripper.into_output(), expected);
}

#[test]
fn strip_payloads_stops_at_the_first_error() {
    let module = [9u8, 8, 7, 6, 5];
    let header = || Ok(chunk(None, SectionEvent::Header { component: false }));
    let section = || Ok(chunk(Some((7, 1..3)), SectionEvent::Other));
    let error = || Err(wasmparser::Parser::new(0).parse(b"", true).err().unwrap());
    let mut expected = HEADER.to_vec();
    expected.extend_from_slice(&[0x07, 0x02, 8, 7]);
    // Without an end the rewrite is what was written.
    assert_eq!(strip_payloads(&module, vec![header(), section()]).unwrap(), expected);
    assert_eq!(strip_payloads(&module, vec![]).unwrap(), Vec::<u8>::new());
    // Nothing after the end is looked at.
    let end = || Ok(chunk(None, SectionEvent::End));
    assert_eq!(strip_payloads(&module, vec![header(), section(), end(), error()]).unwrap(), expected);
    let err = strip_payloads(&module, vec![header(), error(), section()]).err().unwrap();
    assert!(matches!(err, WassetError::Deserialize(ErrorCause::Module(_))));
}

#[test]
fn strip_frames_each_nested_module_in_turn() {
    let mut component = Component::new();
    component.section(&ModuleSection(&nested_module()));
    component.section(&ModuleSection(&module(true)));
    let stripped = strip_module(&component.finish()).unwrap();

    let mut expected = Component::new();
    expected.section(&ModuleSection(&stripped_nested_module()));
    expected.section(&ModuleSection(&module(false)));
    assert_eq!(stripped, expected.finish());
}

#[test]
fn strip_of_component_keeps_the_header_of_a_component() {
    // A component with one section of the tag 8, which holds canonical
    // functions in a component and the start function in a core module.
    let mut component = Component::new();
    component.section(&RawSection { id: 8, data: &[0x00, 0x00] });
    let component = component.finish();
    let stripped = strip_module(&component).unwrap();
    assert_eq!(stripped, component);
    assert_eq!(&stripped[..8], &[0x00, 0x61, 0x73, 0x6d, 0x0d, 0x00, 0x01, 0x00]);
    assert_eq!(strip_module(&stripped).unwrap(), stripped);
}
