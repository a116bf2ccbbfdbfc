use wasset::encode::{
    check_metadata, encode_asset_folder, file_metadata, folder_metadata, load_assets_in_folder,
    record_encoded, AssetEncoder, AssetFile, AssetFolder, AssetHierarchy, EncodingOperation,
};
use wasset::error::{ErrorCause, WassetError};
use wasset::manifest::ByteRange;
use wasset::merge::decode_manifest;
use wasset::parse::WassetParser;
use wasset::{WassetId, WassetManifest};

/// Text files become their text with what the metadata appends; binary
/// files become their bytes; other files are declined.
struct ExampleEncoder;

impl AssetEncoder for ExampleEncoder {
    fn encode(
        extension: &str,
        metadata: &toml::Table,
        data: Vec<u8>,
    ) -> Result<Option<Vec<u8>>, WassetError> {
        match extension {
            "txt" => {
                let mut text = String::from_utf8_lossy(&data).into_owned();
                match metadata.get("append") {
                    Some(toml::Value::String(more)) => text.push_str(more),
                    Some(_) => {
                        return Err(WassetError::from_serialize(ErrorCause::Message(
                            "unexpected metadata value".to_string(),
                        )))
                    }
                    None => {}
                }
                let mut record = vec![b'T'];
                record.extend_from_slice(text.as_bytes());
                Ok(Some(record))
            }
            "bin" => {
                let mut record = vec![b'B'];
                record.extend_from_slice(&data);
                Ok(Some(record))
            }
            _ => Ok(None),
        }
    }
}

fn file(name: &str, extension: &str, data: &[u8]) -> AssetFile {
    AssetFile { name: name.to_string(), extension: extension.to_string(), data: data.to_vec() }
}

fn folder(
    name: &str,
    metadata: Option<&str>,
    folders: Vec<AssetFolder>,
    files: Vec<AssetFile>,
) -> AssetFolder {
    AssetFolder {
        name: Some(name.to_string()),
        metadata: metadata.map(|text| text.to_string()),
        folders,
        files,
    }
}

fn example_folder() -> AssetFolder {
    folder(
        "assets",
        Some("[a]\nappend = \"!\"\n"),
        vec![folder("sub", None, vec![], vec![file("b", "bin", &[1, 2, 3])])],
        vec![file("a", "txt", b"hi")],
    )
}

#[test]
fn folder_encodes_to_records_manifest_and_hierarchy() {
    let assets = encode_asset_folder::<ExampleEncoder>(&example_folder()).unwrap();
    let table = decode_manifest(&assets.manifest).unwrap();
    assert_eq!(table.len(), 2);

    assert_eq!(assets.encoded_assets.len(), 1);
    let (root_name, root) = &assets.encoded_assets[0];
    assert_eq!(root_name, "assets");
    assert_eq!(root.assets.len(), 1);
    assert_eq!(root.assets[0].name, "a");
    assert_eq!(root.sub_hierarchies.len(), 1);
    let (sub_name, sub) = &root.sub_hierarchies[0];
    assert_eq!(sub_name, "sub");
    assert_eq!(sub.assets.len(), 1);
    assert_eq!(sub.assets[0].name, "b");
    assert_eq!(sub.sub_hierarchies.len(), 0);

    let mut manifest = WassetManifest::new();
    for (id, range) in &table {
        assert!(range.start <= range.end && range.end as usize <= assets.data.len());
        manifest.insert(WassetId::from_u128(*id), *range);
    }
    let parser = WassetParser::with_manifest(manifest, &assets.data);
    assert_eq!(parser.load(root.assets[0].id).unwrap(), Some(b"Thi!".to_vec()));
    assert_eq!(parser.load(sub.assets[0].id).unwrap(), Some(vec![b'B', 1, 2, 3]));
    assert!(root.assets[0].id != sub.assets[0].id);
    assert_eq!(assets.data.len(), 8);
}

#[test]
fn declined_files_are_skipped() {
    let tree = folder(
        "assets",
        None,
        vec![],
        vec![file("a", "txt", b"x"), file("notes", "md", b"skipped"), file("c", "", b"skipped")],
    );
    let assets = encode_asset_folder::<ExampleEncoder>(&tree).unwrap();
    assert_eq!(decode_manifest(&assets.manifest).unwrap().len(), 1);
    assert_eq!(assets.encoded_assets[0].1.assets.len(), 1);
    assert_eq!(assets.data, b"Tx".to_vec());
}

#[test]
fn empty_folder_encodes_to_empty_bundle() {
    let assets = encode_asset_folder::<ExampleEncoder>(&folder("empty", None, vec![], vec![])).unwrap();
    assert_eq!(assets.data.len(), 0);
    assert_eq!(decode_manifest(&assets.manifest).unwrap().len(), 0);
    assert_eq!(assets.encoded_assets[0].0, "empty");
    assert_eq!(assets.encoded_assets[0].1.assets.len(), 0);
}

#[test]
fn every_accepted_file_gets_its_own_id_and_entry() {
    let files = (0..20).map(|i| file(&format!("f{i}"), "bin", &[i as u8])).collect();
    let assets = encode_asset_folder::<ExampleEncoder>(&folder("many", None, vec![], files)).unwrap();
    let table = decode_manifest(&assets.manifest).unwrap();
    assert_eq!(table.len(), 20);
    let mut ids: Vec<u128> = assets.encoded_assets[0].1.assets.iter().map(|a| a.id.as_u128()).collect();
    ids.sort();
    ids.dedup();
    assert_eq!(ids.len(), 20);
    for (_, range) in &table {
        assert_eq!(range.end - range.start, 2);
        assert!(range.end as usize <= assets.data.len());
    }
}

#[test]
fn metadata_entry_that_is_no_table_aborts_the_encoding() {
    let tree = folder("assets", Some("a = 5\n"), vec![], vec![file("a", "txt", b"hi")]);
    let err = encode_asset_folder::<ExampleEncoder>(&tree).err().unwrap();
    match err {
        WassetError::Serialize(ErrorCause::MetadataNotTable { name }) => assert_eq!(name, "a"),
        other => panic!("unexpected error {other:?}"),
    }
}

#[test]
fn metadata_of_other_files_does_not_matter() {
    let tree = folder("assets", Some("other = 5\n"), vec![], vec![file("a", "txt", b"hi")]);
    let assets = encode_asset_folder::<ExampleEncoder>(&tree).unwrap();
    assert_eq!(assets.data, b"Thi".to_vec());
}

#[test]
fn malformed_metadata_file_aborts_the_encoding() {
    let tree = folder("assets", Some("[a\nappend ="), vec![], vec![]);
    let err = encode_asset_folder::<ExampleEncoder>(&tree).err().unwrap();
    assert!(matches!(err, WassetError::Serialize(ErrorCause::Metadata(_))));
}

#[test]
fn malformed_metadata_in_subfolder_aborts_the_encoding() {
    let tree = folder(
        "assets",
        None,
        vec![folder("sub", Some("= = ="), vec![], vec![])],
        vec![file("a", "txt", b"hi")],
    );
    let err = encode_asset_folder::<ExampleEncoder>(&tree).err().unwrap();
    assert!(matches!(err, WassetError::Serialize(ErrorCause::Metadata(_))));
}

#[test]
fn encoder_error_aborts_the_encoding() {
    let tree = folder("assets", Some("[a]\nappend = 3\n"), vec![], vec![file("a", "txt", b"hi")]);
    let err = encode_asset_folder::<ExampleEncoder>(&tree).err().unwrap();
    match err {
        WassetError::Serialize(ErrorCause::Message(text)) => {
            assert_eq!(text, "unexpected metadata value")
        }
        other => panic!("unexpected error {other:?}"),
    }
}

#[test]
fn folder_without_name_is_rejected() {
    let mut tree = example_folder();
    tree.name = None;
    let err = encode_asset_folder::<ExampleEncoder>(&tree).err().unwrap();
    assert!(matches!(err, WassetError::Serialize(ErrorCause::FolderName)));
    let mut tree = example_folder();
    tree.folders[0].name = None;
    let err = encode_asset_folder::<ExampleEncoder>(&tree).err().unwrap();
    assert!(matches!(err, WassetError::Serialize(ErrorCause::FolderName)));
}

#[test]
fn folders_of_one_name_share_a_subhierarchy() {
    let tree = folder(
        "assets",
        None,
        vec![
            folder("sub", None, vec![], vec![file("a", "bin", &[1])]),
            folder("other", None, vec![], vec![file("c", "bin", &[3])]),
            folder("sub", None, vec![], vec![file("b", "bin", &[2])]),
        ],
        vec![],
    );
    let assets = encode_asset_folder::<ExampleEncoder>(&tree).unwrap();
    let root = &assets.encoded_assets[0].1;
    assert_eq!(root.sub_hierarchies.len(), 2);
    let sub = root.sub_hierarchies.iter().find(|(name, _)| name == "sub").unwrap();
    let names: Vec<&str> = sub.1.assets.iter().map(|asset| asset.name.as_str()).collect();
    assert_eq!(names, vec!["a", "b"]);
}

#[test]
fn walk_appends_to_what_the_operation_holds() {
    let mut operation = EncodingOperation::new();
    let before = WassetId::from_u128(5);
    operation.append(before, b"old").unwrap();
    let mut hierarchy = AssetHierarchy::new();
    load_assets_in_folder::<ExampleEncoder>(&example_folder(), &mut operation, &mut hierarchy)
        .unwrap();
    let (data, manifest) = operation.finish().unwrap();
    assert_eq!(&data[..3], b"old");
    assert_eq!(data.len(), 11);
    let table = decode_manifest(&manifest).unwrap();
    assert_eq!(table.len(), 3);
    assert!(table.contains(&(5, ByteRange { start: 0, end: 3 })));
}

#[test]
fn append_records_the_range_of_the_record() {
    let mut operation = EncodingOperation::new();
    let first = operation.append(WassetId::from_u128(1), b"abc").unwrap();
    let second = operation.append(WassetId::from_u128(2), b"").unwrap();
    let third = operation.append(WassetId::from_u128(3), b"de").unwrap();
    assert_eq!(first, ByteRange { start: 0, end: 3 });
    assert_eq!(second, ByteRange { start: 3, end: 3 });
    assert_eq!(third, ByteRange { start: 3, end: 5 });
    let (data, manifest) = operation.finish().unwrap();
    assert_eq!(data, b"abcde".to_vec());
    let mut table = decode_manifest(&manifest).unwrap();
    table.sort_by_key(|entry| entry.0);
    assert_eq!(table, vec![(1, first), (2, second), (3, third)]);
}

#[test]
fn append_under_the_same_id_replaces_the_range() {
    let mut operation = EncodingOperation::new();
    operation.append(WassetId::from_u128(1), b"abc").unwrap();
    operation.append(WassetId::from_u128(1), b"de").unwrap();
    let (data, manifest) = operation.finish().unwrap();
    assert_eq!(data, b"abcde".to_vec());
    assert_eq!(decode_manifest(&manifest).unwrap(), vec![(1, ByteRange { start: 3, end: 5 })]);
}

#[test]
fn record_encoded_does_what_the_outcome_asks() {
    let mut operation = EncodingOperation::new();
    let mut hierarchy = AssetHierarchy::new();
    let id = WassetId::from_u128(9);
    record_encoded(&mut operation, &mut hierarchy, "skipped", id, Ok(None)).unwrap();
    assert_eq!(hierarchy.assets.len(), 0);
    let err = record_encoded(
        &mut operation,
        &mut hierarchy,
        "failed",
        id,
        Err(WassetError::from_serialize(ErrorCause::Message("no".to_string()))),
    )
    .err()
    .unwrap();
    assert!(matches!(err, WassetError::Serialize(ErrorCause::Message(_))));
    assert_eq!(hierarchy.assets.len(), 0);
    record_encoded(&mut operation, &mut hierarchy, "kept", id, Ok(Some(vec![1, 2]))).unwrap();
    assert_eq!(hierarchy.assets.len(), 1);
    assert_eq!(hierarchy.assets[0].name, "kept");
    assert_eq!(hierarchy.assets[0].id, id);
    let (data, manifest) = operation.finish().unwrap();
    assert_eq!(data, vec![1, 2]);
    assert_eq!(decode_manifest(&manifest).unwrap(), vec![(9, ByteRange { start: 0, end: 2 })]);
}

#[test]
fn file_metadata_is_the_table_under_the_name() {
    let master: toml::Table = "c = 2\n[a]\nappend = \"!\"\n[b]\nx = 1\n".parse().unwrap();
    let metadata = file_metadata(&master, "a").unwrap();
    assert_eq!(metadata.get("append"), Some(&toml::Value::String("!".to_string())));
    assert_eq!(metadata.len(), 1);
    assert_eq!(file_metadata(&master, "missing").unwrap().len(), 0);
    let err = file_metadata(&master, "c").err().unwrap();
    assert!(matches!(err, WassetError::Serialize(ErrorCause::MetadataNotTable { .. })));
}

#[test]
fn folder_metadata_is_empty_without_a_file() {
    assert_eq!(folder_metadata(&None).unwrap().len(), 0);
    assert_eq!(folder_metadata(&Some(String::new())).unwrap().len(), 0);
    let table = folder_metadata(&Some("[a]\n[b]\n".to_string())).unwrap();
    assert_eq!(table.len(), 2);
    let err = folder_metadata(&Some("a = ".to_string())).err().unwrap();
    assert!(matches!(err, WassetError::Serialize(ErrorCause::Metadata(_))));
}

#[test]
fn take_child_finds_the_subhierarchy_by_name() {
    let mut root = AssetHierarchy::new();
    let mut first = AssetHierarchy::new();
    first.assets.push(wasset::encode::EncodedAsset {
        name: "leaf".to_string(),
        id: WassetId::from_u128(1),
    });
    root.put_child("first".to_string(), first);
    root.put_child("second".to_string(), AssetHierarchy::new());
    let taken = root.take_child(&"first".to_string());
    assert_eq!(taken.assets.len(), 1);
    assert_eq!(root.sub_hierarchies.len(), 1);
    assert_eq!(root.sub_hierarchies[0].0, "second");
    let fresh = root.take_child(&"third".to_string());
    assert_eq!(fresh.assets.len(), 0);
    assert_eq!(root.sub_hierarchies.len(), 1);
}

/// Fails on every file, with an error of the other class.
struct FailingEncoder;

impl AssetEncoder for FailingEncoder {
    fn encode(
        _extension: &str,
        _metadata: &toml::Table,
        _data: Vec<u8>,
    ) -> Result<Option<Vec<u8>>, WassetError> {
        Err(WassetError::from_deserialize(ErrorCause::Message("encoder failed".to_string())))
    }
}

/// Declines every file.
struct DecliningEncoder;

impl AssetEncoder for DecliningEncoder {
    fn encode(
        _extension: &str,
        _metadata: &toml::Table,
        _data: Vec<u8>,
    ) -> Result<Option<Vec<u8>>, WassetError> {
        Ok(None)
    }
}

#[test]
fn unusable_metadata_is_reported_whatever_the_encoder_does() {
    // The first file would fail in the encoder; the metadata of the second
    // is no table.
    let tree = folder(
        "assets",
        Some("b = 5\n"),
        vec![],
        vec![file("a", "txt", b"hi"), file("b", "txt", b"ho")],
    );
    let err = encode_asset_folder::<FailingEncoder>(&tree).err().unwrap();
    assert!(matches!(err, WassetError::Serialize(ErrorCause::MetadataNotTable { .. })));
    let err = encode_asset_folder::<DecliningEncoder>(&tree).err().unwrap();
    assert!(matches!(err, WassetError::Serialize(ErrorCause::MetadataNotTable { .. })));

    // A metadata file deep in the tree that is no table, behind files that
    // the encoder fails on.
    let tree = folder(
        "assets",
        None,
        vec![folder("sub", None, vec![folder("deep", Some("= ="), vec![], vec![])], vec![])],
        vec![file("a", "txt", b"hi")],
    );
    let err = encode_asset_folder::<FailingEncoder>(&tree).err().unwrap();
    assert!(matches!(err, WassetError::Serialize(ErrorCause::Metadata(_))));

    let mut operation = EncodingOperation::new();
    let mut hierarchy = AssetHierarchy::new();
    let err = load_assets_in_folder::<FailingEncoder>(&tree, &mut operation, &mut hierarchy)
        .err()
        .unwrap();
    assert!(matches!(err, WassetError::Serialize(ErrorCause::Metadata(_))));
    assert_eq!(hierarchy.sub_hierarchies.len(), 0);
}

#[test]
fn metadata_entry_of_a_declined_file_must_be_a_table_too() {
    let tree = folder("assets", Some("a = 5"), vec![], vec![file("a", "", b"hi")]);
    let mut operation = EncodingOperation::new();
    let mut hierarchy = AssetHierarchy::new();
    let err = load_assets_in_folder::<DecliningEncoder>(&tree, &mut operation, &mut hierarchy)
        .err()
        .unwrap();
    assert!(matches!(err, WassetError::Serialize(ErrorCause::MetadataNotTable { .. })));
}

#[test]
fn encoder_failure_is_handed_on_as_it_is() {
    let tree = folder("assets", None, vec![], vec![file("a", "txt", b"hi")]);
    let err = encode_asset_folder::<FailingEncoder>(&tree).err().unwrap();
    match err {
        WassetError::Deserialize(ErrorCause::Message(text)) => assert_eq!(text, "encoder failed"),
        other => panic!("unexpected error {other:?}"),
    }
}

#[test]
fn folders_without_files_encode_to_an_empty_bundle() {
    let tree = folder(
        "assets",
        Some("[unused]\n"),
        vec![folder("sub", None, vec![folder("deep", None, vec![], vec![])], vec![])],
        vec![],
    );
    let assets = encode_asset_folder::<FailingEncoder>(&tree).unwrap();
    assert_eq!(assets.data.len(), 0);
    assert_eq!(assets.manifest, wasset::WassetManifest::new().to_bytes().unwrap());
    let root = &assets.encoded_assets[0].1;
    assert_eq!(root.assets.len(), 0);
    assert_eq!(root.sub_hierarchies.len(), 1);
    assert_eq!(root.sub_hierarchies[0].0, "sub");
    assert_eq!(root.sub_hierarchies[0].1.sub_hierarchies[0].0, "deep");
}

#[test]
fn check_metadata_accepts_tables_and_missing_entries() {
    let tree = folder(
        "assets",
        Some("[a]\nx = 1\n"),
        vec![folder("sub", Some(""), vec![], vec![file("c", "bin", b"")])],
        vec![file("a", "txt", b""), file("b", "txt", b"")],
    );
    assert!(check_metadata(&tree).is_ok());
    assert!(check_metadata(&folder("empty", None, vec![], vec![])).is_ok());
}

#[test]
fn check_metadata_rejects_what_cannot_be_used() {
    let not_a_table = folder("assets", Some("a = 1"), vec![], vec![file("a", "txt", b"")]);
    let err = check_metadata(&not_a_table).err().unwrap();
    match err {
        WassetError::Serialize(ErrorCause::MetadataNotTable { name }) => assert_eq!(name, "a"),
        other => panic!("unexpected error {other:?}"),
    }
    let malformed = folder("assets", Some("a ="), vec![], vec![]);
    let err = check_metadata(&malformed).err().unwrap();
    assert!(matches!(err, WassetError::Serialize(ErrorCause::Metadata(_))));
    let mut nameless = folder("assets", None, vec![folder("sub", None, vec![], vec![])], vec![]);
    nameless.folders[0].name = None;
    let err = check_metadata(&nameless).err().unwrap();
    assert!(matches!(err, WassetError::Serialize(ErrorCause::FolderName)));
    let inner = folder("assets", None, vec![not_a_table], vec![]);
    let err = check_metadata(&inner).err().unwrap();
    assert!(matches!(err, WassetError::Serialize(ErrorCause::MetadataNotTable { .. })));
}

fn leaves(hierarchy: &AssetHierarchy) -> Vec<WassetId> {
    let mut ids: Vec<WassetId> = hierarchy.assets.iter().map(|asset| asset.id).collect();
    for (_, child) in &hierarchy.sub_hierarchies {
        ids.extend(leaves(child));
    }
    ids
}

#[test]
fn leaves_of_the_hierarchy_are_the_ids_of_the_manifest() {
    let tree = folder(
        "assets",
        None,
        vec![
            folder("one", None, vec![], vec![file("a", "bin", &[1]), file("skipped", "md", &[])]),
            folder(
                "two",
                None,
                vec![folder("deep", None, vec![], vec![file("b", "txt", b"x")])],
                vec![file("c", "bin", &[2])],
            ),
        ],
        vec![file("d", "txt", b"y")],
    );
    let assets = encode_asset_folder::<ExampleEncoder>(&tree).unwrap();
    let root = &assets.encoded_assets[0].1;
    let mut ids: Vec<u128> = leaves(root).iter().map(|id| id.as_u128()).collect();
    ids.sort();
    let mut keys: Vec<u128> =
        decode_manifest(&assets.manifest).unwrap().iter().map(|entry| entry.0).collect();
    keys.sort();
    assert_eq!(ids.len(), 4);
    assert_eq!(ids, keys);
    let names: Vec<&str> = root.sub_hierarchies.iter().map(|(name, _)| name.as_str()).collect();
    assert_eq!(names, vec!["one", "two"]);
    assert_eq!(root.sub_hierarchies[1].1.sub_hierarchies[0].0, "deep");
    assert_eq!(root.sub_hierarchies[1].1.sub_hierarchies[0].1.assets[0].name, "b");
    assert_eq!(root.sub_hierarchies[1].1.assets[0].name, "c");
    assert_eq!(root.assets[0].name, "d");
}

#[test]
fn each_leaf_stands_where_its_folder_stands_and_loads_what_its_file_gave() {
    let tree = folder(
        "assets",
        None,
        vec![
            folder("one", None, vec![], vec![file("same", "bin", &[1]), file("skipped", "md", &[])]),
            folder(
                "two",
                None,
                vec![folder("deep", None, vec![], vec![file("same", "txt", b"x")])],
                vec![],
            ),
        ],
        vec![file("same", "bin", &[9, 9])],
    );
    let assets = encode_asset_folder::<ExampleEncoder>(&tree).unwrap();
    let mut manifest = WassetManifest::new();
    for (id, range) in decode_manifest(&assets.manifest).unwrap() {
        manifest.insert(WassetId::from_u128(id), range);
    }
    let parser = WassetParser::with_manifest(manifest, &assets.data);
    let root = &assets.encoded_assets[0].1;
    assert_eq!(root.assets.len(), 1);
    assert_eq!(root.assets[0].name, "same");
    assert_eq!(parser.load(root.assets[0].id).unwrap(), Some(vec![b'B', 9, 9]));
    let one = &root.sub_hierarchies[0].1;
    assert_eq!(one.assets.len(), 1);
    assert_eq!(one.assets[0].name, "same");
    assert_eq!(parser.load(one.assets[0].id).unwrap(), Some(vec![b'B', 1]));
    let two = &root.sub_hierarchies[1].1;
    assert_eq!(two.assets.len(), 0);
    let deep = &two.sub_hierarchies[0].1;
    assert_eq!(deep.assets.len(), 1);
    assert_eq!(deep.assets[0].name, "same");
    assert_eq!(parser.load(deep.assets[0].id).unwrap(), Some(b"Tx".to_vec()));
}

#[test]
fn many_files_give_as_many_entries_and_leaves() {
    let many: Vec<AssetFile> = (0..40u8).map(|n| file(&format!("f{n}"), "bin", &[n])).collect();
    let assets = encode_asset_folder::<ExampleEncoder>(&folder("assets", None, vec![], many)).unwrap();
    assert_eq!(decode_manifest(&assets.manifest).unwrap().len(), 40);
    assert_eq!(assets.data.len(), 80);
    assert_eq!(assets.encoded_assets[0].1.assets.len(), 40);
}
