use std::borrow::Borrow;
use wasset::error::{ErrorCause, WassetError};
use wasset::manifest::{ByteRange, WassetManifest};
use wasset::merge::decode_manifest;
use wasset::id::{RANDOM_VERSION_AND_VARIANT, VERSION_AND_VARIANT_BITS};
use wasset::WassetId;

const BYTES: [u8; 16] = [
    0x93, 0x6d, 0xa0, 0x1f, 0x9a, 0xbd, 0x4d, 0x9d, 0x80, 0xc7, 0x02, 0xaf, 0x85, 0xc8, 0x22, 0xa8,
];
const VALUE: u128 = 0x936da01f_9abd_4d9d_80c7_02af85c822a8;

#[test]
fn id_from_bytes_is_big_endian() {
    assert_eq!(WassetId::from_bytes(BYTES).as_u128(), VALUE);
    assert_eq!(WassetId::from_u128(VALUE).as_bytes(), &BYTES);
    let mut low = [0u8; 16];
    low[15] = 1;
    assert_eq!(WassetId::from_bytes(low).as_u128(), 1);
    let mut high = [0u8; 16];
    high[0] = 1;
    assert_eq!(WassetId::from_bytes(high).as_u128(), 1u128 << 120);
    assert_eq!(WassetId::from_bytes([0xff; 16]).as_u128(), u128::MAX);
}

#[test]
fn ids_compare_by_value() {
    assert_eq!(WassetId::from_bytes(BYTES), WassetId::from_u128(VALUE));
    assert!(WassetId::from_u128(1) != WassetId::from_u128(2));
    assert!(WassetId::from_u128(1) < WassetId::from_u128(2));
}

#[test]
fn generated_ids_are_random_uuids() {
    let first = WassetId::generate();
    let second = WassetId::generate();
    assert!(first != second);
    // The version and the variant of a random UUID.
    assert_eq!(first.as_bytes()[6] >> 4, 4);
    assert_eq!(first.as_bytes()[8] >> 6, 2);
}

#[test]
fn manifest_gets_what_was_inserted() {
    let mut manifest = WassetManifest::new();
    assert_eq!(manifest.get(WassetId::from_u128(1)), None);
    manifest.insert(WassetId::from_u128(1), ByteRange { start: 1, end: 2 });
    manifest.insert(WassetId::from_u128(2), ByteRange { start: 2, end: 5 });
    manifest.insert(WassetId::from_u128(1), ByteRange { start: 7, end: 9 });
    assert_eq!(manifest.get(WassetId::from_u128(1)), Some(ByteRange { start: 7, end: 9 }));
    assert_eq!(manifest.get(WassetId::from_u128(2)), Some(ByteRange { start: 2, end: 5 }));
    assert_eq!(manifest.get(WassetId::from_u128(3)), None);
    let mut ids = manifest.ids();
    ids.sort();
    assert_eq!(ids, vec![WassetId::from_u128(1), WassetId::from_u128(2)]);
    let mut entries = manifest.entries();
    entries.sort_by_key(|entry| entry.0);
    assert_eq!(
        entries,
        vec![(1, ByteRange { start: 7, end: 9 }), (2, ByteRange { start: 2, end: 5 })]
    );
    assert_eq!(WassetManifest::default().ids().len(), 0);
}

/// The manifest with the one entry `VALUE -> 3..300`, as MessagePack: a map
/// with the field `asset_ranges`, which holds a map from the sixteen bytes
/// of the ID to a map with the fields `start` and `end`.
fn wire() -> Vec<u8> {
    let mut wire = vec![0x81, 0xac];
    wire.extend_from_slice(b"asset_ranges");
    wire.extend_from_slice(&[0x81, 0xc4, 0x10]);
    wire.extend_from_slice(&BYTES);
    wire.extend_from_slice(&[0x82, 0xa5]);
    wire.extend_from_slice(b"start");
    wire.extend_from_slice(&[0x03, 0xa3]);
    wire.extend_from_slice(b"end");
    wire.extend_from_slice(&[0xcd, 0x01, 0x2c]);
    wire
}

#[test]
fn manifest_is_written_with_field_names() {
    let mut manifest = WassetManifest::new();
    manifest.insert(WassetId::from_u128(VALUE), ByteRange { start: 3, end: 300 });
    assert_eq!(manifest.to_bytes().unwrap(), wire());
}

#[test]
fn manifest_is_read_by_field_names() {
    assert_eq!(decode_manifest(&wire()).unwrap(), vec![(VALUE, ByteRange { start: 3, end: 300 })]);
}

#[test]
fn empty_manifest_round_trips() {
    let bytes = WassetManifest::new().to_bytes().unwrap();
    let mut expected = vec![0x81, 0xac];
    expected.extend_from_slice(b"asset_ranges");
    expected.push(0x80);
    assert_eq!(bytes, expected);
    assert_eq!(decode_manifest(&bytes).unwrap(), vec![]);
}

#[test]
fn manifest_of_many_entries_round_trips() {
    let mut manifest = WassetManifest::new();
    for i in 0..1000u32 {
        manifest.insert(
            WassetId::from_u128((i as u128) << 64 | 7),
            ByteRange { start: i * 70000, end: i * 70000 + i },
        );
    }
    let table = decode_manifest(&manifest.to_bytes().unwrap()).unwrap();
    assert_eq!(table.len(), 1000);
    for (id, range) in table {
        assert_eq!(manifest.get(WassetId::from_u128(id)), Some(range));
    }
}

#[test]
fn manifest_without_its_field_is_rejected() {
    // A map with the one field `other`.
    let mut wire = vec![0x81, 0xa5];
    wire.extend_from_slice(b"other");
    wire.push(0x80);
    let err = decode_manifest(&wire).err().unwrap();
    assert!(matches!(err, WassetError::Deserialize(ErrorCause::ManifestField)));
    let err = decode_manifest(&[0x80]).err().unwrap();
    assert!(matches!(err, WassetError::Deserialize(ErrorCause::ManifestField)));
}

#[test]
fn bytes_that_are_no_manifest_are_rejected() {
    for bytes in [&b""[..], &b"\x01"[..], &b"\x81\xac"[..], &b"\x81\xacasset_ranges\x81\xc4\x02ab\x80"[..]] {
        let err = decode_manifest(bytes).err().unwrap();
        assert!(matches!(err, WassetError::Deserialize(ErrorCause::ManifestDecode(_))));
    }
}

#[test]
fn errors_keep_their_class() {
    let err = WassetError::from_serialize(ErrorCause::TooLarge);
    assert!(matches!(err, WassetError::Serialize(ErrorCause::TooLarge)));
    let err = WassetError::from_deserialize(ErrorCause::Message("broken".to_string()));
    match err {
        WassetError::Deserialize(ErrorCause::Message(text)) => assert_eq!(text, "broken"),
        other => panic!("unexpected error {other:?}"),
    }
}

#[test]
fn every_generated_id_has_the_version_and_variant_of_a_random_uuid() {
    assert_eq!(VERSION_AND_VARIANT_BITS, 0xf000_c000_0000_0000_0000);
    assert_eq!(RANDOM_VERSION_AND_VARIANT, 0x4000_8000_0000_0000_0000);
    let mut seen = Vec::new();
    for _ in 0..200 {
        let id = WassetId::generate();
        assert_eq!(id.as_u128() & VERSION_AND_VARIANT_BITS, RANDOM_VERSION_AND_VARIANT);
        let text = uuid::Uuid::from_u128(id.as_u128()).to_string();
        assert_eq!(&text[14..15], "4");
        assert!(matches!(&text[19..20], "8" | "9" | "a" | "b"));
        seen.push(id);
    }
    seen.sort();
    seen.dedup();
    assert_eq!(seen.len(), 200);
}

#[test]
fn ids_convert_to_and_from_uuids() {
    let uuid = uuid::Uuid::from_bytes(BYTES);
    let id = WassetId::from(uuid);
    assert_eq!(id.as_u128(), VALUE);
    assert_eq!(uuid::Uuid::from(id), uuid);
    let back: uuid::Uuid = WassetId::from_u128(1).into();
    assert_eq!(back.as_u128(), 1);
}

#[test]
fn ids_lend_their_bytes() {
    let id = WassetId::from_u128(VALUE);
    let bytes: &[u8; 16] = id.borrow();
    assert_eq!(bytes, &BYTES);
    assert_eq!(bytes, id.as_bytes());
    let mut ids = vec![WassetId::from_u128(u128::MAX), WassetId::from_u128(256), WassetId::from_u128(255)];
    ids.sort();
    let values: Vec<u128> = ids.iter().map(|id| id.as_u128()).collect();
    assert_eq!(values, vec![255, 256, u128::MAX]);
}
