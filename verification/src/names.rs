//! The names of the custom sections that hold the assets of an embedding.

use uuid::Uuid;
use vstd::prelude::*;

verus! {

/// The custom section name prefix for serialized manifests.
pub const ASSET_MANIFEST_SECTION_PREFIX: &'static str = "__wasset_manifest:";

/// The custom section name prefix for serialized asset data.
pub const ASSET_DATA_SECTION_PREFIX: &'static str = "__wasset_data:";

/// The section named `name` holds the manifest or the data of an embedding.
pub open spec fn is_asset_section(name: Seq<char>) -> bool {
    ASSET_MANIFEST_SECTION_PREFIX@.is_prefix_of(name) || ASSET_DATA_SECTION_PREFIX@.is_prefix_of(
        name,
    )
}

/// The UUID that `Uuid::try_parse` reads from `text`, as a 128-bit value, or
/// `None` where it reads none.
pub uninterp spec fn parsed_uuid(text: Seq<char>) -> Option<u128>;

/// The text that `Uuid`'s `Display` writes for the UUID with the value
/// `value`: its hyphenated form in lower case.
pub uninterp spec fn hyphenated(value: u128) -> Seq<char>;

/// `Uuid`'s `Display` for the UUID of the value `value` (`Uuid::from_u128`):
/// its hyphenated form, which `Uuid::try_parse` reads back as the same
/// UUID.
#[verifier::external_body]
pub(crate) fn uuid_text(value: u128) -> (text: String)
    ensures
        text@ == hyphenated(value),
        parsed_uuid(text@) == Some(value),
{
    Uuid::from_u128(value).to_string()
}

/// `str::strip_prefix`: what follows `prefix` in `text`, or `None` where
/// `text` does not start with `prefix`.
#[verifier::external_body]
pub(crate) fn strip_prefix<'a>(text: &'a str, prefix: &str) -> (rest: Option<&'a str>)
    ensures
        match rest {
            Some(rest) => text@ == prefix@ + rest@,
            None => !prefix@.is_prefix_of(text@),
        },
{
    text.strip_prefix(prefix)
}

/// `Uuid::try_parse`, the UUID taken as a 128-bit value (`Uuid::as_u128`).
#[verifier::external_body]
pub(crate) fn parse_uuid(text: &str) -> (r: Result<u128, uuid::Error>)
    ensures
        match r {
            Ok(value) => parsed_uuid(text@) == Some(value),
            Err(_) => parsed_uuid(text@) is None,
        },
{
    Uuid::try_parse(text).map(|id| id.as_u128())
}

/// Tells whether the section named `name` holds the manifest or the data of
/// an embedding.
pub fn is_asset_section_name(name: &str) -> (b: bool)
    ensures
        b == is_asset_section(name@),
{
    match strip_prefix(name, ASSET_MANIFEST_SECTION_PREFIX) {
        Some(_) => true,
        None => strip_prefix(name, ASSET_DATA_SECTION_PREFIX).is_some(),
    }
}

/// The name of the custom section that holds the manifest of the
/// embedding `embedding`.
pub fn manifest_section_name(embedding: u128) -> (name: String)
    ensures
        name@ == ASSET_MANIFEST_SECTION_PREFIX@ + hyphenated(embedding),
        parsed_uuid(hyphenated(embedding)) == Some(embedding),
{
    let text = uuid_text(embedding);
    ASSET_MANIFEST_SECTION_PREFIX.to_owned().concat(text.as_str())
}

/// The name of the custom section that holds the data of the embedding
/// `embedding`.
pub fn data_section_name(embedding: u128) -> (name: String)
    ensures
        name@ == ASSET_DATA_SECTION_PREFIX@ + hyphenated(embedding),
        parsed_uuid(hyphenated(embedding)) == Some(embedding),
{
    let text = uuid_text(embedding);
    ASSET_DATA_SECTION_PREFIX.to_owned().concat(text.as_str())
}

/// No name that starts with the data prefix starts with the manifest
/// prefix.
pub proof fn lemma_prefixes_differ(rest: Seq<char>)
    ensures
        !ASSET_MANIFEST_SECTION_PREFIX@.is_prefix_of(ASSET_DATA_SECTION_PREFIX@ + rest),
{
    reveal_strlit("__wasset_manifest:");
    reveal_strlit("__wasset_data:");
    let name = ASSET_DATA_SECTION_PREFIX@ + rest;
    if ASSET_MANIFEST_SECTION_PREFIX@.is_prefix_of(name) {
        assert(name.subrange(0, ASSET_MANIFEST_SECTION_PREFIX@.len() as int)[9]
            == ASSET_MANIFEST_SECTION_PREFIX@[9]);
    }
}

} // verus!
