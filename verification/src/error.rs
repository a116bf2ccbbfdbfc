//! The two classes of failure, and what caused each.

use vstd::prelude::*;

verus! {

#[verifier::external_type_specification]
#[verifier::external_body]
pub struct ExModuleError(wasmparser::Error);

#[verifier::external_type_specification]
#[verifier::external_body]
pub struct ExUuidError(uuid::Error);

#[verifier::external_type_specification]
#[verifier::external_body]
pub struct ExDecodeError(rmp_serde::decode::Error);

#[verifier::external_type_specification]
#[verifier::external_body]
pub struct ExEncodeError(rmp_serde::encode::Error);

#[verifier::external_type_specification]
#[verifier::external_body]
pub struct ExMetadataError(toml::de::Error);

/// Why an operation failed.
#[derive(Debug)]
pub enum ErrorCause {
    /// A failure described in words, as an asset encoder or a caller reports it.
    Message(String),
    /// The module binary is malformed or truncated.
    Module(wasmparser::Error),
    /// A section of a module refers to bytes that the module does not hold.
    SectionOutOfRange,
    /// An asset section is named after something that is not a UUID.
    SectionName(uuid::Error),
    /// An offset or a length does not fit in 32 bits.
    TooLarge,
    /// The embedding has a manifest section but no data section, or a data
    /// section but no manifest section.
    IncompleteEmbedding { embedding: u128 },
    /// The bytes of a manifest are not a manifest.
    ManifestDecode(rmp_serde::decode::Error),
    /// The bytes of a manifest hold no table of asset ranges.
    ManifestField,
    /// A manifest range does not lie within the buffer that it addresses.
    RangeOutOfBounds,
    /// A manifest or a record could not be serialized.
    Encode(rmp_serde::encode::Error),
    /// A folder has no name.
    FolderName,
    /// The metadata file of a folder is not a table.
    Metadata(toml::de::Error),
    /// The metadata of the named file is present but is not a table.
    MetadataNotTable { name: String },
}

/// An error that occurred during asset processing.
#[derive(Debug)]
pub enum WassetError {
    /// An error was raised while writing assets.
    Serialize(ErrorCause),
    /// An error was raised while reading assets.
    Deserialize(ErrorCause),
}

impl WassetError {
    /// Creates a new `Self::Deserialize` error with the given cause.
    pub fn from_deserialize(cause: ErrorCause) -> (err: Self)
        ensures
            err == WassetError::Deserialize(cause),
    {
        WassetError::Deserialize(cause)
    }

    /// Creates a new `Self::Serialize` error with the given cause.
    pub fn from_serialize(cause: ErrorCause) -> (err: Self)
        ensures
            err == WassetError::Serialize(cause),
    {
        WassetError::Serialize(cause)
    }

    /// The cause of the error, whichever class it belongs to.
    pub open spec fn cause(self) -> ErrorCause {
        match self {
            WassetError::Serialize(cause) => cause,
            WassetError::Deserialize(cause) => cause,
        }
    }
}

} // verus!
