use vstd::prelude::*;

verus! {

/// Everything that can go wrong while planning, encoding or reconstructing a
/// document.
#[derive(Clone, Copy, Debug, PartialEq, Eq, Structural)]
pub enum CodecError {
    /// No symbol configuration satisfies the layout constraints.
    Planning,
    /// A chunk header buffer is malformed or too short.
    Format,
    /// The erasure coder rejects the shard parameters.
    EncodingConfig,
    /// No metadata chunk was recovered.
    MissingMetadata,
    /// Metadata chunks differ, or a chunk carries a foreign document identifier.
    InconsistentMetadata,
    /// The same shard index was decoded with differing bytes.
    DuplicateConflict,
    /// Too few distinct shards are available to reconstruct the data.
    InsufficientData,
    /// The reconstructed content disagrees with the recorded document hash.
    ChecksumMismatch,
}

impl CodecError {
    /// A short human-readable description of the failure.
    pub fn message(&self) -> &'static str {
        match self {
            CodecError::Planning => "could not find a symbol configuration that holds enough data; try lowering row-count",
            CodecError::Format => "chunk header is malformed or too short",
            CodecError::EncodingConfig => "erasure coder rejected the shard parameters",
            CodecError::MissingMetadata => "could not locate any metadata chunks",
            CodecError::InconsistentMetadata => "metadata or document identifier mismatch",
            CodecError::DuplicateConflict => "the same shard index was decoded with differing bytes",
            CodecError::InsufficientData => "not enough distinct shards to reconstruct the data",
            CodecError::ChecksumMismatch => "checksum mismatch in the reconstructed data",
        }
    }
}

} // verus!
