//! The failures that the library reports.

use vstd::prelude::*;

verus! {

/// The broad class of a failure.
#[derive(Debug, Clone, Copy, PartialEq, Eq, Structural)]
pub enum ErrorKind {
    /// The request itself is unusable.
    Config,
    /// The bytes do not have the container layout.
    Format,
    /// The authentication tag does not verify.
    AuthenticationFailed,
    /// The plaintext does not start with the token of the key.
    SelfCheckFailed,
    /// The parts do not fit together.
    Reconstruction,
    /// A cryptographic primitive refused its input.
    Crypto,
}

/// Why an operation of the library failed.
#[derive(Debug, Clone, Copy, PartialEq, Eq, Structural)]
pub enum PipelineError {
    /// Neither a password nor a key file was given.
    MissingCredentials,
    /// Both a password and a key file were given.
    ConflictingCredentials,
    /// More parts were asked for than the container has bytes.
    TooManyParts,
    /// A share set of zero images was asked for.
    NoShares,
    /// No input was given.
    EmptyInput,
    /// A path has no file name to read a number from.
    InvalidFilename,
    /// Fewer bytes than a header has.
    TruncatedHeader,
    /// The first four bytes are not the magic constant.
    BadMagic,
    /// The header announces a payload shorter than the header itself.
    InvalidPayloadLength,
    /// The plaintext is too short to hold the self-check token.
    TruncatedPayload,
    /// The number of pixel bytes is not four times width times height.
    DimensionMismatch,
    /// A container was asked for in rows of zero pixels.
    ZeroWidth,
    /// The container image would be taller than a 32-bit height can say.
    ImageTooLarge,
    /// The authentication tag does not verify: wrong key or corrupted data.
    AuthenticationFailed,
    /// The plaintext does not start with the token of the key.
    SelfCheckFailed,
    /// No part was found.
    NoPartsFound,
    /// A part holds fewer bytes than its chunk needs.
    PartTooSmall,
    /// The chunks taken from the parts do not add up to the payload length.
    ReconstructionLengthMismatch,
    /// The share numbers are not exactly 1, 2, .., N.
    InvalidPartSequence,
    /// The shares do not all have the same width and height.
    InconsistentDimensions,
    /// The password hash could not be computed.
    KeyDerivationFailed,
    /// The cipher refused the plaintext.
    EncryptionFailed,
}

impl PipelineError {
    /// The class of this failure.
    pub open spec fn spec_kind(self) -> ErrorKind {
        match self {
            PipelineError::MissingCredentials => ErrorKind::Config,
            PipelineError::ConflictingCredentials => ErrorKind::Config,
            PipelineError::TooManyParts => ErrorKind::Config,
            PipelineError::NoShares => ErrorKind::Config,
            PipelineError::EmptyInput => ErrorKind::Config,
            PipelineError::InvalidFilename => ErrorKind::Config,
            PipelineError::TruncatedHeader => ErrorKind::Format,
            PipelineError::BadMagic => ErrorKind::Format,
            PipelineError::InvalidPayloadLength => ErrorKind::Format,
            PipelineError::TruncatedPayload => ErrorKind::Format,
            PipelineError::DimensionMismatch => ErrorKind::Format,
            PipelineError::ZeroWidth => ErrorKind::Format,
            PipelineError::ImageTooLarge => ErrorKind::Format,
            PipelineError::AuthenticationFailed => ErrorKind::AuthenticationFailed,
            PipelineError::SelfCheckFailed => ErrorKind::SelfCheckFailed,
            PipelineError::NoPartsFound => ErrorKind::Reconstruction,
            PipelineError::PartTooSmall => ErrorKind::Reconstruction,
            PipelineError::ReconstructionLengthMismatch => ErrorKind::Reconstruction,
            PipelineError::InvalidPartSequence => ErrorKind::Reconstruction,
            PipelineError::InconsistentDimensions => ErrorKind::Reconstruction,
            PipelineError::KeyDerivationFailed => ErrorKind::Crypto,
            PipelineError::EncryptionFailed => ErrorKind::Crypto,
        }
    }

    /// The class of this failure.
    #[verifier::when_used_as_spec(spec_kind)]
    pub fn kind(self) -> (k: ErrorKind)
        ensures
            k == self.spec_kind(),
    {
        match self {
            PipelineError::MissingCredentials => ErrorKind::Config,
            PipelineError::ConflictingCredentials => ErrorKind::Config,
            PipelineError::TooManyParts => ErrorKind::Config,
            PipelineError::NoShares => ErrorKind::Config,
            PipelineError::EmptyInput => ErrorKind::Config,
            PipelineError::InvalidFilename => ErrorKind::Config,
            PipelineError::TruncatedHeader => ErrorKind::Format,
            PipelineError::BadMagic => ErrorKind::Format,
            PipelineError::InvalidPayloadLength => ErrorKind::Format,
            PipelineError::TruncatedPayload => ErrorKind::Format,
            PipelineError::DimensionMismatch => ErrorKind::Format,
            PipelineError::ZeroWidth => ErrorKind::Format,
            PipelineError::ImageTooLarge => ErrorKind::Format,
            PipelineError::AuthenticationFailed => ErrorKind::AuthenticationFailed,
            PipelineError::SelfCheckFailed => ErrorKind::SelfCheckFailed,
            PipelineError::NoPartsFound => ErrorKind::Reconstruction,
            PipelineError::PartTooSmall => ErrorKind::Reconstruction,
            PipelineError::ReconstructionLengthMismatch => ErrorKind::Reconstruction,
            PipelineError::InvalidPartSequence => ErrorKind::Reconstruction,
            PipelineError::InconsistentDimensions => ErrorKind::Reconstruction,
            PipelineError::KeyDerivationFailed => ErrorKind::Crypto,
            PipelineError::EncryptionFailed => ErrorKind::Crypto,
        }
    }
    /// The one line that a user is shown for this failure. A failed tag and
    /// a failed self-check say the same of the cause, so that the message
    /// does not tell them apart.
    pub fn message(self) -> (text: &'static str)
        ensures
            text@ == self.spec_message(),
    {
        match self {
            PipelineError::MissingCredentials => "no password or password file provided",
            PipelineError::ConflictingCredentials => "both a password and a password file provided",
            PipelineError::TooManyParts => "more parts requested than the container has bytes",
            PipelineError::NoShares => "the number of shares must be at least one",
            PipelineError::EmptyInput => "no path provided",
            PipelineError::InvalidFilename => "invalid filename",
            PipelineError::TruncatedHeader => "input too small to contain a header",
            PipelineError::BadMagic => "invalid header magic",
            PipelineError::InvalidPayloadLength => "invalid payload length in header",
            PipelineError::TruncatedPayload => "decrypted data too small for the self-check token",
            PipelineError::DimensionMismatch => "data length does not match the image dimensions",
            PipelineError::ZeroWidth => "the image has no width",
            PipelineError::ImageTooLarge => "the container image would be too large",
            PipelineError::AuthenticationFailed => "decryption failed: wrong password or corrupted data",
            PipelineError::SelfCheckFailed => "decryption failed: wrong password or corrupted data",
            PipelineError::NoPartsFound => "no part images found",
            PipelineError::PartTooSmall => "a part image holds too little data",
            PipelineError::ReconstructionLengthMismatch => "failed to reconstruct the data from the parts",
            PipelineError::InvalidPartSequence => "missing or incorrect numbering of parts",
            PipelineError::InconsistentDimensions => "all part images must have the same size",
            PipelineError::KeyDerivationFailed => "key derivation failed",
            PipelineError::EncryptionFailed => "encryption failed",
        }
    }

    /// The one line that a user is shown for this failure.
    pub open spec fn spec_message(self) -> Seq<char> {
        match self {
            PipelineError::MissingCredentials => "no password or password file provided"@,
            PipelineError::ConflictingCredentials => "both a password and a password file provided"@,
            PipelineError::TooManyParts => "more parts requested than the container has bytes"@,
            PipelineError::NoShares => "the number of shares must be at least one"@,
            PipelineError::EmptyInput => "no path provided"@,
            PipelineError::InvalidFilename => "invalid filename"@,
            PipelineError::TruncatedHeader => "input too small to contain a header"@,
            PipelineError::BadMagic => "invalid header magic"@,
            PipelineError::InvalidPayloadLength => "invalid payload length in header"@,
            PipelineError::TruncatedPayload => "decrypted data too small for the self-check token"@,
            PipelineError::DimensionMismatch => "data length does not match the image dimensions"@,
            PipelineError::ZeroWidth => "the image has no width"@,
            PipelineError::ImageTooLarge => "the container image would be too large"@,
            PipelineError::AuthenticationFailed => "decryption failed: wrong password or corrupted data"@,
            PipelineError::SelfCheckFailed => "decryption failed: wrong password or corrupted data"@,
            PipelineError::NoPartsFound => "no part images found"@,
            PipelineError::PartTooSmall => "a part image holds too little data"@,
            PipelineError::ReconstructionLengthMismatch => "failed to reconstruct the data from the parts"@,
            PipelineError::InvalidPartSequence => "missing or incorrect numbering of parts"@,
            PipelineError::InconsistentDimensions => "all part images must have the same size"@,
            PipelineError::KeyDerivationFailed => "key derivation failed"@,
            PipelineError::EncryptionFailed => "encryption failed"@,
        }
    }
}

} // verus!
