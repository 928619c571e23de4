//! Error values of the engine.

use vstd::prelude::*;
use vstd::string::StringExecFns;
use crate::text::{decimal, push_decimal};

verus! {

/// Why a byte buffer could not be decoded as a layered picture file.
#[derive(Debug, Clone, Copy, PartialEq, Eq, Structural)]
pub enum LpfError {
    /// The buffer ends inside the fixed 26-byte header, and what is there
    /// of the tag and the version is in order.
    TooSmall,
    /// The first four bytes are not the tag `8BPS`.
    BadSignature,
    /// The version field is neither 1 (standard) nor 2 (large-file variant).
    UnsupportedVersion(u16),
    /// The bit depth is not 8.
    UnsupportedDepth(u16),
    /// A section or the image data reaches past the end of the buffer.
    Truncated,
    /// The compression field is neither 0 (raw) nor 1 (run-length encoded).
    UnsupportedCompression(u16),
    /// The header declares zero channels, so there is nothing to composite.
    NoChannels,
    /// The pixel buffer for the declared dimensions cannot be addressed.
    BufferConstruction,
}

/// Why an operation of the engine failed.
#[derive(Debug, Clone, Copy, PartialEq, Eq, Structural)]
pub enum EngineError {
    /// The layered picture file could not be decoded.
    Format(LpfError),
    /// The general raster decoder rejected the input.
    Decode,
    /// The dimensions do not go with the pixel count, or the pixel buffer
    /// for them cannot be allocated.
    BufferConstruction,
    /// The PNG or JPEG encoder failed.
    Encode,
    /// The payload of a data URL is not base64.
    Base64,
    /// The crop rectangle is empty or reaches outside the picture.
    InvalidCrop,
}

impl LpfError {
    /// The message of the error, for people.
    pub open spec fn message_text(self) -> Seq<char> {
        match self {
            LpfError::TooSmall => "LPF file too small"@,
            LpfError::BadSignature => "Not an LPF file"@,
            LpfError::UnsupportedVersion(v) => "Unsupported LPF version: "@ + decimal(v as nat),
            LpfError::UnsupportedDepth(d) => "Unsupported LPF bit depth: "@ + decimal(d as nat),
            LpfError::Truncated => "LPF data truncated"@,
            LpfError::UnsupportedCompression(c) => "Unsupported LPF compression: "@ + decimal(
                c as nat,
            ),
            LpfError::NoChannels => "LPF file has no channels"@,
            LpfError::BufferConstruction => "Failed to create image buffer"@,
        }
    }

    /// The message of the error, for people.
    pub fn message(&self) -> (text: String)
        ensures
            text@ == self.message_text(),
    {
        match *self {
            LpfError::TooSmall => String::from_str("LPF file too small"),
            LpfError::BadSignature => String::from_str("Not an LPF file"),
            LpfError::UnsupportedVersion(v) => {
                let mut text = String::from_str("Unsupported LPF version: ");
                push_decimal(&mut text, v as u64);
                text
            },
            LpfError::UnsupportedDepth(d) => {
                let mut text = String::from_str("Unsupported LPF bit depth: ");
                push_decimal(&mut text, d as u64);
                text
            },
            LpfError::Truncated => String::from_str("LPF data truncated"),
            LpfError::UnsupportedCompression(c) => {
                let mut text = String::from_str("Unsupported LPF compression: ");
                push_decimal(&mut text, c as u64);
                text
            },
            LpfError::NoChannels => String::from_str("LPF file has no channels"),
            LpfError::BufferConstruction => String::from_str("Failed to create image buffer"),
        }
    }
}

impl EngineError {
    /// The message of the error, for people.
    pub open spec fn message_text(self) -> Seq<char> {
        match self {
            EngineError::Format(e) => e.message_text(),
            EngineError::Decode => "Failed to decode image"@,
            EngineError::BufferConstruction => "Failed to create image buffer"@,
            EngineError::Encode => "Failed to encode image"@,
            EngineError::Base64 => "Failed to decode base64"@,
            EngineError::InvalidCrop => "Invalid crop bounds"@,
        }
    }

    /// The message of the error, for people.
    pub fn message(&self) -> (text: String)
        ensures
            text@ == self.message_text(),
    {
        match *self {
            EngineError::Format(e) => e.message(),
            EngineError::Decode => String::from_str("Failed to decode image"),
            EngineError::BufferConstruction => String::from_str("Failed to create image buffer"),
            EngineError::Encode => String::from_str("Failed to encode image"),
            EngineError::Base64 => String::from_str("Failed to decode base64"),
            EngineError::InvalidCrop => String::from_str("Invalid crop bounds"),
        }
    }
}

} // verus!
