use vstd::prelude::*;

verus! {

/// Error type for every decode, encode, render and fix operation.
///
/// Magic tags and section names are carried as the 4 raw ASCII bytes they
/// have in the file.
#[derive(Debug, Clone)]
pub enum Error {
    /// The container's magic tag does not belong to the format asked for.
    WrongFileKind { file: String, expected: Vec<u8>, got: Vec<u8> },
    /// The byte-order mark is neither `FF FE` nor `FE FF`.
    InvalidBOM { file: String },
    /// A read would run past the end of the supplied buffer.
    TruncatedData { file: String },
    /// A section the format cannot do without is absent.
    MissingRequiredSection { file: String, s_name: Vec<u8> },
    /// A section tag this format does not recognize.
    UnknownSection { file: String, s_name: Vec<u8> },
    /// Structurally parseable data that breaks a format invariant.
    MalformedData { file: String },
    /// The color-depth selector holds a value other than the two known ones.
    UnknownColorFormat { file: String, got: u32 },
    /// A recognized but unsupported sub-format, such as rotation/scaling
    /// object attributes.
    UnimplementedFeature,
    /// An object shape/size pair outside the defined combinations.
    InvalidObjectShape { shape: u8, size: u8 },
    /// The image holds more distinct colors than the bit depth allows.
    TooManyColors,
    /// An image dimension is not a multiple of the 8-pixel tile size.
    BadImageDimensions { width: usize, height: usize },
}

impl Error {
    /// True of exactly the structural parse errors of the container layer.
    pub open spec fn is_structural(self) -> bool {
        match self {
            Error::WrongFileKind { .. } => true,
            Error::InvalidBOM { .. } => true,
            Error::TruncatedData { .. } => true,
            Error::MissingRequiredSection { .. } => true,
            Error::UnknownSection { .. } => true,
            _ => false,
        }
    }
}

} // verus!
