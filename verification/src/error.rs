//! The errors that the library reports, and the kind each belongs to.

use vstd::prelude::*;

verus! {

/// The broad families of failure.
#[derive(Debug, Clone, Copy, PartialEq, Eq, Structural)]
pub enum ErrorKind {
    /// Bad arguments.
    Input,
    /// A file that cannot be read or written, or an unsupported extension.
    Io,
    /// No suitable adapter, or the device could not be created.
    Device,
    /// An allocation beyond the limits.
    Resource,
    /// An asynchronous buffer map that was rejected.
    BufferMap,
    /// A state that cannot occur while the device behaves.
    InternalInvariant,
}

/// Everything that can go wrong.
#[derive(Debug, Clone, Copy, PartialEq, Eq, Structural)]
pub enum Error {
    /// The colour count is no integer, or is below 1.
    InvalidColorCount,
    /// The colour count is no integer, or is below 2, where colours are mixed.
    InvalidMixColorCount,
    /// A palette without colours.
    EmptyPalette,
    /// The palette is neither a list of `#RRGGBB` colours nor an image file.
    InvalidPalette,
    /// The text is no list of `#RRGGBB` colours.
    IllFormedColors,
    /// A palette image with more than 512 pixels.
    TooManyPaletteColors,
    /// A palette image in which a colour occurs twice.
    RecurringPaletteColors,
    /// The colour space has no such name.
    UnsupportedColorSpace,
    /// The squares that show a palette are less than 1 or more than 60 pixels wide.
    InvalidTileSize,
    /// The file is neither a png nor a jpg file.
    UnsupportedFile,
    /// The extension is neither `png` nor `jpg`.
    UnsupportedExtension,
    /// A shader includes a file that is not there.
    MissingInclude,
    /// A shader includes a file that was included before.
    IncludeRecursion,
    /// The inclusions handed in are not those that the source asks for.
    InclusionMismatch,
    /// No adapter answers.
    BackendUnavailable,
    /// The adapter gave no device.
    DeviceRequestFailed,
    /// The image has more pixels, or wider rows, than the buffers can address.
    ImageTooLarge,
    /// The pixel data does not fit the dimensions.
    PixelCountMismatch,
    /// The buffer could not be mapped for reading.
    MapFailed,
    /// Bytes read back from the device do not have the layout they were written with.
    LayoutMismatch,
}

impl Error {
    /// The family of this error.
    pub open spec fn spec_kind(self) -> ErrorKind {
        match self {
            Error::InvalidColorCount
            | Error::InvalidMixColorCount
            | Error::EmptyPalette
            | Error::InvalidPalette
            | Error::IllFormedColors
            | Error::TooManyPaletteColors
            | Error::RecurringPaletteColors
            | Error::UnsupportedColorSpace
            | Error::InvalidTileSize => ErrorKind::Input,
            Error::UnsupportedFile
            | Error::UnsupportedExtension
            | Error::MissingInclude
            | Error::IncludeRecursion => ErrorKind::Io,
            Error::BackendUnavailable | Error::DeviceRequestFailed => ErrorKind::Device,
            Error::ImageTooLarge | Error::PixelCountMismatch => ErrorKind::Resource,
            Error::MapFailed => ErrorKind::BufferMap,
            Error::LayoutMismatch | Error::InclusionMismatch => ErrorKind::InternalInvariant,
        }
    }

    /// The family of this error.
    pub fn kind(&self) -> (kind: ErrorKind)
        ensures
            kind == self.spec_kind(),
    {
        match self {
            Error::InvalidColorCount
            | Error::InvalidMixColorCount
            | Error::EmptyPalette
            | Error::InvalidPalette
            | Error::IllFormedColors
            | Error::TooManyPaletteColors
            | Error::RecurringPaletteColors
            | Error::UnsupportedColorSpace
            | Error::InvalidTileSize => ErrorKind::Input,
            Error::UnsupportedFile
            | Error::UnsupportedExtension
            | Error::MissingInclude
            | Error::IncludeRecursion => ErrorKind::Io,
            Error::BackendUnavailable | Error::DeviceRequestFailed => ErrorKind::Device,
            Error::ImageTooLarge | Error::PixelCountMismatch => ErrorKind::Resource,
            Error::MapFailed => ErrorKind::BufferMap,
            Error::LayoutMismatch | Error::InclusionMismatch => ErrorKind::InternalInvariant,
        }
    }
}

} // verus!
