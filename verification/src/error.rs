//! The errors of the library and their classes.

use vstd::prelude::*;

verus! {

/// Why a parse, a compilation or an application was given up. Every
/// operation ends with its value or with exactly one of these.
#[derive(Debug, Clone, PartialEq, Eq)]
pub enum Error {
    /// The rules text is not in the section format.
    InvalidRules,
    /// The rules have preset sections but no `default` section.
    MissingDefaults,
    /// A preset section has no `category` key.
    MissingCategory,
    /// A preset section has a `category` key without a value.
    EmptyCategory,
    /// A preset section has no `name` key.
    MissingName,
    /// A preset section has a `name` key without a value.
    EmptyName,
    /// A variable has no value.
    MissingValue,
    /// A variable's value is neither a numeric literal nor an expression
    /// with a finite result.
    InvalidExpression,
    /// No file of the directory has a name that begins with `patch`.
    NoPatchFile,
    /// The template holds a code cave directive.
    UnsupportedFeature,
    /// The template text is not in the section format.
    InvalidTemplate,
    /// The regex engine refused a pattern of the library.
    PatternRefused,
    /// No section of the template is for the expected module.
    ModuleMismatch,
    /// An address key is not a hexadecimal address of 32 bits.
    BadAddress,
    /// The assembler rejected the instruction for `address`.
    AssemblyFailed { address: u32, message: String },
    /// The assembler gave fewer than four bytes for `address`.
    ShortEncoding { address: u32 },
    /// The legacy patch list is truncated, or a record of it is not a
    /// four-byte patch at an address of the legacy base.
    MalformedRecord,
    /// The patch list cannot be written in the legacy format.
    Unencodable,
    /// The patch at `index` of the list does not lie within the image.
    OutOfBounds { index: usize },
    /// The source image does not exist.
    SourceMissing,
    /// A file could not be read or written, or the codec not be started.
    Io,
    /// The codec wrote `message` to its error stream.
    ExternalTool { message: String },
}

/// The classes of errors.
#[derive(Debug, Clone, Copy, PartialEq, Eq, Structural)]
pub enum ErrorClass {
    Config,
    Assembly,
    Address,
    UnsupportedFeature,
    Io,
    ExternalTool,
}

impl Error {
    /// The class of the error.
    pub open spec fn class_of(self) -> ErrorClass {
        match self {
            Error::AssemblyFailed { .. } | Error::ShortEncoding { .. } => ErrorClass::Assembly,
            Error::BadAddress | Error::OutOfBounds { .. } => ErrorClass::Address,
            Error::UnsupportedFeature => ErrorClass::UnsupportedFeature,
            Error::SourceMissing | Error::Io => ErrorClass::Io,
            Error::ExternalTool { .. } => ErrorClass::ExternalTool,
            _ => ErrorClass::Config,
        }
    }

    /// The class of the error.
    pub fn class(&self) -> (c: ErrorClass)
        ensures
            c == self.class_of(),
    {
        match self {
            Error::AssemblyFailed { .. } | Error::ShortEncoding { .. } => ErrorClass::Assembly,
            Error::BadAddress | Error::OutOfBounds { .. } => ErrorClass::Address,
            Error::UnsupportedFeature => ErrorClass::UnsupportedFeature,
            Error::SourceMissing | Error::Io => ErrorClass::Io,
            Error::ExternalTool { .. } => ErrorClass::ExternalTool,
            _ => ErrorClass::Config,
        }
    }
}

} // verus!
