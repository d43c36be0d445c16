//! Why decoding can fail.
use crate::chunk::ChunkType;
use crate::types::ColorType;
use vstd::prelude::*;
use vstd::string::StringExecFns;

verus! {

/// A failure to read from a source.
#[derive(Clone, Copy, Debug, PartialEq, Eq, Structural)]
pub enum ReadError {
    /// The source ended before all that was asked for had been read.
    UnexpectedEof,
}

/// What a well-formed file may ask for and this decoder does not do.
#[derive(Clone, Copy, Debug, PartialEq, Eq, Structural)]
pub enum Unsupported {
    /// A transparent color for an image of this color type.
    Transparency(ColorType),
    /// Expanding an indexed image that has no palette.
    MissingPalette,
    /// Expanding a palette index that lies beyond the palette.
    PaletteIndex(u8),
    /// Expanding samples of this bit depth.
    SampleDepth(u8),
    /// Expanding gray samples with a transparent sample that is too short.
    TransparencyLength,
    /// A row that is longer than the address space.
    RowLength,
}

/// Why decoding failed.
#[derive(Debug)]
pub enum DecodingError {
    IoError(ReadError),
    Format(String),
    InvalidSignature,
    CrcMismatch {
        /// bytes to skip to try to recover from this error
        recover: usize,
        /// Stored CRC32 value
        crc_val: u32,
        /// Calculated CRC32 sum
        crc_sum: u32,
        chunk: ChunkType,
    },
    CorruptFlateStream,
    Unsupported(Unsupported),
}

/// The mathematical content of a [`DecodingError`].
#[verifier::ext_equal]
pub enum ErrorModel {
    IoError(ReadError),
    Format(Seq<char>),
    InvalidSignature,
    CrcMismatch { recover: nat, crc_val: u32, crc_sum: u32, chunk: Seq<u8> },
    CorruptFlateStream,
    Unsupported(Unsupported),
}

impl View for DecodingError {
    type V = ErrorModel;

    open spec fn view(&self) -> ErrorModel {
        match *self {
            DecodingError::IoError(error) => ErrorModel::IoError(error),
            DecodingError::Format(text) => ErrorModel::Format(text@),
            DecodingError::InvalidSignature => ErrorModel::InvalidSignature,
            DecodingError::CrcMismatch { recover, crc_val, crc_sum, chunk } =>
                ErrorModel::CrcMismatch {
                recover: recover as nat,
                crc_val,
                crc_sum,
                chunk: chunk@,
            },
            DecodingError::CorruptFlateStream => ErrorModel::CorruptFlateStream,
            DecodingError::Unsupported(what) => ErrorModel::Unsupported(what),
        }
    }
}

impl ErrorModel {
    /// The text that describes an error.
    pub open spec fn description(self) -> Seq<char> {
        match self {
            ErrorModel::IoError(ReadError::UnexpectedEof) => "unexpected end of file"@,
            ErrorModel::Format(text) => text,
            ErrorModel::InvalidSignature => "invalid signature"@,
            ErrorModel::CrcMismatch { .. } => "CRC error"@,
            ErrorModel::CorruptFlateStream => "compressed data stream corrupted"@,
            ErrorModel::Unsupported(_) => "not implemented"@,
        }
    }
}

impl DecodingError {
    /// A text that describes the error.
    pub fn description(&self) -> (text: &str)
        ensures
            text@ == self@.description(),
    {
        match self {
            DecodingError::IoError(ReadError::UnexpectedEof) => "unexpected end of file",
            DecodingError::Format(text) => text.as_str(),
            DecodingError::InvalidSignature => "invalid signature",
            DecodingError::CrcMismatch { .. } => "CRC error",
            DecodingError::CorruptFlateStream => "compressed data stream corrupted",
            DecodingError::Unsupported(_) => "not implemented",
        }
    }
}

impl vstd::std_specs::convert::FromSpecImpl<ReadError> for DecodingError {
    open spec fn obeys_from_spec() -> bool {
        true
    }

    open spec fn from_spec(error: ReadError) -> DecodingError {
        DecodingError::IoError(error)
    }
}

impl From<ReadError> for DecodingError {
    fn from(error: ReadError) -> (wrapped: DecodingError) {
        DecodingError::IoError(error)
    }
}

/// The decimal digits of a number.
pub open spec fn decimal(n: nat) -> Seq<char>
    decreases n,
{
    if n < 10 {
        seq![(48 + n) as char]
    } else {
        decimal(n / 10).push((48 + n % 10) as char)
    }
}

/// A text that ends with a number in brackets: `prefix`, the digits of `n`, a closing bracket.
pub open spec fn numbered_spec(prefix: Seq<char>, n: u8) -> Seq<char> {
    prefix + decimal(n as nat) + ")"@
}

/// The digit that stands for a number below ten.
fn digit(n: u8) -> (text: &'static str)
    requires
        n < 10,
    ensures
        text@ == seq![(48 + n) as char],
{
    proof {
        reveal_strlit("0");
        reveal_strlit("1");
        reveal_strlit("2");
        reveal_strlit("3");
        reveal_strlit("4");
        reveal_strlit("5");
        reveal_strlit("6");
        reveal_strlit("7");
        reveal_strlit("8");
        reveal_strlit("9");
    }
    let text = match n {
        0 => "0",
        1 => "1",
        2 => "2",
        3 => "3",
        4 => "4",
        5 => "5",
        6 => "6",
        7 => "7",
        8 => "8",
        _ => "9",
    };
    assert(text@ =~= seq![(48 + n) as char]);
    text
}

/// A text that ends with a number in brackets.
pub(crate) fn numbered(prefix: &str, n: u8) -> (text: String)
    ensures
        text@ == numbered_spec(prefix@, n),
{
    let mut text = prefix.to_owned();
    if n >= 100 {
        text.append(digit(n / 100));
    }
    if n >= 10 {
        text.append(digit((n / 10) % 10));
    }
    text.append(digit(n % 10));
    proof {
        reveal_with_fuel(decimal, 3);
        assert(text@ =~= prefix@ + decimal(n as nat));
    }
    text.append(")");
    text
}

/// The error that a text describes.
pub(crate) fn format_error(text: &str) -> (error: DecodingError)
    ensures
        error@ == ErrorModel::Format(text@),
{
    DecodingError::Format(text.to_owned())
}

} // verus!
