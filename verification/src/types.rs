//! What describes an image, and what a reader is asked to make of it.
use vstd::prelude::*;

verus! {

/// How the samples of a pixel are to be read.
#[derive(Clone, Copy, Debug, PartialEq, Eq, Structural)]
pub enum ColorType {
    Grayscale,
    RGB,
    Indexed,
    GrayscaleAlpha,
    RGBA,
}

/// The color type that a header byte stands for.
pub open spec fn color_type_of(code: u8) -> Option<ColorType> {
    if code == 0 {
        Some(ColorType::Grayscale)
    } else if code == 2 {
        Some(ColorType::RGB)
    } else if code == 3 {
        Some(ColorType::Indexed)
    } else if code == 4 {
        Some(ColorType::GrayscaleAlpha)
    } else if code == 6 {
        Some(ColorType::RGBA)
    } else {
        None
    }
}

impl ColorType {
    /// The header byte that stands for this color type.
    pub open spec fn code_spec(self) -> u8 {
        match self {
            ColorType::Grayscale => 0,
            ColorType::RGB => 2,
            ColorType::Indexed => 3,
            ColorType::GrayscaleAlpha => 4,
            ColorType::RGBA => 6,
        }
    }

    /// The number of samples in a pixel.
    pub open spec fn samples_spec(self) -> nat {
        match self {
            ColorType::Grayscale => 1,
            ColorType::RGB => 3,
            ColorType::Indexed => 1,
            ColorType::GrayscaleAlpha => 2,
            ColorType::RGBA => 4,
        }
    }

    /// The color type that a header byte stands for, if there is one.
    pub fn from_u8(code: u8) -> (color_type: Option<ColorType>)
        ensures
            color_type == color_type_of(code),
    {
        match code {
            0 => Some(ColorType::Grayscale),
            2 => Some(ColorType::RGB),
            3 => Some(ColorType::Indexed),
            4 => Some(ColorType::GrayscaleAlpha),
            6 => Some(ColorType::RGBA),
            _ => None,
        }
    }

    /// The header byte that stands for this color type.
    pub fn code(self) -> (code: u8)
        ensures
            code == self.code_spec(),
    {
        match self {
            ColorType::Grayscale => 0,
            ColorType::RGB => 2,
            ColorType::Indexed => 3,
            ColorType::GrayscaleAlpha => 4,
            ColorType::RGBA => 6,
        }
    }

    /// The number of samples in a pixel.
    pub fn samples(self) -> (samples: usize)
        ensures
            samples == self.samples_spec(),
            1 <= samples <= 4,
    {
        match self {
            ColorType::Grayscale => 1,
            ColorType::RGB => 3,
            ColorType::Indexed => 1,
            ColorType::GrayscaleAlpha => 2,
            ColorType::RGBA => 4,
        }
    }
}

/// What the chunks before the image data say of an image.
#[derive(Debug)]
pub struct Info {
    pub width: u32,
    pub height: u32,
    pub bit_depth: u8,
    pub color_type: ColorType,
    pub interlaced: bool,
    pub trns: Option<Vec<u8>>,
    pub palette: Option<Vec<u8>>,
}

/// The mathematical content of an [`Info`].
#[verifier::ext_equal]
pub struct InfoModel {
    pub width: u32,
    pub height: u32,
    pub bit_depth: u8,
    pub color_type: ColorType,
    pub interlaced: bool,
    pub trns: Option<Seq<u8>>,
    pub palette: Option<Seq<u8>>,
}

/// The smallest number of bytes that holds a number of bits.
pub open spec fn bytes_for(bits: nat) -> nat {
    ((bits + 7) / 8) as nat
}

impl InfoModel {
    /// The number of bits in a pixel.
    pub open spec fn bits_per_pixel(self) -> nat {
        self.color_type.samples_spec() * self.bit_depth as nat
    }

    /// The number of bytes in a pixel whose samples each start a new byte.
    pub open spec fn bytes_per_pixel(self) -> nat {
        self.color_type.samples_spec() * bytes_for(self.bit_depth as nat)
    }

    /// The number of bytes in a row: the byte that names the filter, then the pixels.
    pub open spec fn raw_row_length(self) -> nat {
        1 + bytes_for(self.width as nat * self.bits_per_pixel())
    }

    /// The number of bytes in all rows.
    pub open spec fn raw_bytes(self) -> nat {
        self.height as nat * self.raw_row_length()
    }
}

/// The bytes of an optional vector.
pub open spec fn bytes_of(bytes: Option<Vec<u8>>) -> Option<Seq<u8>> {
    match bytes {
        Some(bytes) => Some(bytes@),
        None => None,
    }
}

impl View for Info {
    type V = InfoModel;

    open spec fn view(&self) -> InfoModel {
        InfoModel {
            width: self.width,
            height: self.height,
            bit_depth: self.bit_depth,
            color_type: self.color_type,
            interlaced: self.interlaced,
            trns: bytes_of(self.trns),
            palette: bytes_of(self.palette),
        }
    }
}

impl Info {
    /// The number of bits in a pixel.
    pub fn bits_per_pixel(&self) -> (bits: usize)
        ensures
            bits == self@.bits_per_pixel(),
            bits <= 1020,
    {
        let samples = self.color_type.samples();
        proof {
            lemma_product_bound(samples as nat, 4, self.bit_depth as nat, 255);
        }
        samples * (self.bit_depth as usize)
    }

    /// The number of bytes in a pixel whose samples each start a new byte.
    pub fn bytes_per_pixel(&self) -> (bytes: usize)
        ensures
            bytes == self@.bytes_per_pixel(),
    {
        let samples = self.color_type.samples();
        let depth: usize = (self.bit_depth as usize + 7) / 8;
        proof {
            lemma_product_bound(samples as nat, 4, depth as nat, 32);
        }
        samples * depth
    }

    /// The number of bytes in a row: the byte that names the filter, then the pixels.
    pub fn raw_row_length(&self) -> (length: u64)
        ensures
            length == self@.raw_row_length(),
            1 <= length <= 0x80_0000_0000,
    {
        let bits: u64 = self.bits_per_pixel() as u64;
        proof {
            lemma_product_bound(self.width as nat, 0xFFFF_FFFF, bits as nat, 1020);
        }
        let bits: u64 = (self.width as u64) * bits;
        1 + (bits + 7) / 8
    }

    /// The number of bytes in all rows.
    pub fn raw_bytes(&self) -> (bytes: u128)
        ensures
            bytes == self@.raw_bytes(),
    {
        let length = self.raw_row_length();
        proof {
            lemma_product_bound(self.height as nat, 0xFFFF_FFFF, length as nat, 0x80_0000_0000);
        }
        (self.height as u128) * (length as u128)
    }
}

/// A product is at most the product of the bounds of its factors.
pub proof fn lemma_product_bound(a: nat, a_max: nat, b: nat, b_max: nat)
    requires
        a <= a_max,
        b <= b_max,
    ensures
        0 <= a * b <= a_max * b_max,
{
    assert(0 <= a * b <= a_max * b_max) by (nonlinear_arith)
        requires
            a <= a_max,
            b <= b_max,
    ;
}

/// What a reader makes of the rows: a set of flags.
#[derive(Clone, Copy, Debug, PartialEq, Eq, Structural)]
pub struct Transformations {
    bits: u32,
}

/// The bits of [`Transformations::expand`].
pub const EXPAND_BITS: u32 = 0x0010;

impl Transformations {
    /// The flags as a number.
    pub closed spec fn bits_spec(self) -> u32 {
        self.bits
    }

    /// No flag is set.
    pub open spec fn is_identity_spec(self) -> bool {
        self.bits_spec() == 0
    }

    /// All flags of `other` are set.
    pub open spec fn contains_spec(self, other: u32) -> bool {
        self.bits_spec() & other == other
    }

    /// Samples of fewer than eight bits, and palette indices, are to be expanded.
    pub open spec fn expands(self) -> bool {
        self.contains_spec(EXPAND_BITS)
    }

    /// The flags that a number stands for.
    pub fn from_bits(bits: u32) -> (flags: Transformations)
        ensures
            flags.bits_spec() == bits,
    {
        Transformations { bits }
    }

    /// Rows are handed out as they are.
    pub fn identity() -> (flags: Transformations)
        ensures
            flags.bits_spec() == 0,
            flags.is_identity_spec(),
    {
        Transformations { bits: 0 }
    }

    /// Samples of fewer than eight bits, and palette indices, are expanded.
    pub fn expand() -> (flags: Transformations)
        ensures
            flags.bits_spec() == EXPAND_BITS,
            flags.expands(),
            !flags.is_identity_spec(),
    {
        assert(0x0010u32 & 0x0010u32 == 0x0010u32) by (bit_vector);
        Transformations { bits: EXPAND_BITS }
    }

    /// Whether no flag is set.
    pub fn is_identity(self) -> (identity: bool)
        ensures
            identity == self.is_identity_spec(),
    {
        self.bits == 0
    }

    /// Whether all flags of `other` are set.
    pub fn contains(self, other: Transformations) -> (all: bool)
        ensures
            all == self.contains_spec(other.bits_spec()),
    {
        self.bits & other.bits == other.bits
    }
}

} // verus!
