//! The image header: size, bit depth and color type.

use vstd::prelude::*;
use crate::error::{invalid_input, Error, ErrorKind};

verus! {

/// Largest width or height that PNG allows.
pub const MAX_DIMENSION: u32 = 0x7fff_ffff;

/// How the samples of a pixel are to be read.
#[derive(Clone, Copy, Debug, PartialEq, Eq, Structural)]
pub enum ColorType {
    Greyscale,
    Truecolor,
    IndexedColor,
    GreyscaleAlpha,
    TruecolorAlpha,
}

/// The compression method of the image data; PNG defines one.
#[derive(Clone, Copy, Debug, PartialEq, Eq, Structural)]
pub enum CompressionMethod {
    Deflate,
}

/// The filter method of the image data; PNG defines one.
#[derive(Clone, Copy, Debug, PartialEq, Eq, Structural)]
pub enum FilterMethod {
    Standard,
}

/// The order in which rows are transmitted; only the sequential order is
/// encoded.
#[derive(Clone, Copy, Debug, PartialEq, Eq, Structural)]
pub enum InterlaceMethod {
    Standard,
}

impl ColorType {
    /// The number that stands for this color type in a header chunk.
    pub open spec fn code(self) -> u8 {
        match self {
            ColorType::Greyscale => 0,
            ColorType::Truecolor => 2,
            ColorType::IndexedColor => 3,
            ColorType::GreyscaleAlpha => 4,
            ColorType::TruecolorAlpha => 6,
        }
    }

    /// Samples per pixel.
    pub open spec fn channels(self) -> nat {
        match self {
            ColorType::Greyscale => 1,
            ColorType::Truecolor => 3,
            ColorType::IndexedColor => 1,
            ColorType::GreyscaleAlpha => 2,
            ColorType::TruecolorAlpha => 4,
        }
    }

    /// Whether PNG allows `depth` bits per sample with this color type.
    pub open spec fn allows_depth(self, depth: u8) -> bool {
        match self {
            ColorType::Greyscale => depth == 1 || depth == 2 || depth == 4 || depth == 8 || depth
                == 16,
            ColorType::IndexedColor => depth == 1 || depth == 2 || depth == 4 || depth == 8,
            _ => depth == 8 || depth == 16,
        }
    }

    /// Whether `code` stands for a color type.
    pub open spec fn is_code(code: u8) -> bool {
        code == 0 || code == 2 || code == 3 || code == 4 || code == 6
    }

    pub fn to_u8(self) -> (code: u8)
        ensures
            code == self.code(),
    {
        match self {
            ColorType::Greyscale => 0,
            ColorType::Truecolor => 2,
            ColorType::IndexedColor => 3,
            ColorType::GreyscaleAlpha => 4,
            ColorType::TruecolorAlpha => 6,
        }
    }

    /// The color type that `code` stands for; fails on any other number.
    pub fn try_from(code: u8) -> (r: Result<ColorType, Error>)
        ensures
            ColorType::is_code(code) ==> r is Ok && r->Ok_0.code() == code,
            !ColorType::is_code(code) ==> r is Err && r->Err_0.has(
                ErrorKind::InvalidInput,
                "Invalid color type value",
            ),
    {
        match code {
            0 => Ok(ColorType::Greyscale),
            2 => Ok(ColorType::Truecolor),
            3 => Ok(ColorType::IndexedColor),
            4 => Ok(ColorType::GreyscaleAlpha),
            6 => Ok(ColorType::TruecolorAlpha),
            _ => Err(invalid_input("Invalid color type value")),
        }
    }

    pub fn channel_count(self) -> (n: u8)
        ensures
            n == self.channels(),
    {
        match self {
            ColorType::Greyscale => 1,
            ColorType::Truecolor => 3,
            ColorType::IndexedColor => 1,
            ColorType::GreyscaleAlpha => 2,
            ColorType::TruecolorAlpha => 4,
        }
    }

    pub fn is_depth_valid(self, depth: u8) -> (ok: bool)
        ensures
            ok == self.allows_depth(depth),
    {
        match self {
            ColorType::Greyscale => depth == 1 || depth == 2 || depth == 4 || depth == 8 || depth
                == 16,
            ColorType::IndexedColor => depth == 1 || depth == 2 || depth == 4 || depth == 8,
            _ => depth == 8 || depth == 16,
        }
    }
}

impl CompressionMethod {
    pub open spec fn code(self) -> u8 {
        0
    }

    pub fn to_u8(self) -> (code: u8)
        ensures
            code == self.code(),
    {
        0
    }
}

impl FilterMethod {
    pub open spec fn code(self) -> u8 {
        0
    }

    pub fn to_u8(self) -> (code: u8)
        ensures
            code == self.code(),
    {
        0
    }
}

impl InterlaceMethod {
    pub open spec fn code(self) -> u8 {
        0
    }

    pub fn to_u8(self) -> (code: u8)
        ensures
            code == self.code(),
    {
        0
    }
}

/// What a header chunk says of an image.
#[derive(Clone, Copy, Debug, PartialEq, Eq, Structural)]
pub struct Header {
    pub width: u32,
    pub height: u32,
    pub depth: u8,
    pub color_type: ColorType,
    pub compression_method: CompressionMethod,
    pub filter_method: FilterMethod,
    pub interlace_method: InterlaceMethod,
}

impl Header {
    /// Whether the fields describe an image that PNG can hold.
    pub open spec fn valid(self) -> bool {
        &&& 0 < self.width <= MAX_DIMENSION
        &&& 0 < self.height <= MAX_DIMENSION
        &&& self.color_type.allows_depth(self.depth)
    }

    /// Bits in one pixel.
    pub open spec fn bits_per_pixel(self) -> nat {
        self.color_type.channels() * (self.depth as nat)
    }

    /// The distance in bytes between a byte and the one that a row filter
    /// pairs it with: the bytes of a pixel, rounded up, so at least 1.
    pub open spec fn bytes_per_pixel(self) -> nat {
        if self.bits_per_pixel() < 8 {
            1
        } else {
            self.bits_per_pixel() / 8
        }
    }

    /// Bytes in one row of pixels, rounded up to whole bytes.
    pub open spec fn bytes_per_row(self) -> nat {
        ((self.width as nat) * self.bits_per_pixel() + 7) / 8
    }

    /// Bytes in the whole image.
    pub open spec fn image_size(self) -> nat {
        (self.height as nat) * self.bytes_per_row()
    }

    /// A valid header describes rows of at least one byte and an image of
    /// at least one row.
    pub proof fn lemma_sizes_positive(self)
        requires
            self.valid(),
        ensures
            1 <= self.bits_per_pixel() <= 64,
            1 <= self.bytes_per_pixel() <= 8,
            1 <= self.bytes_per_row() <= 0x3_ffff_fff8,
            self.bytes_per_row() <= self.image_size(),
    {
        let channels = self.color_type.channels() as int;
        let depth = self.depth as int;
        assert(1 <= channels * depth <= 64) by (nonlinear_arith)
            requires
                1 <= channels <= 4,
                1 <= depth <= 16,
        ;
        let bits = channels * depth;
        let width = self.width as int;
        assert(1 <= width * bits <= 0x7fff_ffff * 64) by (nonlinear_arith)
            requires
                1 <= bits <= 64,
                1 <= width <= 0x7fff_ffff,
        ;
        let row = self.bytes_per_row() as int;
        let height = self.height as int;
        assert(row <= height * row) by (nonlinear_arith)
            requires
                1 <= height,
                0 <= row,
        ;
    }

    /// The header of a 1 by 1 image of 8-bit truecolor with alpha.
    pub open spec fn initial() -> Header {
        Header {
            width: 1,
            height: 1,
            depth: 8,
            color_type: ColorType::TruecolorAlpha,
            compression_method: CompressionMethod::Deflate,
            filter_method: FilterMethod::Standard,
            interlace_method: InterlaceMethod::Standard,
        }
    }

    /// A header for a 1 by 1 image of 8-bit truecolor with alpha.
    pub fn new() -> (h: Header)
        ensures
            h == Header::initial(),
            h.valid(),
    {
        Header {
            width: 1,
            height: 1,
            depth: 8,
            color_type: ColorType::TruecolorAlpha,
            compression_method: CompressionMethod::Deflate,
            filter_method: FilterMethod::Standard,
            interlace_method: InterlaceMethod::Standard,
        }
    }

    /// Sets width and height, each of which must lie in 1 ..= 2^31 - 1.
    pub fn set_size(&mut self, width: u32, height: u32) -> (r: Result<(), Error>)
        ensures
            (0 < width <= MAX_DIMENSION && 0 < height <= MAX_DIMENSION) ==> r is Ok && *final(self)
                == (Header { width, height, ..*old(self) }),
            !(0 < width <= MAX_DIMENSION && 0 < height <= MAX_DIMENSION) ==> r is Err
                && r->Err_0.has(ErrorKind::InvalidInput, "Invalid image size") && *final(self)
                == *old(self),
    {
        if width == 0 || width > MAX_DIMENSION || height == 0 || height > MAX_DIMENSION {
            return Err(invalid_input("Invalid image size"));
        }
        self.width = width;
        self.height = height;
        Ok(())
    }

    /// Sets color type and bit depth, which must be a pair that PNG allows.
    pub fn set_color(&mut self, color_type: ColorType, depth: u8) -> (r: Result<(), Error>)
        ensures
            color_type.allows_depth(depth) ==> r is Ok && *final(self) == (Header {
                color_type,
                depth,
                ..*old(self)
            }),
            !color_type.allows_depth(depth) ==> r is Err && r->Err_0.has(
                ErrorKind::InvalidInput,
                "Invalid bit depth for color type",
            ) && *final(self) == *old(self),
    {
        if !color_type.is_depth_valid(depth) {
            return Err(invalid_input("Invalid bit depth for color type"));
        }
        self.color_type = color_type;
        self.depth = depth;
        Ok(())
    }

    pub fn is_valid(&self) -> (ok: bool)
        ensures
            ok == self.valid(),
    {
        0 < self.width && self.width <= MAX_DIMENSION && 0 < self.height && self.height
            <= MAX_DIMENSION && self.color_type.is_depth_valid(self.depth)
    }

    /// The filter distance in bytes.
    pub fn bpp(&self) -> (n: usize)
        ensures
            n == self.bytes_per_pixel(),
            1 <= n,
            self.valid() ==> n <= 8,
    {
        let channels: u16 = self.color_type.channel_count() as u16;
        let depth: u16 = self.depth as u16;
        assert(channels * depth <= 1020 && (self.valid() ==> channels * depth <= 64))
            by (nonlinear_arith)
            requires
                1 <= channels <= 4,
                0 <= depth <= 255,
                self.valid() ==> depth <= 16,
        ;
        let bits: u16 = channels * depth;
        if bits < 8 {
            1
        } else {
            (bits / 8) as usize
        }
    }

    /// The bytes of one row.
    pub fn stride(&self) -> (n: u64)
        ensures
            n == self.bytes_per_row(),
            self.valid() ==> 1 <= n <= 0x3_ffff_fff8,
    {
        let channels: u64 = self.color_type.channel_count() as u64;
        let depth: u64 = self.depth as u64;
        assert(channels * depth <= 1020 && (self.valid() ==> 1 <= channels * depth <= 64))
            by (nonlinear_arith)
            requires
                1 <= channels <= 4,
                0 <= depth <= 255,
                self.valid() ==> 1 <= depth <= 16,
        ;
        let bits: u64 = channels * depth;
        let width: u64 = self.width as u64;
        assert(width * bits <= 0xffff_ffff * 1020 && (self.valid() ==> 1 <= width * bits
            <= 0x7fff_ffff * 64)) by (nonlinear_arith)
            requires
                0 <= bits <= 1020,
                0 <= width <= 0xffff_ffff,
                self.valid() ==> 1 <= bits <= 64 && 1 <= width <= 0x7fff_ffff,
        ;
        let total: u64 = width * bits;
        (total + 7) / 8
    }
}

} // verus!
