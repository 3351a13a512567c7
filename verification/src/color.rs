use vstd::prelude::*;

use crate::error::ImageError;

verus! {

/// PNG color-type code for grayscale images.
pub const GRAY_CODE: u8 = 0;
/// PNG color-type code for truecolor (red, green, blue) images.
pub const RGB_CODE: u8 = 2;
/// PNG color-type code for grayscale images with an alpha channel.
pub const GRAY_ALPHA_CODE: u8 = 4;
/// PNG color-type code for truecolor images with an alpha channel.
pub const RGB_ALPHA_CODE: u8 = 6;

/// The closed set of supported channel layouts.
#[derive(Debug, PartialEq, Eq, Clone, Copy, Structural)]
pub enum ColorType {
    Gray(),
    RGB(),
    RGBAlpha(),
    GrayAlpha(),
}

impl ColorType {
    /// How many bytes one pixel of this layout occupies.
    pub open spec fn channel_count(self) -> nat {
        match self {
            ColorType::Gray() => 1,
            ColorType::RGB() => 3,
            ColorType::RGBAlpha() => 4,
            ColorType::GrayAlpha() => 2,
        }
    }

    /// The color type a decoder's format code denotes, or the error for
    /// palette-indexed and unrecognized codes.
    pub open spec fn spec_from_code(code: u8) -> Result<ColorType, ImageError> {
        if code == GRAY_CODE {
            Ok(ColorType::Gray())
        } else if code == RGB_CODE {
            Ok(ColorType::RGB())
        } else if code == RGB_ALPHA_CODE {
            Ok(ColorType::RGBAlpha())
        } else if code == GRAY_ALPHA_CODE {
            Ok(ColorType::GrayAlpha())
        } else {
            Err(ImageError::UnsupportedColorType)
        }
    }

    /// The channel count of each variant: 1 for gray, 2 for gray with alpha,
    /// 3 for RGB, 4 for RGB with alpha.
    pub fn num_channels(self) -> (n: u8)
        ensures
            n as nat == self.channel_count(),
    {
        match self {
            ColorType::Gray() => 1,
            ColorType::RGB() => 3,
            ColorType::RGBAlpha() => 4,
            ColorType::GrayAlpha() => 2,
        }
    }

    /// Maps a decoder's color-format code to the matching variant; rejects
    /// palette-indexed data and unrecognized codes as unsupported.
    pub fn from_code(code: u8) -> (r: Result<ColorType, ImageError>)
        ensures
            r == ColorType::spec_from_code(code),
    {
        if code == GRAY_CODE {
            Ok(ColorType::Gray())
        } else if code == RGB_CODE {
            Ok(ColorType::RGB())
        } else if code == RGB_ALPHA_CODE {
            Ok(ColorType::RGBAlpha())
        } else if code == GRAY_ALPHA_CODE {
            Ok(ColorType::GrayAlpha())
        } else {
            Err(ImageError::UnsupportedColorType)
        }
    }

    /// The format code an encoder expects for this variant; decoding the code
    /// back yields the same variant.
    pub fn to_code(self) -> (code: u8)
        ensures
            ColorType::spec_from_code(code) == Ok::<ColorType, ImageError>(self),
    {
        match self {
            ColorType::Gray() => GRAY_CODE,
            ColorType::RGB() => RGB_CODE,
            ColorType::RGBAlpha() => RGB_ALPHA_CODE,
            ColorType::GrayAlpha() => GRAY_ALPHA_CODE,
        }
    }
}

} // verus!
