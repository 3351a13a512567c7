use vstd::prelude::*;

use crate::color::ColorType;
use vstd::arithmetic::div_mod::lemma_div_multiples_vanish;

verus! {

/// The channel values of one pixel, tagged with its layout. A pixel is a
/// transient value read out of an image; it owns no buffer.
#[derive(Debug, PartialEq, Eq, Clone, Copy, Structural)]
pub enum Pixel {
    Gray(u8),
    RGB(u8, u8, u8),
    RGBAlpha(u8, u8, u8, u8),
    GrayAlpha(u8, u8),
}

/// The grayscale value of an RGB triple: floor(0.30 R + 0.59 G + 0.11 B),
/// computed exactly over the rationals.
pub open spec fn luminance(r: u8, g: u8, b: u8) -> u8 {
    ((30 * (r as int) + 59 * (g as int) + 11 * (b as int)) / 100) as u8
}

impl Pixel {
    /// The layout this pixel's channels follow.
    pub open spec fn layout(self) -> ColorType {
        match self {
            Pixel::Gray(..) => ColorType::Gray(),
            Pixel::RGB(..) => ColorType::RGB(),
            Pixel::RGBAlpha(..) => ColorType::RGBAlpha(),
            Pixel::GrayAlpha(..) => ColorType::GrayAlpha(),
        }
    }

    /// The channel values in declaration order.
    pub open spec fn channel_seq(self) -> Seq<u8> {
        match self {
            Pixel::Gray(g) => seq![g],
            Pixel::RGB(r, g, b) => seq![r, g, b],
            Pixel::RGBAlpha(r, g, b, a) => seq![r, g, b, a],
            Pixel::GrayAlpha(g, a) => seq![g, a],
        }
    }

    /// The alpha channel, if the layout carries one.
    pub open spec fn alpha(self) -> Option<u8> {
        match self {
            Pixel::Gray(..) => None,
            Pixel::RGB(..) => None,
            Pixel::RGBAlpha(_, _, _, a) => Some(a),
            Pixel::GrayAlpha(_, a) => Some(a),
        }
    }

    /// The pixel whose channels are the first `ct.channel_count()` entries of
    /// `bytes`, read in declaration order.
    pub open spec fn from_bytes(ct: ColorType, bytes: Seq<u8>) -> Pixel {
        match ct {
            ColorType::Gray() => Pixel::Gray(bytes[0]),
            ColorType::RGB() => Pixel::RGB(bytes[0], bytes[1], bytes[2]),
            ColorType::RGBAlpha() => Pixel::RGBAlpha(bytes[0], bytes[1], bytes[2], bytes[3]),
            ColorType::GrayAlpha() => Pixel::GrayAlpha(bytes[0], bytes[1]),
        }
    }

    /// The result of converting this pixel to `target`: gray values replicate
    /// into red, green and blue; color collapses to gray by the luminance
    /// rule; a missing alpha defaults to 255; an existing alpha is kept when
    /// the target has one and dropped otherwise.
    pub open spec fn spec_convert(self, target: ColorType) -> Pixel {
        match self {
            Pixel::Gray(g) => match target {
                ColorType::Gray() => Pixel::Gray(g),
                ColorType::RGB() => Pixel::RGB(g, g, g),
                ColorType::RGBAlpha() => Pixel::RGBAlpha(g, g, g, 255),
                ColorType::GrayAlpha() => Pixel::GrayAlpha(g, 255),
            },
            Pixel::RGB(r, g, b) => match target {
                ColorType::Gray() => Pixel::Gray(luminance(r, g, b)),
                ColorType::RGB() => Pixel::RGB(r, g, b),
                ColorType::RGBAlpha() => Pixel::RGBAlpha(r, g, b, 255),
                ColorType::GrayAlpha() => Pixel::GrayAlpha(luminance(r, g, b), 255),
            },
            Pixel::RGBAlpha(r, g, b, a) => match target {
                ColorType::Gray() => Pixel::Gray(luminance(r, g, b)),
                ColorType::RGB() => Pixel::RGB(r, g, b),
                ColorType::RGBAlpha() => Pixel::RGBAlpha(r, g, b, a),
                ColorType::GrayAlpha() => Pixel::GrayAlpha(luminance(r, g, b), a),
            },
            Pixel::GrayAlpha(g, a) => match target {
                ColorType::Gray() => Pixel::Gray(g),
                ColorType::RGB() => Pixel::RGB(g, g, g),
                ColorType::RGBAlpha() => Pixel::RGBAlpha(g, g, g, a),
                ColorType::GrayAlpha() => Pixel::GrayAlpha(g, a),
            },
        }
    }

    /// The channel values as an owned vector, in declaration order.
    pub fn into_vec(self) -> (v: Vec<u8>)
        ensures
            v@ == self.channel_seq(),
    {
        let v: Vec<u8> = match self {
            Pixel::Gray(g) => vec![g],
            Pixel::RGB(r, g, b) => vec![r, g, b],
            Pixel::RGBAlpha(r, g, b, a) => vec![r, g, b, a],
            Pixel::GrayAlpha(g, a) => vec![g, a],
        };
        proof {
            assert(v@ =~= self.channel_seq());
        }
        v
    }

    /// Converts this pixel to the `color_type` layout by the rules of
    /// `spec_convert`; the result always carries the requested layout.
    pub fn convert(self, color_type: ColorType) -> (p: Pixel)
        ensures
            p == self.spec_convert(color_type),
            p.layout() == color_type,
    {
        match self {
            Pixel::Gray(g) => match color_type {
                ColorType::Gray() => Pixel::Gray(g),
                ColorType::RGB() => Pixel::RGB(g, g, g),
                ColorType::RGBAlpha() => Pixel::RGBAlpha(g, g, g, 255),
                ColorType::GrayAlpha() => Pixel::GrayAlpha(g, 255),
            },
            Pixel::RGB(r, g, b) => match color_type {
                ColorType::Gray() => Pixel::Gray(rgb_to_gray(r, g, b)),
                ColorType::RGB() => Pixel::RGB(r, g, b),
                ColorType::RGBAlpha() => Pixel::RGBAlpha(r, g, b, 255),
                ColorType::GrayAlpha() => Pixel::GrayAlpha(rgb_to_gray(r, g, b), 255),
            },
            Pixel::RGBAlpha(r, g, b, a) => match color_type {
                ColorType::Gray() => Pixel::Gray(rgb_to_gray(r, g, b)),
                ColorType::RGB() => Pixel::RGB(r, g, b),
                ColorType::RGBAlpha() => Pixel::RGBAlpha(r, g, b, a),
                ColorType::GrayAlpha() => Pixel::GrayAlpha(rgb_to_gray(r, g, b), a),
            },
            Pixel::GrayAlpha(g, a) => match color_type {
                ColorType::Gray() => Pixel::Gray(g),
                ColorType::RGB() => Pixel::RGB(g, g, g),
                ColorType::RGBAlpha() => Pixel::RGBAlpha(g, g, g, a),
                ColorType::GrayAlpha() => Pixel::GrayAlpha(g, a),
            },
        }
    }
}

/// The luminance of a color pixel, weighing red at 0.30, green at 0.59 and
/// blue at 0.11 and truncating toward zero.
pub fn rgb_to_gray(r: u8, g: u8, b: u8) -> (gray: u8)
    ensures
        gray == luminance(r, g, b),
{
    let sum: u32 = 30 * (r as u32) + 59 * (g as u32) + 11 * (b as u32);
    assert(sum <= 25500);
    assert(sum / 100u32 <= 255u32) by (nonlinear_arith)
        requires
            sum <= 25500,
    ;
    (sum / 100) as u8
}

/// A pixel holds exactly as many channel values as its layout prescribes.
pub proof fn lemma_channel_seq_len(p: Pixel)
    ensures
        p.channel_seq().len() == p.layout().channel_count(),
{
}

/// Reassembling a pixel from its own channel values under its own layout
/// gives the pixel back.
pub proof fn lemma_from_channel_seq_roundtrip(p: Pixel)
    ensures
        Pixel::from_bytes(p.layout(), p.channel_seq()) == p,
{
}

/// Conversion always produces a pixel of the requested layout.
pub proof fn lemma_spec_convert_layout(p: Pixel, target: ColorType)
    ensures
        p.spec_convert(target).layout() == target,
{
}

/// Replicating a gray value into red, green and blue and taking the luminance
/// again is the identity, because the weights sum to one: the gray value of a
/// pixel survives the trip through any RGB-bearing layout unchanged.
pub proof fn lemma_gray_luminance_identity(g: u8)
    ensures
        luminance(g, g, g) == g,
{
    assert(30 * (g as int) + 59 * (g as int) + 11 * (g as int) == 100 * (g as int));
    lemma_div_multiples_vanish(g as int, 100);
}

/// Converting a gray pixel to any layout and back to gray recovers the
/// original gray value exactly.
pub proof fn lemma_gray_round_trip(g: u8, mid: ColorType)
    ensures
        Pixel::Gray(g).spec_convert(mid).spec_convert(ColorType::Gray()) == Pixel::Gray(g),
{
    lemma_gray_luminance_identity(g);
}

/// Converting an alpha-less pixel to an alpha-bearing layout always yields a
/// fully opaque alpha of 255.
pub proof fn lemma_alpha_defaulting(p: Pixel, target: ColorType)
    requires
        p.alpha() is None,
        target == ColorType::RGBAlpha() || target == ColorType::GrayAlpha(),
    ensures
        p.spec_convert(target).alpha() == Some(255u8),
{
}

} // verus!
