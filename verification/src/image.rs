use vstd::prelude::*;

use crate::color::ColorType;
use crate::error::ImageError;
use crate::pixel::Pixel;
use crate::pixel::{
    lemma_alpha_defaulting, lemma_channel_seq_len, lemma_from_channel_seq_roundtrip,
    lemma_gray_round_trip, lemma_spec_convert_layout,
};
use vstd::arithmetic::div_mod::{
    lemma_fundamental_div_mod, lemma_fundamental_div_mod_converse, lemma_mod_pos_bound,
    lemma_multiply_divide_lt,
};

verus! {

/// The bytes of `s` in reverse order.
pub open spec fn reversed(s: Seq<u8>) -> Seq<u8> {
    Seq::new(s.len(), |i: int| s[s.len() - 1 - i])
}

/// The mathematical model of an image: its geometry, its channel layout and
/// the packed row-major byte sequence.
#[verifier::ext_equal]
pub ghost struct ImageView {
    pub width: nat,
    pub height: nat,
    pub color_type: ColorType,
    pub data: Seq<u8>,
}

impl ImageView {
    /// Bytes per row: the width times the channel count.
    pub open spec fn row_size(self) -> nat {
        self.width * self.color_type.channel_count()
    }

    /// A well-formed image holds exactly `height * width * channels` bytes:
    /// packed rows, no padding.
    pub open spec fn wf(self) -> bool {
        self.data.len() == self.height * self.row_size()
    }

    /// The bytes of row `y`.
    pub open spec fn row(self, y: int) -> Seq<u8> {
        self.data.subrange(y * self.row_size(), (y + 1) * self.row_size())
    }

    /// The pixel at column `x` of row `y`, read from the bytes at its packed
    /// offset.
    pub open spec fn pixel(self, x: int, y: int) -> Pixel {
        let c = self.color_type.channel_count();
        let off = y * self.row_size() + x * c;
        Pixel::from_bytes(self.color_type, self.data.subrange(off, off + c))
    }
}

/// An owned raster image: a packed, row-major, 8-bit-per-channel byte buffer
/// together with its geometry and channel layout. Every transform builds a
/// fresh image and leaves its receiver untouched.
pub struct Image {
    pub height: usize,
    pub width: usize,
    pub color_type: ColorType,
    pub data: Vec<u8>,
}

impl View for Image {
    type V = ImageView;

    open spec fn view(&self) -> ImageView {
        ImageView {
            width: self.width as nat,
            height: self.height as nat,
            color_type: self.color_type,
            data: self.data@,
        }
    }
}

impl Image {
    /// Whether the buffer length agrees with the stated geometry; transforms
    /// refuse an image for which this check fails.
    pub fn is_well_formed(&self) -> (b: bool)
        ensures
            b == self@.wf(),
    {
        let n = self.data.len();
        if self.height == 0 {
            return n == 0;
        }
        let c = self.color_type.num_channels() as usize;
        match self.width.checked_mul(c) {
            None => {
                proof {
                    assert(self@.row_size() <= self@.height * self@.row_size())
                        by (nonlinear_arith)
                        requires
                            self@.height >= 1,
                    ;
                }
                false
            },
            Some(rs) => match self.height.checked_mul(rs) {
                None => false,
                Some(total) => n == total,
            },
        }
    }

    /// Bytes per row of this image.
    fn row_size(&self) -> (rs: usize)
        requires
            self@.row_size() <= usize::MAX,
        ensures
            rs as nat == self@.row_size(),
    {
        self.width * (self.color_type.num_channels() as usize)
    }

    /// Reads the pixel at `(x, y)` from a well-formed image.
    fn read_pixel(&self, x: usize, y: usize) -> (p: Pixel)
        requires
            self@.wf(),
            (x as nat) < self@.width,
            (y as nat) < self@.height,
        ensures
            p == self@.pixel(x as int, y as int),
    {
        let n = self.data.len();
        proof {
            lemma_pixel_offset_in_bounds(self@, x as int, y as int);
        }
        let c = self.color_type.num_channels() as usize;
        let rs = self.row_size();
        assert((y as int) * (rs as int) + (x as int) * (c as int) + (c as int) <= n as int);
        let off = y * rs + x * c;
        match self.color_type {
            ColorType::Gray() => Pixel::Gray(self.data[off]),
            ColorType::RGB() => {
                let red = self.data[off];
                let green = self.data[off + 1];
                let blue = self.data[off + 2];
                Pixel::RGB(red, green, blue)
            },
            ColorType::RGBAlpha() => {
                let red = self.data[off];
                let green = self.data[off + 1];
                let blue = self.data[off + 2];
                let alpha = self.data[off + 3];
                Pixel::RGBAlpha(red, green, blue, alpha)
            },
            ColorType::GrayAlpha() => {
                let gray = self.data[off];
                let alpha = self.data[off + 1];
                Pixel::GrayAlpha(gray, alpha)
            },
        }
    }

    /// The pixel at column `x` of row `y`. Coordinates outside the image are
    /// reported as `IndexOutOfRange`, never read; a buffer that disagrees
    /// with the geometry is reported as `CorruptBuffer`.
    pub fn get_pixel(&self, x: usize, y: usize) -> (r: Result<Pixel, ImageError>)
        ensures
            match r {
                Ok(p) => self@.wf() && (x as nat) < self@.width && (y as nat) < self@.height
                    && p == self@.pixel(x as int, y as int),
                Err(e) => (e == ImageError::CorruptBuffer && !self@.wf()) || (e
                    == ImageError::IndexOutOfRange && self@.wf() && ((x as nat) >= self@.width || (
                y as nat) >= self@.height)),
            },
    {
        if !self.is_well_formed() {
            return Err(ImageError::CorruptBuffer);
        }
        if x >= self.width || y >= self.height {
            return Err(ImageError::IndexOutOfRange);
        }
        Ok(self.read_pixel(x, y))
    }

    /// A fresh image with the rows in reverse order: row `y` of the result is
    /// row `height - 1 - y` of the receiver. Dimensions and layout are kept.
    pub fn flip_vertical(&self) -> (r: Result<Image, ImageError>)
        ensures
            match r {
                Ok(img) => self@.wf() && is_flip_vertical_of(img@, self@),
                Err(e) => e == ImageError::CorruptBuffer && !self@.wf(),
            },
    {
        if !self.is_well_formed() {
            return Err(ImageError::CorruptBuffer);
        }
        if self.height == 0 {
            let img = Image {
                height: self.height,
                width: self.width,
                color_type: self.color_type,
                data: Vec::new(),
            };
            proof {
                assert(img@.height * img@.row_size() == 0) by (nonlinear_arith)
                    requires
                        img@.height == 0,
                ;
            }
            return Ok(img);
        }
        let n = self.data.len();
        proof {
            lemma_row_size_fits(self@);
        }
        let rs = self.row_size();
        let ghost rsn = self@.row_size() as int;
        let mut data: Vec<u8> = Vec::new();
        let mut i: usize = 0;
        while i < self.height
            invariant
                self@.wf(),
                self@.data.len() <= usize::MAX,
                1 <= self@.height,
                i <= self@.height,
                rs as nat == self@.row_size(),
                rsn == self@.row_size() as int,
                data@.len() == i as int * rsn,
                forall|y: int|
                    0 <= y < i ==> #[trigger] data@.subrange(y * rsn, (y + 1) * rsn)
                        == self@.row(self@.height - 1 - y),
            decreases self@.height - i,
        {
            let src_row = self.height - 1 - i;
            proof {
                lemma_row_in_bounds(self@, src_row as int);
            }
            let start = src_row * rs;
            let ghost pre = data@;
            push_range(&mut data, &self.data, start, rs);
            proof {
                let appended = self@.data.subrange(start as int, start as int + rsn);
                assert(appended == self@.row(src_row as int));
                assert forall|y: int|
                    0 <= y < i + 1 implies #[trigger] data@.subrange(y * rsn, (y + 1) * rsn)
                    == self@.row(self@.height - 1 - y) by {
                    if y < i {
                        assert(0 <= y * rsn && y * rsn <= (y + 1) * rsn && (y + 1) * rsn <= i
                            as int * rsn) by (nonlinear_arith)
                            requires
                                0 <= y,
                                y + 1 <= i as int,
                                rsn >= 0,
                        ;
                        lemma_append_keeps_subrange(pre, appended, y * rsn, (y + 1) * rsn);
                    } else {
                        assert((i as int + 1) * rsn == i as int * rsn + rsn) by (nonlinear_arith);
                        lemma_append_tail_subrange(pre, appended);
                    }
                }
                assert((i as int + 1) * rsn == i as int * rsn + rsn) by (nonlinear_arith);
            }
            i += 1;
        }
        let img = Image {
            height: self.height,
            width: self.width,
            color_type: self.color_type,
            data,
        };
        proof {
            assert(img@.row_size() == self@.row_size());
            assert(img@.wf());
            assert forall|y: int| 0 <= y < self@.height implies img@.row(y) == self@.row(
                self@.height - 1 - y,
            ) by {
                assert(img@.row(y) == img@.data.subrange(y * rsn, (y + 1) * rsn));
            }
        }
        Ok(img)
    }

    /// A fresh image in which each row's bytes are reversed wholesale. For
    /// multi-channel layouts this reverses bytes rather than pixel groups,
    /// scrambling the channel order within each pixel; the behavior is kept
    /// as the operation's contract.
    pub fn flip_horizontal(&self) -> (r: Result<Image, ImageError>)
        ensures
            match r {
                Ok(img) => self@.wf() && is_flip_horizontal_of(img@, self@),
                Err(e) => e == ImageError::CorruptBuffer && !self@.wf(),
            },
    {
        if !self.is_well_formed() {
            return Err(ImageError::CorruptBuffer);
        }
        if self.height == 0 {
            let img = Image {
                height: self.height,
                width: self.width,
                color_type: self.color_type,
                data: Vec::new(),
            };
            proof {
                assert(img@.height * img@.row_size() == 0) by (nonlinear_arith)
                    requires
                        img@.height == 0,
                ;
            }
            return Ok(img);
        }
        let n = self.data.len();
        proof {
            lemma_row_size_fits(self@);
        }
        let rs = self.row_size();
        let ghost rsn = self@.row_size() as int;
        let mut data: Vec<u8> = Vec::new();
        let mut i: usize = 0;
        while i < self.height
            invariant
                self@.wf(),
                self@.data.len() <= usize::MAX,
                1 <= self@.height,
                i <= self@.height,
                rs as nat == self@.row_size(),
                rsn == self@.row_size() as int,
                data@.len() == i as int * rsn,
                forall|y: int|
                    0 <= y < i ==> #[trigger] data@.subrange(y * rsn, (y + 1) * rsn) == reversed(
                        self@.row(y),
                    ),
            decreases self@.height - i,
        {
            proof {
                lemma_row_in_bounds(self@, i as int);
            }
            let start = i * rs;
            let ghost pre = data@;
            push_range_reversed(&mut data, &self.data, start, rs);
            proof {
                let appended = reversed(self@.data.subrange(start as int, start as int + rsn));
                assert(self@.data.subrange(start as int, start as int + rsn) == self@.row(i as int));
                assert forall|y: int|
                    0 <= y < i + 1 implies #[trigger] data@.subrange(y * rsn, (y + 1) * rsn)
                    == reversed(self@.row(y)) by {
                    if y < i {
                        assert(0 <= y * rsn && y * rsn <= (y + 1) * rsn && (y + 1) * rsn <= i
                            as int * rsn) by (nonlinear_arith)
                            requires
                                0 <= y,
                                y + 1 <= i as int,
                                rsn >= 0,
                        ;
                        lemma_append_keeps_subrange(pre, appended, y * rsn, (y + 1) * rsn);
                    } else {
                        assert((i as int + 1) * rsn == i as int * rsn + rsn) by (nonlinear_arith);
                        lemma_append_tail_subrange(pre, appended);
                    }
                }
                assert((i as int + 1) * rsn == i as int * rsn + rsn) by (nonlinear_arith);
            }
            i += 1;
        }
        let img = Image {
            height: self.height,
            width: self.width,
            color_type: self.color_type,
            data,
        };
        proof {
            assert(img@.wf());
            assert forall|y: int| 0 <= y < self@.height implies img@.row(y) == reversed(
                self@.row(y),
            ) by {
                assert(img@.row(y) == img@.data.subrange(y * rsn, (y + 1) * rsn));
            }
        }
        Ok(img)
    }

    /// A byte-for-byte copy of this image.
    fn duplicate(&self) -> (img: Image)
        ensures
            img@ == self@,
    {
        let n = self.data.len();
        let mut data: Vec<u8> = Vec::new();
        push_range(&mut data, &self.data, 0, n);
        let img = Image {
            height: self.height,
            width: self.width,
            color_type: self.color_type,
            data,
        };
        proof {
            assert(img@.data =~= self@.data);
            assert(img@ =~= self@);
        }
        img
    }

    /// Removes the first `amt` rows, or none at all when `amt` reaches the
    /// full height.
    fn crop_top(&self, amt: usize) -> (r: Result<Image, ImageError>)
        ensures
            match r {
                Ok(img) => self@.wf() && is_crop_top_of(img@, self@, amt as nat),
                Err(e) => e == ImageError::CorruptBuffer && !self@.wf(),
            },
    {
        if !self.is_well_formed() {
            return Err(ImageError::CorruptBuffer);
        }
        if self.height <= amt {
            return Ok(self.duplicate());
        }
        let n = self.data.len();
        proof {
            lemma_row_size_fits(self@);
        }
        let rs = self.row_size();
        let ghost rsn = self@.row_size() as int;
        proof {
            assert(0 <= amt as int * rsn && amt as int * rsn <= self@.height as int * rsn)
                by (nonlinear_arith)
                requires
                    0 <= amt as int <= self@.height as int,
                    rsn >= 0,
            ;
        }
        let start = amt * rs;
        let count = n - start;
        let mut data: Vec<u8> = Vec::new();
        push_range(&mut data, &self.data, start, count);
        let img = Image {
            height: self.height - amt,
            width: self.width,
            color_type: self.color_type,
            data,
        };
        proof {
            let h = self@.height as int;
            let a = amt as int;
            assert(img@.data =~= self@.data.subrange(a * rsn, n as int));
            assert(n as int - a * rsn == (h - a) * rsn) by (nonlinear_arith)
                requires
                    n as int == h * rsn,
            ;
            assert(img@.wf());
            assert forall|y: int| 0 <= y < img@.height implies img@.row(y) == self@.row(y + a) by {
                lemma_row_in_bounds(img@, y);
                lemma_row_in_bounds(self@, y + a);
                assert((y + a) * rsn == y * rsn + a * rsn) by (nonlinear_arith);
                assert(img@.row(y) =~= self@.row(y + a));
            }
        }
        Ok(img)
    }

    /// Removes the last `amt` rows, or none at all when `amt` reaches the
    /// full height.
    fn crop_bottom(&self, amt: usize) -> (r: Result<Image, ImageError>)
        ensures
            match r {
                Ok(img) => self@.wf() && is_crop_bottom_of(img@, self@, amt as nat),
                Err(e) => e == ImageError::CorruptBuffer && !self@.wf(),
            },
    {
        if !self.is_well_formed() {
            return Err(ImageError::CorruptBuffer);
        }
        if self.height <= amt {
            return Ok(self.duplicate());
        }
        let n = self.data.len();
        proof {
            lemma_row_size_fits(self@);
        }
        let rs = self.row_size();
        let ghost rsn = self@.row_size() as int;
        let keep_rows = self.height - amt;
        proof {
            assert(0 <= keep_rows as int * rsn && keep_rows as int * rsn <= self@.height as int
                * rsn) by (nonlinear_arith)
                requires
                    0 <= keep_rows as int <= self@.height as int,
                    rsn >= 0,
            ;
        }
        let count = keep_rows * rs;
        let mut data: Vec<u8> = Vec::new();
        push_range(&mut data, &self.data, 0, count);
        let img = Image {
            height: keep_rows,
            width: self.width,
            color_type: self.color_type,
            data,
        };
        proof {
            assert(img@.data =~= self@.data.subrange(0, keep_rows as int * rsn));
            assert(img@.wf());
            assert forall|y: int| 0 <= y < img@.height implies img@.row(y) == self@.row(y) by {
                lemma_row_in_bounds(img@, y);
                lemma_row_in_bounds(self@, y);
                assert(img@.row(y) =~= self@.row(y));
            }
        }
        Ok(img)
    }

    /// Removes the first `amt` pixels of every row, or none at all when
    /// `amt` reaches the full width.
    fn crop_left(&self, amt: usize) -> (r: Result<Image, ImageError>)
        ensures
            match r {
                Ok(img) => self@.wf() && is_crop_left_of(img@, self@, amt as nat),
                Err(e) => e == ImageError::CorruptBuffer && !self@.wf(),
            },
    {
        if !self.is_well_formed() {
            return Err(ImageError::CorruptBuffer);
        }
        if self.width <= amt {
            let img = self.duplicate();
            proof {
                assert forall|y: int| 0 <= y < img@.height implies img@.row(y) == self@.row(
                    y,
                ).subrange(0, self@.row_size() as int) by {
                    lemma_row_in_bounds(self@, y);
                    assert(img@.row(y) =~= self@.row(y).subrange(0, self@.row_size() as int));
                }
            }
            return Ok(img);
        }
        if self.height == 0 {
            let img = Image {
                height: self.height,
                width: self.width - amt,
                color_type: self.color_type,
                data: Vec::new(),
            };
            proof {
                assert(img@.height * img@.row_size() == 0) by (nonlinear_arith)
                    requires
                        img@.height == 0,
                ;
            }
            return Ok(img);
        }
        let n = self.data.len();
        proof {
            lemma_row_size_fits(self@);
        }
        let rs = self.row_size();
        let c = self.color_type.num_channels() as usize;
        let ghost rsn = self@.row_size() as int;
        proof {
            assert(0 <= (amt as int) * (c as int) && (amt as int) * (c as int) < (
            self@.width as int) * (c as int) && (self@.width - amt as int) * (c as int) == (
            self@.width as int) * (c as int) - (amt as int) * (c as int)) by (nonlinear_arith)
                requires
                    0 <= amt as int && (amt as int) < (self@.width as int),
                    c as int >= 1,
            ;
        }
        let skip = amt * c;
        let keep = rs - skip;
        let ghost keepn = keep as int;
        let mut data: Vec<u8> = Vec::new();
        let mut i: usize = 0;
        while i < self.height
            invariant
                self@.wf(),
                self@.data.len() <= usize::MAX,
                1 <= self@.height,
                i <= self@.height,
                rs as nat == self@.row_size(),
                rsn == self@.row_size() as int,
                c as nat == self@.color_type.channel_count(),
                amt < self@.width,
                skip as int == amt as int * c as int,
                keep as int == rsn - skip as int,
                keepn == keep as int,
                data@.len() == i as int * keepn,
                forall|y: int|
                    0 <= y < i ==> #[trigger] data@.subrange(y * keepn, (y + 1) * keepn)
                        == self@.row(y).subrange(skip as int, rsn),
            decreases self@.height - i,
        {
            proof {
                lemma_row_in_bounds(self@, i as int);
            }
            let start = i * rs + skip;
            let ghost pre = data@;
            push_range(&mut data, &self.data, start, keep);
            proof {
                let appended = self@.data.subrange(start as int, start as int + keepn);
                assert(appended =~= self@.row(i as int).subrange(skip as int, rsn));
                assert forall|y: int|
                    0 <= y < i + 1 implies #[trigger] data@.subrange(y * keepn, (y + 1) * keepn)
                    == self@.row(y).subrange(skip as int, rsn) by {
                    if y < i {
                        assert(0 <= y * keepn && y * keepn <= (y + 1) * keepn && (y + 1) * keepn
                            <= i as int * keepn) by (nonlinear_arith)
                            requires
                                0 <= y,
                                y + 1 <= i as int,
                                keepn >= 0,
                        ;
                        lemma_append_keeps_subrange(pre, appended, y * keepn, (y + 1) * keepn);
                    } else {
                        assert((i as int + 1) * keepn == i as int * keepn + keepn)
                            by (nonlinear_arith);
                        lemma_append_tail_subrange(pre, appended);
                    }
                }
                assert((i as int + 1) * keepn == i as int * keepn + keepn) by (nonlinear_arith);
            }
            i += 1;
        }
        let img = Image {
            height: self.height,
            width: self.width - amt,
            color_type: self.color_type,
            data,
        };
        proof {
            assert(img@.row_size() == keepn) by (nonlinear_arith)
                requires
                    img@.row_size() == (self@.width - amt as int) * c as int,
                    keepn == self@.width as int * c as int - amt as int * c as int,
                    rsn == self@.width as int * c as int,
            ;
            assert(img@.wf());
            assert forall|y: int| 0 <= y < img@.height implies img@.row(y) == self@.row(y).subrange(
                skip as int,
                rsn,
            ) by {
                assert(img@.row(y) == img@.data.subrange(y * keepn, (y + 1) * keepn));
            }
        }
        Ok(img)
    }

    /// Removes the last `amt` pixels of every row, or none at all when
    /// `amt` reaches the full width.
    fn crop_right(&self, amt: usize) -> (r: Result<Image, ImageError>)
        ensures
            match r {
                Ok(img) => self@.wf() && is_crop_right_of(img@, self@, amt as nat),
                Err(e) => e == ImageError::CorruptBuffer && !self@.wf(),
            },
    {
        if !self.is_well_formed() {
            return Err(ImageError::CorruptBuffer);
        }
        if self.width <= amt {
            let img = self.duplicate();
            proof {
                assert forall|y: int| 0 <= y < img@.height implies img@.row(y) == self@.row(
                    y,
                ).subrange(0, self@.row_size() as int) by {
                    lemma_row_in_bounds(self@, y);
                    assert(img@.row(y) =~= self@.row(y).subrange(0, self@.row_size() as int));
                }
            }
            return Ok(img);
        }
        if self.height == 0 {
            let img = Image {
                height: self.height,
                width: self.width - amt,
                color_type: self.color_type,
                data: Vec::new(),
            };
            proof {
                assert(img@.height * img@.row_size() == 0) by (nonlinear_arith)
                    requires
                        img@.height == 0,
                ;
            }
            return Ok(img);
        }
        let n = self.data.len();
        proof {
            lemma_row_size_fits(self@);
        }
        let rs = self.row_size();
        let c = self.color_type.num_channels() as usize;
        let ghost rsn = self@.row_size() as int;
        proof {
            assert(0 <= (amt as int) * (c as int) && (amt as int) * (c as int) < (
            self@.width as int) * (c as int) && (self@.width - amt as int) * (c as int) == (
            self@.width as int) * (c as int) - (amt as int) * (c as int)) by (nonlinear_arith)
                requires
                    0 <= amt as int && (amt as int) < (self@.width as int),
                    c as int >= 1,
            ;
        }
        let keep = rs - amt * c;
        let ghost keepn = keep as int;
        let mut data: Vec<u8> = Vec::new();
        let mut i: usize = 0;
        while i < self.height
            invariant
                self@.wf(),
                self@.data.len() <= usize::MAX,
                1 <= self@.height,
                i <= self@.height,
                rs as nat == self@.row_size(),
                rsn == self@.row_size() as int,
                c as nat == self@.color_type.channel_count(),
                amt < self@.width,
                keep as int == rsn - amt as int * c as int,
                keepn == keep as int,
                data@.len() == i as int * keepn,
                forall|y: int|
                    0 <= y < i ==> #[trigger] data@.subrange(y * keepn, (y + 1) * keepn)
                        == self@.row(y).subrange(0, keepn),
            decreases self@.height - i,
        {
            proof {
                lemma_row_in_bounds(self@, i as int);
            }
            let start = i * rs;
            let ghost pre = data@;
            push_range(&mut data, &self.data, start, keep);
            proof {
                let appended = self@.data.subrange(start as int, start as int + keepn);
                assert(appended =~= self@.row(i as int).subrange(0, keepn));
                assert forall|y: int|
                    0 <= y < i + 1 implies #[trigger] data@.subrange(y * keepn, (y + 1) * keepn)
                    == self@.row(y).subrange(0, keepn) by {
                    if y < i {
                        assert(0 <= y * keepn && y * keepn <= (y + 1) * keepn && (y + 1) * keepn
                            <= i as int * keepn) by (nonlinear_arith)
                            requires
                                0 <= y,
                                y + 1 <= i as int,
                                keepn >= 0,
                        ;
                        lemma_append_keeps_subrange(pre, appended, y * keepn, (y + 1) * keepn);
                    } else {
                        assert((i as int + 1) * keepn == i as int * keepn + keepn)
                            by (nonlinear_arith);
                        lemma_append_tail_subrange(pre, appended);
                    }
                }
                assert((i as int + 1) * keepn == i as int * keepn + keepn) by (nonlinear_arith);
            }
            i += 1;
        }
        let img = Image {
            height: self.height,
            width: self.width - amt,
            color_type: self.color_type,
            data,
        };
        proof {
            assert(img@.row_size() == keepn) by (nonlinear_arith)
                requires
                    img@.row_size() == (self@.width - amt as int) * c as int,
                    keepn == self@.width as int * c as int - amt as int * c as int,
                    rsn == self@.width as int * c as int,
            ;
            assert(img@.wf());
            assert forall|y: int| 0 <= y < img@.height implies img@.row(y) == self@.row(y).subrange(
                0,
                keepn,
            ) by {
                assert(img@.row(y) == img@.data.subrange(y * keepn, (y + 1) * keepn));
            }
        }
        Ok(img)
    }

    /// Trims the four edges: `top` rows from the start, `bottom` rows from
    /// the end, then `left` and `right` pixels from each remaining row. A
    /// directional amount that reaches or exceeds the current extent trims
    /// nothing along that axis; layout is unchanged.
    pub fn crop(&self, left: usize, right: usize, top: usize, bottom: usize) -> (r: Result<
        Image,
        ImageError,
    >)
        ensures
            match r {
                Ok(img) => self@.wf() && is_crop_of(
                    img@,
                    self@,
                    left as nat,
                    right as nat,
                    top as nat,
                    bottom as nat,
                ),
                Err(e) => e == ImageError::CorruptBuffer && !self@.wf(),
            },
    {
        let top_cropped = self.crop_top(top)?;
        let bottom_cropped = top_cropped.crop_bottom(bottom)?;
        let left_cropped = bottom_cropped.crop_left(left)?;
        let right_cropped = left_cropped.crop_right(right)?;
        proof {
            lemma_crop_stages(
                self@,
                top_cropped@,
                bottom_cropped@,
                left_cropped@,
                right_cropped@,
                left as nat,
                right as nat,
                top as nat,
                bottom as nat,
            );
        }
        Ok(right_cropped)
    }

    /// A fresh image of the same dimensions re-encoded in the `color_type`
    /// layout: every pixel is converted independently by the pixel conversion
    /// rules and repacked in row-major order.
    pub fn convert(&self, color_type: ColorType) -> (r: Result<Image, ImageError>)
        ensures
            match r {
                Ok(img) => self@.wf() && is_convert_of(img@, self@, color_type),
                Err(e) => e == ImageError::CorruptBuffer && !self@.wf(),
            },
    {
        if !self.is_well_formed() {
            return Err(ImageError::CorruptBuffer);
        }
        let ghost ncn = color_type.channel_count() as int;
        let ghost w = self@.width as int;
        let ghost h = self@.height as int;
        let mut data: Vec<u8> = Vec::new();
        let mut y: usize = 0;
        while y < self.height
            invariant
                self@.wf(),
                y <= self@.height,
                ncn == color_type.channel_count() as int,
                w == self@.width as int,
                h == self@.height as int,
                data@.len() == (y as int * w) * ncn,
                forall|pi: int|
                    0 <= pi < y as int * w ==> #[trigger] data@.subrange(pi * ncn, pi * ncn + ncn)
                        == self@.pixel(pi % w, pi / w).spec_convert(color_type).channel_seq(),
            decreases self@.height - y,
        {
            let mut x: usize = 0;
            while x < self.width
                invariant
                    self@.wf(),
                    y < self@.height,
                    x <= self@.width,
                    ncn == color_type.channel_count() as int,
                    w == self@.width as int,
                    h == self@.height as int,
                    data@.len() == (y as int * w + x as int) * ncn,
                    forall|pi: int|
                        0 <= pi < y as int * w + x as int ==> #[trigger] data@.subrange(
                            pi * ncn,
                            pi * ncn + ncn,
                        ) == self@.pixel(pi % w, pi / w).spec_convert(color_type).channel_seq(),
                decreases self@.width - x,
            {
                let converted = self.read_pixel(x, y).convert(color_type);
                let mut bytes = converted.into_vec();
                let ghost pre = data@;
                data.append(&mut bytes);
                proof {
                    let pi = y as int * w + x as int;
                    lemma_channel_seq_len(converted);
                    lemma_append_tail_subrange(pre, converted.channel_seq());
                    assert((pi + 1) * ncn == pi * ncn + ncn) by (nonlinear_arith);
                    assert forall|q: int|
                        0 <= q < pi + 1 implies #[trigger] data@.subrange(q * ncn, q * ncn + ncn)
                        == self@.pixel(q % w, q / w).spec_convert(color_type).channel_seq() by {
                        if q < pi {
                            assert(0 <= q * ncn && q * ncn + ncn <= pi * ncn) by (nonlinear_arith)
                                requires
                                    0 <= q,
                                    q + 1 <= pi,
                                    ncn >= 0,
                            ;
                            lemma_append_keeps_subrange(
                                pre,
                                converted.channel_seq(),
                                q * ncn,
                                q * ncn + ncn,
                            );
                        } else {
                            lemma_fundamental_div_mod_converse(pi, w, y as int, x as int);
                        }
                    }
                }
                x += 1;
            }
            proof {
                assert((y as int + 1) * w == y as int * w + w) by (nonlinear_arith);
            }
            y += 1;
        }
        let img = Image {
            height: self.height,
            width: self.width,
            color_type,
            data,
        };
        proof {
            assert((h * w) * ncn == h * (w * ncn)) by (nonlinear_arith);
            assert(img@.wf());
            assert forall|x: int, yy: int|
                0 <= x < self@.width && 0 <= yy < self@.height implies img@.pixel(x, yy)
                == self@.pixel(x, yy).spec_convert(color_type) by {
                let pi = yy * w + x;
                lemma_fundamental_div_mod_converse(pi, w, yy, x);
                assert(0 <= pi && pi < h * w && yy * (w * ncn) + x * ncn == pi * ncn)
                    by (nonlinear_arith)
                    requires
                        0 <= x < w,
                        0 <= yy < h,
                        pi == yy * w + x,
                        ncn >= 0,
                ;
                assert(data@.subrange(pi * ncn, pi * ncn + ncn) == self@.pixel(x, yy).spec_convert(
                    color_type,
                ).channel_seq());
                lemma_spec_convert_layout(self@.pixel(x, yy), color_type);
                lemma_from_channel_seq_roundtrip(self@.pixel(x, yy).spec_convert(color_type));
            }
        }
        Ok(img)
    }
}

/// A vertically flipped image has the same geometry and layout, and its row
/// `y` holds the source's row `height - 1 - y`.
pub open spec fn is_flip_vertical_of(flipped: ImageView, source: ImageView) -> bool {
    &&& flipped.width == source.width
    &&& flipped.height == source.height
    &&& flipped.color_type == source.color_type
    &&& flipped.wf()
    &&& forall|y: int|
        0 <= y < source.height ==> flipped.row(y) == source.row(source.height - 1 - y)
}

/// A horizontally flipped image has the same geometry and layout, and each of
/// its rows holds the source row's bytes in reverse order — bytes, not
/// pixels, so multi-channel layouts come out with their channels scrambled.
pub open spec fn is_flip_horizontal_of(flipped: ImageView, source: ImageView) -> bool {
    &&& flipped.width == source.width
    &&& flipped.height == source.height
    &&& flipped.color_type == source.color_type
    &&& flipped.wf()
    &&& forall|y: int| 0 <= y < source.height ==> flipped.row(y) == reversed(source.row(y))
}

/// The amount a directional crop actually removes: the request, unless it
/// reaches or exceeds the current extent, in which case nothing is removed.
pub open spec fn applied_crop(amount: nat, extent: nat) -> nat {
    if extent <= amount {
        0
    } else {
        amount
    }
}

/// A top-cropped image drops its first `amount` rows — or none at all when
/// `amount` reaches the full height.
pub open spec fn is_crop_top_of(cropped: ImageView, source: ImageView, amount: nat) -> bool {
    let ap = applied_crop(amount, source.height);
    &&& cropped.width == source.width
    &&& cropped.height == source.height - ap
    &&& cropped.color_type == source.color_type
    &&& cropped.wf()
    &&& forall|y: int| 0 <= y < cropped.height ==> cropped.row(y) == source.row(y + ap)
}

/// A bottom-cropped image drops its last `amount` rows — or none at all when
/// `amount` reaches the full height.
pub open spec fn is_crop_bottom_of(cropped: ImageView, source: ImageView, amount: nat) -> bool {
    let ap = applied_crop(amount, source.height);
    &&& cropped.width == source.width
    &&& cropped.height == source.height - ap
    &&& cropped.color_type == source.color_type
    &&& cropped.wf()
    &&& forall|y: int| 0 <= y < cropped.height ==> cropped.row(y) == source.row(y)
}

/// A left-cropped image drops the first `amount` pixels of every row — or
/// none at all when `amount` reaches the full width.
pub open spec fn is_crop_left_of(cropped: ImageView, source: ImageView, amount: nat) -> bool {
    let ap = applied_crop(amount, source.width);
    let c = source.color_type.channel_count();
    &&& cropped.width == source.width - ap
    &&& cropped.height == source.height
    &&& cropped.color_type == source.color_type
    &&& cropped.wf()
    &&& forall|y: int|
        0 <= y < cropped.height ==> cropped.row(y) == source.row(y).subrange(
            (ap * c) as int,
            source.row_size() as int,
        )
}

/// A right-cropped image drops the last `amount` pixels of every row — or
/// none at all when `amount` reaches the full width.
pub open spec fn is_crop_right_of(cropped: ImageView, source: ImageView, amount: nat) -> bool {
    let ap = applied_crop(amount, source.width);
    let c = source.color_type.channel_count();
    &&& cropped.width == source.width - ap
    &&& cropped.height == source.height
    &&& cropped.color_type == source.color_type
    &&& cropped.wf()
    &&& forall|y: int|
        0 <= y < cropped.height ==> cropped.row(y) == source.row(y).subrange(
            0,
            ((source.width - ap) * c) as int,
        )
}

/// A cropped image is the sub-rectangle left after trimming the four edges:
/// first `top` rows from the start and `bottom` rows from the end, then
/// `left` and `right` pixels of every remaining row. Each directional trim
/// that reaches or exceeds the extent removes nothing along that axis.
pub open spec fn is_crop_of(
    cropped: ImageView,
    source: ImageView,
    left: nat,
    right: nat,
    top: nat,
    bottom: nat,
) -> bool {
    let at = applied_crop(top, source.height);
    let ab = applied_crop(bottom, (source.height - at) as nat);
    let al = applied_crop(left, source.width);
    let ar = applied_crop(right, (source.width - al) as nat);
    let c = source.color_type.channel_count();
    &&& cropped.height == source.height - at - ab
    &&& cropped.width == source.width - al - ar
    &&& cropped.color_type == source.color_type
    &&& cropped.wf()
    &&& forall|y: int|
        0 <= y < cropped.height ==> cropped.row(y) == source.row(y + at).subrange(
            (al * c) as int,
            ((source.width - ar) * c) as int,
        )
}

/// A converted image keeps its dimensions, carries the target layout, and
/// holds each source pixel converted independently by the pixel rules.
pub open spec fn is_convert_of(converted: ImageView, source: ImageView, target: ColorType) -> bool {
    &&& converted.width == source.width
    &&& converted.height == source.height
    &&& converted.color_type == target
    &&& converted.wf()
    &&& forall|x: int, y: int|
        0 <= x < source.width && 0 <= y < source.height ==> converted.pixel(x, y) == source.pixel(
            x,
            y,
        ).spec_convert(target)
}

/// Trimming top, then bottom, then left, then right edges produces exactly
/// the sub-rectangle that `is_crop_of` describes.
proof fn lemma_crop_stages(
    source: ImageView,
    stage_top: ImageView,
    stage_bottom: ImageView,
    stage_left: ImageView,
    stage_right: ImageView,
    left: nat,
    right: nat,
    top: nat,
    bottom: nat,
)
    requires
        source.wf(),
        is_crop_top_of(stage_top, source, top),
        is_crop_bottom_of(stage_bottom, stage_top, bottom),
        is_crop_left_of(stage_left, stage_bottom, left),
        is_crop_right_of(stage_right, stage_left, right),
    ensures
        is_crop_of(stage_right, source, left, right, top, bottom),
{
    let at = applied_crop(top, source.height);
    let ab = applied_crop(bottom, (source.height - at) as nat);
    let al = applied_crop(left, source.width);
    let ar = applied_crop(right, (source.width - al) as nat);
    let c = source.color_type.channel_count() as int;
    let w = source.width as int;
    assert(stage_right.height == source.height - at - ab);
    assert(stage_right.width == source.width - al - ar);
    assert forall|y: int| 0 <= y < stage_right.height implies stage_right.row(y) == source.row(
        y + at,
    ).subrange(al * c, (source.width - ar) * c) by {
        assert(stage_right.row(y) == stage_left.row(y).subrange(0, (w - al - ar) * c));
        assert(stage_left.row(y) == stage_bottom.row(y).subrange(al * c, stage_bottom.row_size() as int));
        assert(stage_bottom.row(y) == stage_top.row(y));
        assert(stage_top.row(y) == source.row(y + at));
        lemma_row_in_bounds(source, y + at);
        assert(source.row(y + at).len() == w * c);
        assert(0 <= al * c && al * c <= (w - ar) * c && (w - ar) * c <= w * c && al * c + (w - al
            - ar) * c == (w - ar) * c) by (nonlinear_arith)
            requires
                0 <= al,
                0 <= ar,
                al + ar <= w,
                c >= 0,
        ;
        assert(stage_bottom.row_size() == w * c);
        assert(source.row(y + at).subrange(al * c, w * c).subrange(0, (w - al - ar) * c)
            =~= source.row(y + at).subrange(al * c, (w - ar) * c));
    }
}

/// Copies `src[start .. start + count]` onto the end of `dst`.
fn push_range(dst: &mut Vec<u8>, src: &Vec<u8>, start: usize, count: usize)
    requires
        start + count <= src@.len(),
    ensures
        final(dst)@ == old(dst)@ + src@.subrange(start as int, start as int + count as int),
{
    let n = src.len();
    let mut j: usize = 0;
    while j < count
        invariant
            start + count <= src@.len(),
            src@.len() <= usize::MAX,
            j <= count,
            dst@ == old(dst)@ + src@.subrange(start as int, start as int + j as int),
        decreases count - j,
    {
        dst.push(src[start + j]);
        proof {
            assert(dst@ =~= old(dst)@ + src@.subrange(
                start as int,
                start as int + (j + 1) as int,
            ));
        }
        j += 1;
    }
}

/// Copies `src[start .. start + count]` onto the end of `dst` in reverse
/// byte order.
fn push_range_reversed(dst: &mut Vec<u8>, src: &Vec<u8>, start: usize, count: usize)
    requires
        start + count <= src@.len(),
    ensures
        final(dst)@ == old(dst)@ + reversed(src@.subrange(start as int, start as int + count as int)),
{
    let n = src.len();
    let mut j: usize = 0;
    while j < count
        invariant
            start + count <= src@.len(),
            src@.len() <= usize::MAX,
            j <= count,
            dst@.len() == old(dst)@.len() + j,
            forall|k: int| 0 <= k < old(dst)@.len() ==> dst@[k] == old(dst)@[k],
            forall|k: int|
                old(dst)@.len() <= k < dst@.len() ==> #[trigger] dst@[k] == src@[start + count - 1
                    - (k - old(dst)@.len())],
        decreases count - j,
    {
        dst.push(src[start + count - 1 - j]);
        j += 1;
    }
    proof {
        assert(dst@ =~= old(dst)@ + reversed(
            src@.subrange(start as int, start as int + count as int),
        ));
    }
}

/// Appending bytes to a sequence leaves an existing subrange unchanged.
proof fn lemma_append_keeps_subrange(a: Seq<u8>, b: Seq<u8>, i: int, j: int)
    requires
        0 <= i <= j <= a.len(),
    ensures
        (a + b).subrange(i, j) == a.subrange(i, j),
{
    assert((a + b).subrange(i, j) =~= a.subrange(i, j));
}

/// The subrange that covers appended bytes is the appended bytes themselves.
proof fn lemma_append_tail_subrange(a: Seq<u8>, b: Seq<u8>)
    ensures
        (a + b).subrange(a.len() as int, (a.len() + b.len()) as int) == b,
{
    assert((a + b).subrange(a.len() as int, (a.len() + b.len()) as int) =~= b);
}

/// A well-formed image with at least one row has a row size no larger than
/// its buffer.
proof fn lemma_row_size_fits(v: ImageView)
    requires
        v.wf(),
        v.height >= 1,
    ensures
        v.row_size() <= v.data.len(),
{
    assert(v.row_size() <= v.height * v.row_size()) by (nonlinear_arith)
        requires
            v.height >= 1,
    ;
}

/// Row `y` of a well-formed image lies inside the buffer and holds exactly
/// `row_size` bytes.
proof fn lemma_row_in_bounds(v: ImageView, y: int)
    requires
        v.wf(),
        0 <= y < v.height,
    ensures
        0 <= y * v.row_size(),
        (y + 1) * v.row_size() == y * v.row_size() + v.row_size(),
        y * v.row_size() + v.row_size() <= v.data.len(),
        v.row(y).len() == v.row_size(),
{
    let rs = v.row_size() as int;
    assert((y + 1) * rs == y * rs + rs && 0 <= y * rs && (y + 1) * rs <= v.height * rs)
        by (nonlinear_arith)
        requires
            0 <= y < v.height,
            rs >= 0,
    ;
}

/// Two well-formed images of the same geometry and layout whose rows all
/// agree hold the same bytes.
pub proof fn lemma_rows_determine_data(a: ImageView, b: ImageView)
    requires
        a.wf(),
        b.wf(),
        a.width == b.width,
        a.height == b.height,
        a.color_type == b.color_type,
        forall|y: int| 0 <= y < a.height ==> a.row(y) == b.row(y),
    ensures
        a.data == b.data,
{
    let rs = a.row_size() as int;
    let len = a.data.len() as int;
    assert forall|k: int| 0 <= k < len implies a.data[k] == b.data[k] by {
        assert(rs > 0) by (nonlinear_arith)
            requires
                a.height * a.row_size() > 0,
                rs == a.row_size() as int,
        ;
        let y = k / rs;
        let off = k % rs;
        lemma_mod_pos_bound(k, rs);
        lemma_fundamental_div_mod(k, rs);
        assert(a.height as int * rs == rs * a.height as int && y * rs == rs * y)
            by (nonlinear_arith);
        lemma_multiply_divide_lt(k, rs, a.height as int);
        lemma_row_in_bounds(a, y);
        lemma_row_in_bounds(b, y);
        assert(a.row(y) == b.row(y));
        assert(a.row(y)[off] == a.data[y * rs + off]);
        assert(b.row(y)[off] == b.data[y * rs + off]);
    }
    assert(a.data =~= b.data);
}

/// Under one layout, a pixel determines its channel bytes: two byte runs of
/// the layout's length that read as the same pixel are the same bytes.
proof fn lemma_from_bytes_injective(ct: ColorType, s1: Seq<u8>, s2: Seq<u8>)
    requires
        s1.len() == ct.channel_count(),
        s2.len() == ct.channel_count(),
        Pixel::from_bytes(ct, s1) == Pixel::from_bytes(ct, s2),
    ensures
        s1 == s2,
{
    match ct {
        ColorType::Gray() => assert(s1 =~= s2),
        ColorType::RGB() => assert(s1 =~= s2),
        ColorType::RGBAlpha() => assert(s1 =~= s2),
        ColorType::GrayAlpha() => assert(s1 =~= s2),
    }
}

/// Two well-formed images of the same geometry and layout whose pixels all
/// agree hold the same bytes.
pub proof fn lemma_pixels_determine_data(a: ImageView, b: ImageView)
    requires
        a.wf(),
        b.wf(),
        a.width == b.width,
        a.height == b.height,
        a.color_type == b.color_type,
        forall|x: int, y: int|
            0 <= x < a.width && 0 <= y < a.height ==> a.pixel(x, y) == b.pixel(x, y),
    ensures
        a.data == b.data,
{
    let c = a.color_type.channel_count() as int;
    let rs = a.row_size() as int;
    let w = a.width as int;
    let h = a.height as int;
    let len = a.data.len() as int;
    assert forall|k: int| 0 <= k < len implies a.data[k] == b.data[k] by {
        assert(c >= 1);
        assert(rs > 0 && w > 0) by (nonlinear_arith)
            requires
                a.height * a.row_size() > 0,
                rs == a.row_size() as int,
                rs == w * c,
                c >= 1,
        ;
        let y = k / rs;
        let rem = k % rs;
        lemma_mod_pos_bound(k, rs);
        lemma_fundamental_div_mod(k, rs);
        assert(rs * h == h * rs && y * rs == rs * y) by (nonlinear_arith);
        lemma_multiply_divide_lt(k, rs, h);
        let x = rem / c;
        let j = rem % c;
        lemma_mod_pos_bound(rem, c);
        lemma_fundamental_div_mod(rem, c);
        assert(c * w == w * c && x * c == c * x) by (nonlinear_arith);
        lemma_multiply_divide_lt(rem, c, w);
        lemma_pixel_offset_in_bounds(a, x, y);
        let off = y * rs + x * c;
        assert(k == off + j);
        let sa = a.data.subrange(off, off + c);
        let sb = b.data.subrange(off, off + c);
        assert(a.pixel(x, y) == b.pixel(x, y));
        lemma_from_bytes_injective(a.color_type, sa, sb);
        assert(a.data[k] == sa[j]);
        assert(b.data[k] == sb[j]);
    }
    assert(a.data =~= b.data);
}

/// Flipping an image vertically twice reproduces it exactly: the flip is a
/// pure row permutation that is its own inverse.
pub proof fn lemma_flip_vertical_involution(source: ImageView, once: ImageView, twice: ImageView)
    requires
        source.wf(),
        is_flip_vertical_of(once, source),
        is_flip_vertical_of(twice, once),
    ensures
        twice.width == source.width,
        twice.height == source.height,
        twice.color_type == source.color_type,
        twice.data == source.data,
{
    let h = source.height as int;
    assert forall|y: int| 0 <= y < twice.height implies twice.row(y) == source.row(y) by {
        assert(twice.row(y) == once.row(h - 1 - y));
        assert(once.row(h - 1 - y) == source.row(h - 1 - (h - 1 - y)));
    }
    lemma_rows_determine_data(twice, source);
}

/// Converting a gray image up to any layout and back down to gray recovers
/// the image exactly: replication followed by the luminance rule is the
/// identity on equal channels.
pub proof fn lemma_convert_gray_round_trip(
    source: ImageView,
    up: ImageView,
    back: ImageView,
    mid: ColorType,
)
    requires
        source.wf(),
        source.color_type == ColorType::Gray(),
        is_convert_of(up, source, mid),
        is_convert_of(back, up, ColorType::Gray()),
    ensures
        back.width == source.width,
        back.height == source.height,
        back.color_type == source.color_type,
        back.data == source.data,
{
    assert forall|x: int, y: int|
        0 <= x < source.width && 0 <= y < source.height implies back.pixel(x, y) == source.pixel(
        x,
        y,
    ) by {
        let p = source.pixel(x, y);
        match p {
            Pixel::Gray(g) => lemma_gray_round_trip(g, mid),
            _ => {},
        }
    }
    lemma_pixels_determine_data(back, source);
}

/// Converting an image without an alpha channel to a layout with one makes
/// every pixel fully opaque: each converted pixel carries alpha 255.
pub proof fn lemma_convert_alpha_defaulting(
    source: ImageView,
    converted: ImageView,
    target: ColorType,
)
    requires
        source.wf(),
        source.color_type == ColorType::Gray() || source.color_type == ColorType::RGB(),
        target == ColorType::RGBAlpha() || target == ColorType::GrayAlpha(),
        is_convert_of(converted, source, target),
    ensures
        forall|x: int, y: int|
            0 <= x < converted.width && 0 <= y < converted.height ==> (#[trigger] converted.pixel(
                x,
                y,
            )).alpha() == Some(255u8),
{
    assert forall|x: int, y: int|
        0 <= x < converted.width && 0 <= y < converted.height implies (#[trigger] converted.pixel(
        x,
        y,
    )).alpha() == Some(255u8) by {
        let p = source.pixel(x, y);
        assert(p.alpha() is None);
        lemma_alpha_defaulting(p, target);
    }
}

/// A crop whose applied amounts are all zero changes nothing.
proof fn lemma_crop_applied_zero(
    source: ImageView,
    cropped: ImageView,
    left: nat,
    right: nat,
    top: nat,
    bottom: nat,
)
    requires
        source.wf(),
        is_crop_of(cropped, source, left, right, top, bottom),
        applied_crop(top, source.height) == 0,
        applied_crop(bottom, source.height) == 0,
        applied_crop(left, source.width) == 0,
        applied_crop(right, source.width) == 0,
    ensures
        cropped.width == source.width,
        cropped.height == source.height,
        cropped.color_type == source.color_type,
        cropped.data == source.data,
{
    let c = source.color_type.channel_count() as int;
    let w = source.width as int;
    assert forall|y: int| 0 <= y < cropped.height implies cropped.row(y) == source.row(y) by {
        lemma_row_in_bounds(source, y);
        assert(source.row(y).subrange(0, w * c) =~= source.row(y));
    }
    lemma_rows_determine_data(cropped, source);
}

/// Cropping nothing — all four amounts zero — returns an image equal to the
/// input.
pub proof fn lemma_crop_zero_is_identity(source: ImageView, cropped: ImageView)
    requires
        source.wf(),
        is_crop_of(cropped, source, 0, 0, 0, 0),
    ensures
        cropped.width == source.width,
        cropped.height == source.height,
        cropped.color_type == source.color_type,
        cropped.data == source.data,
{
    lemma_crop_applied_zero(source, cropped, 0, 0, 0, 0);
}

/// A left crop of the full width or more refuses to shrink past the extent
/// and returns the input unchanged rather than an empty image.
pub proof fn lemma_crop_left_overshoot_is_identity(
    source: ImageView,
    cropped: ImageView,
    left: nat,
)
    requires
        source.wf(),
        left >= source.width,
        is_crop_of(cropped, source, left, 0, 0, 0),
    ensures
        cropped.width == source.width,
        cropped.height == source.height,
        cropped.color_type == source.color_type,
        cropped.data == source.data,
{
    lemma_crop_applied_zero(source, cropped, left, 0, 0, 0);
}

/// In a well-formed image, the byte range of a pixel in bounds lies inside
/// the buffer, and a fortiori the row size fits the buffer.
proof fn lemma_pixel_offset_in_bounds(v: ImageView, x: int, y: int)
    requires
        v.wf(),
        0 <= x < v.width,
        0 <= y < v.height,
    ensures
        y * v.row_size() + x * v.color_type.channel_count() + v.color_type.channel_count() <= v.data.len(),
        v.row_size() <= v.data.len(),
{
    let c = v.color_type.channel_count();
    let w = v.width;
    let h = v.height;
    assert(y * (w * c) + x * c + c <= h * (w * c) && w * c <= h * (w * c)) by (nonlinear_arith)
        requires
            0 <= x < w,
            0 <= y < h,
            c >= 1,
    ;
}

} // verus!
