use vstd::prelude::*;

use crate::zlib::InflateError;

verus! {

/// Why an image could not be read.
#[derive(Debug, Clone, Copy, PartialEq, Eq)]
pub enum ImageError {
    /// The file does not start with the PNG signature.
    NotAPng,
    /// The chunks ended without an IEND chunk.
    IendMissing,
    /// There is no IHDR chunk.
    IhdrMissing,
    /// There is no IDAT chunk.
    IdatMissing,
    /// The file does not start with `BM`.
    NotABitmap,
    /// The bitmap is compressed with the given method.
    UnsupportedCompression(u32),
    /// The bitmap header has the given, unsupported, size.
    UnsupportedHeaderSize(u32),
    /// The image has the given, unsupported, number of bits per pixel.
    UnsupportedBpp(u8),
    /// The file ends before what it announces.
    Truncated,
    /// A second IHDR chunk.
    DuplicateHeader,
    /// A size computed from the header does not fit in 32 bits.
    SizeOverflow,
    /// The image data is too short to hold the zlib header.
    MissingZlibHeader,
    /// The compressed image data could not be decoded.
    Inflate(InflateError),
    /// A scanline names the given, unknown, filter.
    InvalidFilter(u8),
    /// The average filter's sum of two bytes exceeds 255.
    FilterOverflow,
    /// The decoded image data ends before the last scanline does.
    ImageDataTruncated,
}

/// The integer type of one color channel. Values convert through the full
/// 32-bit depth, keeping their most significant bits.
pub trait ColorDepth: Sized + Copy {
    /// The channel value 0.
    const DEFAULT: Self;

    /// The channel value that a full-depth value `x` becomes.
    spec fn spec_from_full_color(x: u32) -> Self;

    /// The full-depth value of a channel value.
    spec fn spec_to_full_color(v: Self) -> u32;

    fn from_full_color(x: u32) -> (r: Self)
        ensures
            r == Self::spec_from_full_color(x),
    ;

    fn to_full_color(&self) -> (r: u32)
        ensures
            r == Self::spec_to_full_color(*self),
    ;

    /// A channel value survives the trip to full depth and back.
    proof fn lemma_full_color_roundtrip(v: Self)
        ensures
            Self::spec_from_full_color(Self::spec_to_full_color(v)) == v,
    ;
}

impl ColorDepth for u8 {
    const DEFAULT: Self = 0;

    open spec fn spec_from_full_color(x: u32) -> u8 {
        (x / 0x1000000) as u8
    }

    open spec fn spec_to_full_color(v: u8) -> u32 {
        (v * 0x1000000) as u32
    }

    fn from_full_color(x: u32) -> (r: u8) {
        assert((x >> 24u32) as u8 == (x / 0x1000000) as u8) by (bit_vector);
        (x >> 24u32) as u8
    }

    fn to_full_color(&self) -> (r: u32) {
        let v = *self;
        assert((v as u32) << 24u32 == (v * 0x1000000) as u32) by (bit_vector);
        (v as u32) << 24u32
    }

    proof fn lemma_full_color_roundtrip(v: u8) {
        assert(((v * 0x1000000) as u32 / 0x1000000) as u8 == v) by (bit_vector);
    }
}

impl ColorDepth for u16 {
    const DEFAULT: Self = 0;

    open spec fn spec_from_full_color(x: u32) -> u16 {
        (x / 0x10000) as u16
    }

    open spec fn spec_to_full_color(v: u16) -> u32 {
        (v * 0x10000) as u32
    }

    fn from_full_color(x: u32) -> (r: u16) {
        assert((x >> 16u32) as u16 == (x / 0x10000) as u16) by (bit_vector);
        (x >> 16u32) as u16
    }

    fn to_full_color(&self) -> (r: u32) {
        let v = *self;
        assert((v as u32) << 16u32 == (v * 0x10000) as u32) by (bit_vector);
        (v as u32) << 16u32
    }

    proof fn lemma_full_color_roundtrip(v: u16) {
        assert(((v * 0x10000) as u32 / 0x10000) as u16 == v) by (bit_vector);
    }
}

impl ColorDepth for u32 {
    const DEFAULT: Self = 0;

    open spec fn spec_from_full_color(x: u32) -> u32 {
        x
    }

    open spec fn spec_to_full_color(v: u32) -> u32 {
        v
    }

    fn from_full_color(x: u32) -> (r: u32) {
        x
    }

    fn to_full_color(&self) -> (r: u32) {
        *self
    }

    proof fn lemma_full_color_roundtrip(v: u32) {
    }
}

/// The channel value `v` at the depth `U`.
pub fn convert_depth<S: ColorDepth, U: ColorDepth>(v: &S) -> (r: U)
    ensures
        r == U::spec_from_full_color(S::spec_to_full_color(*v)),
{
    U::from_full_color(v.to_full_color())
}

/// Widening a channel value to a finer depth and narrowing it back gives it
/// back.
pub proof fn lemma_depth_widen_roundtrip(v8: u8, v16: u16)
    ensures
        u8::spec_from_full_color(u16::spec_to_full_color(u16::spec_from_full_color(u8::spec_to_full_color(v8)))) == v8,
        u8::spec_from_full_color(u32::spec_to_full_color(u32::spec_from_full_color(u8::spec_to_full_color(v8)))) == v8,
        u16::spec_from_full_color(u32::spec_to_full_color(u32::spec_from_full_color(u16::spec_to_full_color(v16)))) == v16,
{
    assert(((((((v8 * 0x1000000) as u32 / 0x10000) as u16) * 0x10000) as u32 / 0x1000000) as u8) == v8) by (bit_vector);
    assert((((v8 * 0x1000000) as u32 / 0x1000000) as u8) == v8) by (bit_vector);
    assert((((v16 * 0x10000) as u32 / 0x10000) as u16) == v16) by (bit_vector);
}

/// A pixel with an alpha channel.
#[derive(Debug, Clone, Copy)]
pub struct RGBA<T: ColorDepth> {
    pub r: T,
    pub g: T,
    pub b: T,
    pub a: T,
}

/// A pixel without an alpha channel.
#[derive(Debug, Clone, Copy)]
pub struct RGB<T: ColorDepth> {
    pub r: T,
    pub g: T,
    pub b: T,
}

/// A pixel type. Pixels convert through full-depth RGBA.
pub trait ColorType: Sized + Copy {
    /// The black (and, with alpha, transparent) pixel.
    spec fn spec_default() -> Self;

    fn default_pixel() -> (r: Self)
        ensures
            r == Self::spec_default(),
    ;

    /// The pixel that a full-depth pixel becomes.
    spec fn spec_from_full_color(x: RGBA<u32>) -> Self;

    /// The full-depth pixel of a pixel.
    spec fn spec_to_full_color(v: Self) -> RGBA<u32>;

    fn from_full_color(x: RGBA<u32>) -> (r: Self)
        ensures
            r == Self::spec_from_full_color(x),
    ;

    fn to_full_color(&self) -> (r: RGBA<u32>)
        ensures
            r == Self::spec_to_full_color(*self),
    ;

    /// A pixel survives the trip to full depth and back.
    proof fn lemma_full_color_roundtrip(v: Self)
        ensures
            Self::spec_from_full_color(Self::spec_to_full_color(v)) == v,
    ;
}

impl<T: ColorDepth> ColorType for RGBA<T> {
    open spec fn spec_default() -> Self {
        RGBA { r: T::DEFAULT, g: T::DEFAULT, b: T::DEFAULT, a: T::DEFAULT }
    }

    fn default_pixel() -> (r: Self) {
        RGBA { r: T::DEFAULT, g: T::DEFAULT, b: T::DEFAULT, a: T::DEFAULT }
    }

    open spec fn spec_from_full_color(x: RGBA<u32>) -> Self {
        RGBA {
            r: T::spec_from_full_color(x.r),
            g: T::spec_from_full_color(x.g),
            b: T::spec_from_full_color(x.b),
            a: T::spec_from_full_color(x.a),
        }
    }

    open spec fn spec_to_full_color(v: Self) -> RGBA<u32> {
        RGBA {
            r: T::spec_to_full_color(v.r),
            g: T::spec_to_full_color(v.g),
            b: T::spec_to_full_color(v.b),
            a: T::spec_to_full_color(v.a),
        }
    }

    fn from_full_color(x: RGBA<u32>) -> (r: Self) {
        RGBA {
            r: T::from_full_color(x.r),
            g: T::from_full_color(x.g),
            b: T::from_full_color(x.b),
            a: T::from_full_color(x.a),
        }
    }

    fn to_full_color(&self) -> (r: RGBA<u32>) {
        RGBA {
            r: T::to_full_color(&self.r),
            g: T::to_full_color(&self.g),
            b: T::to_full_color(&self.b),
            a: T::to_full_color(&self.a),
        }
    }

    proof fn lemma_full_color_roundtrip(v: Self) {
        T::lemma_full_color_roundtrip(v.r);
        T::lemma_full_color_roundtrip(v.g);
        T::lemma_full_color_roundtrip(v.b);
        T::lemma_full_color_roundtrip(v.a);
    }
}

impl<T: ColorDepth> ColorType for RGB<T> {
    open spec fn spec_default() -> Self {
        RGB { r: T::DEFAULT, g: T::DEFAULT, b: T::DEFAULT }
    }

    fn default_pixel() -> (r: Self) {
        RGB { r: T::DEFAULT, g: T::DEFAULT, b: T::DEFAULT }
    }

    open spec fn spec_from_full_color(x: RGBA<u32>) -> Self {
        RGB { r: T::spec_from_full_color(x.r), g: T::spec_from_full_color(x.g), b: T::spec_from_full_color(x.b) }
    }

    open spec fn spec_to_full_color(v: Self) -> RGBA<u32> {
        RGBA {
            r: T::spec_to_full_color(v.r),
            g: T::spec_to_full_color(v.g),
            b: T::spec_to_full_color(v.b),
            a: u32::MAX,
        }
    }

    fn from_full_color(x: RGBA<u32>) -> (r: Self) {
        RGB { r: T::from_full_color(x.r), g: T::from_full_color(x.g), b: T::from_full_color(x.b) }
    }

    fn to_full_color(&self) -> (r: RGBA<u32>) {
        RGBA {
            r: T::to_full_color(&self.r),
            g: T::to_full_color(&self.g),
            b: T::to_full_color(&self.b),
            a: u32::MAX,
        }
    }

    proof fn lemma_full_color_roundtrip(v: Self) {
        T::lemma_full_color_roundtrip(v.r);
        T::lemma_full_color_roundtrip(v.g);
        T::lemma_full_color_roundtrip(v.b);
    }
}

/// The pixel `v` as a pixel of type `U`.
pub fn convert<S: ColorType, U: ColorType>(v: &S) -> (r: U)
    ensures
        r == U::spec_from_full_color(S::spec_to_full_color(*v)),
{
    U::from_full_color(v.to_full_color())
}

/// A `width` by `height` grid of pixels, stored row by row.
#[derive(Debug)]
pub struct PixelArr<T: ColorType> {
    pub width: u32,
    pub height: u32,
    pub raw: Vec<T>,
}

impl<T: ColorType> PixelArr<T> {
    /// The pixels, row by row: pixel `(x, y)` is at `x + y * width`.
    pub open spec fn pixels(&self) -> Seq<T> {
        self.raw@
    }

    /// The pixel count matches the dimensions.
    pub open spec fn wf(&self) -> bool {
        self.pixels().len() == self.width * self.height
    }

    /// Whether the pixel count matches the dimensions.
    pub fn is_wf(&self) -> (r: bool)
        ensures
            r == self.wf(),
    {
        let w = self.width as u64;
        let h = self.height as u64;
        assert(w * h <= 0xffff_ffff * 0xffff_ffff) by (nonlinear_arith)
            requires
                w <= 0xffff_ffff,
                h <= 0xffff_ffff,
        ;
        self.raw.len() as u64 == w * h
    }

    /// A `width` by `height` grid of default pixels.
    pub fn new(width: u32, height: u32) -> (r: Self)
        requires
            width * height <= u32::MAX,
        ensures
            r.wf(),
            r.width == width,
            r.height == height,
            r.pixels() == Seq::new((width * height) as nat, |i: int| T::spec_default()),
    {
        let n: usize = (width * height) as usize;
        let mut raw: Vec<T> = Vec::new();
        while raw.len() < n
            invariant
                raw.len() <= n,
                raw@ == Seq::new(raw.len() as nat, |i: int| T::spec_default()),
            decreases n - raw.len(),
        {
            raw.push(T::default_pixel());
            assert(raw@ =~= Seq::new(raw.len() as nat, |i: int| T::spec_default()));
        }
        PixelArr { width, height, raw }
    }

    /// The pixel at `(x, y)`: the entry `x + y * width`.
    pub fn index(&self, x: usize, y: usize) -> (r: &T)
        requires
            x + y * self.width < self.pixels().len(),
        ensures
            *r == self.pixels()[x + y * self.width],
    {
        assert(0 <= y * self.width) by (nonlinear_arith);
        let len = self.raw.len();
        &self.raw[x + y * (self.width as usize)]
    }

    /// Sets the pixel at `(x, y)`: the entry `x + y * width`.
    pub fn set(&mut self, x: usize, y: usize, value: T)
        requires
            x + y * old(self).width < old(self).pixels().len(),
        ensures
            final(self).width == old(self).width,
            final(self).height == old(self).height,
            final(self).pixels() == old(self).pixels().update(x + y * old(self).width, value),
    {
        assert(0 <= y * self.width) by (nonlinear_arith);
        let len = self.raw.len();
        let i = x + y * (self.width as usize);
        self.raw.set(i, value);
    }
}

/// An image: its bits per pixel and its pixels.
#[derive(Debug)]
pub struct ImageBase<T: ColorType> {
    pub bit_depth: u8,
    pub pixels: PixelArr<T>,
}

/// Setting the pixel at `(x, y)` and then reading it gives the value set;
/// every other pixel of the grid reads as before.
pub proof fn lemma_pixel_set_index<T: ColorType>(arr: PixelArr<T>, x: int, y: int, v: T, x2: int, y2: int)
    requires
        arr.wf(),
        0 <= x < arr.width,
        0 <= y < arr.height,
        0 <= x2 < arr.width,
        0 <= y2 < arr.height,
    ensures
        arr.pixels().update(x + y * arr.width, v)[x + y * arr.width] == v,
        (x2 != x || y2 != y) ==> arr.pixels().update(x + y * arr.width, v)[x2 + y2 * arr.width]
            == arr.pixels()[x2 + y2 * arr.width],
{
    crate::bmp::lemma_grid_index_bound(x, y, arr.width as int, arr.height as int);
    crate::bmp::lemma_grid_index_bound(x2, y2, arr.width as int, arr.height as int);
    if x2 != x || y2 != y {
        crate::bmp::lemma_grid_index_unique(x2, y2, x, y, arr.width as int);
    }
}

} // verus!
