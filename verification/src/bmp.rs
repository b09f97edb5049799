use vstd::prelude::*;

use crate::byte_encode::{lemma_concat_prefix, lemma_concat_suffix, ByteEncode};
use crate::image::{convert, ColorDepth, ColorType, ImageBase, ImageError, PixelArr, RGB, RGBA};
use crate::writer::{le_bytes_of, FileWriter};
use crate::reader::{checksum_after, decode_value, lemma_checksum_after_extend, u16_at, u32_at, FileReader};

verus! {

/// The header fields that the bitmap reader needs.
pub trait BitmapHeader {
    spec fn spec_width(&self) -> u32;

    spec fn spec_height(&self) -> u32;

    spec fn spec_bpp(&self) -> u8;

    fn get_width(&self) -> (r: u32)
        ensures
            r == self.spec_width(),
    ;

    fn get_height(&self) -> (r: u32)
        ensures
            r == self.spec_height(),
    ;

    fn get_bpp(&self) -> (r: u8)
        ensures
            r == self.spec_bpp(),
    ;
}

/// The 40-byte bitmap header (its size field read apart).
#[allow(non_camel_case_types)]
#[derive(Clone, Copy)]
pub struct BITMAPINFOHEADER {
    pub width: u32,
    pub height: u32,
    pub _color_planes: u16,
    pub bpp: u16,
    pub compression_method: u32,
    pub _image_size: u32,
    pub _horr_res: u32,
    pub _vert_res: u32,
    pub _palette_size: u32,
    pub _important_colors: u32,
}

impl BitmapHeader for BITMAPINFOHEADER {
    open spec fn spec_width(&self) -> u32 {
        self.width
    }

    open spec fn spec_height(&self) -> u32 {
        self.height
    }

    open spec fn spec_bpp(&self) -> u8 {
        self.bpp as u8
    }

    fn get_width(&self) -> (r: u32) {
        self.width
    }

    fn get_height(&self) -> (r: u32) {
        self.height
    }

    fn get_bpp(&self) -> (r: u8) {
        self.bpp as u8
    }
}

impl ByteEncode<36> for BITMAPINFOHEADER {
    open spec fn spec_from_le_bytes(b: Seq<u8>) -> BITMAPINFOHEADER {
        BITMAPINFOHEADER {
            width: u32::spec_from_le_bytes(b.subrange(0, 4)),
            height: u32::spec_from_le_bytes(b.subrange(4, 8)),
            _color_planes: u16::spec_from_le_bytes(b.subrange(8, 10)),
            bpp: u16::spec_from_le_bytes(b.subrange(10, 12)),
            compression_method: u32::spec_from_le_bytes(b.subrange(12, 16)),
            _image_size: u32::spec_from_le_bytes(b.subrange(16, 20)),
            _horr_res: u32::spec_from_le_bytes(b.subrange(20, 24)),
            _vert_res: u32::spec_from_le_bytes(b.subrange(24, 28)),
            _palette_size: u32::spec_from_le_bytes(b.subrange(28, 32)),
            _important_colors: u32::spec_from_le_bytes(b.subrange(32, 36)),
        }
    }

    open spec fn spec_to_le_bytes(v: BITMAPINFOHEADER) -> Seq<u8> {
        u32::spec_to_le_bytes(v.width)
            + u32::spec_to_le_bytes(v.height)
            + u16::spec_to_le_bytes(v._color_planes)
            + u16::spec_to_le_bytes(v.bpp)
            + u32::spec_to_le_bytes(v.compression_method)
            + u32::spec_to_le_bytes(v._image_size)
            + u32::spec_to_le_bytes(v._horr_res)
            + u32::spec_to_le_bytes(v._vert_res)
            + u32::spec_to_le_bytes(v._palette_size)
            + u32::spec_to_le_bytes(v._important_colors)
    }

    open spec fn spec_from_be_bytes(b: Seq<u8>) -> BITMAPINFOHEADER {
        BITMAPINFOHEADER {
            width: u32::spec_from_be_bytes(b.subrange(0, 4)),
            height: u32::spec_from_be_bytes(b.subrange(4, 8)),
            _color_planes: u16::spec_from_be_bytes(b.subrange(8, 10)),
            bpp: u16::spec_from_be_bytes(b.subrange(10, 12)),
            compression_method: u32::spec_from_be_bytes(b.subrange(12, 16)),
            _image_size: u32::spec_from_be_bytes(b.subrange(16, 20)),
            _horr_res: u32::spec_from_be_bytes(b.subrange(20, 24)),
            _vert_res: u32::spec_from_be_bytes(b.subrange(24, 28)),
            _palette_size: u32::spec_from_be_bytes(b.subrange(28, 32)),
            _important_colors: u32::spec_from_be_bytes(b.subrange(32, 36)),
        }
    }

    open spec fn spec_to_be_bytes(v: BITMAPINFOHEADER) -> Seq<u8> {
        u32::spec_to_be_bytes(v.width)
            + u32::spec_to_be_bytes(v.height)
            + u16::spec_to_be_bytes(v._color_planes)
            + u16::spec_to_be_bytes(v.bpp)
            + u32::spec_to_be_bytes(v.compression_method)
            + u32::spec_to_be_bytes(v._image_size)
            + u32::spec_to_be_bytes(v._horr_res)
            + u32::spec_to_be_bytes(v._vert_res)
            + u32::spec_to_be_bytes(v._palette_size)
            + u32::spec_to_be_bytes(v._important_colors)
    }

    fn from_le_bytes(buffer: &[u8; 36]) -> (r: BITMAPINFOHEADER) {
        let width_bytes: [u8; 4] = [buffer[0], buffer[1], buffer[2], buffer[3]];
        assert(width_bytes@ =~= buffer@.subrange(0, 4));
        let height_bytes: [u8; 4] = [buffer[4], buffer[5], buffer[6], buffer[7]];
        assert(height_bytes@ =~= buffer@.subrange(4, 8));
        let _color_planes_bytes: [u8; 2] = [buffer[8], buffer[9]];
        assert(_color_planes_bytes@ =~= buffer@.subrange(8, 10));
        let bpp_bytes: [u8; 2] = [buffer[10], buffer[11]];
        assert(bpp_bytes@ =~= buffer@.subrange(10, 12));
        let compression_method_bytes: [u8; 4] = [buffer[12], buffer[13], buffer[14], buffer[15]];
        assert(compression_method_bytes@ =~= buffer@.subrange(12, 16));
        let _image_size_bytes: [u8; 4] = [buffer[16], buffer[17], buffer[18], buffer[19]];
        assert(_image_size_bytes@ =~= buffer@.subrange(16, 20));
        let _horr_res_bytes: [u8; 4] = [buffer[20], buffer[21], buffer[22], buffer[23]];
        assert(_horr_res_bytes@ =~= buffer@.subrange(20, 24));
        let _vert_res_bytes: [u8; 4] = [buffer[24], buffer[25], buffer[26], buffer[27]];
        assert(_vert_res_bytes@ =~= buffer@.subrange(24, 28));
        let _palette_size_bytes: [u8; 4] = [buffer[28], buffer[29], buffer[30], buffer[31]];
        assert(_palette_size_bytes@ =~= buffer@.subrange(28, 32));
        let _important_colors_bytes: [u8; 4] = [buffer[32], buffer[33], buffer[34], buffer[35]];
        assert(_important_colors_bytes@ =~= buffer@.subrange(32, 36));
        BITMAPINFOHEADER {
            width: <u32 as ByteEncode<4>>::from_le_bytes(&width_bytes),
            height: <u32 as ByteEncode<4>>::from_le_bytes(&height_bytes),
            _color_planes: <u16 as ByteEncode<2>>::from_le_bytes(&_color_planes_bytes),
            bpp: <u16 as ByteEncode<2>>::from_le_bytes(&bpp_bytes),
            compression_method: <u32 as ByteEncode<4>>::from_le_bytes(&compression_method_bytes),
            _image_size: <u32 as ByteEncode<4>>::from_le_bytes(&_image_size_bytes),
            _horr_res: <u32 as ByteEncode<4>>::from_le_bytes(&_horr_res_bytes),
            _vert_res: <u32 as ByteEncode<4>>::from_le_bytes(&_vert_res_bytes),
            _palette_size: <u32 as ByteEncode<4>>::from_le_bytes(&_palette_size_bytes),
            _important_colors: <u32 as ByteEncode<4>>::from_le_bytes(&_important_colors_bytes),
        }
    }

    fn to_le_bytes(&self) -> (r: [u8; 36]) {
        let mut res = [0u8; 36];
        let width_bytes = <u32 as ByteEncode<4>>::to_le_bytes(&self.width);
        res[0] = width_bytes[0];
        res[1] = width_bytes[1];
        res[2] = width_bytes[2];
        res[3] = width_bytes[3];
        let height_bytes = <u32 as ByteEncode<4>>::to_le_bytes(&self.height);
        res[4] = height_bytes[0];
        res[5] = height_bytes[1];
        res[6] = height_bytes[2];
        res[7] = height_bytes[3];
        let _color_planes_bytes = <u16 as ByteEncode<2>>::to_le_bytes(&self._color_planes);
        res[8] = _color_planes_bytes[0];
        res[9] = _color_planes_bytes[1];
        let bpp_bytes = <u16 as ByteEncode<2>>::to_le_bytes(&self.bpp);
        res[10] = bpp_bytes[0];
        res[11] = bpp_bytes[1];
        let compression_method_bytes = <u32 as ByteEncode<4>>::to_le_bytes(&self.compression_method);
        res[12] = compression_method_bytes[0];
        res[13] = compression_method_bytes[1];
        res[14] = compression_method_bytes[2];
        res[15] = compression_method_bytes[3];
        let _image_size_bytes = <u32 as ByteEncode<4>>::to_le_bytes(&self._image_size);
        res[16] = _image_size_bytes[0];
        res[17] = _image_size_bytes[1];
        res[18] = _image_size_bytes[2];
        res[19] = _image_size_bytes[3];
        let _horr_res_bytes = <u32 as ByteEncode<4>>::to_le_bytes(&self._horr_res);
        res[20] = _horr_res_bytes[0];
        res[21] = _horr_res_bytes[1];
        res[22] = _horr_res_bytes[2];
        res[23] = _horr_res_bytes[3];
        let _vert_res_bytes = <u32 as ByteEncode<4>>::to_le_bytes(&self._vert_res);
        res[24] = _vert_res_bytes[0];
        res[25] = _vert_res_bytes[1];
        res[26] = _vert_res_bytes[2];
        res[27] = _vert_res_bytes[3];
        let _palette_size_bytes = <u32 as ByteEncode<4>>::to_le_bytes(&self._palette_size);
        res[28] = _palette_size_bytes[0];
        res[29] = _palette_size_bytes[1];
        res[30] = _palette_size_bytes[2];
        res[31] = _palette_size_bytes[3];
        let _important_colors_bytes = <u32 as ByteEncode<4>>::to_le_bytes(&self._important_colors);
        res[32] = _important_colors_bytes[0];
        res[33] = _important_colors_bytes[1];
        res[34] = _important_colors_bytes[2];
        res[35] = _important_colors_bytes[3];
        assert(res@ =~= Self::spec_to_le_bytes(*self));
        res
    }

    fn from_be_bytes(buffer: &[u8; 36]) -> (r: BITMAPINFOHEADER) {
        let width_bytes: [u8; 4] = [buffer[0], buffer[1], buffer[2], buffer[3]];
        assert(width_bytes@ =~= buffer@.subrange(0, 4));
        let height_bytes: [u8; 4] = [buffer[4], buffer[5], buffer[6], buffer[7]];
        assert(height_bytes@ =~= buffer@.subrange(4, 8));
        let _color_planes_bytes: [u8; 2] = [buffer[8], buffer[9]];
        assert(_color_planes_bytes@ =~= buffer@.subrange(8, 10));
        let bpp_bytes: [u8; 2] = [buffer[10], buffer[11]];
        assert(bpp_bytes@ =~= buffer@.subrange(10, 12));
        let compression_method_bytes: [u8; 4] = [buffer[12], buffer[13], buffer[14], buffer[15]];
        assert(compression_method_bytes@ =~= buffer@.subrange(12, 16));
        let _image_size_bytes: [u8; 4] = [buffer[16], buffer[17], buffer[18], buffer[19]];
        assert(_image_size_bytes@ =~= buffer@.subrange(16, 20));
        let _horr_res_bytes: [u8; 4] = [buffer[20], buffer[21], buffer[22], buffer[23]];
        assert(_horr_res_bytes@ =~= buffer@.subrange(20, 24));
        let _vert_res_bytes: [u8; 4] = [buffer[24], buffer[25], buffer[26], buffer[27]];
        assert(_vert_res_bytes@ =~= buffer@.subrange(24, 28));
        let _palette_size_bytes: [u8; 4] = [buffer[28], buffer[29], buffer[30], buffer[31]];
        assert(_palette_size_bytes@ =~= buffer@.subrange(28, 32));
        let _important_colors_bytes: [u8; 4] = [buffer[32], buffer[33], buffer[34], buffer[35]];
        assert(_important_colors_bytes@ =~= buffer@.subrange(32, 36));
        BITMAPINFOHEADER {
            width: <u32 as ByteEncode<4>>::from_be_bytes(&width_bytes),
            height: <u32 as ByteEncode<4>>::from_be_bytes(&height_bytes),
            _color_planes: <u16 as ByteEncode<2>>::from_be_bytes(&_color_planes_bytes),
            bpp: <u16 as ByteEncode<2>>::from_be_bytes(&bpp_bytes),
            compression_method: <u32 as ByteEncode<4>>::from_be_bytes(&compression_method_bytes),
            _image_size: <u32 as ByteEncode<4>>::from_be_bytes(&_image_size_bytes),
            _horr_res: <u32 as ByteEncode<4>>::from_be_bytes(&_horr_res_bytes),
            _vert_res: <u32 as ByteEncode<4>>::from_be_bytes(&_vert_res_bytes),
            _palette_size: <u32 as ByteEncode<4>>::from_be_bytes(&_palette_size_bytes),
            _important_colors: <u32 as ByteEncode<4>>::from_be_bytes(&_important_colors_bytes),
        }
    }

    fn to_be_bytes(&self) -> (r: [u8; 36]) {
        let mut res = [0u8; 36];
        let width_bytes = <u32 as ByteEncode<4>>::to_be_bytes(&self.width);
        res[0] = width_bytes[0];
        res[1] = width_bytes[1];
        res[2] = width_bytes[2];
        res[3] = width_bytes[3];
        let height_bytes = <u32 as ByteEncode<4>>::to_be_bytes(&self.height);
        res[4] = height_bytes[0];
        res[5] = height_bytes[1];
        res[6] = height_bytes[2];
        res[7] = height_bytes[3];
        let _color_planes_bytes = <u16 as ByteEncode<2>>::to_be_bytes(&self._color_planes);
        res[8] = _color_planes_bytes[0];
        res[9] = _color_planes_bytes[1];
        let bpp_bytes = <u16 as ByteEncode<2>>::to_be_bytes(&self.bpp);
        res[10] = bpp_bytes[0];
        res[11] = bpp_bytes[1];
        let compression_method_bytes = <u32 as ByteEncode<4>>::to_be_bytes(&self.compression_method);
        res[12] = compression_method_bytes[0];
        res[13] = compression_method_bytes[1];
        res[14] = compression_method_bytes[2];
        res[15] = compression_method_bytes[3];
        let _image_size_bytes = <u32 as ByteEncode<4>>::to_be_bytes(&self._image_size);
        res[16] = _image_size_bytes[0];
        res[17] = _image_size_bytes[1];
        res[18] = _image_size_bytes[2];
        res[19] = _image_size_bytes[3];
        let _horr_res_bytes = <u32 as ByteEncode<4>>::to_be_bytes(&self._horr_res);
        res[20] = _horr_res_bytes[0];
        res[21] = _horr_res_bytes[1];
        res[22] = _horr_res_bytes[2];
        res[23] = _horr_res_bytes[3];
        let _vert_res_bytes = <u32 as ByteEncode<4>>::to_be_bytes(&self._vert_res);
        res[24] = _vert_res_bytes[0];
        res[25] = _vert_res_bytes[1];
        res[26] = _vert_res_bytes[2];
        res[27] = _vert_res_bytes[3];
        let _palette_size_bytes = <u32 as ByteEncode<4>>::to_be_bytes(&self._palette_size);
        res[28] = _palette_size_bytes[0];
        res[29] = _palette_size_bytes[1];
        res[30] = _palette_size_bytes[2];
        res[31] = _palette_size_bytes[3];
        let _important_colors_bytes = <u32 as ByteEncode<4>>::to_be_bytes(&self._important_colors);
        res[32] = _important_colors_bytes[0];
        res[33] = _important_colors_bytes[1];
        res[34] = _important_colors_bytes[2];
        res[35] = _important_colors_bytes[3];
        assert(res@ =~= Self::spec_to_be_bytes(*self));
        res
    }

    #[verifier::rlimit(50)]
    proof fn lemma_value_roundtrip(v: BITMAPINFOHEADER) {
        u32::lemma_value_roundtrip(v.width);
        u32::lemma_value_roundtrip(v.height);
        u16::lemma_value_roundtrip(v._color_planes);
        u16::lemma_value_roundtrip(v.bpp);
        u32::lemma_value_roundtrip(v.compression_method);
        u32::lemma_value_roundtrip(v._image_size);
        u32::lemma_value_roundtrip(v._horr_res);
        u32::lemma_value_roundtrip(v._vert_res);
        u32::lemma_value_roundtrip(v._palette_size);
        u32::lemma_value_roundtrip(v._important_colors);
        let le_f0 = u32::spec_to_le_bytes(v.width);
        let le_f1 = u32::spec_to_le_bytes(v.height);
        let le_f2 = u16::spec_to_le_bytes(v._color_planes);
        let le_f3 = u16::spec_to_le_bytes(v.bpp);
        let le_f4 = u32::spec_to_le_bytes(v.compression_method);
        let le_f5 = u32::spec_to_le_bytes(v._image_size);
        let le_f6 = u32::spec_to_le_bytes(v._horr_res);
        let le_f7 = u32::spec_to_le_bytes(v._vert_res);
        let le_f8 = u32::spec_to_le_bytes(v._palette_size);
        let le_f9 = u32::spec_to_le_bytes(v._important_colors);
        let le_p0 = le_f0;
        let le_p1 = le_p0 + le_f1;
        let le_p2 = le_p1 + le_f2;
        let le_p3 = le_p2 + le_f3;
        let le_p4 = le_p3 + le_f4;
        let le_p5 = le_p4 + le_f5;
        let le_p6 = le_p5 + le_f6;
        let le_p7 = le_p6 + le_f7;
        let le_p8 = le_p7 + le_f8;
        let le_p9 = le_p8 + le_f9;
        assert(Self::spec_to_le_bytes(v) == le_p9);
        assert(le_p0.subrange(0, 4) =~= le_f0);
        lemma_concat_prefix(le_p0, le_f1, 0, 4);
        lemma_concat_prefix(le_p1, le_f2, 0, 4);
        lemma_concat_prefix(le_p2, le_f3, 0, 4);
        lemma_concat_prefix(le_p3, le_f4, 0, 4);
        lemma_concat_prefix(le_p4, le_f5, 0, 4);
        lemma_concat_prefix(le_p5, le_f6, 0, 4);
        lemma_concat_prefix(le_p6, le_f7, 0, 4);
        lemma_concat_prefix(le_p7, le_f8, 0, 4);
        lemma_concat_prefix(le_p8, le_f9, 0, 4);
        lemma_concat_suffix(le_p0, le_f1);
        lemma_concat_prefix(le_p1, le_f2, 4, 8);
        lemma_concat_prefix(le_p2, le_f3, 4, 8);
        lemma_concat_prefix(le_p3, le_f4, 4, 8);
        lemma_concat_prefix(le_p4, le_f5, 4, 8);
        lemma_concat_prefix(le_p5, le_f6, 4, 8);
        lemma_concat_prefix(le_p6, le_f7, 4, 8);
        lemma_concat_prefix(le_p7, le_f8, 4, 8);
        lemma_concat_prefix(le_p8, le_f9, 4, 8);
        lemma_concat_suffix(le_p1, le_f2);
        lemma_concat_prefix(le_p2, le_f3, 8, 10);
        lemma_concat_prefix(le_p3, le_f4, 8, 10);
        lemma_concat_prefix(le_p4, le_f5, 8, 10);
        lemma_concat_prefix(le_p5, le_f6, 8, 10);
        lemma_concat_prefix(le_p6, le_f7, 8, 10);
        lemma_concat_prefix(le_p7, le_f8, 8, 10);
        lemma_concat_prefix(le_p8, le_f9, 8, 10);
        lemma_concat_suffix(le_p2, le_f3);
        lemma_concat_prefix(le_p3, le_f4, 10, 12);
        lemma_concat_prefix(le_p4, le_f5, 10, 12);
        lemma_concat_prefix(le_p5, le_f6, 10, 12);
        lemma_concat_prefix(le_p6, le_f7, 10, 12);
        lemma_concat_prefix(le_p7, le_f8, 10, 12);
        lemma_concat_prefix(le_p8, le_f9, 10, 12);
        lemma_concat_suffix(le_p3, le_f4);
        lemma_concat_prefix(le_p4, le_f5, 12, 16);
        lemma_concat_prefix(le_p5, le_f6, 12, 16);
        lemma_concat_prefix(le_p6, le_f7, 12, 16);
        lemma_concat_prefix(le_p7, le_f8, 12, 16);
        lemma_concat_prefix(le_p8, le_f9, 12, 16);
        lemma_concat_suffix(le_p4, le_f5);
        lemma_concat_prefix(le_p5, le_f6, 16, 20);
        lemma_concat_prefix(le_p6, le_f7, 16, 20);
        lemma_concat_prefix(le_p7, le_f8, 16, 20);
        lemma_concat_prefix(le_p8, le_f9, 16, 20);
        lemma_concat_suffix(le_p5, le_f6);
        lemma_concat_prefix(le_p6, le_f7, 20, 24);
        lemma_concat_prefix(le_p7, le_f8, 20, 24);
        lemma_concat_prefix(le_p8, le_f9, 20, 24);
        lemma_concat_suffix(le_p6, le_f7);
        lemma_concat_prefix(le_p7, le_f8, 24, 28);
        lemma_concat_prefix(le_p8, le_f9, 24, 28);
        lemma_concat_suffix(le_p7, le_f8);
        lemma_concat_prefix(le_p8, le_f9, 28, 32);
        lemma_concat_suffix(le_p8, le_f9);
        let be_f0 = u32::spec_to_be_bytes(v.width);
        let be_f1 = u32::spec_to_be_bytes(v.height);
        let be_f2 = u16::spec_to_be_bytes(v._color_planes);
        let be_f3 = u16::spec_to_be_bytes(v.bpp);
        let be_f4 = u32::spec_to_be_bytes(v.compression_method);
        let be_f5 = u32::spec_to_be_bytes(v._image_size);
        let be_f6 = u32::spec_to_be_bytes(v._horr_res);
        let be_f7 = u32::spec_to_be_bytes(v._vert_res);
        let be_f8 = u32::spec_to_be_bytes(v._palette_size);
        let be_f9 = u32::spec_to_be_bytes(v._important_colors);
        let be_p0 = be_f0;
        let be_p1 = be_p0 + be_f1;
        let be_p2 = be_p1 + be_f2;
        let be_p3 = be_p2 + be_f3;
        let be_p4 = be_p3 + be_f4;
        let be_p5 = be_p4 + be_f5;
        let be_p6 = be_p5 + be_f6;
        let be_p7 = be_p6 + be_f7;
        let be_p8 = be_p7 + be_f8;
        let be_p9 = be_p8 + be_f9;
        assert(Self::spec_to_be_bytes(v) == be_p9);
        assert(be_p0.subrange(0, 4) =~= be_f0);
        lemma_concat_prefix(be_p0, be_f1, 0, 4);
        lemma_concat_prefix(be_p1, be_f2, 0, 4);
        lemma_concat_prefix(be_p2, be_f3, 0, 4);
        lemma_concat_prefix(be_p3, be_f4, 0, 4);
        lemma_concat_prefix(be_p4, be_f5, 0, 4);
        lemma_concat_prefix(be_p5, be_f6, 0, 4);
        lemma_concat_prefix(be_p6, be_f7, 0, 4);
        lemma_concat_prefix(be_p7, be_f8, 0, 4);
        lemma_concat_prefix(be_p8, be_f9, 0, 4);
        lemma_concat_suffix(be_p0, be_f1);
        lemma_concat_prefix(be_p1, be_f2, 4, 8);
        lemma_concat_prefix(be_p2, be_f3, 4, 8);
        lemma_concat_prefix(be_p3, be_f4, 4, 8);
        lemma_concat_prefix(be_p4, be_f5, 4, 8);
        lemma_concat_prefix(be_p5, be_f6, 4, 8);
        lemma_concat_prefix(be_p6, be_f7, 4, 8);
        lemma_concat_prefix(be_p7, be_f8, 4, 8);
        lemma_concat_prefix(be_p8, be_f9, 4, 8);
        lemma_concat_suffix(be_p1, be_f2);
        lemma_concat_prefix(be_p2, be_f3, 8, 10);
        lemma_concat_prefix(be_p3, be_f4, 8, 10);
        lemma_concat_prefix(be_p4, be_f5, 8, 10);
        lemma_concat_prefix(be_p5, be_f6, 8, 10);
        lemma_concat_prefix(be_p6, be_f7, 8, 10);
        lemma_concat_prefix(be_p7, be_f8, 8, 10);
        lemma_concat_prefix(be_p8, be_f9, 8, 10);
        lemma_concat_suffix(be_p2, be_f3);
        lemma_concat_prefix(be_p3, be_f4, 10, 12);
        lemma_concat_prefix(be_p4, be_f5, 10, 12);
        lemma_concat_prefix(be_p5, be_f6, 10, 12);
        lemma_concat_prefix(be_p6, be_f7, 10, 12);
        lemma_concat_prefix(be_p7, be_f8, 10, 12);
        lemma_concat_prefix(be_p8, be_f9, 10, 12);
        lemma_concat_suffix(be_p3, be_f4);
        lemma_concat_prefix(be_p4, be_f5, 12, 16);
        lemma_concat_prefix(be_p5, be_f6, 12, 16);
        lemma_concat_prefix(be_p6, be_f7, 12, 16);
        lemma_concat_prefix(be_p7, be_f8, 12, 16);
        lemma_concat_prefix(be_p8, be_f9, 12, 16);
        lemma_concat_suffix(be_p4, be_f5);
        lemma_concat_prefix(be_p5, be_f6, 16, 20);
        lemma_concat_prefix(be_p6, be_f7, 16, 20);
        lemma_concat_prefix(be_p7, be_f8, 16, 20);
        lemma_concat_prefix(be_p8, be_f9, 16, 20);
        lemma_concat_suffix(be_p5, be_f6);
        lemma_concat_prefix(be_p6, be_f7, 20, 24);
        lemma_concat_prefix(be_p7, be_f8, 20, 24);
        lemma_concat_prefix(be_p8, be_f9, 20, 24);
        lemma_concat_suffix(be_p6, be_f7);
        lemma_concat_prefix(be_p7, be_f8, 24, 28);
        lemma_concat_prefix(be_p8, be_f9, 24, 28);
        lemma_concat_suffix(be_p7, be_f8);
        lemma_concat_prefix(be_p8, be_f9, 28, 32);
        lemma_concat_suffix(be_p8, be_f9);
    }

    proof fn lemma_bytes_roundtrip(b: Seq<u8>) {
        u32::lemma_bytes_roundtrip(b.subrange(0, 4));
        u32::lemma_bytes_roundtrip(b.subrange(4, 8));
        u16::lemma_bytes_roundtrip(b.subrange(8, 10));
        u16::lemma_bytes_roundtrip(b.subrange(10, 12));
        u32::lemma_bytes_roundtrip(b.subrange(12, 16));
        u32::lemma_bytes_roundtrip(b.subrange(16, 20));
        u32::lemma_bytes_roundtrip(b.subrange(20, 24));
        u32::lemma_bytes_roundtrip(b.subrange(24, 28));
        u32::lemma_bytes_roundtrip(b.subrange(28, 32));
        u32::lemma_bytes_roundtrip(b.subrange(32, 36));
        assert(Self::spec_to_le_bytes(Self::spec_from_le_bytes(b)) =~= b);
        assert(Self::spec_to_be_bytes(Self::spec_from_be_bytes(b)) =~= b);
    }
}


/// The bitmap image format (reading 24-bit uncompressed bitmaps, writing
/// them with the 12-byte core header).
pub struct BMPImage {}

/// The bytes of a pixel row: 24 bits a pixel, padded to a multiple of four.
pub open spec fn bmp_row_size(width: int) -> int {
    ((24 * width + 31) / 32) * 4
}

/// The headers of a bitmap that starts at `p0`: width, height, bits per
/// pixel, and where the pixel rows start.
pub open spec fn bmp_header(le: bool, d: Seq<u8>, p0: int) -> Result<(u32, u32, u8, int), ImageError> {
    if p0 + 2 > d.len() {
        Err(ImageError::Truncated)
    } else if d[p0] != 0x42 || d[p0 + 1] != 0x4d {
        Err(ImageError::NotABitmap)
    } else if p0 + 18 > d.len() {
        Err(ImageError::Truncated)
    } else {
        let header_size = u32_at(le, d, p0 + 14);
        if header_size == 12 {
            if p0 + 26 > d.len() {
                Err(ImageError::Truncated)
            } else {
                Ok((u16_at(le, d, p0 + 18) as u32, u16_at(le, d, p0 + 20) as u32, u16_at(le, d, p0 + 24) as u8, p0 + 26))
            }
        } else if header_size == 40 {
            if p0 + 54 > d.len() {
                Err(ImageError::Truncated)
            } else {
                let header = decode_value::<36, BITMAPINFOHEADER>(le, d.subrange(p0 + 18, p0 + 54));
                if header.compression_method != 0 {
                    Err(ImageError::UnsupportedCompression(header.compression_method))
                } else {
                    Ok((header.width, header.height, header.bpp as u8, p0 + 54))
                }
            }
        } else {
            Err(ImageError::UnsupportedHeaderSize(header_size))
        }
    }
}

/// Why the bitmap that starts at `p0` cannot be read, if it cannot.
pub open spec fn bmp_decode_error(le: bool, d: Seq<u8>, p0: int) -> Option<ImageError> {
    match bmp_header(le, d, p0) {
        Err(e) => Some(e),
        Ok((w, h, bpp, start)) => {
            if bpp != 24 {
                Some(ImageError::UnsupportedBpp(bpp))
            } else if 24 * w + 31 > u32::MAX {
                Some(ImageError::SizeOverflow)
            } else if w * h > u32::MAX {
                Some(ImageError::SizeOverflow)
            } else if w > 0 && h > 0 && start + (h - 1) * bmp_row_size(w as int) + 3 * w > d.len() {
                Some(ImageError::Truncated)
            } else {
                None
            }
        },
    }
}

/// Pixel `(x, y)` of a bitmap whose rows start at `start`, bottom row
/// first, each pixel stored blue, green, red, read as opaque.
pub open spec fn bmp_pixel<T: ColorType>(d: Seq<u8>, start: int, row_size: int, height: int, x: int, y: int) -> T {
    let o = start + (height - 1 - y) * row_size + 3 * x;
    T::spec_from_full_color(
        RGBA::<u8>::spec_to_full_color(RGBA { r: d[o + 2], g: d[o + 1], b: d[o], a: 255u8 }),
    )
}

/// `img` is what the bitmap that starts at `p0` holds.
pub open spec fn bmp_decoded<T: ColorType>(le: bool, d: Seq<u8>, p0: int, img: ImageBase<T>) -> bool {
    match bmp_header(le, d, p0) {
        Err(e) => false,
        Ok((w, h, bpp, start)) => {
            &&& img.bit_depth == bpp
            &&& img.pixels.width == w
            &&& img.pixels.height == h
            &&& img.pixels.wf()
            &&& forall|x: int, y: int|
                0 <= x < w && 0 <= y < h ==> #[trigger] img.pixels.pixels()[x + y * w] == bmp_pixel::<T>(
                    d,
                    start,
                    bmp_row_size(w as int),
                    h as int,
                    x,
                    y,
                )
        },
    }
}

/// The pixel bytes of the first `n` rows that a bitmap reader reads, rows
/// of `row_size` bytes starting at `start`, `3 * width` bytes of each (the
/// padding after them is skipped).
pub open spec fn bmp_rows_read(d: Seq<u8>, start: int, row_size: int, width: int, n: nat) -> Seq<u8>
    decreases n,
{
    if n == 0 {
        Seq::empty()
    } else {
        let o = start + (n - 1) * row_size;
        bmp_rows_read(d, start, row_size, width, (n - 1) as nat) + d.subrange(o, o + 3 * width)
    }
}

/// Where reading the headers of the bitmap at `p0` stops: after them, or
/// where a bad signature, a short file or an unknown header size is found.
pub open spec fn bmp_header_stop(le: bool, d: Seq<u8>, p0: int) -> int {
    if p0 + 2 > d.len() {
        p0
    } else if d[p0] != 0x42 || d[p0 + 1] != 0x4d || p0 + 18 > d.len() {
        p0 + 2
    } else {
        let header_size = u32_at(le, d, p0 + 14);
        if header_size == 12 && p0 + 26 <= d.len() {
            p0 + 26
        } else if header_size == 40 && p0 + 54 <= d.len() {
            p0 + 54
        } else {
            p0 + 18
        }
    }
}

/// The header bytes that reading the bitmap at `p0` reads, and so
/// checksums: all up to where the headers stop but for the four reserved
/// bytes it skips.
pub open spec fn bmp_header_bytes(le: bool, d: Seq<u8>, p0: int) -> Seq<u8> {
    let stop = bmp_header_stop(le, d, p0);
    if stop == p0 {
        Seq::empty()
    } else if stop == p0 + 2 {
        d.subrange(p0, p0 + 2)
    } else {
        d.subrange(p0, p0 + 6) + d.subrange(p0 + 10, stop)
    }
}

/// The bytes that reading the bitmap at `p0` reads, and so checksums: its
/// header bytes, then, where the bitmap decodes, the pixel bytes of each
/// row.
pub open spec fn bmp_bytes_read(le: bool, d: Seq<u8>, p0: int) -> Seq<u8> {
    match bmp_header(le, d, p0) {
        Ok((w, h, bpp, start)) if bmp_decode_error(le, d, p0) is None => bmp_header_bytes(le, d, p0)
            + bmp_rows_read(d, start, bmp_row_size(w as int), w as int, h as nat),
        _ => bmp_header_bytes(le, d, p0),
    }
}

/// Where reading the bitmap at `p0` stops: where the headers stop if it does
/// not decode, else after the padding of its last row (a position stops at
/// `usize::MAX`).
pub open spec fn bmp_end(le: bool, d: Seq<u8>, p0: int) -> int {
    match bmp_header(le, d, p0) {
        Ok((w, h, bpp, start)) if bmp_decode_error(le, d, p0) is None => {
            let e = start + h * bmp_row_size(w as int);
            if h == 0 {
                start
            } else if e <= usize::MAX {
                e
            } else {
                usize::MAX as int
            }
        },
        _ => bmp_header_stop(le, d, p0),
    }
}

/// Distinct positions of a `width`-wide grid have distinct indices.
pub proof fn lemma_grid_index_unique(x1: int, y1: int, x2: int, y2: int, width: int)
    requires
        0 <= x1 < width,
        0 <= x2 < width,
        0 <= y1,
        0 <= y2,
        x1 != x2 || y1 != y2,
    ensures
        x1 + y1 * width != x2 + y2 * width,
{
    if y1 == y2 {
    } else if y1 < y2 {
        assert(y1 * width + width <= y2 * width) by (nonlinear_arith)
            requires
                y1 < y2,
                0 <= width,
        ;
    } else {
        assert(y2 * width + width <= y1 * width) by (nonlinear_arith)
            requires
                y2 < y1,
                0 <= width,
        ;
    }
}

/// A position of a `width` by `height` grid has an index below
/// `width * height`.
pub proof fn lemma_grid_index_bound(x: int, y: int, width: int, height: int)
    requires
        0 <= x < width,
        0 <= y < height,
    ensures
        0 <= x + y * width < width * height,
{
    assert(0 <= y * width && y * width + width <= width * height) by (nonlinear_arith)
        requires
            0 <= y < height,
            0 <= x < width,
    ;
}


/// The stored bytes of a pixel: blue, green, red, at 8 bits each.
pub open spec fn bmp_pixel_bytes<T: ColorType>(p: T) -> Seq<u8> {
    let c = RGB::<u8>::spec_from_full_color(T::spec_to_full_color(p));
    seq![c.b, c.g, c.r]
}

/// The stored bytes of the first `n` pixels of row `y`.
pub open spec fn bmp_row_pixels<T: ColorType>(pixels: Seq<T>, width: int, y: int, n: int) -> Seq<u8>
    decreases n,
{
    if n <= 0 {
        Seq::empty()
    } else {
        bmp_row_pixels(pixels, width, y, n - 1) + bmp_pixel_bytes(pixels[(n - 1) + y * width])
    }
}

/// The stored bytes of row `y`: its pixels, then zeros up to the row size.
pub open spec fn bmp_row<T: ColorType>(pixels: Seq<T>, width: int, y: int) -> Seq<u8> {
    bmp_row_pixels(pixels, width, y, width) + Seq::new((bmp_row_size(width) - 3 * width) as nat, |i: int| 0u8)
}

/// The stored bytes of the bottom `n` rows, bottom row first.
pub open spec fn bmp_rows<T: ColorType>(pixels: Seq<T>, width: int, height: int, n: int) -> Seq<u8>
    decreases n,
{
    if n <= 0 {
        Seq::empty()
    } else {
        bmp_rows(pixels, width, height, n - 1) + bmp_row(pixels, width, height - n)
    }
}

/// The file header and the 12-byte core header of a 24-bit bitmap.
pub open spec fn bmp_headers(width: u32, height: u32) -> Seq<u8> {
    seq![0x42u8, 0x4du8] + u32::spec_to_le_bytes((26 + bmp_row_size(width as int) * height) as u32)
        + Seq::new(4, |i: int| 0u8) + u32::spec_to_le_bytes(26u32) + u32::spec_to_le_bytes(12u32)
        + u16::spec_to_le_bytes(width as u16) + u16::spec_to_le_bytes(height as u16) + u16::spec_to_le_bytes(1u16)
        + u16::spec_to_le_bytes(24u16)
}

/// The bytes of `image` as a 24-bit bitmap.
pub open spec fn bmp_encode<T: ColorType>(image: ImageBase<T>) -> Seq<u8> {
    bmp_headers(image.pixels.width, image.pixels.height) + bmp_rows(
        image.pixels.pixels(),
        image.pixels.width as int,
        image.pixels.height as int,
        image.pixels.height as int,
    )
}

/// The sizes that a bitmap of `image` needs fit its 32-bit fields.
pub open spec fn bmp_writable<T: ColorType>(image: ImageBase<T>) -> bool {
    &&& image.pixels.wf()
    &&& 24 * image.pixels.width + 31 <= u32::MAX
    &&& 26 + bmp_row_size(image.pixels.width as int) * image.pixels.height <= u32::MAX
}

proof fn lemma_row_size(width: int)
    requires
        0 <= width,
    ensures
        3 * width <= bmp_row_size(width),
        bmp_row_size(width) >= 0,
        width == 0 ==> bmp_row_size(width) == 0,
{
    assert(3 * width <= ((24 * width + 31) / 32) * 4) by (nonlinear_arith)
        requires
            0 <= width,
    ;
}

/// A bitmap row of `width` 24-bit pixels takes the fewest whole 4-byte
/// words that hold its `3 * width` bytes.
pub proof fn lemma_bmp_row_size_is_padded_row(width: int)
    requires
        0 <= width,
    ensures
        bmp_row_size(width) % 4 == 0,
        3 * width <= bmp_row_size(width) < 3 * width + 4,
{
    let q = (24 * width + 31) / 32;
    assert(32 * q <= 24 * width + 31 < 32 * q + 32) by (nonlinear_arith)
        requires
            q == (24 * width + 31) / 32,
            0 <= width,
    ;
    assert((q * 4) % 4 == 0) by (nonlinear_arith)
        requires
            q >= 0,
    ;
}

/// The file size that a written bitmap records (the little-endian 32-bit
/// field after its signature) is the number of bytes written.
pub proof fn lemma_bmp_file_size_field<T: ColorType>(image: ImageBase<T>)
    requires
        bmp_writable(image),
    ensures
        u32_at(true, bmp_encode(image), 2) == bmp_encode(image).len(),
{
    let w = image.pixels.width;
    let h = image.pixels.height;
    let rs = bmp_row_size(w as int);
    lemma_row_size(w as int);
    lemma_bmp_rows(image.pixels.pixels(), w as int, h as int, h as int);
    assert(rs * h == h * rs) by (nonlinear_arith);
    let fs = (26 + rs * h) as u32;
    u32::lemma_value_roundtrip(fs);
    let d = bmp_encode(image);
    assert(d.subrange(2, 6) =~= u32::spec_to_le_bytes(fs));
}

proof fn lemma_bmp_row_pixels<T: ColorType>(pixels: Seq<T>, width: int, y: int, n: int)
    requires
        0 <= n,
    ensures
        bmp_row_pixels(pixels, width, y, n).len() == 3 * n,
        forall|x: int, c: int|
            0 <= x < n && 0 <= c < 3 ==> #[trigger] bmp_row_pixels(pixels, width, y, n)[3 * x + c]
                == bmp_pixel_bytes(pixels[x + y * width])[c],
    decreases n,
{
    if n > 0 {
        lemma_bmp_row_pixels(pixels, width, y, n - 1);
        let prev = bmp_row_pixels(pixels, width, y, n - 1);
        let last = bmp_pixel_bytes(pixels[(n - 1) + y * width]);
        assert forall|x: int, c: int|
            0 <= x < n && 0 <= c < 3 implies #[trigger] bmp_row_pixels(pixels, width, y, n)[3 * x + c]
            == bmp_pixel_bytes(pixels[x + y * width])[c] by {
            if x < n - 1 {
                assert(prev[3 * x + c] == bmp_pixel_bytes(pixels[x + y * width])[c]);
            }
        }
    }
}

proof fn lemma_bmp_rows<T: ColorType>(pixels: Seq<T>, width: int, height: int, n: int)
    requires
        0 <= n,
        0 <= width,
    ensures
        bmp_rows(pixels, width, height, n).len() == n * bmp_row_size(width),
        forall|r: int, j: int|
            0 <= r < n && 0 <= j < bmp_row_size(width) ==> #[trigger] bmp_rows(pixels, width, height, n)[r
                * bmp_row_size(width) + j] == bmp_row(pixels, width, height - 1 - r)[j],
    decreases n,
{
    lemma_row_size(width);
    lemma_bmp_row_pixels(pixels, width, height - n, width);
    let rs = bmp_row_size(width);
    if n > 0 {
        lemma_bmp_rows(pixels, width, height, n - 1);
        assert(n * rs == (n - 1) * rs + rs) by (nonlinear_arith);
        let prev = bmp_rows(pixels, width, height, n - 1);
        assert forall|r: int, j: int|
            0 <= r < n && 0 <= j < rs implies #[trigger] bmp_rows(pixels, width, height, n)[r * rs + j]
            == bmp_row(pixels, width, height - 1 - r)[j] by {
            if r < n - 1 {
                assert(r * rs + j < (n - 1) * rs) by (nonlinear_arith)
                    requires
                        0 <= r < n - 1,
                        0 <= j < rs,
                ;
                assert(prev[r * rs + j] == bmp_row(pixels, width, height - 1 - r)[j]);
            } else {
                assert(r * rs + j - (n - 1) * rs == j);
            }
        }
    } else {
        assert(n * rs == 0) by (nonlinear_arith)
            requires
                n == 0,
        ;
    }
}

impl BMPImage {
    /// Reads a 24-bit uncompressed bitmap from the reader's position.
    #[verifier::rlimit(30)]
    pub fn read_image<T: ColorType>(reader: &mut FileReader) -> (r: Result<ImageBase<T>, ImageError>)
        ensures
            final(reader).data() == old(reader).data(),
            final(reader).little_endian() == old(reader).little_endian(),
            final(reader).checksum_func() == old(reader).checksum_func(),
            final(reader).checksum_start() == old(reader).checksum_start(),
            final(reader).position() == bmp_end(old(reader).little_endian(), old(reader).data(), old(reader).position()),
            final(reader).checksum() == checksum_after(
                old(reader).checksum_func(),
                old(reader).checksum(),
                bmp_bytes_read(old(reader).little_endian(), old(reader).data(), old(reader).position()),
            ),
            match bmp_decode_error(old(reader).little_endian(), old(reader).data(), old(reader).position()) {
                Some(e) => r == Err::<ImageBase<T>, ImageError>(e),
                None => r matches Ok(img) && bmp_decoded::<T>(
                    old(reader).little_endian(),
                    old(reader).data(),
                    old(reader).position(),
                    img,
                ),
            },
    {
        let ghost d = reader.data();
        let ghost p0 = reader.position();
        let ghost le = reader.little_endian();
        let ghost f = reader.checksum_func();
        let ghost c0 = reader.checksum();
        if reader.remaining() < 2 {
            return Err(ImageError::Truncated);
        }
        let magic: [u8; 2] = reader.read_array::<1, u8, 2>();
        assert(d.subrange(p0 + 1 * 0, p0 + 1 * 0 + 1)[0] == d[p0 + 0]);
        assert(d.subrange(p0 + 1 * 1, p0 + 1 * 1 + 1)[0] == d[p0 + 1]);
        if magic[0] != 0x42 || magic[1] != 0x4d {
            return Err(ImageError::NotABitmap);
        }
        if reader.remaining() < 16 {
            return Err(ImageError::Truncated);
        }
        let _file_size: u32 = reader.read();
        proof {
            lemma_checksum_after_extend(f, c0, Seq::empty(), d, p0, p0 + 2, p0 + 6);
            assert(Seq::<u8>::empty() + d.subrange(p0, p0 + 2) =~= d.subrange(p0, p0 + 2));
        }
        reader.skip(4);
        let ghost hdr0 = d.subrange(p0, p0 + 6);
        assert(hdr0 + d.subrange(p0 + 10, p0 + 10) =~= hdr0);
        assert(Seq::<u8>::empty() + d.subrange(p0, p0 + 6) =~= hdr0);
        let _offset: u32 = reader.read();
        proof {
            lemma_checksum_after_extend(f, c0, hdr0, d, p0 + 10, p0 + 10, p0 + 14);
        }
        let header_size: u32 = reader.read();
        proof {
            lemma_checksum_after_extend(f, c0, hdr0, d, p0 + 10, p0 + 14, p0 + 18);
        }
        let width: u32;
        let height: u32;
        let bpp: u8;
        if header_size == 12 {
            if reader.remaining() < 8 {
                return Err(ImageError::Truncated);
            }
            width = reader.read::<2, u16>() as u32;
            proof {
                lemma_checksum_after_extend(f, c0, hdr0, d, p0 + 10, p0 + 18, p0 + 20);
            }
            height = reader.read::<2, u16>() as u32;
            proof {
                lemma_checksum_after_extend(f, c0, hdr0, d, p0 + 10, p0 + 20, p0 + 22);
            }
            let _color_planes: u16 = reader.read();
            proof {
                lemma_checksum_after_extend(f, c0, hdr0, d, p0 + 10, p0 + 22, p0 + 24);
            }
            bpp = reader.read::<2, u16>() as u8;
            proof {
                lemma_checksum_after_extend(f, c0, hdr0, d, p0 + 10, p0 + 24, p0 + 26);
            }
        } else if header_size == 40 {
            if reader.remaining() < 36 {
                return Err(ImageError::Truncated);
            }
            let header: BITMAPINFOHEADER = reader.read();
            proof {
                lemma_checksum_after_extend(f, c0, hdr0, d, p0 + 10, p0 + 18, p0 + 54);
            }
            width = header.get_width();
            height = header.get_height();
            bpp = header.get_bpp();
            if header.compression_method != 0 {
                return Err(ImageError::UnsupportedCompression(header.compression_method));
            }
        } else {
            return Err(ImageError::UnsupportedHeaderSize(header_size));
        }
        let ghost start = reader.position();
        let ghost hdr = hdr0 + d.subrange(p0 + 10, start);
        assert(bmp_header(le, d, p0) == Ok::<(u32, u32, u8, int), ImageError>((width, height, bpp, start)));
        if bpp != 24 {
            return Err(ImageError::UnsupportedBpp(bpp));
        }
        assert((width > (u32::MAX - 31) / 24) == (24 * width + 31 > u32::MAX)) by (nonlinear_arith);
        if width > (u32::MAX - 31) / 24 {
            return Err(ImageError::SizeOverflow);
        }
        let row_size: u32 = ((24 * width + 31) / 32) * 4;
        let skip: u32 = row_size - width * 3;
        if height != 0 && width > u32::MAX / height {
            assert(width * height > u32::MAX) by (nonlinear_arith)
                requires
                    height != 0,
                    width > u32::MAX / height,
            ;
            return Err(ImageError::SizeOverflow);
        }
        proof {
            if height != 0 {
                assert(width * height <= u32::MAX) by (nonlinear_arith)
                    requires
                        height != 0,
                        width <= u32::MAX / height,
                ;
            } else {
                assert(width * height == 0) by (nonlinear_arith)
                    requires
                        height == 0,
                ;
            }
        }
        if width > 0 && height > 0 {
            assert((height - 1) * row_size <= 0xffff_ffff * 0xffff_ffff) by (nonlinear_arith)
                requires
                    height <= 0xffff_ffff,
                    row_size <= 0xffff_ffff,
                    height >= 1,
            ;
            let last: u128 = (height as u128 - 1) * (row_size as u128) + 3 * (width as u128);
            let rem = reader.remaining();
            assert(start <= d.len());
            assert(rem == d.len() - start);
            if last > rem as u128 {
                return Err(ImageError::Truncated);
            }
            assert(start + (height - 1) * row_size + 3 * width <= d.len());
        }
        assert(bpp == 24);
        assert(24 * width + 31 <= u32::MAX);
        assert(width * height <= u32::MAX);
        assert(width > 0 && height > 0 ==> start + (height - 1) * bmp_row_size(width as int) + 3 * width <= d.len());
        assert(bmp_decode_error(le, d, p0) is None);
        assert((height - height) * row_size == 0);
        let mut pixel_arr: PixelArr<T> = PixelArr::new(width, height);
        let mut y: u32 = height;
        while y > 0
            invariant
                d.len() <= usize::MAX,
                reader.little_endian() == old(reader).little_endian(),
                reader.checksum_func() == old(reader).checksum_func(),
                reader.checksum_start() == old(reader).checksum_start(),
                y <= height,
                reader.data() == d,
                pixel_arr.width == width,
                pixel_arr.height == height,
                pixel_arr.wf(),
                width * height <= u32::MAX,
                row_size == bmp_row_size(width as int),
                skip == row_size - 3 * width,
                3 * width <= row_size,
                0 <= start <= d.len(),
                width > 0 && height > 0 ==> start + (height - 1) * row_size + 3 * width <= d.len(),
                y > 0 ==> reader.position() == start + (height - y) * row_size,
                height == 0 ==> reader.position() == start,
                height > 0 && y == 0 ==> reader.position() == (if start + height * row_size <= usize::MAX {
                    start + height * row_size
                } else {
                    usize::MAX as int
                }),
                f == reader.checksum_func(),
                reader.checksum() == checksum_after(
                    f,
                    c0,
                    hdr + bmp_rows_read(d, start, row_size as int, width as int, (height - y) as nat),
                ),
                forall|x: int, yy: int|
                    0 <= x < width && y <= yy < height ==> #[trigger] pixel_arr.pixels()[x + yy * width]
                        == bmp_pixel::<T>(d, start, row_size as int, height as int, x, yy),
            decreases y,
        {
            y -= 1;
            let ghost pre = hdr + bmp_rows_read(d, start, row_size as int, width as int, (height - 1 - y) as nat);
            let ghost a = start + (height - 1 - y) * row_size;
            assert(a <= d.len()) by {
                if width > 0 {
                    assert((height - 1 - y) * row_size <= (height - 1) * row_size) by (nonlinear_arith)
                        requires
                            y < height,
                            0 <= row_size,
                    ;
                } else {
                    assert(row_size == 0);
                    assert((height - 1 - y) * row_size == 0) by (nonlinear_arith)
                        requires
                            row_size == 0,
                    ;
                }
            }
            assert(pre + d.subrange(a, a) =~= pre);
            let mut x: u32 = 0;
            while x < width
                invariant
                    d.len() <= usize::MAX,
                    reader.little_endian() == old(reader).little_endian(),
                    reader.checksum_func() == old(reader).checksum_func(),
                    reader.checksum_start() == old(reader).checksum_start(),
                    y < height,
                    x <= width,
                    reader.data() == d,
                    pixel_arr.width == width,
                    pixel_arr.height == height,
                    pixel_arr.wf(),
                    width * height <= u32::MAX,
                    row_size == bmp_row_size(width as int),
                    skip == row_size - 3 * width,
                    3 * width <= row_size,
                    0 <= start <= d.len(),
                    width > 0 && height > 0 ==> start + (height - 1) * row_size + 3 * width <= d.len(),
                    reader.position() == start + (height - 1 - y) * row_size + 3 * x,
                    f == reader.checksum_func(),
                    a == start + (height - 1 - y) * row_size,
                    a <= d.len(),
                    pre == hdr + bmp_rows_read(d, start, row_size as int, width as int, (height - 1 - y) as nat),
                    reader.checksum() == checksum_after(f, c0, pre + d.subrange(a, reader.position())),
                    forall|xx: int, yy: int|
                        0 <= xx < width && ((y < yy < height) || (yy == y && xx < x)) ==> #[trigger] pixel_arr.pixels()[xx + yy * width]
                            == bmp_pixel::<T>(d, start, row_size as int, height as int, xx, yy),
                decreases width - x,
            {
                assert((height - 1 - y) * row_size <= (height - 1) * row_size) by (nonlinear_arith)
                    requires
                        y < height,
                        0 <= row_size,
                ;
                let ghost o = reader.position();
                let b: u8 = reader.read();
                proof {
                    lemma_checksum_after_extend(f, c0, pre, d, a, o, o + 1);
                }
                let g: u8 = reader.read();
                proof {
                    lemma_checksum_after_extend(f, c0, pre, d, a, o + 1, o + 2);
                }
                let r: u8 = reader.read();
                proof {
                    lemma_checksum_after_extend(f, c0, pre, d, a, o + 2, o + 3);
                }
                assert(d.subrange(o, o + 1)[0] == d[o]);
                assert(d.subrange(o + 1, o + 2)[0] == d[o + 1]);
                assert(d.subrange(o + 2, o + 3)[0] == d[o + 2]);
                let pixel = RGBA::<u8> { r, g, b, a: 255 };
                let value: T = convert(&pixel);
                proof {
                    lemma_grid_index_bound(x as int, y as int, width as int, height as int);
                }
                let ghost before = pixel_arr.pixels();
                pixel_arr.set(x as usize, y as usize, value);
                assert forall|xx: int, yy: int|
                    0 <= xx < width && ((y < yy < height) || (yy == y && xx < x + 1)) implies #[trigger] pixel_arr.pixels()[xx
                    + yy * width] == bmp_pixel::<T>(d, start, row_size as int, height as int, xx, yy) by {
                    if xx != x || yy != y {
                        lemma_grid_index_unique(xx, yy, x as int, y as int, width as int);
                        lemma_grid_index_bound(xx, yy, width as int, height as int);
                        assert(pixel_arr.pixels()[xx + yy * width] == before[xx + yy * width]);
                    }
                }
                x += 1;
            }
            assert(hdr + bmp_rows_read(d, start, row_size as int, width as int, (height - y) as nat) =~= pre
                + d.subrange(a, a + 3 * width));
            reader.skip(skip as usize);
            proof {
                assert((height - 1 - y) * row_size + 3 * width + (row_size - 3 * width) == (height - y) * row_size)
                    by (nonlinear_arith);
                if y > 0 {
                    assert((height - y) * row_size <= (height - 1) * row_size) by (nonlinear_arith)
                        requires
                            0 < y < height,
                            0 <= row_size,
                    ;
                    assert(width == 0 ==> row_size == 0);
                }
            }
        }
        Ok(ImageBase { bit_depth: bpp, pixels: pixel_arr })
    }

    /// Whether `image` can be written as a bitmap: its pixels fill it, and
    /// the row and file sizes fit in 32 bits.
    pub fn can_write<T: ColorType>(image: &ImageBase<T>) -> (r: bool)
        ensures
            r == bmp_writable(*image),
    {
        let width = image.pixels.width as u64;
        let height = image.pixels.height as u64;
        assert(width * height <= 0x1_0000_0000 * 0x1_0000_0000) by (nonlinear_arith)
            requires
                width <= 0x1_0000_0000,
                height <= 0x1_0000_0000,
        ;
        if !image.pixels.is_wf() {
            return false;
        }
        if 24 * width + 31 > 0xffff_ffff {
            return false;
        }
        let row_size: u64 = ((24 * width + 31) / 32) * 4;
        assert(row_size * height <= 0x1_0000_0000 * 0x1_0000_0000) by (nonlinear_arith)
            requires
                row_size <= 0x1_0000_0000,
                height <= 0x1_0000_0000,
        ;
        if (row_size as u128) * (height as u128) + 26 > 0xffff_ffff {
            return false;
        }
        true
    }

    /// Writes `image` as a 24-bit bitmap with the 12-byte core header.
    pub fn write_image<T: ColorType>(image: &ImageBase<T>, writer: &mut FileWriter)
        requires
            bmp_writable(*image),
        ensures
            final(writer).written() == old(writer).written() + bmp_encode(*image),
    {
        let ghost start = writer.written();
        let width = image.pixels.width;
        let height = image.pixels.height;
        let ghost pixels = image.pixels.pixels();
        let magic: [u8; 2] = [0x42u8, 0x4du8];
        assert(magic@ =~= seq![0x42u8, 0x4du8]);
        writer.write_array(magic);
        let row_size: u32 = ((24 * width + 31) / 32) * 4;
        let file_size: u32 = 14 + 12 + row_size * height;
        let offset: u32 = 26;
        writer.write(file_size);
        writer.write_zeros(4);
        writer.write(offset);
        writer.write(12u32);
        writer.write(width as u16);
        writer.write(height as u16);
        writer.write(1u16);
        writer.write(24u16);
        proof {
            lemma_row_size(width as int);
            let m = seq![0x42u8, 0x4du8];
            assert(le_bytes_of::<1, u8>(m) =~= m) by {
                let m1 = m.drop_last();
                assert(m1 =~= seq![0x42u8]);
                assert(m1.drop_last() =~= Seq::<u8>::empty());
                assert(le_bytes_of::<1, u8>(m1.drop_last()) =~= Seq::<u8>::empty());
                assert(le_bytes_of::<1, u8>(m1) =~= seq![0x42u8]);
            }
            assert(writer.written() =~= start + bmp_headers(width, height));
        }
        let ghost header_end = writer.written();
        let skip: usize = (row_size - width * 3) as usize;
        let mut y: u32 = height;
        while y > 0
            invariant
                y <= height,
                width == image.pixels.width,
                height == image.pixels.height,
                pixels == image.pixels.pixels(),
                bmp_writable(*image),
                row_size == bmp_row_size(width as int),
                skip == row_size - 3 * width,
                writer.written() == header_end + bmp_rows(pixels, width as int, height as int, (height - y) as int),
            decreases y,
        {
            y -= 1;
            let ghost row_start = writer.written();
            let mut x: u32 = 0;
            while x < width
                invariant
                    y < height,
                    x <= width,
                    width == image.pixels.width,
                    height == image.pixels.height,
                    pixels == image.pixels.pixels(),
                    bmp_writable(*image),
                    writer.written() == row_start + bmp_row_pixels(pixels, width as int, y as int, x as int),
                decreases width - x,
            {
                proof {
                    lemma_grid_index_bound(x as int, y as int, width as int, height as int);
                }
                let p = image.pixels.index(x as usize, y as usize);
                let pixel: RGB<u8> = convert(p);
                writer.write(pixel.b);
                writer.write(pixel.g);
                writer.write(pixel.r);
                x += 1;
                assert(writer.written() =~= row_start + bmp_row_pixels(pixels, width as int, y as int, x as int));
            }
            writer.write_zeros(skip);
            assert(writer.written() =~= header_end + bmp_rows(pixels, width as int, height as int, (height - y) as int));
        }
    }
}

proof fn lemma_bmp_roundtrip_header(image: ImageBase<RGB<u8>>)
    requires
        bmp_writable(image),
        image.pixels.width < 65536,
        image.pixels.height < 65536,
    ensures
        bmp_decode_error(true, bmp_encode(image), 0) is None,
        bmp_header(true, bmp_encode(image), 0) == Ok::<(u32, u32, u8, int), ImageError>(
            (image.pixels.width, image.pixels.height, 24u8, 26),
        ),
        bmp_encode(image).len() == 26 + image.pixels.height * bmp_row_size(image.pixels.width as int),
{
    let w = image.pixels.width;
    let h = image.pixels.height;
    let pixels = image.pixels.pixels();
    let rs = bmp_row_size(w as int);
    let hd = bmp_headers(w, h);
    let d = bmp_encode(image);
    lemma_row_size(w as int);
    lemma_bmp_rows(pixels, w as int, h as int, h as int);
    u32::lemma_value_roundtrip(12u32);
    u16::lemma_value_roundtrip(w as u16);
    u16::lemma_value_roundtrip(h as u16);
    u16::lemma_value_roundtrip(24u16);
    assert(hd.len() == 26);
    assert(d.len() == 26 + h * rs);
    assert(d.subrange(14, 18) =~= u32::spec_to_le_bytes(12u32));
    assert(d.subrange(18, 20) =~= u16::spec_to_le_bytes(w as u16));
    assert(d.subrange(20, 22) =~= u16::spec_to_le_bytes(h as u16));
    assert(d.subrange(24, 26) =~= u16::spec_to_le_bytes(24u16));
    assert(d[0] == 0x42 && d[1] == 0x4d);
    assert(w * h <= u32::MAX) by (nonlinear_arith)
        requires
            3 * w <= rs,
            26 + rs * h <= u32::MAX,
            0 <= w,
            0 <= h,
    ;
    assert(w as u16 as u32 == w);
    assert(h as u16 as u32 == h);
    if w > 0 && h > 0 {
        assert((h - 1) * rs + 3 * w <= h * rs) by (nonlinear_arith)
            requires
                3 * w <= rs,
                h >= 1,
        ;
    }
}

proof fn lemma_bmp_roundtrip_pixel(image: ImageBase<RGB<u8>>, x: int, y: int)
    requires
        bmp_writable(image),
        0 <= x < image.pixels.width,
        0 <= y < image.pixels.height,
    ensures
        bmp_pixel::<RGB<u8>>(
            bmp_encode(image),
            26,
            bmp_row_size(image.pixels.width as int),
            image.pixels.height as int,
            x,
            y,
        ) == image.pixels.pixels()[x + y * image.pixels.width],
{
    let w = image.pixels.width;
    let h = image.pixels.height;
    let pixels = image.pixels.pixels();
    let rs = bmp_row_size(w as int);
    let hd = bmp_headers(w, h);
    let rows = bmp_rows(pixels, w as int, h as int, h as int);
    let d = bmp_encode(image);
    lemma_row_size(w as int);
    lemma_bmp_rows(pixels, w as int, h as int, h as int);
    assert(hd.len() == 26);
    let r = h - 1 - y;
    let o = 26 + r * rs + 3 * x;
    let p = pixels[x + y * w];
    lemma_bmp_row_pixels(pixels, w as int, y, w as int);
    RGB::<u8>::lemma_full_color_roundtrip(p);
    assert(3 * x + 2 < 3 * w);
    assert(r * rs + 3 * x + 2 < h * rs) by (nonlinear_arith)
        requires
            0 <= r < h,
            0 <= x,
            3 * x + 2 < 3 * w,
            3 * w <= rs,
    ;
    assert(h - 1 - r == y);
    let row = bmp_row(pixels, w as int, y);
    assert(row[3 * x + 0] == bmp_pixel_bytes(p)[0]);
    assert(row[3 * x + 1] == bmp_pixel_bytes(p)[1]);
    assert(row[3 * x + 2] == bmp_pixel_bytes(p)[2]);
    assert(rows[r * rs + (3 * x + 0)] == row[3 * x + 0]);
    assert(rows[r * rs + (3 * x + 1)] == row[3 * x + 1]);
    assert(rows[r * rs + (3 * x + 2)] == row[3 * x + 2]);
    assert(d[o] == rows[r * rs + 3 * x]);
    assert(d[o + 1] == rows[r * rs + (3 * x + 1)]);
    assert(d[o + 2] == rows[r * rs + (3 * x + 2)]);
    u8::lemma_full_color_roundtrip(p.r);
    u8::lemma_full_color_roundtrip(p.g);
    u8::lemma_full_color_roundtrip(p.b);
}

/// A bitmap that `write_image` writes, read back with `read_image`
/// (little-endian, from its first byte), gives back the image's dimensions
/// and pixels, at 24 bits per pixel.
pub proof fn lemma_bmp_roundtrip(image: ImageBase<RGB<u8>>)
    requires
        bmp_writable(image),
        image.pixels.width < 65536,
        image.pixels.height < 65536,
    ensures
        bmp_decode_error(true, bmp_encode(image), 0) is None,
        bmp_header(true, bmp_encode(image), 0) == Ok::<(u32, u32, u8, int), ImageError>(
            (image.pixels.width, image.pixels.height, 24u8, 26),
        ),
        forall|x: int, y: int|
            0 <= x < image.pixels.width && 0 <= y < image.pixels.height ==> #[trigger] bmp_pixel::<RGB<u8>>(
                bmp_encode(image),
                26,
                bmp_row_size(image.pixels.width as int),
                image.pixels.height as int,
                x,
                y,
            ) == image.pixels.pixels()[x + y * image.pixels.width],
{
    lemma_bmp_roundtrip_header(image);
    assert forall|x: int, y: int|
        0 <= x < image.pixels.width && 0 <= y < image.pixels.height implies #[trigger] bmp_pixel::<RGB<u8>>(
        bmp_encode(image),
        26,
        bmp_row_size(image.pixels.width as int),
        image.pixels.height as int,
        x,
        y,
    ) == image.pixels.pixels()[x + y * image.pixels.width] by {
        lemma_bmp_roundtrip_pixel(image, x, y);
    }
}


/// Reading back what `write_image` wrote gives the image written: the
/// same dimensions and pixels, at 24 bits per pixel.
pub proof fn lemma_bmp_write_read(image: ImageBase<RGB<u8>>, back: ImageBase<RGB<u8>>)
    requires
        bmp_writable(image),
        image.pixels.width < 65536,
        image.pixels.height < 65536,
        bmp_decoded::<RGB<u8>>(true, bmp_encode(image), 0, back),
    ensures
        back.bit_depth == 24,
        back.pixels.width == image.pixels.width,
        back.pixels.height == image.pixels.height,
        back.pixels.pixels() == image.pixels.pixels(),
{
    lemma_bmp_roundtrip(image);
    let w = image.pixels.width as int;
    let h = image.pixels.height as int;
    assert forall|k: int| 0 <= k < w * h implies #[trigger] back.pixels.pixels()[k] == image.pixels.pixels()[k] by {
        let x = k % w;
        let y = k / w;
        assert(w > 0) by (nonlinear_arith)
            requires
                0 <= k < w * h,
                0 <= h,
        ;
        vstd::arithmetic::div_mod::lemma_fundamental_div_mod(k, w);
        assert(0 <= x < w);
        assert(0 <= y < h) by (nonlinear_arith)
            requires
                y == k / w,
                0 <= k < w * h,
                w > 0,
        ;
        assert(x + y * w == k) by (nonlinear_arith)
            requires
                k == w * (k / w) + k % w,
                x == k % w,
                y == k / w,
        ;
    }
    assert(back.pixels.pixels() =~= image.pixels.pixels());
}
} // verus!
