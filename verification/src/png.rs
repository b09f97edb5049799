use vstd::prelude::*;

use crate::byte_encode::ByteEncode;
use crate::bits::{byte_bits, BitBuffer};
use crate::crc::crc_update;
use crate::image::{convert, ColorType, ImageBase, ImageError, PixelArr, RGB};
use crate::reader::{checksum_after, decode_value, lemma_checksum_after_concat, u32_at, ChecksumFunc, FileReader};
use crate::zlib::{inflate, zlib_decode};

verus! {

/// `|x - y|`.
pub open spec fn abs_diff_spec(x: int, y: int) -> int {
    if x >= y { x - y } else { y - x }
}

/// The Paeth predictor as this decoder computes it: the estimate
/// `a + b - c` is taken modulo 256 before the distances are measured.
pub open spec fn paeth_spec(a: u8, b: u8, c: u8) -> u8 {
    let p = (a + b - c) % 256;
    let pa = abs_diff_spec(p, a as int);
    let pb = abs_diff_spec(p, b as int);
    let pc = abs_diff_spec(p, c as int);
    if pa <= pb && pa <= pc {
        a
    } else if pb <= pc {
        b
    } else {
        c
    }
}

/// The Paeth predictor picks, of the left, above and above-left bytes, one
/// nearest to the estimate `p = a + b - c` (taken modulo 256): the left byte
/// when it is nearest, else the above byte when it is nearest, else the
/// above-left byte (PNG, 9.4).
pub proof fn lemma_paeth_nearest(a: u8, b: u8, c: u8)
    ensures
        ({
            let p = (a + b - c) % 256;
            let r = paeth_spec(a, b, c);
            let da = abs_diff_spec(p, a as int);
            let db = abs_diff_spec(p, b as int);
            let dc = abs_diff_spec(p, c as int);
            let dr = abs_diff_spec(p, r as int);
            &&& dr <= da && dr <= db && dr <= dc
            &&& (da <= db && da <= dc ==> r == a)
            &&& (db < da && db <= dc ==> r == b)
            &&& (dc < da && dc < db ==> r == c)
        }),
{
}

/// `|x - y|` for bytes.
fn abs_diff(x: u8, y: u8) -> (r: u8)
    ensures
        r == abs_diff_spec(x as int, y as int),
{
    if x >= y {
        x - y
    } else {
        y - x
    }
}

/// The Paeth predictor of the bytes to the left (`a`), above (`b`) and
/// above-left (`c`).
pub fn paeth_filter(a: &u8, b: &u8, c: &u8) -> (r: u8)
    ensures
        r == paeth_spec(*a, *b, *c),
{
    let s: i32 = *a as i32 + *b as i32 - *c as i32;
    assert(-255 <= s <= 510 ==> (s as u8) as int == (if s < 0 { s + 256 } else if s > 255 { s - 256 } else { s as int }))
        by (bit_vector);
    let p = s as u8;
    assert(p as int == (*a + *b - *c) % 256);
    let pa = abs_diff(p, *a);
    let pb = abs_diff(p, *b);
    let pc = abs_diff(p, *c);
    if pa <= pb && pa <= pc {
        *a
    } else if pb <= pc {
        *b
    } else {
        *c
    }
}

/// The five PNG scanline filters.
#[derive(Debug, Clone, Copy, PartialEq, Eq, Structural)]
pub enum FilterMethod {
    Unfiltered,
    Sub,
    Up,
    Average,
    Paeth,
}

/// The byte that filter `f` (by number) reconstructs from the filtered
/// byte `x`, given the reconstructed bytes to the left (`a`), above (`b`)
/// and above-left (`c`); none where the average filter's `a + b` exceeds 255.
pub open spec fn filter_apply(f: u8, a: u8, b: u8, c: u8, x: u8) -> Option<u8> {
    if f == 0 {
        Some(x)
    } else if f == 1 {
        Some(((x + a) % 256) as u8)
    } else if f == 2 {
        Some(((x + b) % 256) as u8)
    } else if f == 3 {
        if a + b > 255 {
            None
        } else {
            Some(((x + (a + b) / 2) % 256) as u8)
        }
    } else {
        Some(((x + paeth_spec(a, b, c)) % 256) as u8)
    }
}

impl FilterMethod {
    /// The number of the filter.
    pub open spec fn number(self) -> u8 {
        match self {
            FilterMethod::Unfiltered => 0,
            FilterMethod::Sub => 1,
            FilterMethod::Up => 2,
            FilterMethod::Average => 3,
            FilterMethod::Paeth => 4,
        }
    }

    /// The filter with number `x`.
    pub fn from_byte(x: u8) -> (r: Self)
        requires
            x <= 4,
        ensures
            r.number() == x,
    {
        match x {
            0 => FilterMethod::Unfiltered,
            1 => FilterMethod::Sub,
            2 => FilterMethod::Up,
            3 => FilterMethod::Average,
            _ => FilterMethod::Paeth,
        }
    }

    /// Reconstructs the filtered byte `x` from the reconstructed bytes to the
    /// left (`a`), above (`b`) and above-left (`c`).
    pub fn apply(&self, a: &u8, b: &u8, c: &u8, x: &u8) -> (r: u8)
        requires
            filter_apply(self.number(), *a, *b, *c, *x) is Some,
        ensures
            filter_apply(self.number(), *a, *b, *c, *x) == Some(r),
    {
        match self {
            FilterMethod::Unfiltered => *x,
            FilterMethod::Sub => {
                let r = x.wrapping_add(*a);
                assert(r == ((*x + *a) % 256) as u8);
                r
            },
            FilterMethod::Up => {
                let r = x.wrapping_add(*b);
                assert(r == ((*x + *b) % 256) as u8);
                r
            },
            FilterMethod::Average => {
                let m = (*a + *b) / 2;
                let r = x.wrapping_add(m);
                assert(r == ((*x + m) % 256) as u8);
                r
            },
            FilterMethod::Paeth => {
                let p = paeth_filter(a, b, c);
                let r = x.wrapping_add(p);
                assert(r == ((*x + p) % 256) as u8);
                r
            },
        }
    }
}

/// Scanline `y` reconstructed from its `x`-th byte on, onto `row`: its
/// filtered bytes start at `i`, `prev` is the scanline above (`first`: there
/// is none), and it is `row_len` bytes long.
pub open spec fn unfilter_row(decoded: Seq<u8>, i: int, f: u8, prev: Seq<u8>, first: bool, row_len: int, x: int, row: Seq<u8>) -> Result<
    Seq<u8>,
    ImageError,
>
    decreases row_len - x,
{
    if x >= row_len {
        Ok(row)
    } else if i + x >= decoded.len() {
        Err(ImageError::ImageDataTruncated)
    } else {
        let a = if x < 3 { 0u8 } else { row[x - 3] };
        let b = if first { 0u8 } else { prev[x] };
        let c = if first || x < 3 { 0u8 } else { prev[x - 3] };
        match filter_apply(f, a, b, c, decoded[i + x]) {
            None => Err(ImageError::FilterOverflow),
            Some(v) => unfilter_row(decoded, i, f, prev, first, row_len, x + 1, row.push(v)),
        }
    }
}

/// The scanlines from `y` on, reconstructed from the decompressed image
/// data, appended to `rows`: each is a filter byte and `row_len` bytes.
pub open spec fn unfilter_rows(decoded: Seq<u8>, row_len: int, height: int, y: int, rows: Seq<Seq<u8>>) -> Result<
    Seq<Seq<u8>>,
    ImageError,
>
    decreases height - y,
{
    if y >= height {
        Ok(rows)
    } else {
        let i = y * (row_len + 1);
        if i >= decoded.len() {
            Err(ImageError::ImageDataTruncated)
        } else if decoded[i] > 4 {
            Err(ImageError::InvalidFilter(decoded[i]))
        } else {
            let prev = if y == 0 { Seq::empty() } else { rows[y - 1] };
            match unfilter_row(decoded, i + 1, decoded[i], prev, y == 0, row_len, 0, Seq::empty()) {
                Err(e) => Err(e),
                Ok(row) => unfilter_rows(decoded, row_len, height, y + 1, rows.push(row)),
            }
        }
    }
}

/// The views of a list of byte vectors.
pub open spec fn rows_view(rows: Seq<Vec<u8>>) -> Seq<Seq<u8>> {
    rows.map_values(|r: Vec<u8>| r@)
}

proof fn lemma_unfilter_row_len(decoded: Seq<u8>, i: int, f: u8, prev: Seq<u8>, first: bool, row_len: int, x: int, row: Seq<u8>)
    requires
        row.len() == x,
        0 <= x,
    ensures
        unfilter_row(decoded, i, f, prev, first, row_len, x, row) matches Ok(r) ==> r.len() == (if x < row_len { row_len } else { x })
            && (x < row_len ==> i + row_len <= decoded.len()),
    decreases row_len - x,
{
    if x < row_len && i + x < decoded.len() {
        let a = if x < 3 { 0u8 } else { row[x - 3] };
        let b = if first { 0u8 } else { prev[x] };
        let c = if first || x < 3 { 0u8 } else { prev[x - 3] };
        if let Some(v) = filter_apply(f, a, b, c, decoded[i + x]) {
            lemma_unfilter_row_len(decoded, i, f, prev, first, row_len, x + 1, row.push(v));
        }
    }
}

/// Reconstructs one scanline whose filtered bytes start at `i`.
fn unfilter_one_row(decoded: &Vec<u8>, i: usize, f: u8, prev: &Vec<u8>, first: bool, row_len: u64) -> (r: Result<Vec<u8>, ImageError>)
    requires
        f <= 4,
        !first ==> prev@.len() == row_len,
        i <= decoded@.len(),
    ensures
        match unfilter_row(decoded@, i as int, f, prev@, first, row_len as int, 0, Seq::empty()) {
            Ok(row) => r matches Ok(v) && v@ == row,
            Err(e) => r == Err::<Vec<u8>, ImageError>(e),
        },
{
    let ghost goal = unfilter_row(decoded@, i as int, f, prev@, first, row_len as int, 0, Seq::empty());
    let filter = FilterMethod::from_byte(f);
    let mut row: Vec<u8> = Vec::new();
    let mut x: u64 = 0;
    let mut k: usize = i;
    while x < row_len
        invariant
            f <= 4,
            filter.number() == f,
            !first ==> prev@.len() == row_len,
            i <= decoded@.len(),
            x <= row_len,
            k == i + x,
            k <= decoded@.len(),
            row@.len() == x,
            goal == unfilter_row(decoded@, i as int, f, prev@, first, row_len as int, 0, Seq::empty()),
            unfilter_row(decoded@, i as int, f, prev@, first, row_len as int, x as int, row@) == goal,
        decreases row_len - x,
    {
        if k >= decoded.len() {
            return Err(ImageError::ImageDataTruncated);
        }
        let xu: usize = x as usize;
        let a: u8 = if xu < 3 { 0 } else { row[xu - 3] };
        let b: u8 = if first { 0 } else { prev[xu] };
        let c: u8 = if first || xu < 3 { 0 } else { prev[xu - 3] };
        let byte = decoded[k];
        if filter.number_of() == 3 && a as u16 + b as u16 > 255 {
            return Err(ImageError::FilterOverflow);
        }
        let v = filter.apply(&a, &b, &c, &byte);
        row.push(v);
        x += 1;
        k += 1;
    }
    Ok(row)
}

impl FilterMethod {
    /// The number of the filter.
    pub fn number_of(&self) -> (r: u8)
        ensures
            r == self.number(),
    {
        match self {
            FilterMethod::Unfiltered => 0,
            FilterMethod::Sub => 1,
            FilterMethod::Up => 2,
            FilterMethod::Average => 3,
            FilterMethod::Paeth => 4,
        }
    }
}

/// Reconstructs the `height` scanlines of `3 * width` bytes from the
/// decompressed image data.
pub fn unfilter(decoded: &Vec<u8>, width: u32, height: u32) -> (r: Result<Vec<Vec<u8>>, ImageError>)
    ensures
        match unfilter_rows(decoded@, 3 * width, height as int, 0, Seq::empty()) {
            Ok(rows) => r matches Ok(v) && rows_view(v@) == rows,
            Err(e) => r == Err::<Vec<Vec<u8>>, ImageError>(e),
        },
{
    let row_len: u64 = 3 * (width as u64);
    let ghost goal = unfilter_rows(decoded@, row_len as int, height as int, 0, Seq::empty());
    let mut rows: Vec<Vec<u8>> = Vec::new();
    let mut y: u32 = 0;
    let mut i: usize = 0;
    let empty: Vec<u8> = Vec::new();
    assert(rows_view(rows@) =~= Seq::<Seq<u8>>::empty());
    while y < height
        invariant
            y <= height,
            row_len == 3 * width,
            empty@ == Seq::<u8>::empty(),
            y < height ==> i == y * (row_len + 1),
            rows@.len() == y,
            forall|k: int| 0 <= k < y ==> (#[trigger] rows@[k])@.len() == row_len,
            goal == unfilter_rows(decoded@, row_len as int, height as int, 0, Seq::empty()),
            unfilter_rows(decoded@, row_len as int, height as int, y as int, rows_view(rows@)) == goal,
        decreases height - y,
    {
        if i >= decoded.len() {
            return Err(ImageError::ImageDataTruncated);
        }
        let f = decoded[i];
        if f > 4 {
            return Err(ImageError::InvalidFilter(f));
        }
        assert(y > 0 ==> rows@[y - 1]@ == rows_view(rows@)[y - 1]);
        let row = if y == 0 {
            unfilter_one_row(decoded, i + 1, f, &empty, true, row_len)
        } else {
            unfilter_one_row(decoded, i + 1, f, &rows[(y - 1) as usize], false, row_len)
        };
        let row = match row {
            Ok(r) => r,
            Err(e) => {
                return Err(e);
            },
        };
        proof {
            lemma_unfilter_row_len(decoded@, i + 1, f, if y == 0 { Seq::empty() } else { rows_view(rows@)[y - 1] }, y == 0, row_len as int, 0, Seq::empty());
        }
        let ghost before = rows@;
        rows.push(row);
        assert(rows_view(rows@) =~= rows_view(before).push(row@));
        assert((y + 1) * (row_len + 1) == y * (row_len + 1) + row_len + 1) by (nonlinear_arith);
        y += 1;
        if y < height {
            i = i + 1 + row_len as usize;
        }
    }
    Ok(rows)
}


/// The PNG image header chunk's fields.
#[allow(non_camel_case_types)]
#[derive(Clone, Copy, Debug)]
pub struct IHDR {
    pub width: u32,
    pub height: u32,
    pub bit_depth: u8,
    pub color_type: u8,
    pub compression_method: u8,
    pub filter_method: u8,
    pub interlace_method: u8,
}

impl ByteEncode<13> for IHDR {
    open spec fn spec_from_le_bytes(b: Seq<u8>) -> IHDR {
        IHDR {
            width: u32::spec_from_le_bytes(b.subrange(0, 4)),
            height: u32::spec_from_le_bytes(b.subrange(4, 8)),
            bit_depth: u8::spec_from_le_bytes(b.subrange(8, 9)),
            color_type: u8::spec_from_le_bytes(b.subrange(9, 10)),
            compression_method: u8::spec_from_le_bytes(b.subrange(10, 11)),
            filter_method: u8::spec_from_le_bytes(b.subrange(11, 12)),
            interlace_method: u8::spec_from_le_bytes(b.subrange(12, 13)),
        }
    }

    open spec fn spec_to_le_bytes(v: IHDR) -> Seq<u8> {
        u32::spec_to_le_bytes(v.width)
            + u32::spec_to_le_bytes(v.height)
            + u8::spec_to_le_bytes(v.bit_depth)
            + u8::spec_to_le_bytes(v.color_type)
            + u8::spec_to_le_bytes(v.compression_method)
            + u8::spec_to_le_bytes(v.filter_method)
            + u8::spec_to_le_bytes(v.interlace_method)
    }

    open spec fn spec_from_be_bytes(b: Seq<u8>) -> IHDR {
        IHDR {
            width: u32::spec_from_be_bytes(b.subrange(0, 4)),
            height: u32::spec_from_be_bytes(b.subrange(4, 8)),
            bit_depth: u8::spec_from_be_bytes(b.subrange(8, 9)),
            color_type: u8::spec_from_be_bytes(b.subrange(9, 10)),
            compression_method: u8::spec_from_be_bytes(b.subrange(10, 11)),
            filter_method: u8::spec_from_be_bytes(b.subrange(11, 12)),
            interlace_method: u8::spec_from_be_bytes(b.subrange(12, 13)),
        }
    }

    open spec fn spec_to_be_bytes(v: IHDR) -> Seq<u8> {
        u32::spec_to_be_bytes(v.width)
            + u32::spec_to_be_bytes(v.height)
            + u8::spec_to_be_bytes(v.bit_depth)
            + u8::spec_to_be_bytes(v.color_type)
            + u8::spec_to_be_bytes(v.compression_method)
            + u8::spec_to_be_bytes(v.filter_method)
            + u8::spec_to_be_bytes(v.interlace_method)
    }

    fn from_le_bytes(buffer: &[u8; 13]) -> (r: IHDR) {
        let width_bytes: [u8; 4] = [buffer[0], buffer[1], buffer[2], buffer[3]];
        assert(width_bytes@ =~= buffer@.subrange(0, 4));
        let height_bytes: [u8; 4] = [buffer[4], buffer[5], buffer[6], buffer[7]];
        assert(height_bytes@ =~= buffer@.subrange(4, 8));
        let bit_depth_bytes: [u8; 1] = [buffer[8]];
        assert(bit_depth_bytes@ =~= buffer@.subrange(8, 9));
        let color_type_bytes: [u8; 1] = [buffer[9]];
        assert(color_type_bytes@ =~= buffer@.subrange(9, 10));
        let compression_method_bytes: [u8; 1] = [buffer[10]];
        assert(compression_method_bytes@ =~= buffer@.subrange(10, 11));
        let filter_method_bytes: [u8; 1] = [buffer[11]];
        assert(filter_method_bytes@ =~= buffer@.subrange(11, 12));
        let interlace_method_bytes: [u8; 1] = [buffer[12]];
        assert(interlace_method_bytes@ =~= buffer@.subrange(12, 13));
        IHDR {
            width: <u32 as ByteEncode<4>>::from_le_bytes(&width_bytes),
            height: <u32 as ByteEncode<4>>::from_le_bytes(&height_bytes),
            bit_depth: <u8 as ByteEncode<1>>::from_le_bytes(&bit_depth_bytes),
            color_type: <u8 as ByteEncode<1>>::from_le_bytes(&color_type_bytes),
            compression_method: <u8 as ByteEncode<1>>::from_le_bytes(&compression_method_bytes),
            filter_method: <u8 as ByteEncode<1>>::from_le_bytes(&filter_method_bytes),
            interlace_method: <u8 as ByteEncode<1>>::from_le_bytes(&interlace_method_bytes),
        }
    }

    fn to_le_bytes(&self) -> (r: [u8; 13]) {
        let mut res = [0u8; 13];
        let width_bytes = <u32 as ByteEncode<4>>::to_le_bytes(&self.width);
        res[0] = width_bytes[0];
        res[1] = width_bytes[1];
        res[2] = width_bytes[2];
        res[3] = width_bytes[3];
        let height_bytes = <u32 as ByteEncode<4>>::to_le_bytes(&self.height);
        res[4] = height_bytes[0];
        res[5] = height_bytes[1];
        res[6] = height_bytes[2];
        res[7] = height_bytes[3];
        let bit_depth_bytes = <u8 as ByteEncode<1>>::to_le_bytes(&self.bit_depth);
        res[8] = bit_depth_bytes[0];
        let color_type_bytes = <u8 as ByteEncode<1>>::to_le_bytes(&self.color_type);
        res[9] = color_type_bytes[0];
        let compression_method_bytes = <u8 as ByteEncode<1>>::to_le_bytes(&self.compression_method);
        res[10] = compression_method_bytes[0];
        let filter_method_bytes = <u8 as ByteEncode<1>>::to_le_bytes(&self.filter_method);
        res[11] = filter_method_bytes[0];
        let interlace_method_bytes = <u8 as ByteEncode<1>>::to_le_bytes(&self.interlace_method);
        res[12] = interlace_method_bytes[0];
        assert(res@ =~= Self::spec_to_le_bytes(*self));
        res
    }

    fn from_be_bytes(buffer: &[u8; 13]) -> (r: IHDR) {
        let width_bytes: [u8; 4] = [buffer[0], buffer[1], buffer[2], buffer[3]];
        assert(width_bytes@ =~= buffer@.subrange(0, 4));
        let height_bytes: [u8; 4] = [buffer[4], buffer[5], buffer[6], buffer[7]];
        assert(height_bytes@ =~= buffer@.subrange(4, 8));
        let bit_depth_bytes: [u8; 1] = [buffer[8]];
        assert(bit_depth_bytes@ =~= buffer@.subrange(8, 9));
        let color_type_bytes: [u8; 1] = [buffer[9]];
        assert(color_type_bytes@ =~= buffer@.subrange(9, 10));
        let compression_method_bytes: [u8; 1] = [buffer[10]];
        assert(compression_method_bytes@ =~= buffer@.subrange(10, 11));
        let filter_method_bytes: [u8; 1] = [buffer[11]];
        assert(filter_method_bytes@ =~= buffer@.subrange(11, 12));
        let interlace_method_bytes: [u8; 1] = [buffer[12]];
        assert(interlace_method_bytes@ =~= buffer@.subrange(12, 13));
        IHDR {
            width: <u32 as ByteEncode<4>>::from_be_bytes(&width_bytes),
            height: <u32 as ByteEncode<4>>::from_be_bytes(&height_bytes),
            bit_depth: <u8 as ByteEncode<1>>::from_be_bytes(&bit_depth_bytes),
            color_type: <u8 as ByteEncode<1>>::from_be_bytes(&color_type_bytes),
            compression_method: <u8 as ByteEncode<1>>::from_be_bytes(&compression_method_bytes),
            filter_method: <u8 as ByteEncode<1>>::from_be_bytes(&filter_method_bytes),
            interlace_method: <u8 as ByteEncode<1>>::from_be_bytes(&interlace_method_bytes),
        }
    }

    fn to_be_bytes(&self) -> (r: [u8; 13]) {
        let mut res = [0u8; 13];
        let width_bytes = <u32 as ByteEncode<4>>::to_be_bytes(&self.width);
        res[0] = width_bytes[0];
        res[1] = width_bytes[1];
        res[2] = width_bytes[2];
        res[3] = width_bytes[3];
        let height_bytes = <u32 as ByteEncode<4>>::to_be_bytes(&self.height);
        res[4] = height_bytes[0];
        res[5] = height_bytes[1];
        res[6] = height_bytes[2];
        res[7] = height_bytes[3];
        let bit_depth_bytes = <u8 as ByteEncode<1>>::to_be_bytes(&self.bit_depth);
        res[8] = bit_depth_bytes[0];
        let color_type_bytes = <u8 as ByteEncode<1>>::to_be_bytes(&self.color_type);
        res[9] = color_type_bytes[0];
        let compression_method_bytes = <u8 as ByteEncode<1>>::to_be_bytes(&self.compression_method);
        res[10] = compression_method_bytes[0];
        let filter_method_bytes = <u8 as ByteEncode<1>>::to_be_bytes(&self.filter_method);
        res[11] = filter_method_bytes[0];
        let interlace_method_bytes = <u8 as ByteEncode<1>>::to_be_bytes(&self.interlace_method);
        res[12] = interlace_method_bytes[0];
        assert(res@ =~= Self::spec_to_be_bytes(*self));
        res
    }

    proof fn lemma_value_roundtrip(v: IHDR) {
        u32::lemma_value_roundtrip(v.width);
        u32::lemma_value_roundtrip(v.height);
        u8::lemma_value_roundtrip(v.bit_depth);
        u8::lemma_value_roundtrip(v.color_type);
        u8::lemma_value_roundtrip(v.compression_method);
        u8::lemma_value_roundtrip(v.filter_method);
        u8::lemma_value_roundtrip(v.interlace_method);
        let le = Self::spec_to_le_bytes(v);
        assert(le.subrange(0, 4) =~= u32::spec_to_le_bytes(v.width));
        assert(le.subrange(4, 8) =~= u32::spec_to_le_bytes(v.height));
        assert(le.subrange(8, 9) =~= u8::spec_to_le_bytes(v.bit_depth));
        assert(le.subrange(9, 10) =~= u8::spec_to_le_bytes(v.color_type));
        assert(le.subrange(10, 11) =~= u8::spec_to_le_bytes(v.compression_method));
        assert(le.subrange(11, 12) =~= u8::spec_to_le_bytes(v.filter_method));
        assert(le.subrange(12, 13) =~= u8::spec_to_le_bytes(v.interlace_method));
        let be = Self::spec_to_be_bytes(v);
        assert(be.subrange(0, 4) =~= u32::spec_to_be_bytes(v.width));
        assert(be.subrange(4, 8) =~= u32::spec_to_be_bytes(v.height));
        assert(be.subrange(8, 9) =~= u8::spec_to_be_bytes(v.bit_depth));
        assert(be.subrange(9, 10) =~= u8::spec_to_be_bytes(v.color_type));
        assert(be.subrange(10, 11) =~= u8::spec_to_be_bytes(v.compression_method));
        assert(be.subrange(11, 12) =~= u8::spec_to_be_bytes(v.filter_method));
        assert(be.subrange(12, 13) =~= u8::spec_to_be_bytes(v.interlace_method));
    }

    proof fn lemma_bytes_roundtrip(b: Seq<u8>) {
        u32::lemma_bytes_roundtrip(b.subrange(0, 4));
        u32::lemma_bytes_roundtrip(b.subrange(4, 8));
        u8::lemma_bytes_roundtrip(b.subrange(8, 9));
        u8::lemma_bytes_roundtrip(b.subrange(9, 10));
        u8::lemma_bytes_roundtrip(b.subrange(10, 11));
        u8::lemma_bytes_roundtrip(b.subrange(11, 12));
        u8::lemma_bytes_roundtrip(b.subrange(12, 13));
        assert(Self::spec_to_le_bytes(Self::spec_from_le_bytes(b)) =~= b);
        assert(Self::spec_to_be_bytes(Self::spec_from_be_bytes(b)) =~= b);
    }
}


/// The eight bytes a PNG file starts with.
pub const PNG_SIGNATURE: [u8; 8] = [0x89, 0x50, 0x4E, 0x47, 0x0D, 0x0A, 0x1A, 0x0A];

/// `IHDR`.
pub const IHDR_TYPE: [u8; 4] = [0x49, 0x48, 0x44, 0x52];

/// `IDAT`.
pub const IDAT_TYPE: [u8; 4] = [0x49, 0x44, 0x41, 0x54];

/// `IEND`.
pub const IEND_TYPE: [u8; 4] = [0x49, 0x45, 0x4E, 0x44];

/// `tEXt`.
pub const TEXT_TYPE: [u8; 4] = [0x74, 0x45, 0x58, 0x74];

/// The image trailer chunk.
#[allow(non_camel_case_types)]
#[derive(Clone, Copy, Debug)]
pub struct IEND {}

/// The image data chunks' bytes.
#[allow(non_camel_case_types)]
#[derive(Debug)]
pub struct IDAT {
    pub data: Vec<u8>,
}

/// The text chunks: keyword and text, as bytes (Latin-1), in order.
#[allow(non_camel_case_types)]
#[derive(Debug)]
pub struct tEXt {
    pub keywords: Vec<(Vec<u8>, Vec<u8>)>,
}

/// A critical chunk whose stored CRC differs from the one computed.
#[derive(Clone, Copy, Debug)]
pub struct CrcMismatch {
    pub chunk_type: [u8; 4],
    pub stored: u32,
    pub calculated: u32,
}

/// The chunks of a PNG file, merged by type.
#[allow(non_snake_case)]
#[derive(Debug)]
pub struct PNGImage {
    pub IHDR: Option<IHDR>,
    pub IDAT: Option<IDAT>,
    pub IEND: Option<IEND>,
    pub tEXt: Option<tEXt>,
    pub crc_errors: Vec<CrcMismatch>,
    pub chunks: Vec<ChunkInfo>,
}

/// A chunk that was read: its type, its length, and whether its CRC
/// mismatch was recorded (in `crc_errors`, in the same order).
#[derive(Clone, Copy, Debug)]
pub struct ChunkInfo {
    pub chunk_type: [u8; 4],
    pub length: u32,
    pub bad_crc: bool,
}

/// The views of a list of keyword/text pairs.
pub open spec fn text_view(entries: Seq<(Vec<u8>, Vec<u8>)>) -> Seq<(Seq<u8>, Seq<u8>)> {
    entries.map_values(|e: (Vec<u8>, Vec<u8>)| (e.0@, e.1@))
}

/// What the chunks of a PNG file come to, as plain values.
pub struct PngChunks {
    pub ihdr: Option<IHDR>,
    pub idat: Option<Seq<u8>>,
    pub iend: bool,
    pub text: Option<Seq<(Seq<u8>, Seq<u8>)>>,
    pub crc_errors: Seq<(Seq<u8>, u32, u32)>,
    pub chunks: Seq<(Seq<u8>, u32, bool)>,
}

impl PNGImage {
    /// The chunks as plain values.
    pub open spec fn model(&self) -> PngChunks {
        PngChunks {
            ihdr: self.IHDR,
            idat: match self.IDAT {
                Some(d) => Some(d.data@),
                None => None,
            },
            iend: self.IEND is Some,
            text: match self.tEXt {
                Some(t) => Some(text_view(t.keywords@)),
                None => None,
            },
            crc_errors: self.crc_errors@.map_values(|m: CrcMismatch| (m.chunk_type@, m.stored, m.calculated)),
            chunks: self.chunks@.map_values(|c: ChunkInfo| (c.chunk_type@, c.length, c.bad_crc)),
        }
    }
}

/// Values that combine when a chunk type comes more than once.
pub trait Mergable: Sized {
    /// `r` is `a` combined with `b`.
    spec fn merged(a: Self, b: Self, r: Self) -> bool;

    fn merge(a: Self, b: Self) -> (r: Self)
        ensures
            Self::merged(a, b, r),
    ;
}

impl<T: Mergable> Mergable for Option<T> {
    open spec fn merged(a: Self, b: Self, r: Self) -> bool {
        match a {
            Some(x) => match b {
                Some(y) => r matches Some(z) && T::merged(x, y, z),
                None => r == a,
            },
            None => r == b,
        }
    }

    fn merge(a: Option<T>, b: Option<T>) -> (r: Option<T>) {
        match a {
            Some(a_content) => match b {
                Some(b_content) => Some(T::merge(a_content, b_content)),
                None => Some(a_content),
            },
            None => b,
        }
    }
}

impl Mergable for IDAT {
    open spec fn merged(a: Self, b: Self, r: Self) -> bool {
        r.data@ == a.data@ + b.data@
    }

    fn merge(a: Self, b: Self) -> (r: Self) {
        let mut data = a.data;
        let mut rest = b.data;
        data.append(&mut rest);
        IDAT { data }
    }
}

/// The text of keyword `key` among text entries: that of its last entry,
/// as a later entry for a keyword replaces an earlier one.
pub open spec fn text_lookup(entries: Seq<(Seq<u8>, Seq<u8>)>, key: Seq<u8>) -> Option<Seq<u8>>
    decreases entries.len(),
{
    if entries.len() == 0 {
        None
    } else if entries.last().0 == key {
        Some(entries.last().1)
    } else {
        text_lookup(entries.drop_last(), key)
    }
}

fn same_bytes(a: &[u8], b: &[u8]) -> (r: bool)
    ensures
        r == (a@ == b@),
{
    if a.len() != b.len() {
        return false;
    }
    let mut i: usize = 0;
    while i < a.len()
        invariant
            a@.len() == b@.len(),
            i <= a@.len(),
            forall|j: int| 0 <= j < i ==> a@[j] == b@[j],
        decreases a@.len() - i,
    {
        if a[i] != b[i] {
            return false;
        }
        i += 1;
    }
    assert(a@ =~= b@);
    true
}

impl tEXt {
    /// The text of the keyword `key`: that of its last entry.
    pub fn get(&self, key: &[u8]) -> (r: Option<&Vec<u8>>)
        ensures
            match text_lookup(text_view(self.keywords@), key@) {
                Some(t) => r matches Some(v) && v@ == t,
                None => r is None,
            },
    {
        let ghost all = text_view(self.keywords@);
        let mut i: usize = self.keywords.len();
        assert(all.take(i as int) =~= all);
        while i > 0
            invariant
                i <= self.keywords@.len(),
                all == text_view(self.keywords@),
                text_lookup(all, key@) == text_lookup(all.take(i as int), key@),
            decreases i,
        {
            let ghost prefix = all.take(i as int);
            assert(prefix.drop_last() =~= all.take(i - 1));
            if same_bytes(self.keywords[i - 1].0.as_slice(), key) {
                return Some(&self.keywords[i - 1].1);
            }
            i -= 1;
        }
        assert(all.take(0) =~= Seq::<(Seq<u8>, Seq<u8>)>::empty());
        None
    }
}

impl Mergable for tEXt {
    open spec fn merged(a: Self, b: Self, r: Self) -> bool {
        text_view(r.keywords@) == text_view(a.keywords@) + text_view(b.keywords@)
    }

    fn merge(a: Self, b: Self) -> (r: Self) {
        let ghost av = a.keywords@;
        let ghost bv = b.keywords@;
        let mut keywords = a.keywords;
        let mut rest = b.keywords;
        keywords.append(&mut rest);
        assert(text_view(keywords@) =~= text_view(av) + text_view(bv));
        tEXt { keywords }
    }
}

/// The first zero byte at or after `i`.
pub open spec fn find_zero(d: Seq<u8>, i: int) -> Option<int>
    decreases d.len() - i,
{
    if i < 0 || i >= d.len() {
        None
    } else if d[i] == 0 {
        Some(i)
    } else {
        find_zero(d, i + 1)
    }
}

/// A text chunk whose data start at `body` and are `length` bytes long:
/// the keyword (up to the first zero byte, wherever it is), the text (the
/// rest of the data), and where the reading ends.
pub open spec fn text_chunk(d: Seq<u8>, body: int, length: int) -> Result<(Seq<u8>, Seq<u8>, int), ImageError> {
    match find_zero(d, body) {
        None => Err(ImageError::Truncated),
        Some(k) => {
            let end = if body + length > k + 1 { body + length } else { k + 1 };
            if end > d.len() {
                Err(ImageError::Truncated)
            } else {
                Ok((d.subrange(body, k), d.subrange(k + 1, end), end))
            }
        },
    }
}

/// Where reading a text chunk whose data start at `body` stops when its
/// data run past the end: at the end of the bytes (or at `body`, if that is
/// already past them).
pub open spec fn text_fail_stop(d: Seq<u8>, body: int) -> int {
    if body < d.len() {
        d.len() as int
    } else {
        body
    }
}

/// The bytes read from a text chunk whose data start at `body` when its
/// data run past the end.
pub open spec fn text_fail_bytes(d: Seq<u8>, body: int) -> Seq<u8> {
    if 0 <= body < d.len() {
        d.subrange(body, d.len() as int)
    } else {
        Seq::empty()
    }
}

impl IHDR {
    /// Reads the image header chunk's 13 bytes (whatever the chunk's length).
    pub fn read(reader: &mut FileReader, _length: usize) -> (r: IHDR)
        requires
            old(reader).position() + 13 <= old(reader).data().len(),
        ensures
            r == decode_value::<13, IHDR>(
                old(reader).little_endian(),
                old(reader).data().subrange(old(reader).position(), old(reader).position() + 13),
            ),
            final(reader).position() == old(reader).position() + 13,
            final(reader).checksum() == checksum_after(
                old(reader).checksum_func(),
                old(reader).checksum(),
                old(reader).data().subrange(old(reader).position(), old(reader).position() + 13),
            ),
            final(reader).data() == old(reader).data(),
            final(reader).little_endian() == old(reader).little_endian(),
            final(reader).checksum_func() == old(reader).checksum_func(),
            final(reader).checksum_start() == old(reader).checksum_start(),
    {
        reader.read()
    }
}

impl IDAT {
    /// Reads an image data chunk of `length` bytes.
    pub fn read(reader: &mut FileReader, length: usize) -> (r: IDAT)
        requires
            old(reader).position() + length <= old(reader).data().len(),
        ensures
            r.data@ == old(reader).data().subrange(old(reader).position(), old(reader).position() + length),
            final(reader).position() == old(reader).position() + length,
            final(reader).checksum() == checksum_after(old(reader).checksum_func(), old(reader).checksum(), r.data@),
            final(reader).data() == old(reader).data(),
            final(reader).little_endian() == old(reader).little_endian(),
            final(reader).checksum_func() == old(reader).checksum_func(),
            final(reader).checksum_start() == old(reader).checksum_start(),
    {
        let data = reader.get_bytes(length);
        IDAT { data }
    }
}

impl IEND {
    /// The image trailer chunk, which holds no data.
    pub fn read(_reader: &FileReader, _length: usize) -> (r: IEND)
        ensures
            r == (IEND {}),
    {
        IEND {}
    }
}

impl tEXt {
    /// Reads a text chunk of `length` bytes: the keyword up to a zero byte,
    /// then the text up to the chunk's end.
    pub fn read(reader: &mut FileReader, length: usize) -> (r: Result<tEXt, ImageError>)
        ensures
            final(reader).data() == old(reader).data(),
            final(reader).little_endian() == old(reader).little_endian(),
            final(reader).checksum_func() == old(reader).checksum_func(),
            final(reader).checksum_start() == old(reader).checksum_start(),
            match text_chunk(old(reader).data(), old(reader).position(), length as int) {
                Ok((kw, text, end)) => r matches Ok(t) && text_view(t.keywords@) == seq![(kw, text)]
                    && final(reader).position() == end && final(reader).checksum() == checksum_after(
                    old(reader).checksum_func(),
                    old(reader).checksum(),
                    old(reader).data().subrange(old(reader).position(), end),
                ),
                Err(e) => r == Err::<tEXt, ImageError>(e) && final(reader).position() == text_fail_stop(
                    old(reader).data(),
                    old(reader).position(),
                ) && final(reader).checksum() == checksum_after(
                    old(reader).checksum_func(),
                    old(reader).checksum(),
                    text_fail_bytes(old(reader).data(), old(reader).position()),
                ),
            },
    {
        let ghost d = reader.data();
        let ghost body = reader.position();
        let ghost f = reader.checksum_func();
        let ghost c0 = reader.checksum();
        let mut keyword: Vec<u8> = Vec::new();
        if reader.remaining() < 1 {
            return Err(ImageError::Truncated);
        }
        let mut c: u8 = reader.read();
        assert(d.subrange(body, body + 1) =~= seq![d[body]]);
        assert(d.subrange(body, body + 1) =~= d.subrange(body, reader.position()));
        let mut i: usize = 1;
        while c != 0
            invariant
                reader.data() == d,
                reader.little_endian() == old(reader).little_endian(),
                reader.checksum_func() == f,
                reader.checksum_start() == old(reader).checksum_start(),
                d == old(reader).data(),
                body == old(reader).position(),
                f == old(reader).checksum_func(),
                c0 == old(reader).checksum(),
                0 <= body,
                reader.position() == body + i,
                reader.position() <= d.len(),
                i >= 1,
                c == d[body + i - 1],
                keyword@ == d.subrange(body, body + i - 1),
                find_zero(d, body) == find_zero(d, body + i - 1),
                reader.checksum() == checksum_after(f, c0, d.subrange(body, body + i)),
            decreases d.len() - reader.position(),
        {
            keyword.push(c);
            assert(keyword@ =~= d.subrange(body, body + i));
            assert(find_zero(d, body + i - 1) == find_zero(d, body + i));
            let rem = reader.remaining();
            if rem < 1 {
                return Err(ImageError::Truncated);
            }
            let ghost p = reader.position();
            proof {
                lemma_checksum_after_concat(f, c0, d.subrange(body, p), d.subrange(p, p + 1));
                assert(d.subrange(body, p) + d.subrange(p, p + 1) =~= d.subrange(body, p + 1));
            }
            c = reader.read();
            assert(d.subrange(p, p + 1)[0] == d[p]);
            i += 1;
        }
        let ghost k = body + i - 1;
        assert(find_zero(d, k) == Some(k));
        let mut text_string: Vec<u8> = Vec::new();
        while i < length
            invariant
                reader.data() == d,
                reader.little_endian() == old(reader).little_endian(),
                reader.checksum_func() == f,
                reader.checksum_start() == old(reader).checksum_start(),
                d == old(reader).data(),
                body == old(reader).position(),
                f == old(reader).checksum_func(),
                c0 == old(reader).checksum(),
                0 <= body,
                body <= k,
                k + 1 <= body + i,
                reader.position() == body + i,
                reader.position() <= d.len(),
                keyword@ == d.subrange(body, k),
                find_zero(d, body) == Some(k),
                text_string@ == d.subrange(k + 1, body + i),
                i <= length || body + i == k + 1,
                reader.checksum() == checksum_after(f, c0, d.subrange(body, body + i)),
            decreases length - i,
        {
            let rem = reader.remaining();
            if rem < 1 {
                return Err(ImageError::Truncated);
            }
            let ghost p = reader.position();
            proof {
                lemma_checksum_after_concat(f, c0, d.subrange(body, p), d.subrange(p, p + 1));
                assert(d.subrange(body, p) + d.subrange(p, p + 1) =~= d.subrange(body, p + 1));
            }
            let b: u8 = reader.read();
            assert(d.subrange(p, p + 1)[0] == d[p]);
            assert(b == d[p]);
            let ghost before = text_string@;
            text_string.push(b);
            assert(before == d.subrange(k + 1, p));
            assert(d.subrange(k + 1, p + 1) =~= d.subrange(k + 1, p).push(d[p]));
            assert(text_string@ == d.subrange(k + 1, p + 1));
            i += 1;
        }
        let ghost kw = keyword@;
        let ghost tx = text_string@;
        let mut keywords: Vec<(Vec<u8>, Vec<u8>)> = Vec::new();
        keywords.push((keyword, text_string));
        assert(text_view(keywords@) =~= seq![(kw, tx)]);
        Ok(tEXt { keywords })
    }
}


/// Whether the byte `b`, read as a Latin-1 character, is a lowercase letter.
pub open spec fn is_lowercase_latin1(b: u8) -> bool {
    (0x61 <= b <= 0x7a) || b == 0xaa || b == 0xb5 || b == 0xba || (0xdf <= b <= 0xf6) || (0xf8 <= b <= 0xff)
}

/// Whether the byte `b`, read as a Latin-1 character, is a lowercase letter
/// (in a chunk type: the chunk is ancillary).
pub fn is_lowercase_byte(b: u8) -> (r: bool)
    ensures
        r == is_lowercase_latin1(b),
{
    (0x61 <= b && b <= 0x7a) || b == 0xaa || b == 0xb5 || b == 0xba || (0xdf <= b && b <= 0xf6) || 0xf8 <= b
}

/// Whether `m` is the PNG signature.
fn is_png_signature(m: &[u8; 8]) -> (r: bool)
    ensures
        r == (m@ == PNG_SIGNATURE@),
{
    assert(PNG_SIGNATURE@ =~= seq![0x89u8, 0x50, 0x4E, 0x47, 0x0D, 0x0A, 0x1A, 0x0A]);
    let r = m[0] == 0x89 && m[1] == 0x50 && m[2] == 0x4E && m[3] == 0x47 && m[4] == 0x0D && m[5] == 0x0A
        && m[6] == 0x1A && m[7] == 0x0A;
    if r {
        assert(m@ =~= PNG_SIGNATURE@);
    } else {
        assert(m@ != PNG_SIGNATURE@) by {
            if m@ == PNG_SIGNATURE@ {
                assert(m@[0] == 0x89 && m@[7] == 0x0A);
            }
        }
    }
    r
}

/// Whether two chunk types are the same.
fn same_type(a: &[u8; 4], b: &[u8; 4]) -> (r: bool)
    ensures
        r == (a@ == b@),
{
    let r = a[0] == b[0] && a[1] == b[1] && a[2] == b[2] && a[3] == b[3];
    if r {
        assert(a@ =~= b@);
    }
    r
}

/// No chunks read yet.
pub open spec fn empty_chunks() -> PngChunks {
    PngChunks { ihdr: None, idat: None, iend: false, text: None, crc_errors: Seq::empty(), chunks: Seq::empty() }
}

/// Image data appended to what came before.
pub open spec fn merge_bytes(a: Option<Seq<u8>>, b: Seq<u8>) -> Option<Seq<u8>> {
    match a {
        Some(x) => Some(x + b),
        None => Some(b),
    }
}

/// Text entries appended to what came before.
pub open spec fn merge_text(a: Option<Seq<(Seq<u8>, Seq<u8>)>>, b: Seq<(Seq<u8>, Seq<u8>)>) -> Option<Seq<(Seq<u8>, Seq<u8>)>> {
    match a {
        Some(x) => Some(x + b),
        None => Some(b),
    }
}

/// The data of a chunk of type `t` whose data start at `body`: the chunks
/// so far with it merged in, where the reading ends, and the bytes read
/// (which the CRC covers; the data of a chunk of unknown type are skipped).
pub open spec fn png_chunk_body(d: Seq<u8>, t: Seq<u8>, body: int, length: int, st: PngChunks) -> Result<
    (PngChunks, int, Seq<u8>),
    ImageError,
> {
    if t == IHDR_TYPE@ {
        if body + 13 > d.len() {
            Err(ImageError::Truncated)
        } else if st.ihdr is Some {
            Err(ImageError::DuplicateHeader)
        } else {
            Ok((
                PngChunks { ihdr: Some(decode_value::<13, IHDR>(false, d.subrange(body, body + 13))), ..st },
                body + 13,
                d.subrange(body, body + 13),
            ))
        }
    } else if t == IDAT_TYPE@ {
        if body + length > d.len() {
            Err(ImageError::Truncated)
        } else {
            Ok((
                PngChunks { idat: merge_bytes(st.idat, d.subrange(body, body + length)), ..st },
                body + length,
                d.subrange(body, body + length),
            ))
        }
    } else if t == IEND_TYPE@ {
        Ok((PngChunks { iend: true, ..st }, body, Seq::empty()))
    } else if t == TEXT_TYPE@ {
        match text_chunk(d, body, length) {
            Err(e) => Err(e),
            Ok((kw, text, end)) => Ok(
                (PngChunks { text: merge_text(st.text, seq![(kw, text)]), ..st }, end, d.subrange(body, end)),
            ),
        }
    } else {
        Ok((st, body + length, Seq::empty()))
    }
}

/// The chunk at `pos` (length, type, data, CRC, lengths and CRC
/// big-endian): the chunks so far with it merged in, and the position after
/// it. The chunk is logged, and a critical chunk whose CRC does not match
/// is recorded.
pub open spec fn png_chunk(d: Seq<u8>, pos: int, st: PngChunks) -> Result<(PngChunks, int), ImageError> {
    if pos + 8 > d.len() {
        Err(ImageError::Truncated)
    } else {
        let length = u32_at(false, d, pos) as int;
        let t = d.subrange(pos + 4, pos + 8);
        match png_chunk_body(d, t, pos + 8, length, st) {
            Err(e) => Err(e),
            Ok((st2, end, bytes)) => {
                if end + 4 > d.len() {
                    Err(ImageError::Truncated)
                } else {
                    let calc = crc_update(0xffffffffu32, t + bytes);
                    let stored = u32_at(false, d, end);
                    let bad = stored ^ calc != 0xffffffffu32 && !is_lowercase_latin1(t[0]);
                    let st3 = if bad {
                        PngChunks { crc_errors: st2.crc_errors.push((t, stored, calc ^ 0xffffffffu32)), ..st2 }
                    } else {
                        st2
                    };
                    Ok((PngChunks { chunks: st3.chunks.push((t, u32_at(false, d, pos), bad)), ..st3 }, end + 4))
                }
            },
        }
    }
}

/// Only the first byte of a chunk's type decides whether it is ancillary
/// (PNG, 5.4): a chunk read is logged with its type, a CRC mismatch is
/// recorded for it exactly when its log entry is marked bad, never when the
/// first type byte is a lowercase letter, and otherwise exactly when the
/// stored CRC differs from the CRC-32 of its type and the data read.
pub proof fn lemma_png_chunk_crc_flag(d: Seq<u8>, pos: int, st: PngChunks)
    requires
        0 <= pos,
    ensures
        png_chunk(d, pos, st) matches Ok((st2, p)) ==> {
            let t = d.subrange(pos + 4, pos + 8);
            let bytes = png_chunk_body(d, t, pos + 8, u32_at(false, d, pos) as int, st)->Ok_0.2;
            let bad = st2.chunks.last().2;
            &&& st2.chunks == st.chunks.push((t, u32_at(false, d, pos), bad))
            &&& bad ==> st2.crc_errors.len() == st.crc_errors.len() + 1
            &&& !bad ==> st2.crc_errors == st.crc_errors
            &&& is_lowercase_latin1(d[pos + 4]) ==> !bad
            &&& !is_lowercase_latin1(d[pos + 4]) ==> (bad <==> u32_at(false, d, p - 4) != crc_update(
                0xffffffffu32,
                t + bytes,
            ) ^ 0xffffffffu32)
        },
{
    if let Ok((st2, p)) = png_chunk(d, pos, st) {
        let t = d.subrange(pos + 4, pos + 8);
        let bytes = png_chunk_body(d, t, pos + 8, u32_at(false, d, pos) as int, st)->Ok_0.2;
        let stored = u32_at(false, d, p - 4);
        let calc = crc_update(0xffffffffu32, t + bytes);
        assert(t[0] == d[pos + 4]);
        assert((stored ^ calc != 0xffffffffu32) == (stored != calc ^ 0xffffffffu32)) by (bit_vector);
    }
}

/// ASCII letters: lowercase ones read as lowercase, uppercase ones do not.
pub proof fn lemma_lowercase_ascii(b: u8)
    ensures
        0x61 <= b <= 0x7a ==> is_lowercase_latin1(b),
        0x41 <= b <= 0x5a ==> !is_lowercase_latin1(b),
{
}

proof fn lemma_find_zero(d: Seq<u8>, i: int)
    ensures
        find_zero(d, i) matches Some(k) ==> 0 <= i <= k < d.len() && d[k] == 0,
    decreases d.len() - i,
{
    if 0 <= i < d.len() && d[i] != 0 {
        lemma_find_zero(d, i + 1);
    }
}

pub proof fn lemma_png_chunk_advances(d: Seq<u8>, pos: int, st: PngChunks)
    ensures
        png_chunk(d, pos, st) matches Ok((st2, p)) ==> pos < p <= d.len(),
{
    lemma_find_zero(d, pos + 8);
}

/// The chunks from `pos` on, merged into `st`, up to the IEND chunk.
pub open spec fn png_chunks(d: Seq<u8>, pos: int, st: PngChunks) -> Result<PngChunks, ImageError>
    decreases d.len() - pos,
{
    match png_chunk(d, pos, st) {
        Err(e) => Err(e),
        Ok((st2, p)) => {
            proof {
                lemma_png_chunk_advances(d, pos, st);
            }
            if st2.iend {
                Ok(st2)
            } else {
                png_chunks(d, p, st2)
            }
        },
    }
}

/// Where reading stops, and the bytes fed to the CRC since the chunk's
/// start, in a chunk at `pos` that fails after its length and type were
/// read (its data run past the end, its header comes twice, or its CRC is
/// missing). A position stops at `usize::MAX`.
pub open spec fn png_chunk_fail(d: Seq<u8>, pos: int, st: PngChunks) -> (int, Seq<u8>) {
    let length = u32_at(false, d, pos) as int;
    let t = d.subrange(pos + 4, pos + 8);
    let body = pos + 8;
    match png_chunk_body(d, t, body, length, st) {
        Ok((st2, end, bytes)) => (if end <= usize::MAX { end } else { usize::MAX as int }, t + bytes),
        Err(e) => {
            if t == IHDR_TYPE@ && body + 13 <= d.len() {
                (body + 13, t + d.subrange(body, body + 13))
            } else if t == TEXT_TYPE@ {
                (text_fail_stop(d, body), t + text_fail_bytes(d, body))
            } else {
                (body, t)
            }
        },
    }
}

/// The CRC register after a chunk at `pos` that was read whole: over its
/// type, the bytes of it that were read and its stored CRC.
pub open spec fn png_chunk_register(d: Seq<u8>, pos: int, st: PngChunks) -> u32 {
    let length = u32_at(false, d, pos) as int;
    let t = d.subrange(pos + 4, pos + 8);
    match png_chunk_body(d, t, pos + 8, length, st) {
        Ok((st2, end, bytes)) => crc_update(0xffffffffu32, t + bytes + d.subrange(end, end + 4)),
        Err(e) => 0xffffffffu32,
    }
}

/// Where reading the chunks from `pos` on, merged into `st`, stops (after
/// the IEND chunk's CRC, or where a chunk fails), and the CRC register
/// then; `reg` is the register before the chunk at `pos`.
pub open spec fn png_chunks_stop(d: Seq<u8>, pos: int, st: PngChunks, reg: u32) -> (int, u32)
    decreases d.len() - pos,
{
    if pos + 8 > d.len() {
        (pos, reg)
    } else {
        match png_chunk(d, pos, st) {
            Err(e) => {
                let (stop, bytes) = png_chunk_fail(d, pos, st);
                (stop, crc_update(0xffffffffu32, bytes))
            },
            Ok((st2, p)) => {
                proof {
                    lemma_png_chunk_advances(d, pos, st);
                }
                if st2.iend {
                    (p, png_chunk_register(d, pos, st))
                } else {
                    png_chunks_stop(d, p, st2, png_chunk_register(d, pos, st))
                }
            },
        }
    }
}

/// Whether the bytes from `p0` start with the PNG signature.
pub open spec fn png_signed(d: Seq<u8>, p0: int) -> bool {
    p0 + 8 <= d.len() && d.subrange(p0, p0 + 8) == PNG_SIGNATURE@
}

/// Where reading the PNG file that starts at `p0` stops, and the reader's
/// running checksum then (kept with `f`, from `c`, until the signature has
/// been read).
pub open spec fn png_read_stop(d: Seq<u8>, p0: int, f: Option<ChecksumFunc>, c: u32) -> (int, u32) {
    if p0 + 8 > d.len() {
        (p0, c)
    } else if d.subrange(p0, p0 + 8) != PNG_SIGNATURE@ {
        (p0 + 8, checksum_after(f, c, d.subrange(p0, p0 + 8)))
    } else {
        png_chunks_stop(d, p0 + 8, empty_chunks(), 0xffffffffu32)
    }
}

/// The PNG signature and chunks of a file that starts at `p0`.
pub open spec fn png_read_chunks(d: Seq<u8>, p0: int) -> Result<PngChunks, ImageError> {
    if p0 + 8 > d.len() {
        Err(ImageError::Truncated)
    } else if d.subrange(p0, p0 + 8) != PNG_SIGNATURE@ {
        Err(ImageError::NotAPng)
    } else {
        png_chunks(d, p0 + 8, empty_chunks())
    }
}

impl PNGImage {
    /// Reads the signature and the chunks of a PNG file, up to its IEND
    /// chunk, checking each chunk's CRC.
    #[verifier::rlimit(40)]
    pub fn read_chunks(reader: &mut FileReader) -> (r: Result<PNGImage, ImageError>)
        ensures
            final(reader).data() == old(reader).data(),
            png_signed(old(reader).data(), old(reader).position()) ==> !final(reader).little_endian()
                && final(reader).checksum_func() == Some(ChecksumFunc::Crc32) && final(reader).checksum_start()
                == 0xffffffffu32,
            !png_signed(old(reader).data(), old(reader).position()) ==> final(reader).little_endian() == old(
                reader,
            ).little_endian() && final(reader).checksum_func() == old(reader).checksum_func()
                && final(reader).checksum_start() == old(reader).checksum_start(),
            (final(reader).position(), final(reader).checksum()) == png_read_stop(
                old(reader).data(),
                old(reader).position(),
                old(reader).checksum_func(),
                old(reader).checksum(),
            ),
            match png_read_chunks(old(reader).data(), old(reader).position()) {
                Ok(st) => r matches Ok(p) && p.model() == st,
                Err(e) => r == Err::<PNGImage, ImageError>(e),
            },
    {
        let ghost d = reader.data();
        let ghost p0 = reader.position();
        if reader.remaining() < 8 {
            return Err(ImageError::Truncated);
        }
        let magic: [u8; 8] = reader.read_array::<1, u8, 8>();
        assert forall|i: int| 0 <= i < 8 implies magic@[i] == d.subrange(p0, p0 + 8)[i] by {
            assert(d.subrange(p0 + 1 * i, p0 + 1 * i + 1)[0] == d[p0 + i]);
        }
        assert(magic@ =~= d.subrange(p0, p0 + 8));
        let same = is_png_signature(&magic);
        if !same {
            return Err(ImageError::NotAPng);
        }
        reader.set_endianness(false);
        reader.set_checksum_handler(ChecksumFunc::Crc32, 0xffffffffu32);
        let mut p = PNGImage {
            IHDR: None,
            IDAT: None,
            IEND: None,
            tEXt: None,
            crc_errors: Vec::new(),
            chunks: Vec::new(),
        };
        assert(p.model().crc_errors =~= Seq::<(Seq<u8>, u32, u32)>::empty());
        assert(p.model().chunks =~= Seq::<(Seq<u8>, u32, bool)>::empty());
        assert(p.model() == empty_chunks());
        let ghost goal = png_chunks(d, p0 + 8, empty_chunks());
        let ghost goal_stop = png_chunks_stop(d, p0 + 8, empty_chunks(), 0xffffffffu32);
        let ghost mut reg: u32 = 0xffffffffu32;
        loop
            invariant
                reader.data() == d,
                d == old(reader).data(),
                !reader.little_endian(),
                reader.checksum_func() == Some(ChecksumFunc::Crc32),
                reader.checksum_start() == 0xffffffffu32,
                p.IEND is None,
                goal == png_read_chunks(old(reader).data(), old(reader).position()),
                png_chunks(d, reader.position(), p.model()) == goal,
                goal_stop == png_read_stop(
                    old(reader).data(),
                    old(reader).position(),
                    old(reader).checksum_func(),
                    old(reader).checksum(),
                ),
                reader.checksum() == reg,
                png_chunks_stop(d, reader.position(), p.model(), reg) == goal_stop,
                png_signed(old(reader).data(), old(reader).position()),
            decreases d.len() - reader.position(),
        {
            let ghost pos = reader.position();
            let ghost st = p.model();
            proof {
                lemma_png_chunk_advances(d, pos, st);
            }
            if reader.remaining() < 8 {
                return Err(ImageError::Truncated);
            }
            let length_value: u32 = reader.read();
            let length = length_value as usize;
            reader.reset_checksum();
            let chunk_type: [u8; 4] = reader.read_array::<1, u8, 4>();
            let ghost t = d.subrange(pos + 4, pos + 8);
            assert forall|i: int| 0 <= i < 4 implies chunk_type@[i] == t[i] by {
                assert(d.subrange(pos + 4 + 1 * i, pos + 4 + 1 * i + 1)[0] == d[pos + 4 + i]);
            }
            assert(chunk_type@ =~= t);
            let ancillary = is_lowercase_byte(chunk_type[0]);
            let ghost body = pos + 8;
            let ghost st2: PngChunks;
            let ghost bytes: Seq<u8>;
            let ghost end_spec: int;
            if same_type(&chunk_type, &IHDR_TYPE) {
                if reader.remaining() < 13 {
                    return Err(ImageError::Truncated);
                }
                let header = IHDR::read(reader, length);
                if p.IHDR.is_some() {
                    proof {
                        lemma_checksum_after_concat(
                            Some(ChecksumFunc::Crc32),
                            0xffffffffu32,
                            t,
                            d.subrange(body, body + 13),
                        );
                    }
                    return Err(ImageError::DuplicateHeader);
                }
                p.IHDR = Some(header);
                proof {
                    bytes = d.subrange(body, body + 13);
                    st2 = p.model();
                    end_spec = reader.position();
                }
            } else if same_type(&chunk_type, &IDAT_TYPE) {
                if reader.remaining() < length {
                    return Err(ImageError::Truncated);
                }
                let chunk = IDAT::read(reader, length);
                let ghost dv = chunk.data@;
                p.IDAT = Option::<IDAT>::merge(p.IDAT.take(), Some(chunk));
                proof {
                    bytes = d.subrange(body, body + length);
                    st2 = p.model();
                    end_spec = reader.position();
                    assert(st2.idat == merge_bytes(st.idat, dv));
                }
            } else if same_type(&chunk_type, &IEND_TYPE) {
                p.IEND = Some(IEND::read(reader, length));
                proof {
                    bytes = Seq::empty();
                    st2 = p.model();
                    end_spec = reader.position();
                    assert(t + bytes =~= t);
                }
            } else if same_type(&chunk_type, &TEXT_TYPE) {
                let text = match tEXt::read(reader, length) {
                    Ok(t) => t,
                    Err(e) => {
                        proof {
                            lemma_checksum_after_concat(
                                Some(ChecksumFunc::Crc32),
                                0xffffffffu32,
                                t,
                                text_fail_bytes(d, body),
                            );
                        }
                        return Err(e);
                    },
                };
                let ghost tv = text_view(text.keywords@);
                p.tEXt = Option::<tEXt>::merge(p.tEXt.take(), Some(text));
                proof {
                    bytes = d.subrange(body, reader.position());
                    st2 = p.model();
                    end_spec = reader.position();
                    assert(st2.text == merge_text(st.text, tv));
                }
            } else {
                reader.skip(length);
                proof {
                    bytes = Seq::empty();
                    st2 = p.model();
                    end_spec = body + length;
                    assert(t + bytes =~= t);
                }
            }
            let calculated_crc = reader.get_checksum();
            assert(png_chunk_body(d, t, body, length as int, st) == Ok::<(PngChunks, int, Seq<u8>), ImageError>((st2, end_spec, bytes)));
            proof {
                lemma_checksum_after_concat(Some(ChecksumFunc::Crc32), 0xffffffffu32, t, bytes);
            }
            assert(calculated_crc == crc_update(0xffffffffu32, t + bytes));
            if reader.remaining() < 4 {
                return Err(ImageError::Truncated);
            }
            let ghost end = reader.position();
            assert(end == end_spec);
            let crc: u32 = reader.read();
            let bad_crc = crc ^ calculated_crc != 0xffffffffu32 && !ancillary;
            proof {
                lemma_checksum_after_concat(Some(ChecksumFunc::Crc32), 0xffffffffu32, t + bytes, d.subrange(end, end + 4));
                reg = reader.checksum();
            }
            if bad_crc {
                let ghost before = p.crc_errors@;
                p.crc_errors.push(CrcMismatch { chunk_type, stored: crc, calculated: calculated_crc ^ 0xffffffffu32 });
                assert(p.crc_errors@.map_values(|m: CrcMismatch| (m.chunk_type@, m.stored, m.calculated)) =~= before.map_values(
                    |m: CrcMismatch| (m.chunk_type@, m.stored, m.calculated),
                ).push((t, crc, calculated_crc ^ 0xffffffffu32)));
            }
            let ghost log = p.chunks@;
            p.chunks.push(ChunkInfo { chunk_type, length: length_value, bad_crc });
            assert(p.chunks@.map_values(|c: ChunkInfo| (c.chunk_type@, c.length, c.bad_crc)) =~= log.map_values(
                |c: ChunkInfo| (c.chunk_type@, c.length, c.bad_crc),
            ).push((t, length_value, bad_crc)));
            if p.IEND.is_some() {
                return Ok(p);
            }
        }
    }
}


/// The decoded image a PNG file holds, before it becomes pixels: bits per
/// pixel, dimensions, and the reconstructed scanlines (three bytes a pixel).
pub struct PngPixels {
    pub bpp: u8,
    pub width: u32,
    pub height: u32,
    pub rows: Seq<Seq<u8>>,
}

/// The image that the chunks `st` describe: the image data decompressed
/// (after their two-byte zlib header) and unfiltered as 8-bit RGB.
pub open spec fn png_assemble(st: PngChunks) -> Result<PngPixels, ImageError> {
    if !st.iend {
        Err(ImageError::IendMissing)
    } else {
        match st.ihdr {
            None => Err(ImageError::IhdrMissing),
            Some(h) => match st.idat {
                None => Err(ImageError::IdatMissing),
                Some(data) => {
                    let colors_per_pixel: int = if h.color_type == 4 || h.color_type == 6 { 4 } else { 3 };
                    if h.bit_depth * colors_per_pixel > 255 {
                        Err(ImageError::SizeOverflow)
                    } else if data.len() < 2 {
                        Err(ImageError::MissingZlibHeader)
                    } else if (data.len() - 2) * 8 > usize::MAX {
                        Err(ImageError::SizeOverflow)
                    } else {
                        match inflate(byte_bits(data.subrange(2, data.len() as int))) {
                            Err(e) => Err(ImageError::Inflate(e)),
                            Ok(decoded) => {
                                if h.width * h.height > u32::MAX {
                                    Err(ImageError::SizeOverflow)
                                } else {
                                    match unfilter_rows(decoded, 3 * h.width, h.height as int, 0, Seq::empty()) {
                                        Err(e) => Err(e),
                                        Ok(rows) => Ok(
                                            PngPixels {
                                                bpp: (h.bit_depth * colors_per_pixel) as u8,
                                                width: h.width,
                                                height: h.height,
                                                rows,
                                            },
                                        ),
                                    }
                                }
                            },
                        }
                    }
                },
            },
        }
    }
}

/// The image a PNG file that starts at `p0` holds.
pub open spec fn png_decode(d: Seq<u8>, p0: int) -> Result<PngPixels, ImageError> {
    match png_read_chunks(d, p0) {
        Err(e) => Err(e),
        Ok(st) => png_assemble(st),
    }
}

/// Two states of the chunks read that agree on all but the CRC mismatches
/// recorded and the chunk log.
pub open spec fn same_chunk_data(a: PngChunks, b: PngChunks) -> bool {
    &&& a.ihdr == b.ihdr
    &&& a.idat == b.idat
    &&& a.iend == b.iend
    &&& a.text == b.text
}

/// Where the stored CRC of the chunk at `pos` starts: after the chunk's
/// length, type and the data that reading it covers (the end of the bytes,
/// where the chunk fails before that).
pub open spec fn png_chunk_extent(d: Seq<u8>, pos: int, st: PngChunks) -> int {
    if pos + 8 > d.len() {
        d.len() as int
    } else {
        let length = u32_at(false, d, pos) as int;
        let t = d.subrange(pos + 4, pos + 8);
        match png_chunk_body(d, t, pos + 8, length, st) {
            Ok((st2, end, bytes)) => end,
            Err(e) => d.len() as int,
        }
    }
}

/// `d2` holds the bytes of `d` in each chunk read from `pos` on (up to the
/// IEND chunk, or to the end of the bytes where a chunk fails), but for the
/// chunks' stored CRCs.
pub open spec fn same_but_crcs(d: Seq<u8>, d2: Seq<u8>, pos: int, st: PngChunks) -> bool
    decreases d.len() - pos,
{
    &&& forall|i: int| pos <= i < png_chunk_extent(d, pos, st) ==> #[trigger] d2[i] == d[i]
    &&& match png_chunk(d, pos, st) {
        Err(e) => true,
        Ok((st2, p)) => {
            proof {
                lemma_png_chunk_advances(d, pos, st);
            }
            !st2.iend ==> same_but_crcs(d, d2, p, st2)
        },
    }
}

proof fn lemma_find_zero_same(d: Seq<u8>, d2: Seq<u8>, i: int, k: int)
    requires
        d2.len() == d.len(),
        find_zero(d, i) == Some(k),
        forall|j: int| i <= j <= k ==> #[trigger] d2[j] == d[j],
    ensures
        find_zero(d2, i) == Some(k),
    decreases d.len() - i,
{
    lemma_find_zero(d, i);
    if d[i] != 0 {
        lemma_find_zero_same(d, d2, i + 1, k);
    }
}

proof fn lemma_find_zero_same_suffix(d: Seq<u8>, d2: Seq<u8>, i: int)
    requires
        d2.len() == d.len(),
        forall|j: int| i <= j < d.len() ==> #[trigger] d2[j] == d[j],
    ensures
        find_zero(d2, i) == find_zero(d, i),
    decreases d.len() - i,
{
    if 0 <= i < d.len() && d[i] != 0 {
        lemma_find_zero_same_suffix(d, d2, i + 1);
    }
}

proof fn lemma_png_chunk_body_same(d: Seq<u8>, d2: Seq<u8>, pos: int, st: PngChunks, st_b: PngChunks)
    requires
        d2.len() == d.len(),
        0 <= pos,
        pos + 8 <= d.len(),
        same_chunk_data(st, st_b),
        forall|i: int| pos <= i < png_chunk_extent(d, pos, st) ==> #[trigger] d2[i] == d[i],
    ensures
        u32_at(false, d2, pos) == u32_at(false, d, pos),
        d2.subrange(pos + 4, pos + 8) == d.subrange(pos + 4, pos + 8),
        ({
            let length = u32_at(false, d, pos) as int;
            let t = d.subrange(pos + 4, pos + 8);
            match png_chunk_body(d, t, pos + 8, length, st) {
                Ok((st2, end, bytes)) => png_chunk_body(d2, t, pos + 8, length, st_b) matches Ok(
                    (st2_b, end_b, bytes_b),
                ) && end_b == end && bytes_b == bytes && same_chunk_data(st2, st2_b),
                Err(e) => png_chunk_body(d2, t, pos + 8, length, st_b) == Err::<(PngChunks, int, Seq<u8>), ImageError>(
                    e,
                ),
            }
        }),
{
    let length = u32_at(false, d, pos) as int;
    let t = d.subrange(pos + 4, pos + 8);
    let body = pos + 8;
    let ext = png_chunk_extent(d, pos, st);
    assert(ext >= body) by {
        lemma_find_zero(d, body);
    }
    assert(d2.subrange(pos, pos + 4) =~= d.subrange(pos, pos + 4));
    assert(d2.subrange(pos + 4, pos + 8) =~= t);
    if t == IHDR_TYPE@ {
        if body + 13 <= d.len() {
            assert(d2.subrange(body, body + 13) =~= d.subrange(body, body + 13));
        }
    } else if t == IDAT_TYPE@ {
        if body + length <= d.len() {
            assert(d2.subrange(body, body + length) =~= d.subrange(body, body + length));
        }
    } else if t == IEND_TYPE@ {
    } else if t == TEXT_TYPE@ {
        lemma_find_zero(d, body);
        match text_chunk(d, body, length) {
            Ok((kw, text, end)) => {
                let k = find_zero(d, body)->Some_0;
                lemma_find_zero_same(d, d2, body, k);
                assert(d2.subrange(body, k) =~= d.subrange(body, k));
                assert(d2.subrange(k + 1, end) =~= d.subrange(k + 1, end));
                assert(d2.subrange(body, end) =~= d.subrange(body, end));
            },
            Err(e) => {
                lemma_find_zero_same_suffix(d, d2, body);
            },
        }
    }
}

proof fn lemma_png_chunk_same_but_crc(d: Seq<u8>, d2: Seq<u8>, pos: int, st: PngChunks, st_b: PngChunks)
    requires
        d2.len() == d.len(),
        0 <= pos,
        same_chunk_data(st, st_b),
        forall|i: int| pos <= i < png_chunk_extent(d, pos, st) ==> #[trigger] d2[i] == d[i],
    ensures
        match png_chunk(d, pos, st) {
            Ok((st2, p)) => png_chunk(d2, pos, st_b) matches Ok((st2_b, p_b)) && p_b == p && same_chunk_data(
                st2,
                st2_b,
            ),
            Err(e) => png_chunk(d2, pos, st_b) == Err::<(PngChunks, int), ImageError>(e),
        },
{
    if pos + 8 <= d.len() {
        lemma_png_chunk_body_same(d, d2, pos, st, st_b);
    }
}

proof fn lemma_png_chunks_same_but_crcs(d: Seq<u8>, d2: Seq<u8>, pos: int, st: PngChunks, st_b: PngChunks)
    requires
        d2.len() == d.len(),
        0 <= pos,
        same_chunk_data(st, st_b),
        same_but_crcs(d, d2, pos, st),
    ensures
        match png_chunks(d, pos, st) {
            Ok(r) => png_chunks(d2, pos, st_b) matches Ok(r_b) && same_chunk_data(r, r_b),
            Err(e) => png_chunks(d2, pos, st_b) == Err::<PngChunks, ImageError>(e),
        },
    decreases d.len() - pos,
{
    lemma_png_chunk_advances(d, pos, st);
    lemma_png_chunk_same_but_crc(d, d2, pos, st, st_b);
    if let Ok((st2, p)) = png_chunk(d, pos, st) {
        let (st2_b, p_b) = png_chunk(d2, pos, st_b)->Ok_0;
        if !st2.iend {
            lemma_png_chunks_same_but_crcs(d, d2, p, st2, st2_b);
        }
    }
}

/// The stored CRCs of the chunks never change what reading a PNG file
/// gives, image or error: a file that holds the same bytes but for its
/// chunks' stored CRCs decodes to the same result. (A mismatch is only
/// recorded.)
pub proof fn lemma_png_decode_ignores_stored_crcs(d: Seq<u8>, d2: Seq<u8>, p0: int)
    requires
        0 <= p0,
        d2.len() == d.len(),
        p0 + 8 <= d.len() ==> d2.subrange(p0, p0 + 8) == d.subrange(p0, p0 + 8),
        same_but_crcs(d, d2, p0 + 8, empty_chunks()),
    ensures
        png_read_chunks(d2, p0) is Ok == png_read_chunks(d, p0) is Ok,
        png_decode(d2, p0) == png_decode(d, p0),
{
    lemma_png_chunks_same_but_crcs(d, d2, p0 + 8, empty_chunks(), empty_chunks());
}

/// The pixel of type `T` that an 8-bit RGB pixel converts to.
pub open spec fn png_pixel<T: ColorType>(r: u8, g: u8, b: u8) -> T {
    T::spec_from_full_color(RGB::<u8>::spec_to_full_color(RGB::<u8> { r, g, b }))
}

/// `img` holds the pixels `pp` describes: pixel `(x, y)` is bytes `3x`,
/// `3x + 1`, `3x + 2` of scanline `y` as red, green, blue, converted to `T`.
pub open spec fn png_pixels_match<T: ColorType>(pp: PngPixels, img: ImageBase<T>) -> bool {
    &&& img.bit_depth == pp.bpp
    &&& img.pixels.width == pp.width
    &&& img.pixels.height == pp.height
    &&& img.pixels.wf()
    &&& forall|x: int, y: int|
        0 <= x < pp.width && 0 <= y < pp.height ==> #[trigger] img.pixels.pixels()[x + y * pp.width] == png_pixel::<T>(
            pp.rows[y][3 * x],
            pp.rows[y][3 * x + 1],
            pp.rows[y][3 * x + 2],
        )
}

proof fn lemma_unfilter_rows_shape(decoded: Seq<u8>, row_len: int, height: int, y: int, rows: Seq<Seq<u8>>)
    requires
        0 <= y,
        rows.len() == y,
        0 <= row_len,
        forall|k: int| 0 <= k < y ==> (#[trigger] rows[k]).len() == row_len,
    ensures
        unfilter_rows(decoded, row_len, height, y, rows) matches Ok(out) ==> out.len() == (if y < height { height } else { y })
            && forall|k: int| 0 <= k < out.len() ==> (#[trigger] out[k]).len() == row_len,
    decreases height - y,
{
    if y < height {
        let i = y * (row_len + 1);
        if i < decoded.len() && decoded[i] <= 4 {
            let prev = if y == 0 { Seq::empty() } else { rows[y - 1] };
            lemma_unfilter_row_len(decoded, i + 1, decoded[i], prev, y == 0, row_len, 0, Seq::empty());
            if let Ok(row) = unfilter_row(decoded, i + 1, decoded[i], prev, y == 0, row_len, 0, Seq::empty()) {
                assert forall|k: int| 0 <= k < y + 1 implies (#[trigger] rows.push(row)[k]).len() == row_len by {
                    if k < y {
                        assert(rows.push(row)[k] == rows[k]);
                    }
                }
                lemma_unfilter_rows_shape(decoded, row_len, height, y + 1, rows.push(row));
            }
        }
    }
}

impl PNGImage {
    /// The image that the chunks describe, its 8-bit RGB pixels converted
    /// to `T`.
    pub fn to_image<T: ColorType>(self) -> (r: Result<ImageBase<T>, ImageError>)
        ensures
            match png_assemble(self.model()) {
                Ok(pp) => r matches Ok(img) && png_pixels_match(pp, img),
                Err(e) => r == Err::<ImageBase<T>, ImageError>(e),
            },
    {
        let ghost st = self.model();
        if self.IEND.is_none() {
            return Err(ImageError::IendMissing);
        }
        let header = match self.IHDR {
            Some(h) => h,
            None => {
                return Err(ImageError::IhdrMissing);
            },
        };
        let data = match self.IDAT {
            Some(d) => d.data,
            None => {
                return Err(ImageError::IdatMissing);
            },
        };
        let colors_per_pixel: u8 = if header.color_type == 4 || header.color_type == 6 {
            4
        } else {
            3
        };
        if header.bit_depth as u16 * colors_per_pixel as u16 > 255 {
            return Err(ImageError::SizeOverflow);
        }
        let bpp: u8 = header.bit_depth * colors_per_pixel;
        let width: u32 = header.width;
        let height: u32 = header.height;
        if data.len() < 2 {
            return Err(ImageError::MissingZlibHeader);
        }
        let _compression_method: u8 = data[0];
        let _additional_flags: u8 = data[1];
        let compressed = vstd::slice::slice_subrange(data.as_slice(), 2, data.len());
        if compressed.len() > usize::MAX / 8 {
            return Err(ImageError::SizeOverflow);
        }
        let decoded = match zlib_decode(BitBuffer::new(compressed)) {
            Ok(v) => v,
            Err(e) => {
                return Err(ImageError::Inflate(e));
            },
        };
        if height != 0 && width > u32::MAX / height {
            assert(width * height > u32::MAX) by (nonlinear_arith)
                requires
                    height != 0,
                    width > u32::MAX / height,
            ;
            return Err(ImageError::SizeOverflow);
        }
        proof {
            if height != 0 {
                assert(width * height <= u32::MAX) by (nonlinear_arith)
                    requires
                        height != 0,
                        width <= u32::MAX / height,
                ;
            } else {
                assert(width * height == 0) by (nonlinear_arith)
                    requires
                        height == 0,
                ;
            }
        }
        let rows = match unfilter(&decoded, width, height) {
            Ok(r) => r,
            Err(e) => {
                return Err(e);
            },
        };
        let ghost rv = rows_view(rows@);
        proof {
            lemma_unfilter_rows_shape(decoded@, 3 * width, height as int, 0, Seq::empty());
        }
        let mut pixels: PixelArr<T> = PixelArr::new(width, height);
        let mut y: u32 = 0;
        while y < height
            invariant
                y <= height,
                width == header.width,
                height == header.height,
                width * height <= u32::MAX,
                pixels.width == width,
                pixels.height == height,
                pixels.wf(),
                rv == rows_view(rows@),
                rv.len() == height,
                forall|k: int| 0 <= k < rv.len() ==> (#[trigger] rv[k]).len() == 3 * width,
                forall|x: int, yy: int|
                    0 <= x < width && 0 <= yy < y ==> #[trigger] pixels.pixels()[x + yy * width] == png_pixel::<T>(
                        rv[yy][3 * x],
                        rv[yy][3 * x + 1],
                        rv[yy][3 * x + 2],
                    ),
            decreases height - y,
        {
            let row = &rows[y as usize];
            assert(row@ == rv[y as int]);
            let rl = row.len();
            let mut x: u32 = 0;
            while x < width
                invariant
                    rl == row@.len(),
                    y < height,
                    x <= width,
                    width * height <= u32::MAX,
                    pixels.width == width,
                    pixels.height == height,
                    pixels.wf(),
                    row@ == rv[y as int],
                    row@.len() == 3 * width,
                    forall|xx: int, yy: int|
                        0 <= xx < width && (0 <= yy < y || (yy == y && xx < x)) ==> #[trigger] pixels.pixels()[xx + yy
                            * width] == png_pixel::<T>(rv[yy][3 * xx], rv[yy][3 * xx + 1], rv[yy][3 * xx + 2]),
                decreases width - x,
            {
                let xi: usize = x as usize;
                let r = row[xi * 3];
                let g = row[xi * 3 + 1];
                let b = row[xi * 3 + 2];
                let rgb = RGB::<u8> { r, g, b };
                let value: T = convert(&rgb);
                proof {
                    crate::bmp::lemma_grid_index_bound(x as int, y as int, width as int, height as int);
                }
                let ghost before = pixels.pixels();
                pixels.set(xi, y as usize, value);
                assert forall|xx: int, yy: int|
                    0 <= xx < width && (0 <= yy < y || (yy == y && xx < x + 1)) implies #[trigger] pixels.pixels()[xx
                    + yy * width] == png_pixel::<T>(rv[yy][3 * xx], rv[yy][3 * xx + 1], rv[yy][3 * xx + 2]) by {
                    if xx != x || yy != y {
                        crate::bmp::lemma_grid_index_unique(xx, yy, x as int, y as int, width as int);
                        crate::bmp::lemma_grid_index_bound(xx, yy, width as int, height as int);
                        assert(pixels.pixels()[xx + yy * width] == before[xx + yy * width]);
                    }
                }
                x += 1;
            }
            y += 1;
        }
        Ok(ImageBase { bit_depth: bpp, pixels })
    }

    /// Reads a PNG file: its chunks, then its image, its 8-bit RGB pixels
    /// converted to `T`.
    pub fn read_image<T: ColorType>(reader: &mut FileReader) -> (r: Result<ImageBase<T>, ImageError>)
        ensures
            final(reader).data() == old(reader).data(),
            png_signed(old(reader).data(), old(reader).position()) ==> !final(reader).little_endian()
                && final(reader).checksum_func() == Some(ChecksumFunc::Crc32) && final(reader).checksum_start()
                == 0xffffffffu32,
            !png_signed(old(reader).data(), old(reader).position()) ==> final(reader).little_endian() == old(
                reader,
            ).little_endian() && final(reader).checksum_func() == old(reader).checksum_func()
                && final(reader).checksum_start() == old(reader).checksum_start(),
            (final(reader).position(), final(reader).checksum()) == png_read_stop(
                old(reader).data(),
                old(reader).position(),
                old(reader).checksum_func(),
                old(reader).checksum(),
            ),
            match png_decode(old(reader).data(), old(reader).position()) {
                Ok(pp) => r matches Ok(img) && png_pixels_match(pp, img),
                Err(e) => r == Err::<ImageBase<T>, ImageError>(e),
            },
    {
        let p = match PNGImage::read_chunks(reader) {
            Ok(p) => p,
            Err(e) => {
                return Err(e);
            },
        };
        p.to_image()
    }
}

} // verus!
