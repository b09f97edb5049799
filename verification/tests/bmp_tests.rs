use lib::bmp::BMPImage;
use lib::image::{ImageBase, ImageError, PixelArr, RGB, RGBA};
use lib::crc::update_crc;
use lib::reader::{ChecksumFunc, FileReader};
use lib::writer::FileWriter;

fn sample_image() -> ImageBase<RGB<u8>> {
    let mut pixels: PixelArr<RGB<u8>> = PixelArr::new(3, 2);
    for y in 0..2usize {
        for x in 0..3usize {
            pixels.set(x, y, RGB { r: (10 * x + y) as u8, g: (20 + x) as u8, b: (30 + y) as u8 });
        }
    }
    ImageBase { bit_depth: 24, pixels }
}

#[test]
fn bitmap_bytes_written() {
    let image = sample_image();
    let mut writer = FileWriter::new();
    BMPImage::write_image(&image, &mut writer);
    let bytes = writer.into_bytes();
    // Rows of 3 pixels are 9 bytes, padded to 12.
    assert_eq!(bytes.len(), 26 + 2 * 12);
    assert_eq!(&bytes[0..2], b"BM");
    assert_eq!(u32::from_le_bytes([bytes[2], bytes[3], bytes[4], bytes[5]]), 50);
    assert_eq!(&bytes[6..10], &[0, 0, 0, 0]);
    assert_eq!(u32::from_le_bytes([bytes[10], bytes[11], bytes[12], bytes[13]]), 26);
    assert_eq!(u32::from_le_bytes([bytes[14], bytes[15], bytes[16], bytes[17]]), 12);
    assert_eq!(&bytes[18..26], &[3, 0, 2, 0, 1, 0, 24, 0]);
    // Bottom row (y = 1) first, blue green red.
    assert_eq!(&bytes[26..29], &[31, 20, 1]);
    assert_eq!(&bytes[35..38], &[0, 0, 0]);
    assert_eq!(&bytes[38..41], &[30, 20, 0]);
}

#[test]
fn bitmap_roundtrip() {
    let image = sample_image();
    let mut writer = FileWriter::new();
    BMPImage::write_image(&image, &mut writer);
    let mut reader = FileReader::new(writer.into_bytes());
    let back: ImageBase<RGB<u8>> = BMPImage::read_image(&mut reader).unwrap();
    assert_eq!(back.bit_depth, 24);
    assert_eq!(back.pixels.width, 3);
    assert_eq!(back.pixels.height, 2);
    for y in 0..2 {
        for x in 0..3 {
            let (a, b) = (back.pixels.index(x, y), image.pixels.index(x, y));
            assert_eq!((a.r, a.g, a.b), (b.r, b.g, b.b));
        }
    }
}

#[test]
fn bitmap_read_as_rgba_is_opaque() {
    let image = sample_image();
    let mut writer = FileWriter::new();
    BMPImage::write_image(&image, &mut writer);
    let mut reader = FileReader::new(writer.into_bytes());
    let back: ImageBase<RGBA<u8>> = BMPImage::read_image(&mut reader).unwrap();
    let p = back.pixels.index(1, 0);
    assert_eq!((p.r, p.g, p.b, p.a), (10, 21, 30, 255));
}

#[test]
fn bitmap_with_info_header() {
    let mut bytes = vec![b'B', b'M', 0, 0, 0, 0, 0, 0, 0, 0, 54, 0, 0, 0, 40, 0, 0, 0];
    let mut header = [0u8; 36];
    header[0] = 1; // width
    header[4] = 1; // height
    header[8] = 1; // planes
    header[10] = 24; // bpp
    bytes.extend_from_slice(&header);
    bytes.extend_from_slice(&[5, 6, 7, 0]);
    let mut reader = FileReader::new(bytes);
    let image: ImageBase<RGB<u8>> = BMPImage::read_image(&mut reader).unwrap();
    let p = image.pixels.index(0, 0);
    assert_eq!((p.r, p.g, p.b), (7, 6, 5));
}

#[test]
fn bitmap_errors() {
    let mut reader = FileReader::new(vec![b'P', b'K', 0, 0]);
    assert_eq!(BMPImage::read_image::<RGB<u8>>(&mut reader).err(), Some(ImageError::NotABitmap));
    let mut reader = FileReader::new(vec![b'B']);
    assert_eq!(BMPImage::read_image::<RGB<u8>>(&mut reader).err(), Some(ImageError::Truncated));
    let mut bytes = vec![b'B', b'M', 0, 0, 0, 0, 0, 0, 0, 0, 26, 0, 0, 0, 16, 0, 0, 0];
    bytes.extend_from_slice(&[0; 16]);
    let mut reader = FileReader::new(bytes);
    assert_eq!(BMPImage::read_image::<RGB<u8>>(&mut reader).err(), Some(ImageError::UnsupportedHeaderSize(16)));
    let bytes = vec![b'B', b'M', 0, 0, 0, 0, 0, 0, 0, 0, 26, 0, 0, 0, 12, 0, 0, 0, 1, 0, 1, 0, 1, 0, 8, 0];
    let mut reader = FileReader::new(bytes);
    assert_eq!(BMPImage::read_image::<RGB<u8>>(&mut reader).err(), Some(ImageError::UnsupportedBpp(8)));
    let bytes = vec![b'B', b'M', 0, 0, 0, 0, 0, 0, 0, 0, 26, 0, 0, 0, 12, 0, 0, 0, 2, 0, 1, 0, 1, 0, 24, 0, 1, 2, 3];
    let mut reader = FileReader::new(bytes);
    assert_eq!(BMPImage::read_image::<RGB<u8>>(&mut reader).err(), Some(ImageError::Truncated));
    let mut bytes = vec![b'B', b'M', 0, 0, 0, 0, 0, 0, 0, 0, 54, 0, 0, 0, 40, 0, 0, 0];
    let mut header = [0u8; 36];
    header[10] = 24;
    header[12] = 1;
    bytes.extend_from_slice(&header);
    let mut reader = FileReader::new(bytes);
    assert_eq!(BMPImage::read_image::<RGB<u8>>(&mut reader).err(), Some(ImageError::UnsupportedCompression(1)));
}

#[test]
fn bitmap_reader_state_after_read() {
    let image = sample_image();
    let mut writer = FileWriter::new();
    BMPImage::write_image(&image, &mut writer);
    let mut bytes = writer.into_bytes();
    bytes.extend_from_slice(&[7, 7, 7]);
    let mut reader = FileReader::new(bytes.clone());
    reader.set_checksum_handler(ChecksumFunc::Crc32, 0xffff_ffff);
    let _back: ImageBase<RGB<u8>> = BMPImage::read_image(&mut reader).unwrap();
    // Reading stops after the padding of the last row.
    assert_eq!(reader.remaining(), 3);
    // The reserved bytes and the row padding are skipped, not checksummed.
    let mut expected: u32 = 0xffff_ffff;
    update_crc(&mut expected, &bytes[0..6]);
    update_crc(&mut expected, &bytes[10..26]);
    update_crc(&mut expected, &bytes[26..35]);
    update_crc(&mut expected, &bytes[38..47]);
    assert_eq!(reader.get_checksum(), expected);
}

#[test]
fn bitmap_reader_state_after_errors() {
    // A bad signature: the two signature bytes are read.
    let mut reader = FileReader::new(vec![b'P', b'K', 0, 0]);
    assert_eq!(BMPImage::read_image::<RGB<u8>>(&mut reader).err(), Some(ImageError::NotABitmap));
    assert_eq!(reader.remaining(), 2);
    // An unknown header size: the file header and the size field are read.
    let mut bytes = vec![b'B', b'M', 0, 0, 0, 0, 0, 0, 0, 0, 26, 0, 0, 0, 16, 0, 0, 0];
    bytes.extend_from_slice(&[0; 16]);
    let mut reader = FileReader::new(bytes.clone());
    reader.set_checksum_handler(ChecksumFunc::Crc32, 0xffff_ffff);
    assert_eq!(BMPImage::read_image::<RGB<u8>>(&mut reader).err(), Some(ImageError::UnsupportedHeaderSize(16)));
    assert_eq!(reader.remaining(), 16);
    let mut expected: u32 = 0xffff_ffff;
    update_crc(&mut expected, &bytes[0..6]);
    update_crc(&mut expected, &bytes[10..18]);
    assert_eq!(reader.get_checksum(), expected);
    // A bit depth other than 24: the whole core header is read.
    let bytes = vec![b'B', b'M', 0, 0, 0, 0, 0, 0, 0, 0, 26, 0, 0, 0, 12, 0, 0, 0, 1, 0, 1, 0, 1, 0, 8, 0, 9];
    let mut reader = FileReader::new(bytes);
    assert_eq!(BMPImage::read_image::<RGB<u8>>(&mut reader).err(), Some(ImageError::UnsupportedBpp(8)));
    assert_eq!(reader.remaining(), 1);
}
