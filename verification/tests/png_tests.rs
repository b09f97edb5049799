use lib::image::{ImageBase, ImageError, RGB, RGBA};
use lib::png::{is_lowercase_byte, paeth_filter, unfilter, FilterMethod, PNGImage};
use lib::crc::update_crc;
use lib::reader::FileReader;
use lib::zlib::InflateError;

const TINY_PNG: [u8; 152] = [
    137, 80, 78, 71, 13, 10, 26, 10, 0, 0, 0, 13, 73, 72, 68, 82, 0, 0, 0, 3, 0, 0, 0, 5, 8, 2, 0, 0, 0, 15,
    19, 193, 245, 0, 0, 0, 10, 116, 69, 88, 116, 84, 105, 116, 108, 101, 0, 84, 105, 110, 121, 91, 146,
    187, 150, 0, 0, 0, 10, 73, 68, 65, 84, 120, 218, 1, 50, 0, 205, 255, 0, 30, 75, 77, 239, 232, 0, 0, 0,
    0, 51, 73, 68, 65, 84, 69, 16, 47, 117, 77, 60, 80, 1, 74, 8, 77, 183, 108, 30, 59, 173, 219, 2, 211,
    16, 14, 59, 209, 0, 10, 27, 236, 3, 67, 98, 230, 215, 248, 212, 62, 48, 32, 4, 224, 240, 238, 4, 18,
    7, 165, 235, 9, 143, 254, 18, 39, 91, 247, 36, 129, 0, 0, 0, 0, 73, 69, 78, 68, 174, 66, 96, 130,
];

const TINY_PIXELS: [[[u8; 3]; 3]; 5] = [
    [[30, 75, 69], [16, 47, 117], [77, 60, 80]],
    [[74, 8, 77], [1, 116, 107], [60, 33, 70]],
    [[29, 24, 91], [60, 69, 107], [70, 60, 50]],
    [[81, 110, 19], [29, 81, 19], [111, 118, 66]],
    [[49, 94, 1], [85, 99, 8], [20, 97, 75]],
];

#[test]
fn paeth_predictor() {
    assert_eq!(paeth_filter(&10, &20, &10), 20);
    assert_eq!(paeth_filter(&10, &20, &20), 10);
    assert_eq!(paeth_filter(&0, &0, &0), 0);
    // a + b - c = 300 wraps to 44: |44-200| = 156, |44-100| = 56, |44-0| = 44.
    assert_eq!(paeth_filter(&200, &100, &0), 0);
}

#[test]
fn filters_reconstruct_bytes() {
    assert_eq!(FilterMethod::from_byte(0).apply(&1, &2, &3, &4), 4);
    assert_eq!(FilterMethod::from_byte(1).apply(&250, &2, &3, &10), 4);
    assert_eq!(FilterMethod::from_byte(2).apply(&1, &2, &3, &4), 6);
    assert_eq!(FilterMethod::from_byte(3).apply(&100, &51, &3, &4), 79);
    assert_eq!(FilterMethod::from_byte(4).apply(&10, &20, &10, &1), 21);
    assert_eq!(FilterMethod::from_byte(4), FilterMethod::Paeth);
}

#[test]
fn unfilter_scanlines() {
    // One pixel a row: row 0 unfiltered, row 1 "up", row 2 "sub" on the first pixel only.
    let decoded = vec![0, 1, 2, 3, 2, 1, 1, 1, 1, 5, 6, 7];
    let rows = unfilter(&decoded, 1, 3).unwrap();
    assert_eq!(rows, vec![vec![1, 2, 3], vec![2, 3, 4], vec![5, 6, 7]]);
}

#[test]
fn unfilter_errors() {
    assert_eq!(unfilter(&vec![5, 0, 0, 0], 1, 1), Err(ImageError::InvalidFilter(5)));
    assert_eq!(unfilter(&vec![0, 0, 0], 1, 1), Err(ImageError::ImageDataTruncated));
    assert_eq!(unfilter(&vec![0, 0, 0, 0], 1, 2), Err(ImageError::ImageDataTruncated));
    // Average where a + b fits in a byte.
    let decoded = vec![0, 0, 0, 100, 3, 0, 0, 0];
    assert_eq!(unfilter(&decoded, 1, 2), Ok(vec![vec![0, 0, 100], vec![0, 0, 50]]));
    // Average where a + b = 200 + 200 exceeds 255 (at the second pixel).
    let decoded = vec![0, 200, 200, 200, 200, 200, 200, 3, 1, 1, 1, 1, 1, 1];
    assert_eq!(unfilter(&decoded, 2, 2), Err(ImageError::FilterOverflow));
}

#[test]
fn lowercase_chunk_letters() {
    assert!(is_lowercase_byte(b't'));
    assert!(!is_lowercase_byte(b'T'));
    assert!(is_lowercase_byte(0xe9));
    assert!(!is_lowercase_byte(0xd7));
    assert!(!is_lowercase_byte(0xf7));
}

#[test]
fn read_tiny_png() {
    let mut reader = FileReader::new(TINY_PNG.to_vec());
    let image = PNGImage::read_image::<RGB<u8>>(&mut reader).unwrap();
    assert_eq!(image.bit_depth, 24);
    assert_eq!(image.pixels.width, 3);
    assert_eq!(image.pixels.height, 5);
    for y in 0..5 {
        for x in 0..3 {
            let p = image.pixels.index(x, y);
            assert_eq!([p.r, p.g, p.b], TINY_PIXELS[y][x]);
        }
    }
}

#[test]
fn read_tiny_png_chunks() {
    let mut reader = FileReader::new(TINY_PNG.to_vec());
    let png = PNGImage::read_chunks(&mut reader).unwrap();
    let header = png.IHDR.unwrap();
    assert_eq!((header.width, header.height, header.bit_depth, header.color_type), (3, 5, 8, 2));
    assert!(png.IEND.is_some());
    assert_eq!(png.IDAT.as_ref().unwrap().data.len(), 61);
    let text = png.tEXt.as_ref().unwrap();
    assert_eq!(text.keywords, vec![(b"Title".to_vec(), b"Tiny".to_vec())]);
    assert!(png.crc_errors.is_empty());
}

#[test]
fn png_bad_crc_is_recorded() {
    let mut bytes = TINY_PNG.to_vec();
    bytes[32] ^= 1;
    let mut reader = FileReader::new(bytes);
    let png = PNGImage::read_chunks(&mut reader).unwrap();
    assert_eq!(png.crc_errors.len(), 1);
    assert_eq!(&png.crc_errors[0].chunk_type, b"IHDR");
    assert_eq!(png.crc_errors[0].calculated, 0x0F13C1F5);
    // A bad CRC on an ancillary chunk is not recorded.
    let mut bytes = TINY_PNG.to_vec();
    bytes[54] ^= 1;
    let mut reader = FileReader::new(bytes);
    assert!(PNGImage::read_chunks(&mut reader).unwrap().crc_errors.is_empty());
}

#[test]
fn png_errors() {
    let mut reader = FileReader::new(b"GIF89a..".to_vec());
    assert_eq!(PNGImage::read_image::<RGB<u8>>(&mut reader).err(), Some(ImageError::NotAPng));
    let mut reader = FileReader::new(TINY_PNG[..100].to_vec());
    assert_eq!(PNGImage::read_image::<RGB<u8>>(&mut reader).err(), Some(ImageError::Truncated));
    // Signature then IEND only.
    let mut bytes = TINY_PNG[..8].to_vec();
    bytes.extend_from_slice(&TINY_PNG[140..]);
    let mut reader = FileReader::new(bytes);
    assert_eq!(PNGImage::read_image::<RGB<u8>>(&mut reader).err(), Some(ImageError::IhdrMissing));
    // Signature, IHDR, IEND.
    let mut bytes = TINY_PNG[..33].to_vec();
    bytes.extend_from_slice(&TINY_PNG[140..]);
    let mut reader = FileReader::new(bytes);
    assert_eq!(PNGImage::read_image::<RGB<u8>>(&mut reader).err(), Some(ImageError::IdatMissing));
    // IHDR twice.
    let mut bytes = TINY_PNG[..33].to_vec();
    bytes.extend_from_slice(&TINY_PNG[8..]);
    let mut reader = FileReader::new(bytes);
    assert_eq!(PNGImage::read_image::<RGB<u8>>(&mut reader).err(), Some(ImageError::DuplicateHeader));
    // Image data that is not a valid stream: the block type bits are 11.
    let mut bytes = TINY_PNG.to_vec();
    bytes[65] = 0x07;
    let mut reader = FileReader::new(bytes);
    assert_eq!(
        PNGImage::read_image::<RGB<u8>>(&mut reader).err(),
        Some(ImageError::Inflate(InflateError::ReservedBlockType))
    );
}

#[test]
fn png_reader_state_after_read() {
    let mut bytes = TINY_PNG.to_vec();
    bytes.extend_from_slice(&[1, 2, 3, 4, 5]);
    let mut reader = FileReader::new(bytes);
    PNGImage::read_chunks(&mut reader).unwrap();
    // Reading stops after the CRC of the IEND chunk.
    assert_eq!(reader.remaining(), 5);
    // The running CRC has covered the IEND chunk's type and its stored CRC.
    let mut expected: u32 = 0xffff_ffff;
    update_crc(&mut expected, &TINY_PNG[144..152]);
    assert_eq!(reader.get_checksum(), expected);
}

#[test]
fn read_tiny_png_as_wide_rgba() {
    let mut reader = FileReader::new(TINY_PNG.to_vec());
    let image: ImageBase<RGBA<u16>> = PNGImage::read_image(&mut reader).unwrap();
    assert_eq!(image.bit_depth, 24);
    for y in 0..5 {
        for x in 0..3 {
            let p = image.pixels.index(x, y);
            let [r, g, b] = TINY_PIXELS[y][x];
            assert_eq!((p.r, p.g, p.b, p.a), ((r as u16) << 8, (g as u16) << 8, (b as u16) << 8, 0xffff));
        }
    }
}

#[test]
fn png_reader_state_after_errors() {
    // A bad signature: its eight bytes are read.
    let mut reader = FileReader::new(b"GIF89a..rest".to_vec());
    assert_eq!(PNGImage::read_image::<RGB<u8>>(&mut reader).err(), Some(ImageError::NotAPng));
    assert_eq!(reader.remaining(), 4);
    // Image data cut short: reading stops after the IDAT chunk's type.
    let mut reader = FileReader::new(TINY_PNG[..100].to_vec());
    assert_eq!(PNGImage::read_chunks(&mut reader).err(), Some(ImageError::Truncated));
    assert_eq!(reader.remaining(), 100 - 85);
    let mut expected: u32 = 0xffff_ffff;
    update_crc(&mut expected, b"IDAT");
    assert_eq!(reader.get_checksum(), expected);
}

#[test]
fn png_chunk_log_and_text_lookup() {
    let mut reader = FileReader::new(TINY_PNG.to_vec());
    let png = PNGImage::read_chunks(&mut reader).unwrap();
    let log: Vec<(&[u8; 4], u32, bool)> = png.chunks.iter().map(|c| (&c.chunk_type, c.length, c.bad_crc)).collect();
    assert_eq!(
        log,
        vec![(b"IHDR", 13, false), (b"tEXt", 10, false), (b"IDAT", 10, false), (b"IDAT", 51, false), (b"IEND", 0, false)]
    );
    let text = png.tEXt.as_ref().unwrap();
    assert_eq!(text.get(b"Title"), Some(&b"Tiny".to_vec()));
    assert_eq!(text.get(b"Author"), None);
}

#[test]
fn text_lookup_takes_the_last_entry() {
    let text = lib::png::tEXt {
        keywords: vec![
            (b"Title".to_vec(), b"First".to_vec()),
            (b"Author".to_vec(), b"Someone".to_vec()),
            (b"Title".to_vec(), b"Second".to_vec()),
        ],
    };
    assert_eq!(text.get(b"Title"), Some(&b"Second".to_vec()));
    assert_eq!(text.get(b"Author"), Some(&b"Someone".to_vec()));
    assert_eq!(text.get(b"Titl"), None);
}

#[test]
fn stored_crcs_do_not_change_the_image() {
    let mut bytes = TINY_PNG.to_vec();
    // The stored CRCs of the IHDR, first IDAT and IEND chunks.
    bytes[29] ^= 0xff;
    bytes[74] ^= 0x01;
    bytes[151] ^= 0x80;
    let mut reader = FileReader::new(bytes);
    let image: ImageBase<RGB<u8>> = PNGImage::read_image(&mut reader).unwrap();
    let mut reader = FileReader::new(TINY_PNG.to_vec());
    let expected: ImageBase<RGB<u8>> = PNGImage::read_image(&mut reader).unwrap();
    assert_eq!(image.bit_depth, expected.bit_depth);
    assert_eq!((image.pixels.width, image.pixels.height), (3, 5));
    for y in 0..5 {
        for x in 0..3 {
            let (a, b) = (image.pixels.index(x, y), expected.pixels.index(x, y));
            assert_eq!((a.r, a.g, a.b), (b.r, b.g, b.b));
        }
    }
}

#[test]
fn stored_crcs_do_not_change_an_error() {
    let mut bytes = TINY_PNG[..100].to_vec();
    // The stored CRCs of the IHDR and tEXt chunks.
    bytes[30] ^= 0x10;
    bytes[52] ^= 0x01;
    let mut reader = FileReader::new(bytes);
    assert_eq!(PNGImage::read_image::<RGB<u8>>(&mut reader).err(), Some(ImageError::Truncated));
}
