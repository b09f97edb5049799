use lib::image::{convert, convert_depth, ColorDepth, ColorType, PixelArr, RGB, RGBA};
use lib::reader::{ChecksumFunc, FileReader};
use lib::writer::FileWriter;

#[test]
fn channel_depth_conversions() {
    assert_eq!(<u8 as ColorDepth>::to_full_color(&0xab), 0xab00_0000);
    assert_eq!(<u16 as ColorDepth>::to_full_color(&0xabcd), 0xabcd_0000);
    assert_eq!(<u8 as ColorDepth>::from_full_color(0x1234_5678), 0x12);
    assert_eq!(<u16 as ColorDepth>::from_full_color(0x1234_5678), 0x1234);
    assert_eq!(<u32 as ColorDepth>::from_full_color(0x1234_5678), 0x1234_5678);
    let wide: u16 = convert_depth(&0x80u8);
    assert_eq!(wide, 0x8000);
    let narrow: u8 = convert_depth(&0xabcdu16);
    assert_eq!(narrow, 0xab);
}

#[test]
fn widening_then_narrowing_gives_back_the_channel() {
    for v in [0u8, 1, 127, 255] {
        let w: u16 = convert_depth(&v);
        let back: u8 = convert_depth(&w);
        assert_eq!(back, v);
    }
}

#[test]
fn pixel_conversions() {
    let p = RGB::<u8> { r: 1, g: 2, b: 3 };
    let full = p.to_full_color();
    assert_eq!((full.r, full.g, full.b, full.a), (0x0100_0000, 0x0200_0000, 0x0300_0000, u32::MAX));
    let q: RGBA<u8> = convert(&p);
    assert_eq!((q.r, q.g, q.b, q.a), (1, 2, 3, 255));
    let back: RGB<u8> = convert(&q);
    assert_eq!((back.r, back.g, back.b), (1, 2, 3));
    let d = <RGBA<u16> as ColorType>::default_pixel();
    assert_eq!((d.r, d.g, d.b, d.a), (0, 0, 0, 0));
}

#[test]
fn pixel_array_rows() {
    let mut arr: PixelArr<RGB<u8>> = PixelArr::new(3, 2);
    assert!(arr.is_wf());
    assert_eq!(arr.raw.len(), 6);
    arr.set(2, 1, RGB { r: 9, g: 8, b: 7 });
    let p = arr.index(2, 1);
    assert_eq!((p.r, p.g, p.b), (9, 8, 7));
    assert_eq!(arr.raw[5].r, 9);
    arr.width = 2;
    assert!(!arr.is_wf());
    arr.width = 3;
    assert_eq!(arr.index(0, 0).r, 0);
}

#[test]
fn reader_byte_order_and_checksum() {
    let mut reader = FileReader::new(vec![1, 2, 3, 4, 5, 6, 7, 8, 9, 10]);
    assert_eq!(reader.remaining(), 10);
    let v: u16 = reader.read();
    assert_eq!(v, 0x0201);
    reader.set_endianness(false);
    let w: u16 = reader.read();
    assert_eq!(w, 0x0304);
    reader.set_checksum_handler(ChecksumFunc::Crc32, 0xffffffff);
    let arr: [u8; 2] = reader.read_array::<1, u8, 2>();
    assert_eq!(arr, [5, 6]);
    let mut expected: u32 = 0xffffffff;
    lib::crc::update_crc(&mut expected, &[5, 6]);
    assert_eq!(reader.get_checksum(), expected);
    assert_eq!(reader.reset_checksum(), expected);
    assert_eq!(reader.get_checksum(), 0xffffffff);
    reader.skip(1);
    assert_eq!(reader.get_bytes(3), vec![8, 9, 10]);
    assert_eq!(reader.remaining(), 0);
    reader.skip(5);
    assert_eq!(reader.remaining(), 0);
}

#[test]
fn reader_reads_arrays_of_wider_values() {
    let mut reader = FileReader::new(vec![1, 0, 2, 0, 3, 0]);
    let arr: [u16; 3] = reader.read_array::<2, u16, 3>();
    assert_eq!(arr, [1, 2, 3]);
    let mut reader = FileReader::new(vec![0x12, 0x34, 0x56, 0x78]);
    let mut bytes = reader.read_bytes::<4>();
    bytes.reverse();
    assert_eq!(bytes, [0x78, 0x56, 0x34, 0x12]);
}

#[test]
fn writer_little_endian() {
    let mut writer = FileWriter::new();
    writer.write(0x0102u16);
    writer.write_zeros(2);
    writer.write(0x03040506u32);
    writer.write_array([7u8, 8]);
    writer.write_array([0x0a09u16, 0x0c0b]);
    assert_eq!(writer.bytes(), &vec![2, 1, 0, 0, 6, 5, 4, 3, 7, 8, 9, 10, 11, 12]);
    assert_eq!(writer.into_bytes().len(), 14);
}

#[test]
fn written_values_read_back() {
    let mut writer = FileWriter::new();
    writer.write(0xdeadbeefu32);
    writer.write(0x1234u16);
    writer.write(7u8);
    let mut reader = FileReader::new(writer.into_bytes());
    let a: u32 = reader.read();
    let b: u16 = reader.read();
    let c: u8 = reader.read();
    assert_eq!((a, b, c), (0xdeadbeef, 0x1234, 7));
}

#[test]
fn set_pixel_leaves_others() {
    let mut arr: PixelArr<RGBA<u16>> = PixelArr::new(2, 2);
    arr.set(1, 0, RGBA { r: 1, g: 2, b: 3, a: 4 });
    assert_eq!(arr.index(1, 0).a, 4);
    assert_eq!(arr.index(0, 1).a, 0);
    assert_eq!(arr.index(1, 1).r, 0);
}
