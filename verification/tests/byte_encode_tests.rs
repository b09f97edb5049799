use lib::byte_encode::ByteEncode;
use lib::bmp::BITMAPINFOHEADER;
use lib::png::IHDR;

#[test]
fn u32_little_and_big_endian() {
    let b = [1u8, 2, 3, 4];
    assert_eq!(<u32 as ByteEncode<4>>::from_le_bytes(&b), 0x04030201);
    assert_eq!(<u32 as ByteEncode<4>>::from_be_bytes(&b), 0x01020304);
    assert_eq!(ByteEncode::<4>::to_le_bytes(&0x04030201u32), [1, 2, 3, 4]);
    assert_eq!(ByteEncode::<4>::to_be_bytes(&0x04030201u32), [4, 3, 2, 1]);
}

#[test]
fn u16_and_u8_encoding() {
    assert_eq!(<u16 as ByteEncode<2>>::from_le_bytes(&[0x34, 0x12]), 0x1234);
    assert_eq!(<u16 as ByteEncode<2>>::from_be_bytes(&[0x12, 0x34]), 0x1234);
    assert_eq!(ByteEncode::<2>::to_le_bytes(&0xbeefu16), [0xef, 0xbe]);
    assert_eq!(ByteEncode::<2>::to_be_bytes(&0xbeefu16), [0xbe, 0xef]);
    assert_eq!(<u8 as ByteEncode<1>>::from_le_bytes(&[7]), 7);
    assert_eq!(ByteEncode::<1>::to_be_bytes(&9u8), [9]);
}

#[test]
fn value_roundtrips() {
    for v in [0u32, 1, 0xdeadbeef, u32::MAX] {
        assert_eq!(<u32 as ByteEncode<4>>::from_le_bytes(&ByteEncode::<4>::to_le_bytes(&v)), v);
        assert_eq!(<u32 as ByteEncode<4>>::from_be_bytes(&ByteEncode::<4>::to_be_bytes(&v)), v);
    }
}

#[test]
fn ihdr_big_endian_fields() {
    let b = [0, 0, 1, 2, 0, 0, 0, 3, 8, 2, 0, 0, 1];
    let h = <IHDR as ByteEncode<13>>::from_be_bytes(&b);
    assert_eq!(h.width, 258);
    assert_eq!(h.height, 3);
    assert_eq!(h.bit_depth, 8);
    assert_eq!(h.color_type, 2);
    assert_eq!(h.interlace_method, 1);
    assert_eq!(ByteEncode::<13>::to_be_bytes(&h), b);
}

#[test]
fn bitmap_info_header_little_endian_fields() {
    let mut b = [0u8; 36];
    b[0] = 10;
    b[4] = 20;
    b[8] = 1;
    b[10] = 24;
    b[12] = 3;
    let h = <BITMAPINFOHEADER as ByteEncode<36>>::from_le_bytes(&b);
    assert_eq!(h.width, 10);
    assert_eq!(h.height, 20);
    assert_eq!(h.bpp, 24);
    assert_eq!(h.compression_method, 3);
    assert_eq!(ByteEncode::<36>::to_le_bytes(&h), b);
}
