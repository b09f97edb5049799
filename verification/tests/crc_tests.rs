use lib::crc::{make_crc_table, update_crc};

#[test]
fn crc_table_known_entries() {
    let table = make_crc_table();
    assert_eq!(table.len(), 256);
    assert_eq!(table[0], 0);
    assert_eq!(table[1], 0x77073096);
    assert_eq!(table[255], 0x2D02EF8D);
}

#[test]
fn crc32_check_value() {
    let mut crc: u32 = 0xffffffff;
    update_crc(&mut crc, b"123456789");
    assert_eq!(crc ^ 0xffffffff, 0xCBF43926);
}

#[test]
fn crc_of_iend_chunk_type() {
    let mut crc: u32 = 0xffffffff;
    update_crc(&mut crc, b"IEND");
    assert_eq!(crc ^ 0xffffffff, 0xAE426082);
}

#[test]
fn crc_update_in_parts_equals_whole() {
    let data = b"The quick brown fox jumps over the lazy dog";
    let mut whole: u32 = 0xffffffff;
    update_crc(&mut whole, data);
    let mut parts: u32 = 0xffffffff;
    update_crc(&mut parts, &data[..10]);
    update_crc(&mut parts, &data[10..]);
    assert_eq!(whole, parts);
    assert_eq!(whole ^ 0xffffffff, 0x414FA339);
}

#[test]
fn crc_of_empty_is_unchanged() {
    let mut crc: u32 = 0x12345678;
    update_crc(&mut crc, &[]);
    assert_eq!(crc, 0x12345678);
}

#[test]
fn reset_returns_the_checksum_of_all_reads_since() {
    let data: Vec<u8> = (0u8..40).collect();
    let mut reader = lib::reader::FileReader::new(data.clone());
    reader.set_checksum_handler(lib::reader::ChecksumFunc::Crc32, 0xffff_ffff);
    let _a: u32 = reader.read();
    let _b: [u8; 3] = reader.read_array::<1, u8, 3>();
    let _c = reader.get_bytes(5);
    let _d: [u8; 2] = reader.read_bytes::<2>();
    let mut expected: u32 = 0xffff_ffff;
    lib::crc::update_crc(&mut expected, &data[0..14]);
    assert_eq!(reader.reset_checksum(), expected);
    assert_eq!(reader.get_checksum(), 0xffff_ffff);
    assert_eq!(reader.remaining(), 26);
}
