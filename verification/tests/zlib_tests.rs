use lib::bits::{BitBuffer, Bitstream};
use lib::huffman::{lengths_fit, HuffmanTree};
use lib::zlib::{zlib_decode, CompressionType, InflateError};

const DYNAMIC_BLOCK: [u8; 220] = [125, 147, 75, 14, 131, 48, 12, 68, 175, 146, 171, 5, 21, 149, 74, 161, 69, 42, 171, 156, 190, 2, 27, 252, 198, 69, 44, 18, 18, 199, 158, 25, 127, 232, 227, 90, 203, 179, 206, 115, 45, 219, 169, 182, 101, 170, 101, 216, 142, 251, 214, 195, 248, 24, 155, 58, 28, 107, 191, 216, 235, 105, 135, 27, 227, 174, 209, 156, 126, 249, 190, 218, 231, 93, 66, 144, 161, 185, 25, 38, 139, 237, 39, 247, 144, 97, 215, 233, 208, 177, 59, 217, 213, 246, 78, 76, 243, 54, 100, 38, 224, 207, 136, 112, 68, 127, 8, 214, 16, 219, 227, 24, 244, 40, 67, 215, 141, 154, 0, 39, 204, 200, 75, 31, 88, 42, 116, 8, 122, 81, 45, 179, 178, 60, 90, 82, 183, 249, 2, 115, 78, 70, 195, 46, 117, 68, 119, 32, 192, 142, 36, 99, 243, 13, 63, 141, 128, 127, 101, 60, 164, 124, 102, 35, 66, 94, 200, 61, 231, 143, 33, 34, 123, 30, 120, 148, 255, 198, 33, 202, 167, 57, 228, 86, 15, 73, 212, 255, 46, 211, 149, 25, 117, 0, 152, 62, 254, 6, 154, 5, 77, 68, 97, 94, 17, 203, 206, 68, 78, 188, 99, 188, 140, 226, 110, 52, 129, 28, 113, 63];

const DYNAMIC_PLAIN: &str = "zeta gamma eta alpha beta beta zeta alpha delta alpha beta eta eta beta delta beta eta alpha beta delta alpha eta alpha delta alpha gamma epsilon eta gamma beta epsilon gamma beta delta zeta beta beta alpha delta theta eta zeta theta theta zeta epsilon delta gamma delta beta epsilon theta zeta theta epsilon beta beta eta gamma zeta gamma theta eta alpha beta zeta zeta zeta theta theta beta beta epsilon theta beta alpha epsilon theta epsilon eta zeta alpha theta zeta gamma beta theta alpha delta epsilon gamma delta eta eta theta beta gamma theta eta epsilon gamma eta epsilon eta zeta eta delta gamma beta gamma gamma delta delta alpha theta gamma epsilon epsilon alpha gamma eta zeta zeta gamma alpha theta eta eta eta eta beta theta eta alpha delta beta delta theta gamma beta zeta alpha beta alpha gamma beta zeta alpha beta delta eta gamma epsilon zeta zeta theta beta beta theta theta theta theta epsilon beta gamma beta zeta epsilon theta gamma alpha delta zeta gamma alpha epsilon beta epsilon zeta gamma zeta delta zeta delta delta delta eta delta delta theta zeta alpha alpha epsilon theta epsilon delta zeta theta zeta";

#[test]
fn bits_come_least_significant_first() {
    let data = [0b1010_0110u8, 0xff];
    let mut b = BitBuffer::new(&data);
    assert_eq!(b.bits_remaining(), 16);
    assert!(!b.next_bit());
    assert!(b.next_bit());
    assert!(b.next_bit());
    assert_eq!(b.next_bits(3), 0b100);
    b.skip_to_byte_boundary();
    assert_eq!(b.bits_remaining(), 8);
    assert_eq!(b.next_bits(8), 0xff);
    b.skip_to_byte_boundary();
    assert_eq!(b.bits_remaining(), 0);
}

#[test]
fn next_bits_sixteen() {
    let data = [0x34u8, 0x12];
    let mut b = BitBuffer::new(&data);
    assert_eq!(b.next_bits(16), 0x1234);
}

#[test]
fn canonical_huffman_decoding() {
    // Code lengths A=2, B=1, C=3, D=3 give B=0, A=10, C=110, D=111.
    let tree = HuffmanTree::new(&[2, 1, 3, 3]);
    // Bits in stream order: 0 | 10 | 111 | 110, packed from the low bit up.
    let bits: [bool; 9] = [false, true, false, true, true, true, true, true, false];
    let mut byte0 = 0u8;
    let mut byte1 = 0u8;
    for (i, &bit) in bits.iter().enumerate() {
        if bit {
            if i < 8 {
                byte0 |= 1 << i;
            } else {
                byte1 |= 1 << (i - 8);
            }
        }
    }
    let data = [byte0, byte1];
    let mut b = BitBuffer::new(&data);
    assert_eq!(tree.decode(&mut b), Ok(1));
    assert_eq!(tree.decode(&mut b), Ok(0));
    assert_eq!(tree.decode(&mut b), Ok(3));
    assert_eq!(tree.decode(&mut b), Ok(2));
}

#[test]
fn huffman_decoding_runs_out_of_bits() {
    let tree = HuffmanTree::new(&[2, 1, 3, 3]);
    let data: [u8; 0] = [];
    let mut b = BitBuffer::new(&data);
    assert_eq!(tree.decode(&mut b), Err(InflateError::Truncated));
}

#[test]
fn huffman_decoding_without_a_match() {
    // A single code of length 1 ("0"): the bits 1111... match nothing.
    let tree = HuffmanTree::new(&[1]);
    let data = [0xffu8, 0xff];
    let mut b = BitBuffer::new(&data);
    assert_eq!(tree.decode(&mut b), Err(InflateError::NoCodeMatched));
}

#[test]
fn length_limits() {
    assert!(lengths_fit(&[1, 2, 15]));
    assert!(!lengths_fit(&[16]));
    assert!(!lengths_fit(&[8u8; 256]));
    assert!(lengths_fit(&[8u8; 255]));
}

#[test]
fn static_code_lengths() {
    let lit = HuffmanTree::get_static_code_lens();
    assert_eq!(lit.len(), 288);
    assert_eq!(lit[0], 8);
    assert_eq!(lit[143], 8);
    assert_eq!(lit[144], 9);
    assert_eq!(lit[255], 9);
    assert_eq!(lit[256], 7);
    assert_eq!(lit[279], 7);
    assert_eq!(lit[280], 8);
    assert_eq!(HuffmanTree::get_static_dist_code_lens(), vec![5u8; 32]);
}

#[test]
fn compression_type_numbers() {
    assert_eq!(CompressionType::new(0), CompressionType::NoCompression);
    assert_eq!(CompressionType::new(1), CompressionType::StaticCodes);
    assert_eq!(CompressionType::new(2), CompressionType::DynamicCodes);
    assert_eq!(CompressionType::new(3), CompressionType::Reserved);
}

#[test]
fn inflate_stored_block() {
    let data = [1u8, 3, 0, 252, 255, 97, 98, 99];
    assert_eq!(zlib_decode(BitBuffer::new(&data)), Ok(b"abc".to_vec()));
}

#[test]
fn inflate_static_block_with_copies() {
    let data = [203u8, 72, 205, 201, 201, 87, 200, 64, 144, 0];
    assert_eq!(zlib_decode(BitBuffer::new(&data)), Ok(b"hello hello hello".to_vec()));
}

#[test]
fn inflate_dynamic_block() {
    let out = zlib_decode(BitBuffer::new(&DYNAMIC_BLOCK)).unwrap();
    assert_eq!(out, DYNAMIC_PLAIN.as_bytes().to_vec());
}

#[test]
fn inflate_two_blocks() {
    // A stored block "ab" that is not the last, then a stored block "c".
    let data = [0u8, 2, 0, 253, 255, 97, 98, 1, 1, 0, 254, 255, 99];
    assert_eq!(zlib_decode(BitBuffer::new(&data)), Ok(b"abc".to_vec()));
}

#[test]
fn inflate_reserved_block_type() {
    let data = [0b0000_0111u8];
    assert_eq!(zlib_decode(BitBuffer::new(&data)), Err(InflateError::ReservedBlockType));
}

#[test]
fn inflate_stored_length_mismatch() {
    let data = [1u8, 3, 0, 0, 0, 97, 98, 99];
    assert_eq!(zlib_decode(BitBuffer::new(&data)), Err(InflateError::StoredLengthMismatch));
}

#[test]
fn inflate_truncated_input() {
    let empty: [u8; 0] = [];
    assert_eq!(zlib_decode(BitBuffer::new(&empty)), Err(InflateError::Truncated));
    let data = [1u8, 3, 0, 252, 255, 97];
    assert_eq!(zlib_decode(BitBuffer::new(&data)), Err(InflateError::Truncated));
    let data = [203u8, 72, 205, 201];
    assert_eq!(zlib_decode(BitBuffer::new(&data)), Err(InflateError::Truncated));
}

#[test]
fn inflate_distance_too_far() {
    // Static block: length symbol 257 (length 3, code 0000001), distance
    // code 0 (distance 1, code 00000) with nothing output yet.
    // Bits: 1 (last), 10 (static, low bit first: 1 then 0), 0000001, 00000.
    let bits = [true, true, false, false, false, false, false, false, false, true, false, false, false, false, false];
    let mut bytes = [0u8; 2];
    for (i, &bit) in bits.iter().enumerate() {
        if bit {
            bytes[i / 8] |= 1 << (i % 8);
        }
    }
    assert_eq!(zlib_decode(BitBuffer::new(&bytes)), Err(InflateError::DistanceTooFar));
}

/// Packs bits, the first one into the lowest bit of the first byte.
fn pack(bits: &[u8]) -> Vec<u8> {
    let mut bytes = vec![0u8; (bits.len() + 7) / 8];
    for (i, &bit) in bits.iter().enumerate() {
        if bit == 1 {
            bytes[i / 8] |= 1 << (i % 8);
        }
    }
    bytes
}

#[test]
fn inflate_bad_length_symbol() {
    // Static block, then the 8-bit code of symbol 286: 11000110.
    let bits = [1, 1, 0, 1, 1, 0, 0, 0, 1, 1, 0];
    assert_eq!(zlib_decode(BitBuffer::new(&pack(&bits))), Err(InflateError::BadLengthSymbol));
}

#[test]
fn inflate_bad_distance_symbol() {
    // Static block, length symbol 257 (0000001), distance symbol 30 (11110).
    let bits = [1, 1, 0, 0, 0, 0, 0, 0, 0, 1, 1, 1, 1, 1, 0];
    assert_eq!(zlib_decode(BitBuffer::new(&pack(&bits))), Err(InflateError::BadDistanceSymbol));
}

/// A dynamic block header with 257 literal/length and 1 distance code
/// lengths, and code length code lengths for 16, 17, 18, 0 given in `cl`.
fn dynamic_header(cl: [u8; 4]) -> Vec<u8> {
    let mut bits = vec![1, 0, 1, 0, 0, 0, 0, 0, 0, 0, 0, 0, 0, 0, 0, 0, 0];
    for l in cl {
        bits.push(l & 1);
        bits.push((l >> 1) & 1);
        bits.push((l >> 2) & 1);
    }
    bits
}

#[test]
fn inflate_repeat_without_previous() {
    // Code length codes 16 and 0 of length 1: 0 is "0", 16 is "1".
    let mut bits = dynamic_header([1, 0, 0, 1]);
    bits.extend_from_slice(&[1, 0, 0]);
    assert_eq!(zlib_decode(BitBuffer::new(&pack(&bits))), Err(InflateError::RepeatWithoutPrevious));
}

#[test]
fn inflate_too_many_code_lengths() {
    // Code length codes 18 and 0 of length 1: 0 is "0", 18 is "1".
    let mut bits = dynamic_header([0, 0, 1, 1]);
    for _ in 0..2 {
        bits.push(1);
        bits.extend_from_slice(&[1, 1, 1, 1, 1, 1, 1]);
    }
    assert_eq!(zlib_decode(BitBuffer::new(&pack(&bits))), Err(InflateError::TooManyCodeLengths));
}

#[test]
fn inflate_code_length_overflow() {
    // 288 literal/length and 1 distance code lengths, all 9: code length
    // codes 9 ("0") and 16 ("1"), then 9 and 48 repeats of six.
    let mut bits = vec![1, 0, 1, 1, 1, 1, 1, 1, 0, 0, 0, 0, 0, 1, 1, 0, 0];
    for l in [1u8, 0, 0, 0, 0, 0, 1] {
        bits.push(l & 1);
        bits.push((l >> 1) & 1);
        bits.push((l >> 2) & 1);
    }
    bits.push(0);
    for _ in 0..48 {
        bits.extend_from_slice(&[1, 1, 1]);
    }
    assert_eq!(zlib_decode(BitBuffer::new(&pack(&bits))), Err(InflateError::CodeLengthOverflow));
}

#[test]
fn inflate_ignores_trailing_bytes() {
    let mut data = vec![203u8, 72, 205, 201, 201, 87, 200, 64, 144, 0];
    data.extend_from_slice(&[0x12, 0x34, 0x56, 0x78, 0xff]);
    assert_eq!(zlib_decode(BitBuffer::new(&data)), Ok(b"hello hello hello".to_vec()));
    let mut data = vec![1u8, 3, 0, 252, 255, 97, 98, 99];
    data.extend_from_slice(&[7, 7]);
    assert_eq!(zlib_decode(BitBuffer::new(&data)), Ok(b"abc".to_vec()));
}

#[test]
fn next_bits_in_two_reads() {
    let data = [0b1011_0110u8, 0b0101_1100];
    let mut once = BitBuffer::new(&data);
    let all = once.next_bits(13);
    let mut twice = BitBuffer::new(&data);
    let low = twice.next_bits(5);
    let high = twice.next_bits(8);
    assert_eq!(all, low | (high << 5));
}
