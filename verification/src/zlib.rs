use vstd::prelude::*;

use crate::bits::{
    bits_extend, bits_lsb, byte_bits, lemma_bits_lsb_bound, lemma_bits_lsb_extend, lemma_two_pow_small, round_up_to_byte,
    two_pow, Bitstream,
};
use crate::huffman::{
    count_len, huffman_decode, huffman_decode_at, lemma_count_len_bound, lemma_huffman_decode_extend, lemma_huffman_decode_symbol,
    len_count, lengths_fit, lengths_ok, HuffmanTree,
};

verus! {

/// Why a DEFLATE stream could not be decoded.
#[derive(Debug, Clone, Copy, PartialEq, Eq, Structural)]
pub enum InflateError {
    /// The bits ran out before the stream ended.
    Truncated,
    /// A block header names the reserved block type.
    ReservedBlockType,
    /// A stored block's length and its complement disagree.
    StoredLengthMismatch,
    /// No Huffman code of up to 15 bits matched.
    NoCodeMatched,
    /// A code length code other than 0 to 18 was read.
    BadCodeLengthSymbol,
    /// A code length repeat came before any code length.
    RepeatWithoutPrevious,
    /// The code length repeats run past the number of code lengths.
    TooManyCodeLengths,
    /// More than 255 literal/length codes share one length.
    CodeLengthOverflow,
    /// A literal/length symbol above 285 was read.
    BadLengthSymbol,
    /// A distance symbol above 29 was read.
    BadDistanceSymbol,
    /// A distance reaches back before the start of the output.
    DistanceTooFar,
}


/// Size of the literal/length alphabet.
pub const CODE_TREE_LEN: usize = 288;

/// Size of the distance alphabet.
pub const DIST_TREE_LEN: usize = 32;

/// Size of the code length alphabet.
pub const CODE_LEN_TREE_LEN: usize = 19;

/// The order in which the code lengths of the code length alphabet are stored.
pub const CODE_LEN_ORDER: [u8; 19] = [16, 17, 18, 0, 8, 7, 9, 6, 10, 5, 11, 4, 12, 3, 13, 2, 14, 1, 15];

/// Where each code length code comes in `CODE_LEN_ORDER`.
pub const CODE_LEN_RANK: [u8; 19] = [3, 17, 15, 13, 11, 9, 7, 5, 4, 6, 8, 10, 12, 14, 16, 18, 0, 1, 2];

/// Base lengths of the length symbols 257 to 285.
pub const LEN_START: [u16; 29] = [
    3, 4, 5, 6, 7, 8, 9, 10, 11, 13, 15, 17, 19, 23, 27, 31, 35, 43, 51, 59, 67, 83, 99, 115, 131,
    163, 195, 227, 258,
];

/// Extra bits of the length symbols 257 to 285.
pub const LEN_EXTRA: [u8; 29] = [
    0, 0, 0, 0, 0, 0, 0, 0, 1, 1, 1, 1, 2, 2, 2, 2, 3, 3, 3, 3, 4, 4, 4, 4, 5, 5, 5, 5, 0,
];

/// Base distances of the distance symbols 0 to 29.
pub const DIST_START: [u16; 30] = [
    1, 2, 3, 4, 5, 7, 9, 13, 17, 25, 33, 49, 65, 97, 129, 193, 257, 385, 513, 769, 1025, 1537, 2049,
    3073, 4097, 6145, 8193, 12289, 16385, 24577,
];

/// Extra bits of the distance symbols 0 to 29.
pub const DIST_EXTRA: [u8; 30] = [
    0, 0, 0, 0, 1, 1, 2, 2, 3, 3, 4, 4, 5, 5, 6, 6, 7, 7, 8, 8, 9, 9, 10, 10, 11, 11, 12, 12, 13, 13,
];

/// Base repeat counts of the code length symbols 16, 17 and 18.
pub const DYNAMIC_CODE_START: [u8; 3] = [3, 3, 11];

/// Extra bits of the code length symbols 16, 17 and 18.
pub const DYNAMIC_CODE_EXTRA: [u8; 3] = [2, 3, 7];

/// The code lengths of the fixed literal/length code (RFC 1951, 3.2.6).
pub open spec fn static_lit_lens() -> Seq<u8> {
    Seq::new(
        288,
        |i: int|
            if i < 144 {
                8u8
            } else if i < 256 {
                9u8
            } else if i < 280 {
                7u8
            } else {
                8u8
            },
    )
}

/// The code lengths of the fixed distance code.
pub open spec fn static_dist_lens() -> Seq<u8> {
    Seq::new(32, |i: int| 5u8)
}

/// `out` followed by `len` bytes copied from `dist` bytes back, the copy
/// reading what it has just written where `len` exceeds `dist`.
pub open spec fn copy_back(out: Seq<u8>, dist: int, len: int) -> Seq<u8> {
    out + Seq::new(len as nat, |i: int| out[out.len() - dist + i % dist])
}

/// A stored block whose header ends at `pos`: the lengths start at the next
/// byte boundary, and the bytes follow them.
pub open spec fn stored_block(bits: Seq<bool>, pos: int, out: Seq<u8>) -> Result<(Seq<u8>, int), InflateError> {
    let p0 = round_up_to_byte(pos);
    if p0 + 32 > bits.len() {
        Err(InflateError::Truncated)
    } else {
        let len = bits_lsb(bits, p0, 16) as int;
        let nlen = bits_lsb(bits, p0 + 16, 16) as int;
        if len + nlen != 65535 {
            Err(InflateError::StoredLengthMismatch)
        } else if p0 + 32 + 8 * len > bits.len() {
            Err(InflateError::Truncated)
        } else {
            Ok((
                out + Seq::new(len as nat, |i: int| bits_lsb(bits, p0 + 32 + 8 * i, 8) as u8),
                p0 + 32 + 8 * len,
            ))
        }
    }
}

/// The Huffman-coded data of a block, decoded from `pos` onto `out` with
/// the literal/length code lengths `lit` and the distance code lengths
/// `dist`: literals, length/distance copies, up to the end-of-block symbol.
pub open spec fn inflate_codes(lit: Seq<u8>, dist: Seq<u8>, bits: Seq<bool>, pos: int, out: Seq<u8>) -> Result<
    (Seq<u8>, int),
    InflateError,
>
    decreases bits.len() - pos,
{
    match huffman_decode(lit, bits, pos) {
        Err(e) => Err(e),
        Ok((sym, p1)) => {
            proof {
                lemma_huffman_decode_advances(lit, bits, pos, 1);
            }
            if sym < 256 {
                inflate_codes(lit, dist, bits, p1, out.push(sym as u8))
            } else if sym == 256 {
                Ok((out, p1))
            } else if sym - 257 >= 29 {
                Err(InflateError::BadLengthSymbol)
            } else {
                let k = sym - 257;
                let le = LEN_EXTRA@[k] as int;
                if p1 + le > bits.len() {
                    Err(InflateError::Truncated)
                } else {
                    let length = LEN_START@[k] + bits_lsb(bits, p1, le as nat);
                    match huffman_decode(dist, bits, p1 + le) {
                        Err(e) => Err(e),
                        Ok((d, p2)) => {
                            proof {
                                lemma_huffman_decode_advances(dist, bits, p1 + le, 1);
                            }
                            if d < 0 || d >= 30 {
                                Err(InflateError::BadDistanceSymbol)
                            } else {
                                let de = DIST_EXTRA@[d] as int;
                                if p2 + de > bits.len() {
                                    Err(InflateError::Truncated)
                                } else {
                                    let distance = DIST_START@[d] + bits_lsb(bits, p2, de as nat);
                                    if distance > out.len() {
                                        Err(InflateError::DistanceTooFar)
                                    } else {
                                        inflate_codes(lit, dist, bits, p2 + de, copy_back(out, distance, length))
                                    }
                                }
                            }
                        },
                    }
                }
            }
        },
    }
}

/// The code lengths of the code length alphabet: the `hclen` 3-bit fields
/// from `pos` on, in the order `CODE_LEN_ORDER`; the rest are 0.
pub open spec fn code_length_code_lens(bits: Seq<bool>, pos: int, hclen: int) -> Seq<u8> {
    Seq::new(
        19,
        |i: int|
            if (CODE_LEN_RANK@[i] as int) < hclen {
                bits_lsb(bits, pos + 3 * CODE_LEN_RANK@[i], 3) as u8
            } else {
                0u8
            },
    )
}

/// The run-length coded code lengths, decoded from `pos` with the code
/// length code `cl` and appended to `acc` until there are `total` of them.
pub open spec fn decode_lengths(cl: Seq<u8>, bits: Seq<bool>, pos: int, total: int, acc: Seq<u8>) -> Result<
    (Seq<u8>, int),
    InflateError,
>
    decreases bits.len() - pos,
{
    if acc.len() >= total {
        Ok((acc, pos))
    } else {
        match huffman_decode(cl, bits, pos) {
            Err(e) => Err(e),
            Ok((sym, p1)) => {
                proof {
                    lemma_huffman_decode_advances(cl, bits, pos, 1);
                }
                if 0 <= sym < 16 {
                    decode_lengths(cl, bits, p1, total, acc.push(sym as u8))
                } else if 16 <= sym < 19 {
                    let c = sym - 16;
                    let extra = DYNAMIC_CODE_EXTRA@[c] as int;
                    if p1 + extra > bits.len() {
                        Err(InflateError::Truncated)
                    } else {
                        let reps = DYNAMIC_CODE_START@[c] + bits_lsb(bits, p1, extra as nat);
                        if c == 0 && acc.len() == 0 {
                            Err(InflateError::RepeatWithoutPrevious)
                        } else if acc.len() + reps > total {
                            Err(InflateError::TooManyCodeLengths)
                        } else {
                            let rep = if c == 0 { acc.last() } else { 0u8 };
                            decode_lengths(cl, bits, p1 + extra, total, acc + Seq::new(reps as nat, |i: int| rep))
                        }
                    }
                } else {
                    Err(InflateError::BadCodeLengthSymbol)
                }
            },
        }
    }
}

/// The header of a block with dynamic codes, from `pos`: the literal/length
/// and distance code lengths, and the position after the header.
pub open spec fn dynamic_lens(bits: Seq<bool>, pos: int) -> Result<(Seq<u8>, Seq<u8>, int), InflateError> {
    if pos + 14 > bits.len() {
        Err(InflateError::Truncated)
    } else {
        let hlit = bits_lsb(bits, pos, 5) + 257int;
        let hdist = bits_lsb(bits, pos + 5, 5) + 1int;
        let hclen = bits_lsb(bits, pos + 10, 4) + 4int;
        let p1 = pos + 14;
        if p1 + 3 * hclen > bits.len() {
            Err(InflateError::Truncated)
        } else {
            let cl = code_length_code_lens(bits, p1, hclen);
            match decode_lengths(cl, bits, p1 + 3 * hclen, hlit + hdist, Seq::empty()) {
                Err(e) => Err(e),
                Ok((lens, p2)) => {
                    let lit = lens.take(hlit as int) + Seq::new((288 - hlit) as nat, |i: int| 0u8);
                    let dist = lens.subrange(hlit as int, hlit + hdist) + Seq::new(
                        (32 - hdist) as nat,
                        |i: int| 0u8,
                    );
                    if !lengths_ok(lit) {
                        Err(InflateError::CodeLengthOverflow)
                    } else {
                        Ok((lit, dist, p2))
                    }
                },
            }
        }
    }
}

/// One block from `pos`, appended to `out`: the output, the position after
/// the block, and whether it was marked as the last one.
pub open spec fn inflate_block(bits: Seq<bool>, pos: int, out: Seq<u8>) -> Result<(Seq<u8>, int, bool), InflateError> {
    if pos + 3 > bits.len() {
        Err(InflateError::Truncated)
    } else {
        let last = bits[pos];
        let btype = bits_lsb(bits, pos + 1, 2);
        if btype == 3 {
            Err(InflateError::ReservedBlockType)
        } else if btype == 0 {
            match stored_block(bits, pos + 3, out) {
                Err(e) => Err(e),
                Ok((o, p)) => Ok((o, p, last)),
            }
        } else if btype == 1 {
            match inflate_codes(static_lit_lens(), static_dist_lens(), bits, pos + 3, out) {
                Err(e) => Err(e),
                Ok((o, p)) => Ok((o, p, last)),
            }
        } else {
            match dynamic_lens(bits, pos + 3) {
                Err(e) => Err(e),
                Ok((lit, dist, p)) => match inflate_codes(lit, dist, bits, p, out) {
                    Err(e) => Err(e),
                    Ok((o, p2)) => Ok((o, p2, last)),
                },
            }
        }
    }
}

/// The blocks from `pos` on, appended to `out`, up to the one marked last.
pub open spec fn inflate_from(bits: Seq<bool>, pos: int, out: Seq<u8>) -> Result<Seq<u8>, InflateError>
    decreases bits.len() - pos,
{
    match inflate_block(bits, pos, out) {
        Err(e) => Err(e),
        Ok((o, p, last)) => {
            proof {
                lemma_inflate_block_advances(bits, pos, out);
            }
            if last {
                Ok(o)
            } else {
                inflate_from(bits, p, o)
            }
        },
    }
}

/// A DEFLATE stream (RFC 1951) decoded.
pub open spec fn inflate(bits: Seq<bool>) -> Result<Seq<u8>, InflateError> {
    inflate_from(bits, 0, Seq::empty())
}

proof fn lemma_stored_block_extend(bits: Seq<bool>, ext: Seq<bool>, pos: int, out: Seq<u8>)
    requires
        bits_extend(bits, ext),
        0 <= pos,
    ensures
        stored_block(bits, pos, out) is Ok ==> stored_block(ext, pos, out) == stored_block(bits, pos, out),
{
    let p0 = round_up_to_byte(pos);
    if p0 + 32 <= bits.len() {
        lemma_bits_lsb_extend(bits, ext, p0, 16);
        lemma_bits_lsb_extend(bits, ext, p0 + 16, 16);
        let len = bits_lsb(bits, p0, 16) as int;
        if p0 + 32 + 8 * len <= bits.len() {
            assert forall|i: int| 0 <= i < len implies #[trigger] bits_lsb(ext, p0 + 32 + 8 * i, 8) == bits_lsb(
                bits,
                p0 + 32 + 8 * i,
                8,
            ) by {
                lemma_bits_lsb_extend(bits, ext, p0 + 32 + 8 * i, 8);
            }
            assert(Seq::new(len as nat, |i: int| bits_lsb(ext, p0 + 32 + 8 * i, 8) as u8) =~= Seq::new(
                len as nat,
                |i: int| bits_lsb(bits, p0 + 32 + 8 * i, 8) as u8,
            ));
        }
    }
}

proof fn lemma_inflate_codes_extend(
    lit: Seq<u8>,
    dist: Seq<u8>,
    bits: Seq<bool>,
    ext: Seq<bool>,
    pos: int,
    out: Seq<u8>,
)
    requires
        bits_extend(bits, ext),
        0 <= pos,
    ensures
        inflate_codes(lit, dist, bits, pos, out) is Ok ==> inflate_codes(lit, dist, ext, pos, out)
            == inflate_codes(lit, dist, bits, pos, out),
    decreases bits.len() - pos,
{
    lemma_huffman_decode_advances(lit, bits, pos, 1);
    lemma_huffman_decode_extend(lit, bits, ext, pos, 1);
    if let Ok((sym, p1)) = huffman_decode(lit, bits, pos) {
        if sym < 256 {
            lemma_inflate_codes_extend(lit, dist, bits, ext, p1, out.push(sym as u8));
        } else if sym != 256 && sym - 257 < 29 {
            let k = sym - 257;
            let le = LEN_EXTRA@[k] as int;
            if p1 + le <= bits.len() {
                lemma_bits_lsb_extend(bits, ext, p1, le as nat);
                let length = LEN_START@[k] + bits_lsb(bits, p1, le as nat);
                lemma_huffman_decode_advances(dist, bits, p1 + le, 1);
                lemma_huffman_decode_extend(dist, bits, ext, p1 + le, 1);
                if let Ok((d, p2)) = huffman_decode(dist, bits, p1 + le) {
                    if 0 <= d < 30 {
                        let de = DIST_EXTRA@[d] as int;
                        if p2 + de <= bits.len() {
                            lemma_bits_lsb_extend(bits, ext, p2, de as nat);
                            let distance = DIST_START@[d] + bits_lsb(bits, p2, de as nat);
                            if distance <= out.len() {
                                lemma_inflate_codes_extend(
                                    lit,
                                    dist,
                                    bits,
                                    ext,
                                    p2 + de,
                                    copy_back(out, distance, length),
                                );
                            }
                        }
                    }
                }
            }
        }
    }
}

proof fn lemma_decode_lengths_extend(
    cl: Seq<u8>,
    bits: Seq<bool>,
    ext: Seq<bool>,
    pos: int,
    total: int,
    acc: Seq<u8>,
)
    requires
        bits_extend(bits, ext),
        0 <= pos,
    ensures
        decode_lengths(cl, bits, pos, total, acc) is Ok ==> decode_lengths(cl, ext, pos, total, acc)
            == decode_lengths(cl, bits, pos, total, acc),
    decreases bits.len() - pos,
{
    if acc.len() < total {
        lemma_huffman_decode_advances(cl, bits, pos, 1);
        lemma_huffman_decode_extend(cl, bits, ext, pos, 1);
        if let Ok((sym, p1)) = huffman_decode(cl, bits, pos) {
            if 0 <= sym < 16 {
                lemma_decode_lengths_extend(cl, bits, ext, p1, total, acc.push(sym as u8));
            } else if 16 <= sym < 19 {
                let c = sym - 16;
                let extra = DYNAMIC_CODE_EXTRA@[c] as int;
                if p1 + extra <= bits.len() {
                    lemma_bits_lsb_extend(bits, ext, p1, extra as nat);
                    let reps = DYNAMIC_CODE_START@[c] + bits_lsb(bits, p1, extra as nat);
                    let rep = if c == 0 { acc.last() } else { 0u8 };
                    lemma_decode_lengths_extend(
                        cl,
                        bits,
                        ext,
                        p1 + extra,
                        total,
                        acc + Seq::new(reps as nat, |i: int| rep),
                    );
                }
            }
        }
    }
}

proof fn lemma_dynamic_lens_extend(bits: Seq<bool>, ext: Seq<bool>, pos: int)
    requires
        bits_extend(bits, ext),
        0 <= pos,
    ensures
        dynamic_lens(bits, pos) is Ok ==> dynamic_lens(ext, pos) == dynamic_lens(bits, pos),
{
    if pos + 14 <= bits.len() {
        lemma_bits_lsb_extend(bits, ext, pos, 5);
        lemma_bits_lsb_extend(bits, ext, pos + 5, 5);
        lemma_bits_lsb_extend(bits, ext, pos + 10, 4);
        let hlit = bits_lsb(bits, pos, 5) + 257int;
        let hdist = bits_lsb(bits, pos + 5, 5) + 1int;
        let hclen = bits_lsb(bits, pos + 10, 4) + 4int;
        let p1 = pos + 14;
        if p1 + 3 * hclen <= bits.len() {
            assert forall|i: int| 0 <= i < 19 && (CODE_LEN_RANK@[i] as int) < hclen implies #[trigger] bits_lsb(
                ext,
                p1 + 3 * CODE_LEN_RANK@[i],
                3,
            ) == bits_lsb(bits, p1 + 3 * CODE_LEN_RANK@[i], 3) by {
                lemma_bits_lsb_extend(bits, ext, p1 + 3 * CODE_LEN_RANK@[i], 3);
            }
            assert(code_length_code_lens(ext, p1, hclen) =~= code_length_code_lens(bits, p1, hclen));
            let cl = code_length_code_lens(bits, p1, hclen);
            lemma_decode_lengths_extend(cl, bits, ext, p1 + 3 * hclen, hlit + hdist, Seq::empty());
        }
    }
}

proof fn lemma_dynamic_lens_advances(bits: Seq<bool>, pos: int)
    ensures
        dynamic_lens(bits, pos) matches Ok((lit, dist, p)) ==> pos <= p <= bits.len(),
{
    if pos + 14 <= bits.len() {
        let hlit = bits_lsb(bits, pos, 5) + 257int;
        let hdist = bits_lsb(bits, pos + 5, 5) + 1int;
        let hclen = bits_lsb(bits, pos + 10, 4) + 4int;
        let p1 = pos + 14;
        if p1 + 3 * hclen <= bits.len() {
            let cl = code_length_code_lens(bits, p1, hclen);
            lemma_decode_lengths_advances(cl, bits, p1 + 3 * hclen, hlit + hdist, Seq::empty());
        }
    }
}

proof fn lemma_inflate_block_extend(bits: Seq<bool>, ext: Seq<bool>, pos: int, out: Seq<u8>)
    requires
        bits_extend(bits, ext),
        0 <= pos,
    ensures
        inflate_block(bits, pos, out) is Ok ==> inflate_block(ext, pos, out) == inflate_block(bits, pos, out),
{
    if pos + 3 <= bits.len() {
        assert(ext[pos] == bits[pos]);
        lemma_bits_lsb_extend(bits, ext, pos + 1, 2);
        lemma_stored_block_extend(bits, ext, pos + 3, out);
        lemma_inflate_codes_extend(static_lit_lens(), static_dist_lens(), bits, ext, pos + 3, out);
        lemma_dynamic_lens_extend(bits, ext, pos + 3);
        if let Ok((lit, dist, p)) = dynamic_lens(bits, pos + 3) {
            lemma_dynamic_lens_advances(bits, pos + 3);
            lemma_inflate_codes_extend(lit, dist, bits, ext, p, out);
        }
    }
}

/// Decoding reads nothing after the last block: a stream that decodes
/// decodes to the same bytes whatever bits follow it.
pub proof fn lemma_inflate_extend(bits: Seq<bool>, ext: Seq<bool>, pos: int, out: Seq<u8>)
    requires
        bits_extend(bits, ext),
        0 <= pos,
        inflate_from(bits, pos, out) is Ok,
    ensures
        inflate_from(ext, pos, out) == inflate_from(bits, pos, out),
    decreases bits.len() - pos,
{
    lemma_inflate_block_extend(bits, ext, pos, out);
    lemma_inflate_block_advances(bits, pos, out);
    if let Ok((o, p, last)) = inflate_block(bits, pos, out) {
        if !last {
            lemma_inflate_extend(bits, ext, p, o);
        }
    }
}

/// Bytes appended to a DEFLATE stream that decodes, such as the checksum
/// that follows it in zlib data, do not change what it decodes to.
pub proof fn lemma_inflate_ignores_trailing_bytes(data: Seq<u8>, junk: Seq<u8>)
    requires
        inflate(byte_bits(data)) is Ok,
    ensures
        inflate(byte_bits(data + junk)) == inflate(byte_bits(data)),
{
    let bits = byte_bits(data);
    let ext = byte_bits(data + junk);
    assert forall|i: int| 0 <= i < bits.len() implies #[trigger] ext[i] == bits[i] by {
        assert(0 <= i / 8 < data.len()) by (nonlinear_arith)
            requires
                0 <= i < data.len() * 8,
        ;
        assert((data + junk)[i / 8] == data[i / 8]);
    }
    lemma_inflate_extend(bits, ext, 0, Seq::empty());
}

/// Copying `len` bytes from `dist` back appends `len` bytes, each equal to
/// the byte `dist` places before it (so a copy longer than its distance
/// repeats what it has just written).
pub proof fn lemma_copy_back(out: Seq<u8>, dist: int, len: int)
    requires
        1 <= dist <= out.len(),
        0 <= len,
    ensures
        copy_back(out, dist, len).len() == out.len() + len,
        copy_back(out, dist, len).take(out.len() as int) == out,
        forall|i: int|
            out.len() <= i < out.len() + len ==> #[trigger] copy_back(out, dist, len)[i] == copy_back(
                out,
                dist,
                len,
            )[i - dist],
{
    let r = copy_back(out, dist, len);
    assert(r.take(out.len() as int) =~= out);
    assert forall|i: int| out.len() <= i < out.len() + len implies #[trigger] r[i] == r[i - dist] by {
        let j = i - out.len();
        assert(r[i] == out[out.len() - dist + j % dist]);
        if j < dist {
            assert(j % dist == j) by (nonlinear_arith)
                requires
                    0 <= j < dist,
            ;
        } else {
            assert((j - dist) % dist == j % dist) by (nonlinear_arith)
                requires
                    dist <= j,
                    1 <= dist,
            ;
            assert(r[i - dist] == out[out.len() - dist + (j - dist) % dist]);
        }
    }
}

/// A length/distance pair in Huffman-coded data (RFC 1951, 3.2.5): after
/// a length symbol `sym` and its extra bits, and a distance symbol `d` and
/// its extra bits, decoding goes on after them with the output extended by
/// a copy of `LEN_START[sym - 257]` plus the whole extra-bit field of the
/// length, from `DIST_START[d]` plus the whole extra-bit field of the
/// distance bytes back.
pub proof fn lemma_inflate_codes_match(
    lit: Seq<u8>,
    dist: Seq<u8>,
    bits: Seq<bool>,
    pos: int,
    out: Seq<u8>,
    sym: int,
    p1: int,
    d: int,
    p2: int,
)
    requires
        huffman_decode(lit, bits, pos) == Ok::<(int, int), InflateError>((sym, p1)),
        257 <= sym < 286,
        p1 + LEN_EXTRA@[sym - 257] <= bits.len(),
        huffman_decode(dist, bits, p1 + LEN_EXTRA@[sym - 257]) == Ok::<(int, int), InflateError>((d, p2)),
        0 <= d < 30,
        p2 + DIST_EXTRA@[d] <= bits.len(),
        DIST_START@[d] + bits_lsb(bits, p2, DIST_EXTRA@[d] as nat) <= out.len(),
    ensures
        ({
            let length = LEN_START@[sym - 257] + bits_lsb(bits, p1, LEN_EXTRA@[sym - 257] as nat);
            let distance = DIST_START@[d] + bits_lsb(bits, p2, DIST_EXTRA@[d] as nat);
            let copied = copy_back(out, distance, length);
            &&& inflate_codes(lit, dist, bits, pos, out) == inflate_codes(
                lit,
                dist,
                bits,
                p2 + DIST_EXTRA@[d],
                copied,
            )
            &&& copied.len() == out.len() + length
            &&& copied.take(out.len() as int) == out
            &&& forall|i: int| out.len() <= i < copied.len() ==> #[trigger] copied[i] == copied[i - distance]
        }),
{
    let length = LEN_START@[sym - 257] + bits_lsb(bits, p1, LEN_EXTRA@[sym - 257] as nat);
    let distance = DIST_START@[d] + bits_lsb(bits, p2, DIST_EXTRA@[d] as nat);
    assert(DIST_START@[d] >= 1);
    assert(LEN_START@[sym - 257] >= 3);
    lemma_copy_back(out, distance, length);
}

/// Each distance symbol's extra bits span exactly the distances up to the
/// next symbol's base, and together they cover every distance from 1 to
/// 32768 once.
pub proof fn lemma_distance_codes_cover()
    ensures
        forall|d: int| 0 <= d < 29 ==> #[trigger] DIST_START@[d] + two_pow(DIST_EXTRA@[d] as nat) == DIST_START@[d + 1],
        DIST_START@[0] == 1,
        DIST_START@[29] + two_pow(DIST_EXTRA@[29] as nat) == 32769,
{
    reveal_with_fuel(two_pow, 14);
    assert(DIST_START@ =~= seq![
        1u16, 2, 3, 4, 5, 7, 9, 13, 17, 25, 33, 49, 65, 97, 129, 193, 257, 385, 513, 769, 1025, 1537, 2049,
        3073, 4097, 6145, 8193, 12289, 16385, 24577,
    ]);
    assert(DIST_EXTRA@ =~= seq![
        0u8, 0, 0, 0, 1, 1, 2, 2, 3, 3, 4, 4, 5, 5, 6, 6, 7, 7, 8, 8, 9, 9, 10, 10, 11, 11, 12, 12, 13, 13,
    ]);
}

/// A successful Huffman decode reads at least one bit, and no bit past the end.
pub proof fn lemma_huffman_decode_advances(lens: Seq<u8>, bits: Seq<bool>, pos: int, l: int)
    requires
        1 <= l,
    ensures
        huffman_decode_at(lens, bits, pos, l) matches Ok((s, p)) ==> pos < p <= bits.len(),
    decreases 16 - l,
{
    if l <= 15 && pos + l <= bits.len() {
        lemma_huffman_decode_advances(lens, bits, pos, l + 1);
    }
}

pub proof fn lemma_stored_block_advances(bits: Seq<bool>, pos: int, out: Seq<u8>)
    ensures
        stored_block(bits, pos, out) matches Ok((o, p)) ==> pos <= p <= bits.len(),
{
}

pub proof fn lemma_inflate_codes_advances(lit: Seq<u8>, dist: Seq<u8>, bits: Seq<bool>, pos: int, out: Seq<u8>)
    ensures
        inflate_codes(lit, dist, bits, pos, out) matches Ok((o, p)) ==> pos < p <= bits.len(),
    decreases bits.len() - pos,
{
    lemma_huffman_decode_advances(lit, bits, pos, 1);
    if let Ok((sym, p1)) = huffman_decode(lit, bits, pos) {
        if sym < 256 {
            lemma_inflate_codes_advances(lit, dist, bits, p1, out.push(sym as u8));
        } else if sym != 256 && sym - 257 < 29 {
            let k = sym - 257;
            let le = LEN_EXTRA@[k] as int;
            if p1 + le <= bits.len() {
                let length = LEN_START@[k] + bits_lsb(bits, p1, le as nat);
                lemma_huffman_decode_advances(dist, bits, p1 + le, 1);
                if let Ok((d, p2)) = huffman_decode(dist, bits, p1 + le) {
                    if 0 <= d < 30 {
                        let de = DIST_EXTRA@[d] as int;
                        let distance = DIST_START@[d] + bits_lsb(bits, p2, de as nat);
                        if p2 + de <= bits.len() && distance <= out.len() {
                            lemma_inflate_codes_advances(lit, dist, bits, p2 + de, copy_back(out, distance, length));
                        }
                    }
                }
            }
        }
    }
}

pub proof fn lemma_decode_lengths_advances(cl: Seq<u8>, bits: Seq<bool>, pos: int, total: int, acc: Seq<u8>)
    requires
        pos <= bits.len(),
    ensures
        decode_lengths(cl, bits, pos, total, acc) matches Ok((o, p)) ==> pos <= p <= bits.len(),
    decreases bits.len() - pos,
{
    if acc.len() < total {
        lemma_huffman_decode_advances(cl, bits, pos, 1);
        if let Ok((sym, p1)) = huffman_decode(cl, bits, pos) {
            if 0 <= sym < 16 {
                lemma_decode_lengths_advances(cl, bits, p1, total, acc.push(sym as u8));
            } else if 16 <= sym < 19 {
                let c = sym - 16;
                let extra = DYNAMIC_CODE_EXTRA@[c] as int;
                if p1 + extra <= bits.len() {
                    let reps = DYNAMIC_CODE_START@[c] + bits_lsb(bits, p1, extra as nat);
                    let rep = if c == 0 { acc.last() } else { 0u8 };
                    lemma_decode_lengths_advances(cl, bits, p1 + extra, total, acc + Seq::new(reps as nat, |i: int| rep));
                }
            }
        }
    }
}

pub proof fn lemma_inflate_block_advances(bits: Seq<bool>, pos: int, out: Seq<u8>)
    ensures
        inflate_block(bits, pos, out) matches Ok((o, p, last)) ==> pos < p <= bits.len(),
{
    if pos + 3 <= bits.len() {
        lemma_stored_block_advances(bits, pos + 3, out);
        lemma_inflate_codes_advances(static_lit_lens(), static_dist_lens(), bits, pos + 3, out);
        if pos + 14 + 3 <= bits.len() {
            let hclen = bits_lsb(bits, pos + 3 + 10, 4) + 4int;
            let p1 = pos + 3 + 14;
            if p1 + 3 * hclen <= bits.len() {
                let hlit = bits_lsb(bits, pos + 3, 5) + 257int;
                let hdist = bits_lsb(bits, pos + 3 + 5, 5) + 1int;
                let cl = code_length_code_lens(bits, p1, hclen);
                lemma_decode_lengths_advances(cl, bits, p1 + 3 * hclen, hlit + hdist, Seq::empty());
                if let Ok((lit, dist, p)) = dynamic_lens(bits, pos + 3) {
                    lemma_inflate_codes_advances(lit, dist, bits, p, out);
                }
            }
        }
    }
}

/// The four block types of a DEFLATE stream.
#[derive(Debug, Clone, Copy, PartialEq, Eq, Structural)]
pub enum CompressionType {
    NoCompression,
    StaticCodes,
    DynamicCodes,
    Reserved,
}

impl CompressionType {
    /// The block type with the given 2-bit number.
    pub fn new(x: u8) -> (r: Self)
        requires
            x <= 3,
        ensures
            x == 0 ==> r == CompressionType::NoCompression,
            x == 1 ==> r == CompressionType::StaticCodes,
            x == 2 ==> r == CompressionType::DynamicCodes,
            x == 3 ==> r == CompressionType::Reserved,
    {
        match x {
            0 => CompressionType::NoCompression,
            1 => CompressionType::StaticCodes,
            2 => CompressionType::DynamicCodes,
            _ => CompressionType::Reserved,
        }
    }
}

proof fn lemma_static_lit_counts(n: int)
    requires
        0 <= n <= 288,
    ensures
        count_len(static_lit_lens(), 7, n) == (if n <= 256 { 0 } else if n <= 280 { n - 256 } else { 24 }),
        count_len(static_lit_lens(), 8, n) == (if n <= 144 { n } else { 144 }) + (if n <= 280 { 0 } else { n - 280 }),
        count_len(static_lit_lens(), 9, n) == (if n <= 144 { 0 } else if n <= 256 { n - 144 } else { 112 }),
        forall|l: int| l != 7 && l != 8 && l != 9 ==> #[trigger] count_len(static_lit_lens(), l, n) == 0,
    decreases n,
{
    if n > 0 {
        lemma_static_lit_counts(n - 1);
        assert forall|l: int| l != 7 && l != 8 && l != 9 implies #[trigger] count_len(static_lit_lens(), l, n) == 0 by {
            assert(count_len(static_lit_lens(), l, n - 1) == 0);
        }
    }
}

proof fn lemma_static_dist_counts(n: int)
    requires
        0 <= n <= 32,
    ensures
        forall|l: int| #[trigger] count_len(static_dist_lens(), l, n) == (if l == 5 { n } else { 0 }),
    decreases n,
{
    if n > 0 {
        lemma_static_dist_counts(n - 1);
        assert forall|l: int| #[trigger] count_len(static_dist_lens(), l, n) == (if l == 5 { n } else { 0 }) by {
            assert(count_len(static_dist_lens(), l, n - 1) == (if l == 5 { n - 1 } else { 0 }));
        }
    }
}

/// The fixed codes can be built.
pub proof fn lemma_static_lengths_ok()
    ensures
        lengths_ok(static_lit_lens()),
        lengths_ok(static_dist_lens()),
{
    lemma_static_lit_counts(288);
    lemma_static_dist_counts(32);
}

impl HuffmanTree {
    /// The code lengths of the fixed literal/length code.
    pub fn get_static_code_lens() -> (r: Vec<u8>)
        ensures
            r@ == static_lit_lens(),
    {
        let mut code_lens: Vec<u8> = Vec::new();
        let mut i: usize = 0;
        while i < CODE_TREE_LEN
            invariant
                i <= 288,
                code_lens@ == static_lit_lens().take(i as int),
            decreases 288 - i,
        {
            let l: u8 = if i < 144 {
                8
            } else if i < 256 {
                9
            } else if i < 280 {
                7
            } else {
                8
            };
            code_lens.push(l);
            i += 1;
            assert(code_lens@ =~= static_lit_lens().take(i as int));
        }
        assert(code_lens@ =~= static_lit_lens());
        code_lens
    }

    /// The code lengths of the fixed distance code.
    pub fn get_static_dist_code_lens() -> (r: Vec<u8>)
        ensures
            r@ == static_dist_lens(),
    {
        let mut code_lens: Vec<u8> = Vec::new();
        while code_lens.len() < DIST_TREE_LEN
            invariant
                code_lens.len() <= 32,
                code_lens@ == static_dist_lens().take(code_lens.len() as int),
            decreases 32 - code_lens.len(),
        {
            code_lens.push(5);
            assert(code_lens@ =~= static_dist_lens().take(code_lens.len() as int));
        }
        assert(code_lens@ =~= static_dist_lens());
        code_lens
    }
}

/// Reads a stored block whose header has just been read, appending its
/// bytes to `out`.
fn read_stored_block<T: Bitstream>(instream: &mut T, out: &mut Vec<u8>) -> (r: Result<(), InflateError>)
    requires
        old(instream).stream_ok(),
    ensures
        final(instream).stream_ok(),
        final(instream).stream_bits() == old(instream).stream_bits(),
        match stored_block(old(instream).stream_bits(), old(instream).stream_pos(), old(out)@) {
            Ok((o, p)) => r is Ok && final(out)@ == o && final(instream).stream_pos() == p,
            Err(e) => r == Err::<(), InflateError>(e),
        },
{
    let ghost bits = instream.stream_bits();
    let ghost o = out@;
    instream.skip_to_byte_boundary();
    let ghost p0 = instream.stream_pos();
    proof {
        instream.lemma_stream_ok();
    }
    if instream.bits_remaining() < 32 {
        return Err(InflateError::Truncated);
    }
    let len = instream.next_bits(16);
    let nlen = instream.next_bits(16);
    assert((len == !nlen) == (len + nlen == 65535)) by (bit_vector);
    if len != !nlen {
        return Err(InflateError::StoredLengthMismatch);
    }
    proof {
        instream.lemma_stream_ok();
    }
    if instream.bits_remaining() < (len as usize) * 8 {
        return Err(InflateError::Truncated);
    }
    let mut k: usize = 0;
    while k < len as usize
        invariant
            k <= len,
            instream.stream_ok(),
            instream.stream_bits() == bits,
            instream.stream_pos() == p0 + 32 + 8 * k,
            p0 + 32 + 8 * len <= bits.len(),
            out@ == o + Seq::new(k as nat, |i: int| bits_lsb(bits, p0 + 32 + 8 * i, 8) as u8),
        decreases len - k,
    {
        let b = instream.next_bits(8);
        proof {
            lemma_bits_lsb_bound(bits, p0 + 32 + 8 * k, 8);
            lemma_two_pow_small();
        }
        out.push(b as u8);
        k += 1;
        assert(out@ =~= o + Seq::new(k as nat, |i: int| bits_lsb(bits, p0 + 32 + 8 * i, 8) as u8));
    }
    Ok(())
}

proof fn lemma_tables()
    ensures
        forall|k: int| 0 <= k < 29 ==> #[trigger] LEN_EXTRA@[k] <= 5 && LEN_START@[k] <= 258,
        forall|k: int| 0 <= k < 30 ==> #[trigger] DIST_EXTRA@[k] <= 13 && 1 <= DIST_START@[k] <= 24577,
        forall|k: int| 0 <= k < 3 ==> #[trigger] DYNAMIC_CODE_EXTRA@[k] <= 7 && DYNAMIC_CODE_START@[k] <= 11,
{
    assert(LEN_EXTRA@ =~= seq![0u8, 0, 0, 0, 0, 0, 0, 0, 1, 1, 1, 1, 2, 2, 2, 2, 3, 3, 3, 3, 4, 4, 4, 4, 5, 5, 5, 5, 0]);
    assert(LEN_START@ =~= seq![3u16, 4, 5, 6, 7, 8, 9, 10, 11, 13, 15, 17, 19, 23, 27, 31, 35, 43, 51, 59, 67, 83, 99, 115, 131,
    163, 195, 227, 258]);
    assert(DIST_EXTRA@ =~= seq![0u8, 0, 0, 0, 1, 1, 2, 2, 3, 3, 4, 4, 5, 5, 6, 6, 7, 7, 8, 8, 9, 9, 10, 10, 11, 11, 12, 12, 13, 13]);
    assert(DIST_START@ =~= seq![1u16, 2, 3, 4, 5, 7, 9, 13, 17, 25, 33, 49, 65, 97, 129, 193, 257, 385, 513, 769, 1025, 1537, 2049,
    3073, 4097, 6145, 8193, 12289, 16385, 24577]);
    assert(DYNAMIC_CODE_EXTRA@ =~= seq![2u8, 3, 7]);
    assert(DYNAMIC_CODE_START@ =~= seq![3u8, 3, 11]);
}

/// Decodes the Huffman-coded data of a block onto `out`, with the
/// literal/length code `lit` and the distance code `dist`.
fn inflate_block_data<T: Bitstream>(instream: &mut T, lit: &HuffmanTree, dist: &HuffmanTree, out: &mut Vec<u8>) -> (r: Result<(), InflateError>)
    requires
        old(instream).stream_ok(),
        lit.wf(),
        dist.wf(),
    ensures
        final(instream).stream_ok(),
        final(instream).stream_bits() == old(instream).stream_bits(),
        match inflate_codes(lit.code_lens(), dist.code_lens(), old(instream).stream_bits(), old(instream).stream_pos(), old(out)@) {
            Ok((o, p)) => r is Ok && final(out)@ == o && final(instream).stream_pos() == p,
            Err(e) => r == Err::<(), InflateError>(e),
        },
{
    let ghost bits = instream.stream_bits();
    let ghost ll = lit.code_lens();
    let ghost dl = dist.code_lens();
    let ghost goal = inflate_codes(ll, dl, bits, instream.stream_pos(), out@);
    proof {
        lit.lemma_wf();
        dist.lemma_wf();
        lemma_tables();
    }
    loop
        invariant
            instream.stream_ok(),
            instream.stream_bits() == bits,
            bits == old(instream).stream_bits(),
            lit.wf(),
            dist.wf(),
            ll == lit.code_lens(),
            dl == dist.code_lens(),
            ll.len() < 65536,
            dl.len() < 65536,
            goal == inflate_codes(ll, dl, bits, old(instream).stream_pos(), old(out)@),
            inflate_codes(ll, dl, bits, instream.stream_pos(), out@) == goal,
            forall|k: int| 0 <= k < 29 ==> #[trigger] LEN_EXTRA@[k] <= 5 && LEN_START@[k] <= 258,
            forall|k: int| 0 <= k < 30 ==> #[trigger] DIST_EXTRA@[k] <= 13 && 1 <= DIST_START@[k] <= 24577,
        decreases bits.len() - instream.stream_pos(),
    {
        let ghost p = instream.stream_pos();
        let ghost o = out@;
        proof {
            lemma_huffman_decode_symbol(ll, bits, p, 1);
            lemma_huffman_decode_advances(ll, bits, p, 1);
        }
        let code = match lit.decode(instream) {
            Ok(c) => c,
            Err(e) => {
                return Err(e);
            },
        };
        let ghost p1 = instream.stream_pos();
        if code < 256 {
            out.push(code as u8);
        } else if code == 256 {
            return Ok(());
        } else {
            let k: usize = (code - 257) as usize;
            if k >= 29 {
                return Err(InflateError::BadLengthSymbol);
            }
            let le = LEN_EXTRA[k] as usize;
            proof {
                instream.lemma_stream_ok();
            }
            if instream.bits_remaining() < le {
                return Err(InflateError::Truncated);
            }
            let extra = instream.next_bits(le);
            let len: usize = LEN_START[k] as usize + extra as usize;
            let ghost p2 = instream.stream_pos();
            proof {
                lemma_huffman_decode_symbol(dl, bits, p2, 1);
                lemma_huffman_decode_advances(dl, bits, p2, 1);
            }
            let dcode = match dist.decode(instream) {
                Ok(c) => c,
                Err(e) => {
                    return Err(e);
                },
            };
            if dcode >= 30 {
                return Err(InflateError::BadDistanceSymbol);
            }
            let de = DIST_EXTRA[dcode as usize] as usize;
            proof {
                instream.lemma_stream_ok();
            }
            if instream.bits_remaining() < de {
                return Err(InflateError::Truncated);
            }
            let dextra = instream.next_bits(de);
            let d: usize = DIST_START[dcode as usize] as usize + dextra as usize;
            let out_pos = out.len();
            if d > out_pos {
                return Err(InflateError::DistanceTooFar);
            }
            let mut i: usize = 0;
            while i < len
                invariant
                    1 <= d <= out_pos,
                    o.len() == out_pos,
                    i <= len,
                    out@ == copy_back(o, d as int, i as int),
                decreases len - i,
            {
                let cur = out.len();
                assert(cur == out_pos + i);
                let b = out[cur - d];
                proof {
                    if i < d {
                        vstd::arithmetic::div_mod::lemma_small_mod(i as nat, d as nat);
                    } else {
                        vstd::arithmetic::div_mod::lemma_mod_add_multiples_vanish((i - d) as int, d as int);
                        vstd::arithmetic::div_mod::lemma_small_mod(0, d as nat);
                    }
                }
                out.push(b);
                i += 1;
                assert(out@ =~= copy_back(o, d as int, i as int));
            }
        }
    }
}

proof fn lemma_code_len_order()
    ensures
        forall|k: int| 0 <= k < 19 ==> #[trigger] CODE_LEN_ORDER@[k] < 19 && CODE_LEN_RANK@[CODE_LEN_ORDER@[k] as int] == k,
        forall|i: int| 0 <= i < 19 ==> #[trigger] CODE_LEN_RANK@[i] < 19,
{
    assert(CODE_LEN_ORDER@ =~= seq![16u8, 17, 18, 0, 8, 7, 9, 6, 10, 5, 11, 4, 12, 3, 13, 2, 14, 1, 15]);
    assert(CODE_LEN_RANK@ =~= seq![3u8, 17, 15, 13, 11, 9, 7, 5, 4, 6, 8, 10, 12, 14, 16, 18, 0, 1, 2]);
}

proof fn lemma_decode_lengths_len(cl: Seq<u8>, bits: Seq<bool>, pos: int, total: int, acc: Seq<u8>)
    requires
        acc.len() <= total,
    ensures
        decode_lengths(cl, bits, pos, total, acc) matches Ok((o, p)) ==> o.len() == total,
    decreases bits.len() - pos,
{
    if acc.len() < total {
        lemma_huffman_decode_advances(cl, bits, pos, 1);
        if let Ok((sym, p1)) = huffman_decode(cl, bits, pos) {
            if 0 <= sym < 16 {
                lemma_decode_lengths_len(cl, bits, p1, total, acc.push(sym as u8));
            } else if 16 <= sym < 19 {
                let c = sym - 16;
                let extra = DYNAMIC_CODE_EXTRA@[c] as int;
                if p1 + extra <= bits.len() {
                    let reps = DYNAMIC_CODE_START@[c] + bits_lsb(bits, p1, extra as nat);
                    let rep = if c == 0 { acc.last() } else { 0u8 };
                    if acc.len() + reps <= total {
                        lemma_decode_lengths_len(cl, bits, p1 + extra, total, acc + Seq::new(reps as nat, |i: int| rep));
                    }
                }
            }
        }
    }
}

/// Reads the `hclen` code lengths of the code length alphabet.
fn read_code_len_lens<T: Bitstream>(instream: &mut T, hclen: usize) -> (r: Vec<u8>)
    requires
        old(instream).stream_ok(),
        hclen <= 19,
        old(instream).stream_pos() + 3 * hclen <= old(instream).stream_bits().len(),
    ensures
        final(instream).stream_ok(),
        final(instream).stream_bits() == old(instream).stream_bits(),
        final(instream).stream_pos() == old(instream).stream_pos() + 3 * hclen,
        r@ == code_length_code_lens(old(instream).stream_bits(), old(instream).stream_pos(), hclen as int),
{
    let ghost bits = instream.stream_bits();
    let ghost p0 = instream.stream_pos();
    proof {
        lemma_code_len_order();
    }
    let mut lens: Vec<u8> = Vec::new();
    while lens.len() < CODE_LEN_TREE_LEN
        invariant
            lens.len() <= 19,
            forall|i: int| 0 <= i < lens.len() ==> lens@[i] == 0,
        decreases 19 - lens.len(),
    {
        lens.push(0);
    }
    let mut k: usize = 0;
    while k < hclen
        invariant
            k <= hclen <= 19,
            instream.stream_ok(),
            instream.stream_bits() == bits,
            instream.stream_pos() == p0 + 3 * k,
            p0 + 3 * hclen <= bits.len(),
            forall|k: int| 0 <= k < 19 ==> #[trigger] CODE_LEN_ORDER@[k] < 19 && CODE_LEN_RANK@[CODE_LEN_ORDER@[k] as int] == k,
            forall|i: int| 0 <= i < 19 ==> #[trigger] CODE_LEN_RANK@[i] < 19,
            lens@ == code_length_code_lens(bits, p0, k as int),
        decreases hclen - k,
    {
        let v = instream.next_bits(3);
        proof {
            lemma_bits_lsb_bound(bits, p0 + 3 * k, 3);
            lemma_two_pow_small();
        }
        let idx = CODE_LEN_ORDER[k] as usize;
        lens.set(idx, v as u8);
        k += 1;
        assert forall|i: int| 0 <= i < 19 implies #[trigger] lens@[i] == code_length_code_lens(bits, p0, k as int)[i] by {
            if i != idx {
                assert(CODE_LEN_RANK@[i] != k - 1);
            }
        }
        assert(lens@ =~= code_length_code_lens(bits, p0, k as int));
    }
    lens
}

/// Reads the run-length coded code lengths with the code length code
/// `cl`, until there are `total` of them.
fn read_code_lengths<T: Bitstream>(instream: &mut T, cl: &HuffmanTree, total: usize) -> (r: Result<Vec<u8>, InflateError>)
    requires
        old(instream).stream_ok(),
        cl.wf(),
        cl.code_lens().len() == 19,
        total <= 320,
    ensures
        final(instream).stream_ok(),
        final(instream).stream_bits() == old(instream).stream_bits(),
        match decode_lengths(cl.code_lens(), old(instream).stream_bits(), old(instream).stream_pos(), total as int, Seq::empty()) {
            Ok((lens, p)) => r matches Ok(v) && v@ == lens && final(instream).stream_pos() == p
                && forall|i: int| 0 <= i < v@.len() ==> #[trigger] v@[i] <= 15,
            Err(e) => r == Err::<Vec<u8>, InflateError>(e),
        },
{
    let ghost bits = instream.stream_bits();
    let ghost cll = cl.code_lens();
    let ghost goal = decode_lengths(cll, bits, instream.stream_pos(), total as int, Seq::empty());
    proof {
        lemma_tables();
    }
    let mut acc: Vec<u8> = Vec::new();
    while acc.len() < total
        invariant
            instream.stream_ok(),
            instream.stream_bits() == bits,
            bits == old(instream).stream_bits(),
            cl.wf(),
            cll == cl.code_lens(),
            cll.len() == 19,
            total <= 320,
            acc.len() <= total,
            forall|i: int| 0 <= i < acc@.len() ==> #[trigger] acc@[i] <= 15,
            goal == decode_lengths(cll, bits, old(instream).stream_pos(), total as int, Seq::empty()),
            decode_lengths(cll, bits, instream.stream_pos(), total as int, acc@) == goal,
            forall|k: int| 0 <= k < 3 ==> #[trigger] DYNAMIC_CODE_EXTRA@[k] <= 7 && DYNAMIC_CODE_START@[k] <= 11,
        decreases bits.len() - instream.stream_pos(),
    {
        let ghost p = instream.stream_pos();
        proof {
            lemma_huffman_decode_symbol(cll, bits, p, 1);
            lemma_huffman_decode_advances(cll, bits, p, 1);
        }
        let code = match cl.decode(instream) {
            Ok(c) => c,
            Err(e) => {
                return Err(e);
            },
        };
        if code < 16 {
            acc.push(code as u8);
        } else if code < 19 {
            let c: usize = (code - 16) as usize;
            let extra = DYNAMIC_CODE_EXTRA[c] as usize;
            proof {
                instream.lemma_stream_ok();
            }
            if instream.bits_remaining() < extra {
                return Err(InflateError::Truncated);
            }
            let more = instream.next_bits(extra);
            let reps: usize = DYNAMIC_CODE_START[c] as usize + more as usize;
            if c == 0 && acc.len() == 0 {
                return Err(InflateError::RepeatWithoutPrevious);
            }
            if acc.len() + reps > total {
                return Err(InflateError::TooManyCodeLengths);
            }
            let rep: u8 = if c == 0 { acc[acc.len() - 1] } else { 0 };
            let ghost a0 = acc@;
            let mut j: usize = 0;
            while j < reps
                invariant
                    j <= reps,
                    a0.len() + reps <= total,
                    acc@ == a0 + Seq::new(j as nat, |i: int| rep),
                decreases reps - j,
            {
                acc.push(rep);
                j += 1;
                assert(acc@ =~= a0 + Seq::new(j as nat, |i: int| rep));
            }
            assert(forall|i: int| 0 <= i < a0.len() ==> #[trigger] a0[i] <= 15);
            assert(rep <= 15);
        } else {
            return Err(InflateError::BadCodeLengthSymbol);
        }
    }
    Ok(acc)
}

/// Reads the header of a block with dynamic codes and builds its two codes.
fn read_dynamic_trees<T: Bitstream>(instream: &mut T) -> (r: Result<(HuffmanTree, HuffmanTree), InflateError>)
    requires
        old(instream).stream_ok(),
    ensures
        final(instream).stream_ok(),
        final(instream).stream_bits() == old(instream).stream_bits(),
        match dynamic_lens(old(instream).stream_bits(), old(instream).stream_pos()) {
            Ok((l, d, p)) => r matches Ok((lt, dt)) && lt.wf() && dt.wf() && lt.code_lens() == l
                && dt.code_lens() == d && final(instream).stream_pos() == p,
            Err(e) => r == Err::<(HuffmanTree, HuffmanTree), InflateError>(e),
        },
{
    let ghost bits = instream.stream_bits();
    let ghost pos = instream.stream_pos();
    proof {
        instream.lemma_stream_ok();
    }
    if instream.bits_remaining() < 14 {
        return Err(InflateError::Truncated);
    }
    let hlit: usize = instream.next_bits(5) as usize + 257;
    let hdist: usize = instream.next_bits(5) as usize + 1;
    let hclen: usize = instream.next_bits(4) as usize + 4;
    proof {
        lemma_bits_lsb_bound(bits, pos, 5);
        lemma_bits_lsb_bound(bits, pos + 5, 5);
        lemma_bits_lsb_bound(bits, pos + 10, 4);
        lemma_two_pow_small();
        reveal_with_fuel(crate::bits::two_pow, 6);
        instream.lemma_stream_ok();
    }
    if instream.bits_remaining() < 3 * hclen {
        return Err(InflateError::Truncated);
    }
    let cl_lens = read_code_len_lens(instream, hclen);
    proof {
        assert forall|t: int| 0 <= t < cl_lens@.len() implies #[trigger] cl_lens@[t] <= 7 by {
            lemma_code_len_order();
            lemma_bits_lsb_bound(bits, pos + 14 + 3 * CODE_LEN_RANK@[t], 3);
        }
        assert forall|l: int| 1 <= l <= 15 implies #[trigger] len_count(cl_lens@, l) <= 255 by {
            lemma_count_len_bound(cl_lens@, l, 19);
        }
    }
    let cl_tree = HuffmanTree::new(cl_lens.as_slice());
    proof {
        lemma_decode_lengths_len(cl_lens@, bits, pos + 14 + 3 * hclen, (hlit + hdist) as int, Seq::empty());
    }
    let lens = match read_code_lengths(instream, &cl_tree, hlit + hdist) {
        Ok(v) => v,
        Err(e) => {
            return Err(e);
        },
    };
    let mut code_tree_lens: Vec<u8> = Vec::new();
    let mut i: usize = 0;
    while i < CODE_TREE_LEN
        invariant
            i <= 288,
            lens@.len() == hlit + hdist,
            hlit <= 288,
            code_tree_lens@ == (lens@.take(hlit as int) + Seq::new((288 - hlit) as nat, |i: int| 0u8)).take(i as int),
        decreases 288 - i,
    {
        let v = if i < hlit { lens[i] } else { 0 };
        code_tree_lens.push(v);
        i += 1;
        assert(code_tree_lens@ =~= (lens@.take(hlit as int) + Seq::new((288 - hlit) as nat, |i: int| 0u8)).take(i as int));
    }
    let mut dist_tree_lens: Vec<u8> = Vec::new();
    let mut i: usize = 0;
    while i < DIST_TREE_LEN
        invariant
            i <= 32,
            lens@.len() == hlit + hdist,
            hlit <= 288,
            hdist <= 32,
            dist_tree_lens@ == (lens@.subrange(hlit as int, (hlit + hdist) as int) + Seq::new((32 - hdist) as nat, |i: int| 0u8)).take(i as int),
        decreases 32 - i,
    {
        let v = if i < hdist { lens[hlit + i] } else { 0 };
        dist_tree_lens.push(v);
        i += 1;
        assert(dist_tree_lens@ =~= (lens@.subrange(hlit as int, (hlit + hdist) as int) + Seq::new((32 - hdist) as nat, |i: int| 0u8)).take(i as int));
    }
    assert(code_tree_lens@ =~= lens@.take(hlit as int) + Seq::new((288 - hlit) as nat, |i: int| 0u8));
    assert(dist_tree_lens@ =~= lens@.subrange(hlit as int, (hlit + hdist) as int) + Seq::new((32 - hdist) as nat, |i: int| 0u8));
    if !lengths_fit(code_tree_lens.as_slice()) {
        return Err(InflateError::CodeLengthOverflow);
    }
    proof {
        assert forall|t: int| 0 <= t < dist_tree_lens@.len() implies #[trigger] dist_tree_lens@[t] <= 15 by {
            if t < hdist {
                assert(dist_tree_lens@[t] == lens@[hlit + t]);
            }
        }
        assert forall|l: int| 1 <= l <= 15 implies #[trigger] len_count(dist_tree_lens@, l) <= 255 by {
            lemma_count_len_bound(dist_tree_lens@, l, 32);
        }
    }
    let code_tree = HuffmanTree::new(code_tree_lens.as_slice());
    let dist_tree = HuffmanTree::new(dist_tree_lens.as_slice());
    Ok((code_tree, dist_tree))
}

/// Decodes a DEFLATE stream (RFC 1951) from its current position.
pub fn zlib_decode<T: Bitstream>(input: T) -> (r: Result<Vec<u8>, InflateError>)
    requires
        input.stream_ok(),
    ensures
        match inflate_from(input.stream_bits(), input.stream_pos(), Seq::empty()) {
            Ok(o) => r matches Ok(v) && v@ == o,
            Err(e) => r == Err::<Vec<u8>, InflateError>(e),
        },
{
    let ghost bits = input.stream_bits();
    let ghost goal = inflate_from(bits, input.stream_pos(), Seq::empty());
    let mut instream = input;
    let mut output_buffer: Vec<u8> = Vec::new();
    proof {
        lemma_static_lengths_ok();
    }
    loop
        invariant
            instream.stream_ok(),
            instream.stream_bits() == bits,
            bits == input.stream_bits(),
            goal == inflate_from(input.stream_bits(), input.stream_pos(), Seq::empty()),
            inflate_from(bits, instream.stream_pos(), output_buffer@) == goal,
            lengths_ok(static_lit_lens()),
            lengths_ok(static_dist_lens()),
        decreases bits.len() - instream.stream_pos(),
    {
        let ghost p = instream.stream_pos();
        proof {
            instream.lemma_stream_ok();
            lemma_inflate_block_advances(bits, p, output_buffer@);
        }
        if instream.bits_remaining() < 3 {
            return Err(InflateError::Truncated);
        }
        let final_chunk = instream.next_bit();
        let btype = instream.next_bits(2);
        proof {
            lemma_bits_lsb_bound(bits, p + 1, 2);
            lemma_two_pow_small();
        }
        let compression_type = CompressionType::new(btype as u8);
        match compression_type {
            CompressionType::Reserved => {
                return Err(InflateError::ReservedBlockType);
            },
            CompressionType::NoCompression => {
                match read_stored_block(&mut instream, &mut output_buffer) {
                    Ok(()) => {},
                    Err(e) => {
                        return Err(e);
                    },
                }
            },
            CompressionType::StaticCodes => {
                let lit_lens = HuffmanTree::get_static_code_lens();
                let dist_lens = HuffmanTree::get_static_dist_code_lens();
                let code_tree = HuffmanTree::new(lit_lens.as_slice());
                let dist_tree = HuffmanTree::new(dist_lens.as_slice());
                match inflate_block_data(&mut instream, &code_tree, &dist_tree, &mut output_buffer) {
                    Ok(()) => {},
                    Err(e) => {
                        return Err(e);
                    },
                }
            },
            CompressionType::DynamicCodes => {
                let (code_tree, dist_tree) = match read_dynamic_trees(&mut instream) {
                    Ok(t) => t,
                    Err(e) => {
                        return Err(e);
                    },
                };
                match inflate_block_data(&mut instream, &code_tree, &dist_tree, &mut output_buffer) {
                    Ok(()) => {},
                    Err(e) => {
                        return Err(e);
                    },
                }
            },
        }
        if final_chunk {
            return Ok(output_buffer);
        }
    }
}

} // verus!
