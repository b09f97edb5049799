use vstd::prelude::*;

verus! {

/// A value that is stored as `N` bytes, in either byte order.
pub trait ByteEncode<const N: usize>: Sized + Copy {
    /// The value that `b` holds in little-endian order.
    spec fn spec_from_le_bytes(b: Seq<u8>) -> Self;

    /// The little-endian bytes of `v`.
    spec fn spec_to_le_bytes(v: Self) -> Seq<u8>;

    /// The value that `b` holds in big-endian order.
    spec fn spec_from_be_bytes(b: Seq<u8>) -> Self;

    /// The big-endian bytes of `v`.
    spec fn spec_to_be_bytes(v: Self) -> Seq<u8>;

    fn from_le_bytes(buffer: &[u8; N]) -> (r: Self)
        ensures
            r == Self::spec_from_le_bytes(buffer@),
    ;

    fn to_le_bytes(&self) -> (r: [u8; N])
        ensures
            r@ == Self::spec_to_le_bytes(*self),
    ;

    fn from_be_bytes(buffer: &[u8; N]) -> (r: Self)
        ensures
            r == Self::spec_from_be_bytes(buffer@),
    ;

    fn to_be_bytes(&self) -> (r: [u8; N])
        ensures
            r@ == Self::spec_to_be_bytes(*self),
    ;

    /// Encoding a value and decoding the bytes gives the value back, in
    /// either byte order.
    proof fn lemma_value_roundtrip(v: Self)
        ensures
            Self::spec_to_le_bytes(v).len() == N,
            Self::spec_to_be_bytes(v).len() == N,
            Self::spec_from_le_bytes(Self::spec_to_le_bytes(v)) == v,
            Self::spec_from_be_bytes(Self::spec_to_be_bytes(v)) == v,
    ;

    /// Decoding `N` bytes and encoding the value gives the bytes back, in
    /// either byte order.
    proof fn lemma_bytes_roundtrip(b: Seq<u8>)
        requires
            b.len() == N,
        ensures
            Self::spec_to_le_bytes(Self::spec_from_le_bytes(b)) == b,
            Self::spec_to_be_bytes(Self::spec_from_be_bytes(b)) == b,
    ;
}

/// A range that lies in the first part of a concatenation lies there alone.
pub proof fn lemma_concat_prefix(a: Seq<u8>, b: Seq<u8>, i: int, j: int)
    requires
        0 <= i <= j <= a.len(),
    ensures
        (a + b).subrange(i, j) == a.subrange(i, j),
{
    assert((a + b).subrange(i, j) =~= a.subrange(i, j));
}

/// The second part of a concatenation is the range after the first.
pub proof fn lemma_concat_suffix(a: Seq<u8>, b: Seq<u8>)
    ensures
        (a + b).subrange(a.len() as int, (a.len() + b.len()) as int) == b,
{
    assert((a + b).subrange(a.len() as int, (a.len() + b.len()) as int) =~= b);
}

impl ByteEncode<4> for u32 {
    open spec fn spec_from_le_bytes(b: Seq<u8>) -> u32 {
        (b[0] + 256 * b[1] + 65536 * b[2] + 16777216 * b[3]) as u32
    }

    open spec fn spec_to_le_bytes(v: u32) -> Seq<u8> {
        seq![(v % 256) as u8, ((v / 256) % 256) as u8, ((v / 65536) % 256) as u8, (v / 16777216) as u8]
    }

    open spec fn spec_from_be_bytes(b: Seq<u8>) -> u32 {
        (b[3] + 256 * b[2] + 65536 * b[1] + 16777216 * b[0]) as u32
    }

    open spec fn spec_to_be_bytes(v: u32) -> Seq<u8> {
        seq![(v / 16777216) as u8, ((v / 65536) % 256) as u8, ((v / 256) % 256) as u8, (v % 256) as u8]
    }

    fn from_le_bytes(buffer: &[u8; 4]) -> (r: u32) {
        let (b0, b1, b2, b3) = (buffer[0], buffer[1], buffer[2], buffer[3]);
        assert((b0 as u32) | ((b1 as u32) << 8u32) | ((b2 as u32) << 16u32) | ((b3 as u32) << 24u32)
            == b0 + 256 * b1 + 65536 * b2 + 16777216 * b3) by (bit_vector);
        (b0 as u32) | ((b1 as u32) << 8u32) | ((b2 as u32) << 16u32) | ((b3 as u32) << 24u32)
    }

    fn to_le_bytes(&self) -> (r: [u8; 4]) {
        let v = *self;
        assert((v & 0xff) as u8 == (v % 256) as u8 && ((v >> 8u32) & 0xff) as u8 == ((v / 256) % 256) as u8
            && ((v >> 16u32) & 0xff) as u8 == ((v / 65536) % 256) as u8 && (v >> 24u32) as u8 == (v
            / 16777216) as u8) by (bit_vector);
        let r = [(v & 0xff) as u8, ((v >> 8u32) & 0xff) as u8, ((v >> 16u32) & 0xff) as u8, (v >> 24u32) as u8];
        assert(r@ =~= Self::spec_to_le_bytes(v));
        r
    }

    fn from_be_bytes(buffer: &[u8; 4]) -> (r: u32) {
        let (b0, b1, b2, b3) = (buffer[3], buffer[2], buffer[1], buffer[0]);
        assert((b0 as u32) | ((b1 as u32) << 8u32) | ((b2 as u32) << 16u32) | ((b3 as u32) << 24u32)
            == b0 + 256 * b1 + 65536 * b2 + 16777216 * b3) by (bit_vector);
        (b0 as u32) | ((b1 as u32) << 8u32) | ((b2 as u32) << 16u32) | ((b3 as u32) << 24u32)
    }

    fn to_be_bytes(&self) -> (r: [u8; 4]) {
        let v = *self;
        assert((v & 0xff) as u8 == (v % 256) as u8 && ((v >> 8u32) & 0xff) as u8 == ((v / 256) % 256) as u8
            && ((v >> 16u32) & 0xff) as u8 == ((v / 65536) % 256) as u8 && (v >> 24u32) as u8 == (v
            / 16777216) as u8) by (bit_vector);
        let r = [(v >> 24u32) as u8, ((v >> 16u32) & 0xff) as u8, ((v >> 8u32) & 0xff) as u8, (v & 0xff) as u8];
        assert(r@ =~= Self::spec_to_be_bytes(v));
        r
    }

    proof fn lemma_value_roundtrip(v: u32) {
        assert(((v % 256) as u8) + 256 * (((v / 256) % 256) as u8) + 65536 * (((v / 65536) % 256) as u8)
            + 16777216 * ((v / 16777216) as u8) == v) by (bit_vector);
    }

    proof fn lemma_bytes_roundtrip(b: Seq<u8>) {
        let (b0, b1, b2, b3) = (b[0], b[1], b[2], b[3]);
        assert({
            let v = (b0 + 256 * b1 + 65536 * b2 + 16777216 * b3) as u32;
            &&& (v % 256) as u8 == b0
            &&& ((v / 256) % 256) as u8 == b1
            &&& ((v / 65536) % 256) as u8 == b2
            &&& (v / 16777216) as u8 == b3
        }) by (bit_vector);
        assert(Self::spec_to_le_bytes(Self::spec_from_le_bytes(b)) =~= b);
        assert({
            let v = (b3 + 256 * b2 + 65536 * b1 + 16777216 * b0) as u32;
            &&& (v % 256) as u8 == b3
            &&& ((v / 256) % 256) as u8 == b2
            &&& ((v / 65536) % 256) as u8 == b1
            &&& (v / 16777216) as u8 == b0
        }) by (bit_vector);
        assert(Self::spec_to_be_bytes(Self::spec_from_be_bytes(b)) =~= b);
    }
}

impl ByteEncode<2> for u16 {
    open spec fn spec_from_le_bytes(b: Seq<u8>) -> u16 {
        (b[0] + 256 * b[1]) as u16
    }

    open spec fn spec_to_le_bytes(v: u16) -> Seq<u8> {
        seq![(v % 256) as u8, (v / 256) as u8]
    }

    open spec fn spec_from_be_bytes(b: Seq<u8>) -> u16 {
        (b[1] + 256 * b[0]) as u16
    }

    open spec fn spec_to_be_bytes(v: u16) -> Seq<u8> {
        seq![(v / 256) as u8, (v % 256) as u8]
    }

    fn from_le_bytes(buffer: &[u8; 2]) -> (r: u16) {
        let (b0, b1) = (buffer[0], buffer[1]);
        assert((b0 as u16) | ((b1 as u16) << 8u16) == b0 + 256 * b1) by (bit_vector);
        (b0 as u16) | ((b1 as u16) << 8u16)
    }

    fn to_le_bytes(&self) -> (r: [u8; 2]) {
        let v = *self;
        assert((v & 0xff) as u8 == (v % 256) as u8 && (v >> 8u16) as u8 == (v / 256) as u8) by (bit_vector);
        let r = [(v & 0xff) as u8, (v >> 8u16) as u8];
        assert(r@ =~= Self::spec_to_le_bytes(v));
        r
    }

    fn from_be_bytes(buffer: &[u8; 2]) -> (r: u16) {
        let (b0, b1) = (buffer[1], buffer[0]);
        assert((b0 as u16) | ((b1 as u16) << 8u16) == b0 + 256 * b1) by (bit_vector);
        (b0 as u16) | ((b1 as u16) << 8u16)
    }

    fn to_be_bytes(&self) -> (r: [u8; 2]) {
        let v = *self;
        assert((v & 0xff) as u8 == (v % 256) as u8 && (v >> 8u16) as u8 == (v / 256) as u8) by (bit_vector);
        let r = [(v >> 8u16) as u8, (v & 0xff) as u8];
        assert(r@ =~= Self::spec_to_be_bytes(v));
        r
    }

    proof fn lemma_value_roundtrip(v: u16) {
        assert(((v % 256) as u8) + 256 * ((v / 256) as u8) == v) by (bit_vector);
    }

    proof fn lemma_bytes_roundtrip(b: Seq<u8>) {
        let (b0, b1) = (b[0], b[1]);
        assert({
            let v = (b0 + 256 * b1) as u16;
            (v % 256) as u8 == b0 && (v / 256) as u8 == b1
        }) by (bit_vector);
        assert(Self::spec_to_le_bytes(Self::spec_from_le_bytes(b)) =~= b);
        assert({
            let v = (b1 + 256 * b0) as u16;
            (v % 256) as u8 == b1 && (v / 256) as u8 == b0
        }) by (bit_vector);
        assert(Self::spec_to_be_bytes(Self::spec_from_be_bytes(b)) =~= b);
    }
}

impl ByteEncode<1> for u8 {
    open spec fn spec_from_le_bytes(b: Seq<u8>) -> u8 {
        b[0]
    }

    open spec fn spec_to_le_bytes(v: u8) -> Seq<u8> {
        seq![v]
    }

    open spec fn spec_from_be_bytes(b: Seq<u8>) -> u8 {
        b[0]
    }

    open spec fn spec_to_be_bytes(v: u8) -> Seq<u8> {
        seq![v]
    }

    fn from_le_bytes(buffer: &[u8; 1]) -> (r: u8) {
        buffer[0]
    }

    fn to_le_bytes(&self) -> (r: [u8; 1]) {
        let r = [*self];
        assert(r@ =~= Self::spec_to_le_bytes(*self));
        r
    }

    fn from_be_bytes(buffer: &[u8; 1]) -> (r: u8) {
        buffer[0]
    }

    fn to_be_bytes(&self) -> (r: [u8; 1]) {
        let r = [*self];
        assert(r@ =~= Self::spec_to_be_bytes(*self));
        r
    }

    proof fn lemma_value_roundtrip(v: u8) {
    }

    proof fn lemma_bytes_roundtrip(b: Seq<u8>) {
        assert(Self::spec_to_le_bytes(Self::spec_from_le_bytes(b)) =~= b);
    }
}

} // verus!
