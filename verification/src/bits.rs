use vstd::prelude::*;

verus! {

/// `2^n`.
pub open spec fn two_pow(n: nat) -> nat
    decreases n,
{
    if n == 0 { 1 } else { 2 * two_pow((n - 1) as nat) }
}

/// `1` for a set bit, `0` otherwise.
pub open spec fn bit_value(b: bool) -> nat {
    if b { 1 } else { 0 }
}

/// The `n` bits starting at `pos` read as a number, the first bit the least
/// significant (the order in which DEFLATE packs its fixed-width fields).
pub open spec fn bits_lsb(bits: Seq<bool>, pos: int, n: nat) -> nat
    decreases n,
{
    if n == 0 {
        0
    } else {
        bits_lsb(bits, pos, (n - 1) as nat) + bit_value(bits[pos + n - 1]) * two_pow((n - 1) as nat)
    }
}

/// The `n` bits starting at `pos` read as a number, the first bit the most
/// significant (the order in which DEFLATE packs Huffman codes).
pub open spec fn bits_msb(bits: Seq<bool>, pos: int, n: nat) -> nat
    decreases n,
{
    if n == 0 {
        0
    } else {
        2 * bits_msb(bits, pos, (n - 1) as nat) + bit_value(bits[pos + n - 1])
    }
}

/// The bits of a byte string, each byte from its least significant bit up.
pub open spec fn byte_bits(bytes: Seq<u8>) -> Seq<bool> {
    Seq::new((bytes.len() * 8) as nat, |i: int| (bytes[i / 8] >> ((i % 8) as u8)) & 1u8 == 1u8)
}

/// The first multiple of eight at or after `pos`.
pub open spec fn round_up_to_byte(pos: int) -> int {
    pos + (8 - pos % 8) % 8
}

pub proof fn lemma_two_pow_shl(n: u16)
    requires
        n < 16,
    ensures
        (1u16 << n) as nat == two_pow(n as nat),
    decreases n,
{
    if n == 0 {
        assert(1u16 << 0u16 == 1u16) by (bit_vector);
    } else {
        lemma_two_pow_shl((n - 1) as u16);
        let m = (n - 1) as u16;
        assert(m < 15 ==> (1u16 << ((m + 1) as u16)) == 2 * (1u16 << m)) by (bit_vector);
    }
}

pub proof fn lemma_two_pow_monotonic(a: nat, b: nat)
    requires
        a <= b,
    ensures
        two_pow(a) <= two_pow(b),
    decreases b,
{
    if a < b {
        lemma_two_pow_monotonic(a, (b - 1) as nat);
    }
}

pub proof fn lemma_two_pow_small()
    ensures
        two_pow(2) == 4,
        two_pow(3) == 8,
        two_pow(8) == 256,
        two_pow(15) == 32768,
        two_pow(16) == 65536,
{
    reveal_with_fuel(two_pow, 17);
}

pub proof fn lemma_bits_lsb_bound(bits: Seq<bool>, pos: int, n: nat)
    ensures
        bits_lsb(bits, pos, n) < two_pow(n),
    decreases n,
{
    if n > 0 {
        lemma_bits_lsb_bound(bits, pos, (n - 1) as nat);
    }
}

pub proof fn lemma_bits_msb_bound(bits: Seq<bool>, pos: int, n: nat)
    ensures
        bits_msb(bits, pos, n) < two_pow(n),
    decreases n,
{
    if n > 0 {
        lemma_bits_msb_bound(bits, pos, (n - 1) as nat);
    }
}

pub proof fn lemma_two_pow_add(a: nat, b: nat)
    ensures
        two_pow(a + b) == two_pow(a) * two_pow(b),
    decreases b,
{
    if b == 0 {
        assert(a + b == a);
        assert(two_pow(b) == 1);
        assert(two_pow(a) * 1 == two_pow(a));
    } else {
        let b1 = (b - 1) as nat;
        lemma_two_pow_add(a, b1);
        assert(two_pow(a + b) == 2 * two_pow(a + b1));
        assert(two_pow(b) == 2 * two_pow(b1));
        assert(two_pow(a) * (2 * two_pow(b1)) == 2 * (two_pow(a) * two_pow(b1))) by (nonlinear_arith);
        assert(two_pow(a + b) == two_pow(a) * two_pow(b));
    }
}

/// Reading `a` bits and then `b` more, each as a number with the first bit
/// read the least significant (as `Bitstream::next_bits` does), gives the
/// low `a` bits and the high `b` bits of reading all `a + b` bits at once.
pub proof fn lemma_bits_lsb_split(bits: Seq<bool>, pos: int, a: nat, b: nat)
    ensures
        bits_lsb(bits, pos, a + b) == bits_lsb(bits, pos, a) + two_pow(a) * bits_lsb(bits, pos + a, b),
    decreases b,
{
    if b == 0 {
        assert(a + b == a);
        assert(bits_lsb(bits, pos + a, b) == 0);
        assert(two_pow(a) * 0 == 0);
    } else {
        let b1 = (b - 1) as nat;
        lemma_bits_lsb_split(bits, pos, a, b1);
        lemma_two_pow_add(a, b1);
        let x = bits_lsb(bits, pos + a, b1);
        let v = bit_value(bits[pos + a + b1]);
        let pa = two_pow(a);
        let pb = two_pow(b1);
        assert(bits_lsb(bits, pos + a, b) == x + v * pb);
        assert(bits_lsb(bits, pos, a + b) == bits_lsb(bits, pos, a + b1) + v * two_pow(a + b1));
        assert(pa * (x + v * pb) == pa * x + v * (pa * pb)) by (nonlinear_arith);
    }
}

/// The first `a + b` bits, most significant first, are the first `a` bits
/// shifted up by `b`, plus the next `b` bits.
pub proof fn lemma_bits_msb_split(bits: Seq<bool>, pos: int, a: nat, b: nat)
    ensures
        bits_msb(bits, pos, a + b) == two_pow(b) * bits_msb(bits, pos, a) + bits_msb(bits, pos + a, b),
    decreases b,
{
    if b == 0 {
        assert(a + b == a);
        assert(two_pow(b) == 1);
        assert(1 * bits_msb(bits, pos, a) == bits_msb(bits, pos, a));
    } else {
        let b1 = (b - 1) as nat;
        lemma_bits_msb_split(bits, pos, a, b1);
        let m = bits_msb(bits, pos, a);
        let r = bits_msb(bits, pos + a, b1);
        let v = bit_value(bits[pos + a + b1]);
        assert(bits_msb(bits, pos, a + b) == 2 * bits_msb(bits, pos, a + b1) + v);
        assert(bits_msb(bits, pos + a, b) == 2 * r + v);
        assert(two_pow(b) == 2 * two_pow(b1));
        assert(2 * (two_pow(b1) * m + r) + v == (2 * two_pow(b1)) * m + (2 * r + v)) by (nonlinear_arith);
    }
}

/// `ext` starts with the bits of `bits` (and may have more after them).
pub open spec fn bits_extend(bits: Seq<bool>, ext: Seq<bool>) -> bool {
    &&& bits.len() <= ext.len()
    &&& forall|i: int| 0 <= i < bits.len() ==> #[trigger] ext[i] == bits[i]
}

pub proof fn lemma_bits_lsb_extend(bits: Seq<bool>, ext: Seq<bool>, pos: int, n: nat)
    requires
        bits_extend(bits, ext),
        0 <= pos,
        pos + n <= bits.len(),
    ensures
        bits_lsb(ext, pos, n) == bits_lsb(bits, pos, n),
    decreases n,
{
    if n > 0 {
        lemma_bits_lsb_extend(bits, ext, pos, (n - 1) as nat);
        assert(ext[pos + n - 1] == bits[pos + n - 1]);
    }
}

pub proof fn lemma_bits_msb_extend(bits: Seq<bool>, ext: Seq<bool>, pos: int, n: nat)
    requires
        bits_extend(bits, ext),
        0 <= pos,
        pos + n <= bits.len(),
    ensures
        bits_msb(ext, pos, n) == bits_msb(bits, pos, n),
    decreases n,
{
    if n > 0 {
        lemma_bits_msb_extend(bits, ext, pos, (n - 1) as nat);
        assert(ext[pos + n - 1] == bits[pos + n - 1]);
    }
}

/// A source of bits, read one at a time from a fixed bit string.
pub trait Bitstream {
    /// Every bit of the stream, read or not.
    spec fn stream_bits(&self) -> Seq<bool>;

    /// How many bits have been read.
    spec fn stream_pos(&self) -> int;

    /// The stream's own invariant.
    spec fn stream_ok(&self) -> bool;

    proof fn lemma_stream_ok(&self)
        requires
            self.stream_ok(),
        ensures
            0 <= self.stream_pos() <= self.stream_bits().len(),
            self.stream_bits().len() % 8 == 0,
    ;

    /// The number of bits not read yet.
    fn bits_remaining(&self) -> (r: usize)
        requires
            self.stream_ok(),
        ensures
            r == self.stream_bits().len() - self.stream_pos(),
    ;

    /// Reads one bit.
    fn next_bit(&mut self) -> (b: bool)
        requires
            old(self).stream_ok(),
            old(self).stream_pos() < old(self).stream_bits().len(),
        ensures
            final(self).stream_ok(),
            final(self).stream_bits() == old(self).stream_bits(),
            final(self).stream_pos() == old(self).stream_pos() + 1,
            b == old(self).stream_bits()[old(self).stream_pos()],
    ;

    /// Reads `c` bits as a number, the first bit read the least significant.
    fn next_bits(&mut self, c: usize) -> (r: u16)
        requires
            old(self).stream_ok(),
            c <= 16,
            old(self).stream_pos() + c <= old(self).stream_bits().len(),
        ensures
            final(self).stream_ok(),
            final(self).stream_bits() == old(self).stream_bits(),
            final(self).stream_pos() == old(self).stream_pos() + c,
            r as nat == bits_lsb(old(self).stream_bits(), old(self).stream_pos(), c as nat),
    {
        let ghost start = self.stream_pos();
        let ghost all = self.stream_bits();
        let mut bits: u16 = 0;
        let mut i: usize = 0;
        while i < c
            invariant
                i <= c <= 16,
                self.stream_ok(),
                self.stream_bits() == all,
                self.stream_pos() == start + i,
                start + c <= all.len(),
                bits as nat == bits_lsb(all, start, i as nat),
            decreases c - i,
        {
            proof {
                lemma_bits_lsb_bound(all, start, i as nat);
                lemma_two_pow_shl(i as u16);
            }
            let b = self.next_bit();
            let ii: u16 = i as u16;
            assert(bits < (1u16 << ii) ==> bits | (1u16 << ii) == bits + (1u16 << ii))
                by (bit_vector);
            let ghost old_bits = bits;
            if b {
                bits = bits | (1u16 << ii);
            }
            assert(b == all[start + i]);
            assert(bits as nat == old_bits as nat + bit_value(b) * two_pow(i as nat));
            assert(bits_lsb(all, start, (i + 1) as nat) == bits_lsb(all, start, i as nat)
                + bit_value(all[start + (i + 1) - 1]) * two_pow(i as nat));
            i += 1;
        }
        bits
    }

    /// Skips to the next multiple of eight bits.
    fn skip_to_byte_boundary(&mut self)
        requires
            old(self).stream_ok(),
        ensures
            final(self).stream_ok(),
            final(self).stream_bits() == old(self).stream_bits(),
            final(self).stream_pos() == round_up_to_byte(old(self).stream_pos()),
    ;
}

/// A bit stream over a byte string, each byte read from its least
/// significant bit up.
pub struct BitBuffer<'a> {
    buffer: &'a [u8],
    pos: usize,
}

impl<'a> BitBuffer<'a> {
    /// A stream positioned at the first bit of `buffer`.
    pub fn new(buffer: &'a [u8]) -> (r: Self)
        requires
            buffer@.len() * 8 <= usize::MAX,
        ensures
            r.stream_ok(),
            r.stream_bits() == byte_bits(buffer@),
            r.stream_pos() == 0,
    {
        Self { buffer, pos: 0 }
    }
}

impl<'a> Bitstream for BitBuffer<'a> {
    closed spec fn stream_bits(&self) -> Seq<bool> {
        byte_bits(self.buffer@)
    }

    closed spec fn stream_pos(&self) -> int {
        self.pos as int
    }

    closed spec fn stream_ok(&self) -> bool {
        &&& self.buffer@.len() * 8 <= usize::MAX
        &&& self.pos <= self.buffer@.len() * 8
    }

    proof fn lemma_stream_ok(&self) {
    }

    fn bits_remaining(&self) -> (r: usize) {
        self.buffer.len() * 8 - self.pos
    }

    fn next_bit(&mut self) -> (b: bool) {
        let byte = self.buffer[self.pos / 8];
        let shift: u8 = (self.pos % 8) as u8;
        let bit = (byte & (1u8 << shift)) != 0;
        assert(shift < 8 ==> (((byte & (1u8 << shift)) != 0) == ((byte >> shift) & 1u8 == 1u8)))
            by (bit_vector);
        self.pos += 1;
        bit
    }

    fn skip_to_byte_boundary(&mut self) {
        let ghost len = self.buffer@.len();
        assert(round_up_to_byte(self.pos as int) <= len * 8) by (nonlinear_arith)
            requires
                self.pos <= len * 8,
                round_up_to_byte(self.pos as int) == self.pos + (8 - self.pos % 8) % 8,
        ;
        self.pos += (8 - self.pos % 8) % 8;
    }
}

} // verus!
