use vstd::prelude::*;

use crate::byte_encode::ByteEncode;
use crate::reader::decode_value;

verus! {

/// The little-endian bytes of the values of `xs`, one after the other.
pub open spec fn le_bytes_of<const N: usize, T: ByteEncode<N>>(xs: Seq<T>) -> Seq<u8>
    decreases xs.len(),
{
    if xs.len() == 0 {
        Seq::empty()
    } else {
        le_bytes_of::<N, T>(xs.drop_last()) + T::spec_to_le_bytes(xs.last())
    }
}

/// Writes values, little-endian, to a growing byte string.
pub struct FileWriter {
    buf: Vec<u8>,
}

impl FileWriter {
    /// The bytes written so far.
    pub closed spec fn written(&self) -> Seq<u8> {
        self.buf@
    }

    /// A writer that has written nothing.
    pub fn new() -> (r: Self)
        ensures
            r.written() == Seq::<u8>::empty(),
    {
        FileWriter { buf: Vec::new() }
    }

    /// The bytes written so far.
    pub fn bytes(&self) -> (r: &Vec<u8>)
        ensures
            r@ == self.written(),
    {
        &self.buf
    }

    /// Gives up the bytes written.
    pub fn into_bytes(self) -> (r: Vec<u8>)
        ensures
            r@ == self.written(),
    {
        self.buf
    }

    /// Writes `c` zero bytes.
    pub fn write_zeros(&mut self, c: usize)
        ensures
            final(self).written() == old(self).written() + Seq::new(c as nat, |i: int| 0u8),
    {
        let ghost start = self.buf@;
        let mut i: usize = 0;
        while i < c
            invariant
                i <= c,
                self.buf@ == start + Seq::new(i as nat, |k: int| 0u8),
            decreases c - i,
        {
            self.write::<1, u8>(0u8);
            i += 1;
            assert(self.buf@ =~= start + Seq::new(i as nat, |k: int| 0u8));
        }
    }

    /// Writes the values of `xs`, in order.
    pub fn write_array<const N: usize, T: ByteEncode<N>, const C: usize>(&mut self, xs: [T; C])
        ensures
            final(self).written() == old(self).written() + le_bytes_of::<N, T>(xs@),
    {
        let ghost start = self.buf@;
        let mut i: usize = 0;
        while i < C
            invariant
                i <= C,
                xs@.len() == C,
                self.buf@ == start + le_bytes_of::<N, T>(xs@.take(i as int)),
            decreases C - i,
        {
            let x = xs[i];
            self.write::<N, T>(x);
            assert(xs@.take(i + 1).drop_last() =~= xs@.take(i as int));
            i += 1;
            assert(self.buf@ =~= start + le_bytes_of::<N, T>(xs@.take(i as int)));
        }
        assert(xs@.take(C as int) =~= xs@);
    }

    /// Writes `x`, little-endian.
    pub fn write<const N: usize, T: ByteEncode<N>>(&mut self, x: T)
        ensures
            final(self).written() == old(self).written() + T::spec_to_le_bytes(x),
    {
        let data = x.to_le_bytes();
        let ghost start = self.buf@;
        let mut i: usize = 0;
        while i < N
            invariant
                i <= N,
                data@.len() == N,
                self.buf@ == start + data@.take(i as int),
            decreases N - i,
        {
            self.buf.push(data[i]);
            i += 1;
            assert(self.buf@ =~= start + data@.take(i as int));
        }
        assert(data@.take(N as int) =~= data@);
    }
}

/// A value that `FileWriter::write` appended reads back, little-endian,
/// from where it was written.
pub proof fn lemma_written_value_reads_back<const N: usize, T: ByteEncode<N>>(prefix: Seq<u8>, v: T)
    ensures
        decode_value::<N, T>(true, (prefix + T::spec_to_le_bytes(v)).subrange(prefix.len() as int, prefix.len() + N))
            == v,
{
    T::lemma_value_roundtrip(v);
    assert((prefix + T::spec_to_le_bytes(v)).subrange(prefix.len() as int, prefix.len() + N) =~= T::spec_to_le_bytes(v));
}

} // verus!
