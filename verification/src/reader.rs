use vstd::prelude::*;

use crate::byte_encode::ByteEncode;
use crate::crc::{crc_update, is_crc_table, lemma_crc_update_concat, make_crc_table, update_crc_with_table};

verus! {

/// A running checksum that a reader can keep over the bytes it reads.
#[derive(Debug, Clone, Copy, PartialEq, Eq, Structural)]
pub enum ChecksumFunc {
    /// The CRC-32 of PNG and zlib, by `update_crc`.
    Crc32,
}

/// The running checksum `c` after the bytes `bytes`, with `f` (none: unchanged).
pub open spec fn checksum_after(f: Option<ChecksumFunc>, c: u32, bytes: Seq<u8>) -> u32 {
    match f {
        Some(ChecksumFunc::Crc32) => crc_update(c, bytes),
        None => c,
    }
}

/// The value that `b` holds, little-endian when `le`, else big-endian.
pub open spec fn decode_value<const N: usize, T: ByteEncode<N>>(le: bool, b: Seq<u8>) -> T {
    if le {
        T::spec_from_le_bytes(b)
    } else {
        T::spec_from_be_bytes(b)
    }
}

/// The `u32` at offset `o`, in the given byte order.
pub open spec fn u32_at(le: bool, d: Seq<u8>, o: int) -> u32 {
    decode_value::<4, u32>(le, d.subrange(o, o + 4))
}

/// The `u16` at offset `o`, in the given byte order.
pub open spec fn u16_at(le: bool, d: Seq<u8>, o: int) -> u16 {
    decode_value::<2, u16>(le, d.subrange(o, o + 2))
}

/// Checksumming two byte strings one after the other is checksumming their
/// concatenation.
pub proof fn lemma_checksum_after_concat(f: Option<ChecksumFunc>, c: u32, a: Seq<u8>, b: Seq<u8>)
    ensures
        checksum_after(f, c, a + b) == checksum_after(f, checksum_after(f, c, a), b),
{
    if f is Some {
        lemma_crc_update_concat(c, a, b);
    }
}

/// Checksumming `pre` and then the bytes of `d` from `a` to `b`, and going on
/// from there to `e`, is checksumming `pre` and the bytes from `a` to `e`.
pub proof fn lemma_checksum_after_extend(
    f: Option<ChecksumFunc>,
    c: u32,
    pre: Seq<u8>,
    d: Seq<u8>,
    a: int,
    b: int,
    e: int,
)
    requires
        0 <= a <= b <= e <= d.len(),
    ensures
        checksum_after(f, checksum_after(f, c, pre + d.subrange(a, b)), d.subrange(b, e)) == checksum_after(
            f,
            c,
            pre + d.subrange(a, e),
        ),
{
    lemma_checksum_after_concat(f, c, pre + d.subrange(a, b), d.subrange(b, e));
    assert(pre + d.subrange(a, b) + d.subrange(b, e) =~= pre + d.subrange(a, e));
}

/// The bytes of a series of reads, one after the other.
pub open spec fn bytes_of_reads(reads: Seq<Seq<u8>>) -> Seq<u8>
    decreases reads.len(),
{
    if reads.len() == 0 {
        Seq::empty()
    } else {
        bytes_of_reads(reads.drop_last()) + reads.last()
    }
}

/// The running checksum `c` fed the bytes of a series of reads one read at
/// a time, as each read of a `FileReader` does.
pub open spec fn checksum_over_reads(f: Option<ChecksumFunc>, c: u32, reads: Seq<Seq<u8>>) -> u32
    decreases reads.len(),
{
    if reads.len() == 0 {
        c
    } else {
        checksum_after(f, checksum_over_reads(f, c, reads.drop_last()), reads.last())
    }
}

/// The checksum kept over a series of reads since the checksum was set or
/// last reset (the value that `reset_checksum` then returns) is the
/// checksum of all the bytes they read, taken at once.
pub proof fn lemma_checksum_over_reads(f: Option<ChecksumFunc>, c: u32, reads: Seq<Seq<u8>>)
    ensures
        checksum_over_reads(f, c, reads) == checksum_after(f, c, bytes_of_reads(reads)),
    decreases reads.len(),
{
    if reads.len() == 0 {
        if f is Some {
            assert(bytes_of_reads(reads).len() == 0);
        }
    } else {
        lemma_checksum_over_reads(f, c, reads.drop_last());
        lemma_checksum_after_concat(f, c, bytes_of_reads(reads.drop_last()), reads.last());
    }
}

/// Reads values from a byte string, in a chosen byte order, optionally
/// keeping a running checksum of the bytes read.
pub struct FileReader {
    data: Vec<u8>,
    pos: usize,
    le: bool,
    checksum_func: Option<ChecksumFunc>,
    curr_checksum: u32,
    checksum_start: u32,
    crc_table: Vec<u32>,
}

impl FileReader {
    /// A reader that keeps a CRC has the CRC table at hand.
    #[verifier::type_invariant]
    spec fn table_ready(&self) -> bool {
        self.checksum_func is Some ==> is_crc_table(self.crc_table@)
    }

    /// All the bytes, read or not.
    pub closed spec fn data(&self) -> Seq<u8> {
        self.data@
    }

    /// How many bytes have been read or skipped.
    pub closed spec fn position(&self) -> int {
        self.pos as int
    }

    /// Whether values are read little-endian.
    pub closed spec fn little_endian(&self) -> bool {
        self.le
    }

    /// The checksum kept over the bytes read, if any.
    pub closed spec fn checksum_func(&self) -> Option<ChecksumFunc> {
        self.checksum_func
    }

    /// The running checksum.
    pub closed spec fn checksum(&self) -> u32 {
        self.curr_checksum
    }

    /// The value the running checksum restarts from.
    pub closed spec fn checksum_start(&self) -> u32 {
        self.checksum_start
    }

    /// A reader at the first byte of `data`, little-endian, keeping no
    /// checksum.
    pub fn new(data: Vec<u8>) -> (r: Self)
        ensures
            r.data() == data@,
            r.position() == 0,
            r.little_endian(),
            r.checksum_func() is None,
            r.checksum() == 0,
            r.checksum_start() == 0,
    {
        FileReader {
            data,
            pos: 0,
            le: true,
            checksum_func: None,
            curr_checksum: 0,
            checksum_start: 0,
            crc_table: Vec::new(),
        }
    }

    /// How many bytes are left to read.
    pub fn remaining(&self) -> (r: usize)
        ensures
            r == (if self.position() <= self.data().len() { self.data().len() - self.position() } else { 0 }),
            self.data().len() <= usize::MAX,
            0 <= self.position() <= usize::MAX,
    {
        if self.pos <= self.data.len() {
            self.data.len() - self.pos
        } else {
            0
        }
    }

    /// Moves `c` bytes on without reading them (so without checksumming
    /// them); the position may pass the end (it stops at `usize::MAX`).
    pub fn skip(&mut self, c: usize)
        ensures
            final(self).position() == (if old(self).position() + c <= usize::MAX {
                old(self).position() + c
            } else {
                usize::MAX as int
            }),
            final(self).data() == old(self).data(),
            final(self).little_endian() == old(self).little_endian(),
            final(self).checksum_func() == old(self).checksum_func(),
            final(self).checksum() == old(self).checksum(),
            final(self).checksum_start() == old(self).checksum_start(),
    {
        proof {
            use_type_invariant(&*self);
        }
        if c > usize::MAX - self.pos {
            self.pos = usize::MAX;
        } else {
            self.pos = self.pos + c;
        }
    }

    /// Reads `N` bytes.
    pub fn read_bytes<const N: usize>(&mut self) -> (r: [u8; N])
        requires
            old(self).position() + N <= old(self).data().len(),
        ensures
            r@ == old(self).data().subrange(old(self).position(), old(self).position() + N),
            final(self).position() == old(self).position() + N,
            final(self).checksum() == checksum_after(old(self).checksum_func(), old(self).checksum(), r@),
            final(self).data() == old(self).data(),
            final(self).little_endian() == old(self).little_endian(),
            final(self).checksum_func() == old(self).checksum_func(),
            final(self).checksum_start() == old(self).checksum_start(),
    {
        let mut data = [0u8; N];
        let len = self.data.len();
        let mut i: usize = 0;
        while i < N
            invariant
                i <= N,
                self.data@.len() == len,
                self.pos + N <= self.data@.len(),
                data@.len() == N,
                data@.take(i as int) == self.data@.subrange(self.pos as int, self.pos + i),
            decreases N - i,
        {
            data[i] = self.data[self.pos + i];
            i += 1;
            assert(data@.take(i as int) =~= self.data@.subrange(self.pos as int, self.pos + i));
        }
        assert(data@ =~= data@.take(N as int));
        if let Some(f) = self.checksum_func {
            match f {
                ChecksumFunc::Crc32 => {
                    proof {
                        use_type_invariant(&*self);
                    }
                    let mut c = self.curr_checksum;
                    update_crc_with_table(&self.crc_table, &mut c, &data);
                    self.curr_checksum = c;
                },
            }
        }
        self.pos = self.pos + N;
        data
    }

    /// Reads `n` bytes.
    pub fn get_bytes(&mut self, n: usize) -> (r: Vec<u8>)
        requires
            old(self).position() + n <= old(self).data().len(),
        ensures
            r@ == old(self).data().subrange(old(self).position(), old(self).position() + n),
            final(self).position() == old(self).position() + n,
            final(self).checksum() == checksum_after(old(self).checksum_func(), old(self).checksum(), r@),
            final(self).data() == old(self).data(),
            final(self).little_endian() == old(self).little_endian(),
            final(self).checksum_func() == old(self).checksum_func(),
            final(self).checksum_start() == old(self).checksum_start(),
    {
        let mut buff: Vec<u8> = Vec::new();
        let len = self.data.len();
        let mut i: usize = 0;
        while i < n
            invariant
                i <= n,
                self.data@.len() == len,
                self.pos + n <= self.data@.len(),
                buff@ == self.data@.subrange(self.pos as int, self.pos + i),
            decreases n - i,
        {
            buff.push(self.data[self.pos + i]);
            i += 1;
            assert(buff@ =~= self.data@.subrange(self.pos as int, self.pos + i));
        }
        if let Some(f) = self.checksum_func {
            match f {
                ChecksumFunc::Crc32 => {
                    proof {
                        use_type_invariant(&*self);
                    }
                    let mut c = self.curr_checksum;
                    update_crc_with_table(&self.crc_table, &mut c, buff.as_slice());
                    self.curr_checksum = c;
                },
            }
        }
        self.pos = self.pos + n;
        buff
    }

    /// Reads one value of `N` bytes, in the reader's byte order.
    pub fn read<const N: usize, T: ByteEncode<N>>(&mut self) -> (r: T)
        requires
            old(self).position() + N <= old(self).data().len(),
        ensures
            r == decode_value::<N, T>(
                old(self).little_endian(),
                old(self).data().subrange(old(self).position(), old(self).position() + N),
            ),
            final(self).position() == old(self).position() + N,
            final(self).checksum() == checksum_after(
                old(self).checksum_func(),
                old(self).checksum(),
                old(self).data().subrange(old(self).position(), old(self).position() + N),
            ),
            final(self).data() == old(self).data(),
            final(self).little_endian() == old(self).little_endian(),
            final(self).checksum_func() == old(self).checksum_func(),
            final(self).checksum_start() == old(self).checksum_start(),
    {
        let data = self.read_bytes::<N>();
        if self.le {
            T::from_le_bytes(&data)
        } else {
            T::from_be_bytes(&data)
        }
    }

    /// Reads `C` values of `N` bytes each, in the reader's byte order.
    pub fn read_array<const N: usize, T: ByteEncode<N>, const C: usize>(&mut self) -> (r: [T; C])
        requires
            old(self).position() + N * C <= old(self).data().len(),
        ensures
            r@.len() == C,
            forall|i: int|
                0 <= i < C ==> #[trigger] r@[i] == decode_value::<N, T>(
                    old(self).little_endian(),
                    old(self).data().subrange(old(self).position() + N * i, old(self).position() + N * i + N),
                ),
            final(self).position() == old(self).position() + N * C,
            final(self).checksum() == checksum_after(
                old(self).checksum_func(),
                old(self).checksum(),
                old(self).data().subrange(old(self).position(), old(self).position() + N * C),
            ),
            final(self).data() == old(self).data(),
            final(self).little_endian() == old(self).little_endian(),
            final(self).checksum_func() == old(self).checksum_func(),
            final(self).checksum_start() == old(self).checksum_start(),
    {
        let ghost d = self.data@;
        let ghost p0 = self.pos as int;
        let ghost c0 = self.curr_checksum;
        let zero = [0u8; N];
        let filler = T::from_le_bytes(&zero);
        let mut out = [filler; C];
        let mut i: usize = 0;
        while i < C
            invariant
                i <= C,
                p0 + N * C <= d.len(),
                self.data@ == d,
                self.pos == p0 + N * i,
                self.le == old(self).le,
                self.checksum_func == old(self).checksum_func,
                self.checksum_start == old(self).checksum_start,
                d == old(self).data@,
                p0 == old(self).pos,
                c0 == old(self).curr_checksum,
                self.curr_checksum == checksum_after(self.checksum_func, c0, d.subrange(p0, p0 + N * i)),
                out@.len() == C,
                forall|k: int|
                    0 <= k < i ==> #[trigger] out@[k] == decode_value::<N, T>(self.le, d.subrange(p0 + N * k, p0 + N * k + N)),
            decreases C - i,
        {
            proof {
                assert(N * i + N == N * (i + 1)) by (nonlinear_arith);
                assert(N * (i + 1) <= N * C) by (nonlinear_arith)
                    requires
                        i < C,
                ;
                lemma_checksum_after_concat(
                    self.checksum_func,
                    c0,
                    d.subrange(p0, p0 + N * i),
                    d.subrange(p0 + N * i, p0 + N * i + N),
                );
                assert(d.subrange(p0, p0 + N * i) + d.subrange(p0 + N * i, p0 + N * i + N) =~= d.subrange(
                    p0,
                    p0 + N * (i + 1),
                ));
            }
            let v = self.read::<N, T>();
            out[i] = v;
            i += 1;
        }
        out
    }

    /// Sets the byte order: little-endian when `le`.
    pub fn set_endianness(&mut self, le: bool)
        ensures
            final(self).little_endian() == le,
            final(self).position() == old(self).position(),
            final(self).data() == old(self).data(),
            final(self).checksum_func() == old(self).checksum_func(),
            final(self).checksum() == old(self).checksum(),
            final(self).checksum_start() == old(self).checksum_start(),
    {
        proof {
            use_type_invariant(&*self);
        }
        self.le = le;
    }

    /// Starts keeping the checksum `checksum_func` over the bytes read, from
    /// `checksum_start`.
    pub fn set_checksum_handler(&mut self, checksum_func: ChecksumFunc, checksum_start: u32)
        ensures
            final(self).checksum_func() == Some(checksum_func),
            final(self).checksum_start() == checksum_start,
            final(self).checksum() == checksum_start,
            final(self).little_endian() == old(self).little_endian(),
            final(self).position() == old(self).position(),
            final(self).data() == old(self).data(),
    {
        self.crc_table = make_crc_table();
        self.checksum_func = Some(checksum_func);
        self.checksum_start = checksum_start;
        self.curr_checksum = checksum_start;
    }

    /// Restarts the running checksum, returning the value it had.
    pub fn reset_checksum(&mut self) -> (r: u32)
        ensures
            r == old(self).checksum(),
            final(self).checksum() == old(self).checksum_start(),
            final(self).checksum_start() == old(self).checksum_start(),
            final(self).checksum_func() == old(self).checksum_func(),
            final(self).little_endian() == old(self).little_endian(),
            final(self).position() == old(self).position(),
            final(self).data() == old(self).data(),
    {
        proof {
            use_type_invariant(&*self);
        }
        let old_checksum = self.curr_checksum;
        self.curr_checksum = self.checksum_start;
        old_checksum
    }

    /// The running checksum.
    pub fn get_checksum(&self) -> (r: u32)
        ensures
            r == self.checksum(),
    {
        self.curr_checksum
    }
}

} // verus!
