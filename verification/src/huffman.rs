use vstd::prelude::*;

use crate::bits::{
    bits_extend, bits_msb, lemma_bits_msb_bound, lemma_bits_msb_extend, lemma_bits_msb_split, lemma_two_pow_monotonic,
    lemma_two_pow_small, two_pow, Bitstream,
};
use crate::zlib::InflateError;

verus! {

/// The longest Huffman code DEFLATE allows.
pub const MAX_BITS: usize = 15;

/// How many of the first `n` symbols have code length `l`.
pub open spec fn count_len(lens: Seq<u8>, l: int, n: int) -> nat
    decreases n,
{
    if n <= 0 {
        0
    } else {
        count_len(lens, l, n - 1) + (if lens[n - 1] == l { 1nat } else { 0nat })
    }
}

/// How many symbols have code length `l`.
pub open spec fn len_count(lens: Seq<u8>, l: int) -> nat {
    count_len(lens, l, lens.len() as int)
}

/// How many of the first `n` symbols have a code length from 1 up to `l - 1`.
pub open spec fn shorter_count(lens: Seq<u8>, l: int, n: int) -> nat
    decreases l,
{
    if l <= 1 {
        0
    } else {
        shorter_count(lens, l - 1, n) + count_len(lens, l - 1, n)
    }
}

/// Where the codes of length `l` start in the list of symbols ordered by
/// code length, then by value: the number of symbols with a shorter
/// (non-zero) code.
pub open spec fn code_index(lens: Seq<u8>, l: int) -> int {
    shorter_count(lens, l, lens.len() as int) as int
}

/// The canonical first code of length `l` (RFC 1951, 3.2.2).
pub open spec fn first_code(lens: Seq<u8>, l: int) -> int
    decreases l,
{
    if l <= 1 {
        0
    } else {
        2 * (first_code(lens, l - 1) + len_count(lens, l - 1))
    }
}

/// The symbol, searched from `s` on, whose code length is `l` and which has
/// exactly `j` symbols of that length before it; `-1` where there is none.
pub open spec fn symbol_of_rank(lens: Seq<u8>, l: int, j: int, s: int) -> int
    decreases lens.len() - s,
{
    if s >= lens.len() {
        -1
    } else if lens[s] == l && count_len(lens, l, s) == j {
        s
    } else {
        symbol_of_rank(lens, l, j, s + 1)
    }
}

/// Canonical Huffman decoding from code length `l` on: the first length at
/// which the next `l` bits (most significant first) fall among the codes of
/// that length gives the symbol; no match up to length 15 is an error.
pub open spec fn huffman_decode_at(lens: Seq<u8>, bits: Seq<bool>, pos: int, l: int) -> Result<
    (int, int),
    InflateError,
>
    decreases 16 - l,
{
    if l > 15 {
        Err(InflateError::NoCodeMatched)
    } else if pos + l > bits.len() {
        Err(InflateError::Truncated)
    } else {
        let code = bits_msb(bits, pos, l as nat) as int;
        let first = first_code(lens, l);
        if code < first + len_count(lens, l) {
            Ok((symbol_of_rank(lens, l, code - first, 0), pos + l))
        } else {
            huffman_decode_at(lens, bits, pos, l + 1)
        }
    }
}

/// The symbol that the canonical Huffman code with code lengths `lens` reads
/// at bit `pos`, and the position after its code.
pub open spec fn huffman_decode(lens: Seq<u8>, bits: Seq<bool>, pos: int) -> Result<
    (int, int),
    InflateError,
> {
    huffman_decode_at(lens, bits, pos, 1)
}

/// A Huffman decode that succeeds reads the same symbol where more bits
/// follow the stream.
pub proof fn lemma_huffman_decode_extend(lens: Seq<u8>, bits: Seq<bool>, ext: Seq<bool>, pos: int, l: int)
    requires
        bits_extend(bits, ext),
        0 <= pos,
        1 <= l,
    ensures
        huffman_decode_at(lens, bits, pos, l) is Ok ==> huffman_decode_at(lens, ext, pos, l) == huffman_decode_at(
            lens,
            bits,
            pos,
            l,
        ),
    decreases 16 - l,
{
    if l <= 15 && pos + l <= bits.len() {
        lemma_bits_msb_extend(bits, ext, pos, l as nat);
        lemma_huffman_decode_extend(lens, bits, ext, pos, l + 1);
    }
}

/// Code lengths that a tree can be built from: every length at most 15, and
/// at most 255 symbols of any one length.
pub open spec fn lengths_ok(lens: Seq<u8>) -> bool {
    &&& lens.len() < 65536
    &&& forall|t: int| 0 <= t < lens.len() ==> #[trigger] lens[t] <= 15
    &&& forall|l: int| 1 <= l <= 15 ==> #[trigger] len_count(lens, l) <= 255
}

pub proof fn lemma_count_len_monotonic(lens: Seq<u8>, l: int, a: int, b: int)
    requires
        a <= b,
    ensures
        count_len(lens, l, a) <= count_len(lens, l, b),
    decreases b - a,
{
    if a < b {
        lemma_count_len_monotonic(lens, l, a, b - 1);
    }
}

pub proof fn lemma_count_len_strict(lens: Seq<u8>, l: int, s: int, b: int)
    requires
        0 <= s < b,
        lens[s] == l,
    ensures
        count_len(lens, l, s) + 1 <= count_len(lens, l, b),
{
    lemma_count_len_monotonic(lens, l, s + 1, b);
}

pub proof fn lemma_code_index_monotonic(lens: Seq<u8>, a: int, b: int)
    requires
        a <= b,
    ensures
        code_index(lens, a) <= code_index(lens, b),
    decreases b - a,
{
    if a < b {
        lemma_code_index_monotonic(lens, a, b - 1);
    }
}

proof fn lemma_shorter_count_step(lens: Seq<u8>, l: int, n: int)
    requires
        0 <= n,
    ensures
        shorter_count(lens, l, n + 1) == shorter_count(lens, l, n) + (if 1 <= lens[n] < l { 1nat } else { 0nat }),
    decreases l,
{
    if l > 1 {
        lemma_shorter_count_step(lens, l - 1, n);
    }
}

proof fn lemma_shorter_count_zero(lens: Seq<u8>, l: int)
    ensures
        shorter_count(lens, l, 0) == 0,
    decreases l,
{
    if l > 1 {
        lemma_shorter_count_zero(lens, l - 1);
    }
}

/// The symbols with a code length from 1 to 15 number at most all symbols.
pub proof fn lemma_code_index_total(lens: Seq<u8>, n: int)
    requires
        0 <= n <= lens.len(),
        forall|t: int| 0 <= t < lens.len() ==> #[trigger] lens[t] <= 15,
    ensures
        shorter_count(lens, 16, n) + count_len(lens, 0, n) == n,
    decreases n,
{
    if n == 0 {
        lemma_shorter_count_zero(lens, 16);
    } else {
        lemma_code_index_total(lens, n - 1);
        lemma_shorter_count_step(lens, 16, n - 1);
        assert(lens[n - 1] <= 15);
        assert(shorter_count(lens, 16, n) == shorter_count(lens, 16, n - 1) + (if 1 <= lens[n - 1] < 16 { 1nat } else { 0nat }));
        assert(count_len(lens, 0, n) == count_len(lens, 0, n - 1) + (if lens[n - 1] == 0 { 1nat } else { 0nat }));
    }
}

proof fn lemma_symbol_of_rank(lens: Seq<u8>, l: int, j: int, s: int)
    requires
        0 <= s,
        count_len(lens, l, s) <= j < len_count(lens, l),
    ensures
        s <= symbol_of_rank(lens, l, j, s) < lens.len(),
        lens[symbol_of_rank(lens, l, j, s)] == l,
        count_len(lens, l, symbol_of_rank(lens, l, j, s)) == j,
    decreases lens.len() - s,
{
    if s >= lens.len() {
        lemma_count_len_monotonic(lens, l, lens.len() as int, s);
    } else if lens[s] == l && count_len(lens, l, s) == j {
    } else {
        lemma_symbol_of_rank(lens, l, j, s + 1);
    }
}

pub proof fn lemma_count_len_bound(lens: Seq<u8>, l: int, n: int)
    requires
        0 <= n,
    ensures
        count_len(lens, l, n) <= n,
    decreases n,
{
    if n > 0 {
        lemma_count_len_bound(lens, l, n - 1);
    }
}

/// A decoded symbol has a code of the length at which it was found, so it is
/// a symbol of the alphabet with a non-zero code length.
pub proof fn lemma_huffman_decode_symbol(lens: Seq<u8>, bits: Seq<bool>, pos: int, l: int)
    requires
        1 <= l,
        first_code(lens, l) <= 2 * bits_msb(bits, pos, (l - 1) as nat),
    ensures
        huffman_decode_at(lens, bits, pos, l) matches Ok((s, p)) ==> 0 <= s < lens.len() && 1 <= lens[s] <= 15,
    decreases 16 - l,
{
    if l <= 15 && pos + l <= bits.len() {
        let code = bits_msb(bits, pos, l as nat) as int;
        let first = first_code(lens, l);
        if code < first + len_count(lens, l) {
            lemma_symbol_of_rank(lens, l, code - first, 0);
        } else {
            lemma_huffman_decode_symbol(lens, bits, pos, l + 1);
        }
    }
}

/// The first code of a length is at least the codes of a shorter length,
/// and all that precede them, shifted up to it.
proof fn lemma_first_code_growth(lens: Seq<u8>, l: int, m: int)
    requires
        1 <= l < m,
    ensures
        first_code(lens, m) >= two_pow((m - l) as nat) * (first_code(lens, l) + len_count(lens, l)),
    decreases m - l,
{
    if m == l + 1 {
        assert(two_pow(1) == 2) by {
            reveal_with_fuel(two_pow, 2);
        }
    } else {
        lemma_first_code_growth(lens, l, m - 1);
        let k = (m - 1 - l) as nat;
        let x = first_code(lens, l) + len_count(lens, l);
        assert(first_code(lens, m) == 2 * (first_code(lens, m - 1) + len_count(lens, m - 1)));
        assert(two_pow((m - l) as nat) == 2 * two_pow(k));
        assert(2 * (two_pow(k) * x) == (2 * two_pow(k)) * x) by (nonlinear_arith);
    }
}

proof fn lemma_symbol_of_own_rank(lens: Seq<u8>, s: int, t: int)
    requires
        0 <= t <= s < lens.len(),
    ensures
        symbol_of_rank(lens, lens[s] as int, count_len(lens, lens[s] as int, s) as int, t) == s,
    decreases s - t,
{
    if t < s {
        let l = lens[s] as int;
        if lens[t] == l {
            lemma_count_len_strict(lens, l, t, s);
        }
        lemma_symbol_of_own_rank(lens, s, t + 1);
    }
}

proof fn lemma_huffman_decode_at_canonical(lens: Seq<u8>, bits: Seq<bool>, pos: int, s: int, l: int)
    requires
        0 <= s < lens.len(),
        1 <= l <= lens[s] <= 15,
        pos + lens[s] <= bits.len(),
        bits_msb(bits, pos, lens[s] as nat) == first_code(lens, lens[s] as int) + count_len(
            lens,
            lens[s] as int,
            s,
        ),
    ensures
        huffman_decode_at(lens, bits, pos, l) == Ok::<(int, int), InflateError>((s, pos + lens[s])),
    decreases lens[s] - l,
{
    let len = lens[s] as int;
    if l < len {
        let code_l = bits_msb(bits, pos, l as nat);
        let k = (len - l) as nat;
        lemma_bits_msb_split(bits, pos, l as nat, k);
        lemma_bits_msb_bound(bits, pos + l, k);
        lemma_first_code_growth(lens, l, len);
        if code_l < first_code(lens, l) + len_count(lens, l) {
            let x = first_code(lens, l) + len_count(lens, l);
            assert(two_pow(k) * code_l + two_pow(k) <= two_pow(k) * x) by (nonlinear_arith)
                requires
                    code_l + 1 <= x,
            ;
        }
        lemma_huffman_decode_at_canonical(lens, bits, pos, s, l + 1);
    } else {
        lemma_count_len_strict(lens, len, s, lens.len() as int);
        lemma_symbol_of_own_rank(lens, s, 0);
    }
}

/// A symbol's canonical code (RFC 1951, 3.2.2: the first code of its
/// length plus the number of symbols of that length before it), read most
/// significant bit first, decodes to that symbol after exactly as many bits
/// as its code length.
pub proof fn lemma_huffman_decode_canonical(lens: Seq<u8>, bits: Seq<bool>, pos: int, s: int)
    requires
        0 <= s < lens.len(),
        1 <= lens[s] <= 15,
        pos + lens[s] <= bits.len(),
        bits_msb(bits, pos, lens[s] as nat) == first_code(lens, lens[s] as int) + count_len(
            lens,
            lens[s] as int,
            s,
        ),
    ensures
        huffman_decode(lens, bits, pos) == Ok::<(int, int), InflateError>((s, pos + lens[s])),
{
    lemma_huffman_decode_at_canonical(lens, bits, pos, s, 1);
}

/// Whether a tree can be built from `lens` (see `lengths_ok`).
pub fn lengths_fit(lens: &[u8]) -> (r: bool)
    ensures
        r == lengths_ok(lens@),
{
    if lens.len() >= 65536 {
        return false;
    }
    let mut counts: Vec<usize> = Vec::new();
    while counts.len() < 16
        invariant
            counts.len() <= 16,
            forall|l: int| 0 <= l < counts.len() ==> counts@[l] == 0,
        decreases 16 - counts.len(),
    {
        counts.push(0);
    }
    let mut t: usize = 0;
    while t < lens.len()
        invariant
            t <= lens@.len() < 65536,
            counts.len() == 16,
            forall|u: int| 0 <= u < t ==> #[trigger] lens@[u] <= 15,
            forall|l: int| 0 <= l < 16 ==> #[trigger] counts@[l] == count_len(lens@, l, t as int),
        decreases lens@.len() - t,
    {
        let l = lens[t];
        if l > 15 {
            assert(lens@[t as int] > 15);
            return false;
        }
        proof {
            lemma_count_len_bound(lens@, l as int, t as int);
        }
        let c = counts[l as usize];
        counts.set(l as usize, c + 1);
        t += 1;
    }
    let mut l: usize = 1;
    while l <= MAX_BITS
        invariant
            1 <= l <= 16,
            t == lens@.len(),
            counts.len() == 16,
            forall|l: int| 0 <= l < 16 ==> #[trigger] counts@[l] == count_len(lens@, l, t as int),
            forall|m: int| 1 <= m < l ==> #[trigger] len_count(lens@, m) <= 255,
        decreases 16 - l,
    {
        if counts[l] > 255 {
            assert(len_count(lens@, l as int) > 255);
            return false;
        }
        l += 1;
    }
    true
}

/// `len_counts` and `ordered_codes` are the canonical Huffman code of the
/// code lengths `lens`: the number of codes of each length (none of length
/// 0), and the symbols with a code ordered by code length, then by value.
pub open spec fn huffman_table(lens: Seq<u8>, len_counts: Seq<u8>, ordered_codes: Seq<u16>) -> bool {
    &&& lens.len() < 65536
    &&& forall|t: int| 0 <= t < lens.len() ==> #[trigger] lens[t] <= 15
    &&& len_counts.len() == 16
    &&& len_counts[0] == 0
    &&& forall|l: int| 1 <= l <= 15 ==> #[trigger] len_counts[l] == len_count(lens, l)
    &&& ordered_codes.len() == lens.len()
    &&& forall|l: int, j: int|
        1 <= l <= 15 && 0 <= j < len_count(lens, l) ==> #[trigger] ordered_codes[code_index(lens, l) + j]
            == symbol_of_rank(lens, l, j, 0)
}

/// A canonical Huffman code, in the form that decoding uses: how many codes
/// each length has, and the symbols ordered by code length, then by value.
pub struct HuffmanTree {
    len_counts: Vec<u8>,
    ordered_codes: Vec<u16>,
    lens: Ghost<Seq<u8>>,
}

fn zeroed_u8(n: usize) -> (v: Vec<u8>)
    ensures
        v@ == Seq::new(n as nat, |i: int| 0u8),
{
    let mut v: Vec<u8> = Vec::new();
    while v.len() < n
        invariant
            v.len() <= n,
            v@ == Seq::new(v.len() as nat, |i: int| 0u8),
        decreases n - v.len(),
    {
        v.push(0);
    }
    v
}

impl HuffmanTree {
    /// The code lengths the tree was built from, one per symbol.
    pub closed spec fn code_lens(&self) -> Seq<u8> {
        self.lens@
    }

    pub proof fn lemma_wf(&self)
        requires
            self.wf(),
        ensures
            self.code_lens().len() < 65536,
            forall|t: int| 0 <= t < self.code_lens().len() ==> #[trigger] self.code_lens()[t] <= 15,
    {
    }

    /// How many codes each length from 0 to 15 has.
    pub closed spec fn len_counts(&self) -> Seq<u8> {
        self.len_counts@
    }

    /// The symbols with a code, ordered by code length, then by value; the
    /// table has one entry per symbol.
    pub closed spec fn ordered_codes(&self) -> Seq<u16> {
        self.ordered_codes@
    }

    /// The tree's invariant: the table is the canonical code of its code
    /// lengths.
    pub open spec fn wf(&self) -> bool {
        huffman_table(self.code_lens(), self.len_counts(), self.ordered_codes())
    }

    /// Builds the canonical Huffman code whose code lengths are `code_lens`
    /// (a length of 0: the symbol has no code).
    pub fn new(code_lens: &[u8]) -> (r: Self)
        requires
            lengths_ok(code_lens@),
        ensures
            r.wf(),
            r.code_lens() == code_lens@,
            forall|i: int|
                code_index(code_lens@, 16) <= i < code_lens@.len() ==> #[trigger] r.ordered_codes()[i] == 0,
    {
        let ghost lens = code_lens@;
        let n = code_lens.len();
        let mut len_counts = zeroed_u8(MAX_BITS + 1);
        let mut code: usize = 0;
        while code < n
            invariant
                lens == code_lens@,
                n == lens.len(),
                lengths_ok(lens),
                code <= n,
                len_counts@.len() == 16,
                len_counts@[0] == 0,
                forall|l: int| 1 <= l <= 15 ==> #[trigger] len_counts@[l] == count_len(lens, l, code as int),
            decreases n - code,
        {
            let l = code_lens[code];
            if l != 0 {
                assert(l <= 15);
                proof {
                    lemma_count_len_monotonic(lens, l as int, code + 1, n as int);
                    assert(len_count(lens, l as int) <= 255);
                }
                let c = len_counts[l as usize];
                len_counts.set(l as usize, c + 1);
            }
            code += 1;
        }

        let mut offsets: Vec<usize> = Vec::new();
        offsets.push(0);
        offsets.push(0);
        let mut len: usize = 1;
        proof {
            lemma_code_index_total(lens, n as int);
        }
        while len < MAX_BITS
            invariant
                lens == code_lens@,
                n == lens.len(),
                lengths_ok(lens),
                1 <= len <= 15,
                offsets@.len() == len + 1,
                code_index(lens, 16) <= n,
                len_counts@.len() == 16,
                forall|l: int| 1 <= l <= 15 ==> #[trigger] len_counts@[l] == len_count(lens, l),
                forall|l: int| 1 <= l <= len ==> #[trigger] offsets@[l] == code_index(lens, l),
            decreases MAX_BITS - len,
        {
            proof {
                lemma_code_index_monotonic(lens, len + 1, 16);
            }
            let next = offsets[len] + len_counts[len] as usize;
            offsets.push(next);
            len += 1;
        }

        let mut ordered_codes: Vec<u16> = Vec::new();
        while ordered_codes.len() < n
            invariant
                ordered_codes.len() <= n,
                forall|i: int| 0 <= i < ordered_codes.len() ==> #[trigger] ordered_codes@[i] == 0,
            decreases n - ordered_codes.len(),
        {
            ordered_codes.push(0);
        }

        let mut code: usize = 0;
        while code < n
            invariant
                lens == code_lens@,
                n == lens.len(),
                lengths_ok(lens),
                code <= n,
                code_index(lens, 16) <= n,
                ordered_codes@.len() == n,
                offsets@.len() == 16,
                forall|l: int|
                    1 <= l <= 15 ==> #[trigger] offsets@[l] == code_index(lens, l) + count_len(lens, l, code as int),
                forall|s: int|
                    0 <= s < code && lens[s] != 0 ==> ordered_codes@[code_index(lens, lens[s] as int)
                        + count_len(lens, lens[s] as int, s)] == s,
                forall|i: int| code_index(lens, 16) <= i < n ==> #[trigger] ordered_codes@[i] == 0,
            decreases n - code,
        {
            let l = code_lens[code];
            if l != 0 {
                let ghost li = l as int;
                proof {
                    lemma_count_len_strict(lens, li, code as int, n as int);
                    lemma_code_index_monotonic(lens, li + 1, 16);
                }
                let pos = offsets[l as usize];
                let ghost before = ordered_codes@;
                ordered_codes.set(pos, code as u16);
                offsets.set(l as usize, pos + 1);
                assert forall|s: int|
                    0 <= s < code + 1 && lens[s] != 0 implies ordered_codes@[code_index(lens, lens[s] as int)
                        + count_len(lens, lens[s] as int, s)] == s by {
                    if s < code {
                        let ls = lens[s] as int;
                        lemma_count_len_strict(lens, ls, s, n as int);
                        lemma_code_index_monotonic(lens, ls + 1, 16);
                        if ls == li {
                            lemma_count_len_strict(lens, li, s, code as int);
                        } else if ls < li {
                            lemma_code_index_monotonic(lens, ls + 1, li);
                        } else {
                            lemma_code_index_monotonic(lens, li + 1, ls);
                        }
                        assert(before[code_index(lens, lens[s] as int) + count_len(lens, lens[s] as int, s)] == s);
                    } else {
                        assert(s == code);
                        assert(pos == code_index(lens, lens[s] as int) + count_len(lens, lens[s] as int, s));
                        assert(ordered_codes@[pos as int] == code as u16);
                    }
                }
            }
            code += 1;
        }

        let ghost ordered = ordered_codes@;
        assert forall|l: int, j: int|
            1 <= l <= 15 && 0 <= j < len_count(lens, l) implies #[trigger] ordered[code_index(lens, l) + j]
            == symbol_of_rank(lens, l, j, 0) by {
            lemma_symbol_of_rank(lens, l, j, 0);
        }
        HuffmanTree { len_counts, ordered_codes, lens: Ghost(lens) }
    }

    /// Reads one symbol from `bitstream`: the code lengths 1 to 15 are tried
    /// in turn, reading one more bit each time.
    pub fn decode<T: Bitstream>(&self, bitstream: &mut T) -> (r: Result<u16, InflateError>)
        requires
            self.wf(),
            old(bitstream).stream_ok(),
        ensures
            final(bitstream).stream_ok(),
            final(bitstream).stream_bits() == old(bitstream).stream_bits(),
            match huffman_decode(self.code_lens(), old(bitstream).stream_bits(), old(bitstream).stream_pos()) {
                Ok((sym, p)) => r == Ok::<u16, InflateError>(sym as u16) && final(bitstream).stream_pos() == p,
                Err(e) => r == Err::<u16, InflateError>(e),
            },
    {
        let ghost lens = self.lens@;
        let ghost bits = bitstream.stream_bits();
        let ghost pos0 = bitstream.stream_pos();
        proof {
            lemma_code_index_total(lens, lens.len() as int);
            lemma_two_pow_small();
        }
        let mut code: u16 = 0;
        let mut first: u16 = 0;
        let mut index: usize = 0;
        let mut len: usize = 1;
        while len <= MAX_BITS
            invariant
                self.wf(),
                lens == self.lens@,
                bits == old(bitstream).stream_bits(),
                pos0 == old(bitstream).stream_pos(),
                code_index(lens, 16) <= lens.len(),
                1 <= len <= 16,
                bitstream.stream_ok(),
                bitstream.stream_bits() == bits,
                bitstream.stream_pos() == pos0 + len - 1,
                code as int == 2 * bits_msb(bits, pos0, (len - 1) as nat),
                first as int == first_code(lens, len as int),
                index as int == code_index(lens, len as int),
                first <= code,
                huffman_decode_at(lens, bits, pos0, len as int) == huffman_decode(lens, bits, pos0),
            decreases 16 - len,
        {
            proof {
                bitstream.lemma_stream_ok();
            }
            if bitstream.bits_remaining() == 0 {
                return Err(InflateError::Truncated);
            }
            let bit = bitstream.next_bit();
            proof {
                lemma_bits_msb_bound(bits, pos0, len as nat);
                lemma_two_pow_monotonic(len as nat, 15);
                lemma_two_pow_small();
            }
            assert(code % 2 == 0 ==> code | 1u16 == code + 1) by (bit_vector);
            assert(code | 0u16 == code) by (bit_vector);
            code = code | (if bit { 1u16 } else { 0u16 });
            assert(code as int == bits_msb(bits, pos0, len as nat));
            let count: u16 = self.len_counts[len] as u16;
            if count > code || code - count < first {
                proof {
                    lemma_code_index_monotonic(lens, len as int + 1, 16);
                    lemma_symbol_of_rank(lens, len as int, code - first, 0);
                }
                let sym = self.ordered_codes[index + (code - first) as usize];
                return Ok(sym);
            }
            proof {
                lemma_code_index_monotonic(lens, len as int + 1, 16);
            }
            index = index + count as usize;
            assert(first + count < 0x8000);
            first = first + count;
            assert(first < 0x8000 ==> first << 1u16 == 2 * first) by (bit_vector);
            first = first << 1u16;
            assert(code < 0x8000 ==> code << 1u16 == 2 * code) by (bit_vector);
            code = code << 1u16;
            len += 1;
        }
        Err(InflateError::NoCodeMatched)
    }
}

} // verus!
