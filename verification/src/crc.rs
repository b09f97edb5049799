use vstd::prelude::*;

verus! {

/// The reversed CRC-32 polynomial used by PNG (and zlib, gzip, ...).
pub const CRC_POLYNOMIAL: u32 = 0xedb88320u32;

/// One bit step of the table construction: shift right, xoring in the
/// polynomial when the low bit was set.
pub open spec fn crc_bit_step(c: u32) -> u32 {
    if c & 1 == 1 { CRC_POLYNOMIAL ^ (c >> 1) } else { c >> 1 }
}

/// `k` bit steps applied to `c`.
pub open spec fn crc_bit_steps(c: u32, k: nat) -> u32
    decreases k,
{
    if k == 0 { c } else { crc_bit_step(crc_bit_steps(c, (k - 1) as nat)) }
}

/// Entry `n` of the CRC table: eight bit steps from `n`.
pub open spec fn crc_table_entry(n: u32) -> u32 {
    crc_bit_steps(n, 8)
}

/// Builds the 256-entry CRC table.
pub fn make_crc_table() -> (table: Vec<u32>)
    ensures
        table@.len() == 256,
        forall|n: int| 0 <= n < 256 ==> #[trigger] table@[n] == crc_table_entry(n as u32),
{
    let mut table: Vec<u32> = Vec::new();
    let mut n: u32 = 0;
    while n < 256
        invariant
            n <= 256,
            table@.len() == n,
            forall|m: int| 0 <= m < n ==> #[trigger] table@[m] == crc_table_entry(m as u32),
        decreases 256 - n,
    {
        let mut c: u32 = n;
        let mut k: u32 = 0;
        while k < 8
            invariant
                k <= 8,
                c == crc_bit_steps(n, k as nat),
            decreases 8 - k,
        {
            if c & 1 == 1 {
                c = 0xedb88320u32 ^ (c >> 1);
            } else {
                c = c >> 1;
            }
            k += 1;
        }
        table.push(c);
        n += 1;
    }
    table
}


/// One byte of the table-driven CRC update.
pub open spec fn crc_byte(crc: u32, x: u8) -> u32 {
    crc_table_entry(((crc as u8) ^ x) as u32) ^ (crc >> 8)
}

/// The running CRC after feeding the bytes of `s`, in order, to `crc`.
pub open spec fn crc_update(crc: u32, s: Seq<u8>) -> u32
    decreases s.len(),
{
    if s.len() == 0 { crc } else { crc_byte(crc_update(crc, s.drop_last()), s.last()) }
}

/// `table` is the CRC table.
pub open spec fn is_crc_table(table: Seq<u32>) -> bool {
    &&& table.len() == 256
    &&& forall|n: int| 0 <= n < 256 ==> #[trigger] table[n] == crc_table_entry(n as u32)
}

/// Feeds the bytes of `buff` to the running CRC `curr_crc`.
pub fn update_crc(curr_crc: &mut u32, buff: &[u8])
    ensures
        *final(curr_crc) == crc_update(*old(curr_crc), buff@),
{
    let table = make_crc_table();
    update_crc_with_table(&table, curr_crc, buff);
}

/// Feeds the bytes of `buff` to the running CRC `curr_crc`, with a CRC
/// table built before.
pub fn update_crc_with_table(table: &Vec<u32>, curr_crc: &mut u32, buff: &[u8])
    requires
        is_crc_table(table@),
    ensures
        *final(curr_crc) == crc_update(*old(curr_crc), buff@),
{
    let ghost start = *curr_crc;
    let mut i: usize = 0;
    while i < buff.len()
        invariant
            i <= buff@.len(),
            is_crc_table(table@),
            *curr_crc == crc_update(start, buff@.take(i as int)),
        decreases buff@.len() - i,
    {
        let x = buff[i];
        let idx: u8 = ((*curr_crc as u8) ^ x) & 0xff;
        assert(((*curr_crc as u8) ^ x) & 0xff == (*curr_crc as u8) ^ x) by (bit_vector);
        *curr_crc = table[idx as usize] ^ (*curr_crc >> 8);
        assert(buff@.take(i + 1).drop_last() =~= buff@.take(i as int));
        i += 1;
    }
    assert(buff@.take(i as int) =~= buff@);
}

/// Feeding two byte strings one after the other gives the same CRC as
/// feeding their concatenation at once.
pub proof fn lemma_crc_update_concat(crc: u32, a: Seq<u8>, b: Seq<u8>)
    ensures
        crc_update(crc, a + b) == crc_update(crc_update(crc, a), b),
    decreases b.len(),
{
    if b.len() == 0 {
        assert(a + b =~= a);
    } else {
        lemma_crc_update_concat(crc, a, b.drop_last());
        assert((a + b).drop_last() =~= a + b.drop_last());
        assert((a + b).last() == b.last());
    }
}

} // verus!
