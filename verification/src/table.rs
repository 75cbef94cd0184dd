//! Byte-at-a-time checksum through a table of 256 transitions, and the proof
//! that it computes what the bit-serial recurrence computes.

use vstd::prelude::*;
use crate::codec::{bit_of, expand_bytes};
use crate::crc::{
    can_crc, crc_step, lemma_crc_fits, shift_in, shift_in_all, zero_bits, REGISTER_MASK,
};

verus! {

/// Eight steps of the recurrence, one for each given bit.
pub open spec fn shift_in_eight(
    reg: u16,
    b0: bool,
    b1: bool,
    b2: bool,
    b3: bool,
    b4: bool,
    b5: bool,
    b6: bool,
    b7: bool,
) -> u16 {
    shift_in(
        shift_in(
            shift_in(
                shift_in(shift_in(shift_in(shift_in(shift_in(reg, b0), b1), b2), b3), b4),
                b5,
            ),
            b6,
        ),
        b7,
    )
}

/// The table's value for one byte: the byte, placed in the top eight bits
/// of the register, after eight zero bits have been shifted in.
pub open spec fn table_entry(byte: u8) -> u16 {
    shift_in_all((byte as u16) << 7, zero_bits(8))
}

/// The whole table, indexed by byte value.
pub open spec fn transition_table() -> Seq<u16> {
    Seq::new(256, |b: int| table_entry(b as u8))
}

/// The register after one whole byte, by table lookup.
pub open spec fn byte_step(reg: u16, byte: u8) -> u16 {
    ((reg << 8) ^ table_entry(((reg >> 7) ^ (byte as u16)) as u8)) & REGISTER_MASK
}

/// The byte whose leading bits are the first `n` of `bits`, most
/// significant first, and whose other bits are zero.
pub open spec fn pack_msb_first(bits: Seq<bool>, n: nat) -> u8
    decreases n,
{
    if n == 0 {
        0u8
    } else {
        let rest = pack_msb_first(bits, (n - 1) as nat);
        if bits[n - 1] {
            rest | (1u8 << ((8 - n) as u8))
        } else {
            rest
        }
    }
}

/// Byte number `k` of a bit sequence.
pub open spec fn byte_at(bits: Seq<bool>, k: int) -> u8 {
    pack_msb_first(bits.subrange(8 * k, 8 * k + 8), 8)
}

/// The register after the first `n` whole bytes of `bits` have gone
/// through the table.
pub open spec fn shift_in_bytes(reg: u16, bits: Seq<bool>, n: nat) -> u16
    decreases n,
{
    if n == 0 {
        reg
    } else {
        byte_step(shift_in_bytes(reg, bits, (n - 1) as nat), byte_at(bits, n - 1))
    }
}

/// The checksum as the table-driven path computes it: whole bytes through
/// the table, then the bits that are left one at a time.
pub open spec fn can_crc_by_table(bits: Seq<bool>) -> u16 {
    let whole = bits.len() / 8;
    shift_in_all(shift_in_bytes(0, bits, whole), bits.skip(8 * whole as int))
}

/// The 256 precomputed transitions. A value of this type always holds
/// exactly `transition_table()`.
pub struct CrcTable {
    entries: Vec<u16>,
}

impl View for CrcTable {
    type V = Seq<u16>;

    closed spec fn view(&self) -> Seq<u16> {
        self.entries@
    }
}

impl CrcTable {
    #[verifier::type_invariant]
    spec fn holds_the_table(&self) -> bool {
        self.entries@ == transition_table()
    }

    /// The transition stored for `byte`.
    pub fn entry(&self, byte: u8) -> (value: u16)
        ensures
            value == table_entry(byte),
            self@ == transition_table(),
    {
        proof {
            use_type_invariant(self);
        }
        self.entries[byte as usize]
    }
}

proof fn lemma_shift_in_all_push(reg: u16, bits: Seq<bool>, bit: bool)
    ensures
        shift_in_all(reg, bits.push(bit)) == shift_in(shift_in_all(reg, bits), bit),
{
    assert(bits.push(bit).drop_last() =~= bits);
}

/// Shifting in a concatenation is shifting in its parts in turn.
pub proof fn lemma_shift_in_all_concat(reg: u16, head: Seq<bool>, tail: Seq<bool>)
    ensures
        shift_in_all(reg, head + tail) == shift_in_all(shift_in_all(reg, head), tail),
    decreases tail.len(),
{
    if tail.len() == 0 {
        assert(head + tail =~= head);
    } else {
        lemma_shift_in_all_concat(reg, head, tail.drop_last());
        assert((head + tail).drop_last() =~= head + tail.drop_last());
    }
}

proof fn lemma_shift_in_all_eight(reg: u16, bits: Seq<bool>)
    requires
        bits.len() == 8,
    ensures
        shift_in_all(reg, bits) == shift_in_eight(
            reg,
            bits[0],
            bits[1],
            bits[2],
            bits[3],
            bits[4],
            bits[5],
            bits[6],
            bits[7],
        ),
{
    let t1 = Seq::<bool>::empty().push(bits[0]);
    let t2 = t1.push(bits[1]);
    let t3 = t2.push(bits[2]);
    let t4 = t3.push(bits[3]);
    let t5 = t4.push(bits[4]);
    let t6 = t5.push(bits[5]);
    let t7 = t6.push(bits[6]);
    let t8 = t7.push(bits[7]);
    lemma_shift_in_all_push(reg, Seq::<bool>::empty(), bits[0]);
    lemma_shift_in_all_push(reg, t1, bits[1]);
    lemma_shift_in_all_push(reg, t2, bits[2]);
    lemma_shift_in_all_push(reg, t3, bits[3]);
    lemma_shift_in_all_push(reg, t4, bits[4]);
    lemma_shift_in_all_push(reg, t5, bits[5]);
    lemma_shift_in_all_push(reg, t6, bits[6]);
    lemma_shift_in_all_push(reg, t7, bits[7]);
    assert(t8 =~= bits);
}

proof fn lemma_byte_step_unrolled(reg: u16, byte: u8, entry: u16, next: u16)
    by (bit_vector)
    requires
        entry == shift_in_eight(
            ((((reg >> 7) ^ (byte as u16)) as u8) as u16) << 7,
            false,
            false,
            false,
            false,
            false,
            false,
            false,
            false,
        ),
        next == ((reg << 8) ^ entry) & REGISTER_MASK,
    ensures
        next == shift_in_eight(
            reg,
            (byte >> 7u8) & 1 == 1,
            (byte >> 6u8) & 1 == 1,
            (byte >> 5u8) & 1 == 1,
            (byte >> 4u8) & 1 == 1,
            (byte >> 3u8) & 1 == 1,
            (byte >> 2u8) & 1 == 1,
            (byte >> 1u8) & 1 == 1,
            (byte >> 0u8) & 1 == 1,
        ),
{
}

proof fn lemma_packed_bits(
    b0: bool,
    b1: bool,
    b2: bool,
    b3: bool,
    b4: bool,
    b5: bool,
    b6: bool,
    b7: bool,
    acc1: u8,
    acc2: u8,
    acc3: u8,
    acc4: u8,
    acc5: u8,
    acc6: u8,
    acc7: u8,
    acc8: u8,
)
    by (bit_vector)
    requires
        acc1 == (if b0 { 0u8 | (1u8 << 7u8) } else { 0u8 }),
        acc2 == (if b1 { acc1 | (1u8 << 6u8) } else { acc1 }),
        acc3 == (if b2 { acc2 | (1u8 << 5u8) } else { acc2 }),
        acc4 == (if b3 { acc3 | (1u8 << 4u8) } else { acc3 }),
        acc5 == (if b4 { acc4 | (1u8 << 3u8) } else { acc4 }),
        acc6 == (if b5 { acc5 | (1u8 << 2u8) } else { acc5 }),
        acc7 == (if b6 { acc6 | (1u8 << 1u8) } else { acc6 }),
        acc8 == (if b7 { acc7 | (1u8 << 0u8) } else { acc7 }),
    ensures
        ((acc8 >> 7u8) & 1 == 1) == b0,
        ((acc8 >> 6u8) & 1 == 1) == b1,
        ((acc8 >> 5u8) & 1 == 1) == b2,
        ((acc8 >> 4u8) & 1 == 1) == b3,
        ((acc8 >> 3u8) & 1 == 1) == b4,
        ((acc8 >> 2u8) & 1 == 1) == b5,
        ((acc8 >> 1u8) & 1 == 1) == b6,
        ((acc8 >> 0u8) & 1 == 1) == b7,
{
}

/// One table lookup does what eight bit steps do, for the bits that the
/// byte was packed from.
pub proof fn lemma_byte_step_is_eight_bit_steps(reg: u16, bits: Seq<bool>)
    requires
        bits.len() == 8,
    ensures
        byte_step(reg, pack_msb_first(bits, 8)) == shift_in_all(reg, bits),
{
    let acc1 = pack_msb_first(bits, 1);
    let acc2 = pack_msb_first(bits, 2);
    let acc3 = pack_msb_first(bits, 3);
    let acc4 = pack_msb_first(bits, 4);
    let acc5 = pack_msb_first(bits, 5);
    let acc6 = pack_msb_first(bits, 6);
    let acc7 = pack_msb_first(bits, 7);
    let acc8 = pack_msb_first(bits, 8);
    assert(pack_msb_first(bits, 0) == 0u8);
    lemma_packed_bits(
        bits[0],
        bits[1],
        bits[2],
        bits[3],
        bits[4],
        bits[5],
        bits[6],
        bits[7],
        acc1,
        acc2,
        acc3,
        acc4,
        acc5,
        acc6,
        acc7,
        acc8,
    );
    let index = ((reg >> 7) ^ (acc8 as u16)) as u8;
    let entry = table_entry(index);
    lemma_shift_in_all_eight((index as u16) << 7, zero_bits(8));
    lemma_byte_step_unrolled(reg, acc8, entry, byte_step(reg, acc8));
    lemma_shift_in_all_eight(reg, bits);
}

proof fn lemma_packed_own_bits(
    byte: u8,
    acc1: u8,
    acc2: u8,
    acc3: u8,
    acc4: u8,
    acc5: u8,
    acc6: u8,
    acc7: u8,
    acc8: u8,
)
    by (bit_vector)
    requires
        acc1 == (if (byte >> 7u8) & 1 == 1 { 0u8 | (1u8 << 7u8) } else { 0u8 }),
        acc2 == (if (byte >> 6u8) & 1 == 1 { acc1 | (1u8 << 6u8) } else { acc1 }),
        acc3 == (if (byte >> 5u8) & 1 == 1 { acc2 | (1u8 << 5u8) } else { acc2 }),
        acc4 == (if (byte >> 4u8) & 1 == 1 { acc3 | (1u8 << 4u8) } else { acc3 }),
        acc5 == (if (byte >> 3u8) & 1 == 1 { acc4 | (1u8 << 3u8) } else { acc4 }),
        acc6 == (if (byte >> 2u8) & 1 == 1 { acc5 | (1u8 << 2u8) } else { acc5 }),
        acc7 == (if (byte >> 1u8) & 1 == 1 { acc6 | (1u8 << 1u8) } else { acc6 }),
        acc8 == (if (byte >> 0u8) & 1 == 1 { acc7 | (1u8 << 0u8) } else { acc7 }),
    ensures
        acc8 == byte,
{
}

/// The table path reads the bits that bytes were expanded into as those
/// bytes: byte `k` of the expansion is byte `k`.
pub proof fn lemma_byte_at_expanded(bytes: Seq<u8>, k: int)
    requires
        0 <= k < bytes.len(),
    ensures
        byte_at(expand_bytes(bytes), k) == bytes[k],
{
    let chunk = expand_bytes(bytes).subrange(8 * k, 8 * k + 8);
    let byte = bytes[k];
    assert forall|j: int| 0 <= j < 8 implies #[trigger] chunk[j] == bit_of(byte, j) by {
        assert(chunk[j] == expand_bytes(bytes)[8 * k + j]);
        assert((8 * k + j) / 8 == k);
        assert((8 * k + j) % 8 == j);
    }
    assert(chunk[0] == bit_of(byte, 0));
    assert(chunk[1] == bit_of(byte, 1));
    assert(chunk[2] == bit_of(byte, 2));
    assert(chunk[3] == bit_of(byte, 3));
    assert(chunk[4] == bit_of(byte, 4));
    assert(chunk[5] == bit_of(byte, 5));
    assert(chunk[6] == bit_of(byte, 6));
    assert(chunk[7] == bit_of(byte, 7));
    assert(pack_msb_first(chunk, 0) == 0u8);
    lemma_packed_own_bits(
        byte,
        pack_msb_first(chunk, 1),
        pack_msb_first(chunk, 2),
        pack_msb_first(chunk, 3),
        pack_msb_first(chunk, 4),
        pack_msb_first(chunk, 5),
        pack_msb_first(chunk, 6),
        pack_msb_first(chunk, 7),
        pack_msb_first(chunk, 8),
    );
}

/// The table takes the first `n` whole bytes to where the recurrence takes
/// the first `8 * n` bits.
pub proof fn lemma_shift_in_bytes(reg: u16, bits: Seq<bool>, n: nat)
    requires
        8 * n <= bits.len(),
    ensures
        shift_in_bytes(reg, bits, n) == shift_in_all(reg, bits.take(8 * n as int)),
    decreases n,
{
    if n == 0 {
        assert(bits.take(0) =~= Seq::<bool>::empty());
    } else {
        let m = (n - 1) as nat;
        lemma_shift_in_bytes(reg, bits, m);
        let head = bits.take(8 * m as int);
        let byte = bits.subrange(8 * m as int, 8 * m as int + 8);
        lemma_byte_step_is_eight_bit_steps(shift_in_all(reg, head), byte);
        lemma_shift_in_all_concat(reg, head, byte);
        assert(head + byte =~= bits.take(8 * n as int));
    }
}

/// The table-driven path and the bit-serial recurrence give the same
/// checksum for every bit sequence.
pub proof fn lemma_table_path_agrees(bits: Seq<bool>)
    ensures
        can_crc_by_table(bits) == can_crc(bits),
{
    let whole = bits.len() / 8;
    lemma_shift_in_bytes(0, bits, whole);
    lemma_shift_in_all_concat(0, bits.take(8 * whole as int), bits.skip(8 * whole as int));
    assert(bits.take(8 * whole as int) + bits.skip(8 * whole as int) =~= bits);
}

/// Builds the table: for each byte value, eight zero-input steps of the
/// recurrence from the byte placed at the top of the register.
pub fn generate_crc_table() -> (table: CrcTable)
    ensures
        table@ == transition_table(),
{
    let mut entries: Vec<u16> = Vec::with_capacity(256);
    let mut i: u16 = 0;
    while i < 256
        invariant
            i <= 256,
            entries@.len() == i,
            forall|b: int| 0 <= b < i ==> entries@[b] == table_entry(b as u8),
        decreases 256 - i,
    {
        let start: u16 = i << 7;
        let mut crc: u16 = start;
        let mut j: u8 = 0;
        while j < 8
            invariant
                j <= 8,
                crc == shift_in_all(start, zero_bits(j as nat)),
            decreases 8 - j,
        {
            proof {
                assert(zero_bits((j + 1) as nat).drop_last() =~= zero_bits(j as nat));
            }
            crc = crc_step(crc, false);
            j += 1;
        }
        assert((i as u8) as u16 == i);
        entries.push(crc);
        i += 1;
    }
    assert(entries@ =~= transition_table());
    CrcTable { entries }
}

/// Table-driven checksum: whole bytes through `table`, most significant
/// bit first, then the remaining bits one at a time.
pub fn calculate_can_crc_optimized(bits: &[bool], table: &CrcTable) -> (crc: u16)
    ensures
        crc == can_crc_by_table(bits@),
        crc == can_crc(bits@),
        crc <= REGISTER_MASK,
        bits@.len() == 0 ==> crc == 0,
{
    let mut reg: u16 = 0;
    let full_bytes = bits.len() / 8;
    let mut i: usize = 0;
    while i < full_bytes
        invariant
            i <= full_bytes,
            full_bytes == bits.len() / 8,
            reg == shift_in_bytes(0, bits@, i as nat),
        decreases full_bytes - i,
    {
        let ghost chunk = bits@.subrange(8 * i, 8 * i + 8);
        let mut byte: u8 = 0;
        let mut j: u8 = 0;
        while j < 8
            invariant
                j <= 8,
                i < full_bytes,
                full_bytes == bits.len() / 8,
                chunk == bits@.subrange(8 * i, 8 * i + 8),
                byte == pack_msb_first(chunk, j as nat),
            decreases 8 - j,
        {
            if bits[i * 8 + j as usize] {
                byte |= 1u8 << (7 - j);
            }
            j += 1;
        }
        let index = ((reg >> 7) ^ (byte as u16)) as u8;
        reg = ((reg << 8) ^ table.entry(index)) & REGISTER_MASK;
        i += 1;
    }
    let ghost after_bytes = reg;
    let mut k: usize = full_bytes * 8;
    while k < bits.len()
        invariant
            full_bytes * 8 <= k <= bits.len(),
            reg == shift_in_all(after_bytes, bits@.subrange(full_bytes * 8, k as int)),
        decreases bits.len() - k,
    {
        proof {
            assert(bits@.subrange(full_bytes * 8, k + 1).drop_last() =~= bits@.subrange(
                full_bytes * 8,
                k as int,
            ));
        }
        reg = crc_step(reg, bits[k]);
        k += 1;
    }
    proof {
        assert(bits@.subrange(full_bytes * 8, bits.len() as int) =~= bits@.skip(8 * full_bytes as int));
        lemma_table_path_agrees(bits@);
        lemma_crc_fits(bits@);
    }
    reg
}

} // verus!
