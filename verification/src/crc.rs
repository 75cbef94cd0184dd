//! The CAN checksum register and its bit-serial recurrence.

use vstd::prelude::*;

verus! {

/// Generator polynomial of the CAN checksum.
pub const CAN_POLY: u16 = 0x4599;

/// Mask that keeps the fifteen bits of the register.
pub const REGISTER_MASK: u16 = 0x7FFF;

/// The register after one more bit has been shifted in.
pub open spec fn shift_in(reg: u16, bit: bool) -> u16 {
    let shifted = (reg << 1) & REGISTER_MASK;
    if bit != ((reg >> 14) & 1 == 1) {
        shifted ^ CAN_POLY
    } else {
        shifted
    }
}

/// The register after `bits` have been shifted into `reg`, first bit first.
pub open spec fn shift_in_all(reg: u16, bits: Seq<bool>) -> u16
    decreases bits.len(),
{
    if bits.len() == 0 {
        reg
    } else {
        shift_in(shift_in_all(reg, bits.drop_last()), bits.last())
    }
}

/// The checksum of a bit sequence: the register, started at zero, after
/// every bit has been shifted in.
pub open spec fn can_crc(bits: Seq<bool>) -> u16 {
    shift_in_all(0, bits)
}

/// A run of `n` zero bits.
pub open spec fn zero_bits(n: nat) -> Seq<bool> {
    Seq::new(n, |k: int| false)
}

proof fn lemma_shift_in_fits(reg: u16, bit: bool)
    by (bit_vector)
    ensures
        shift_in(reg, bit) <= REGISTER_MASK,
{
}

proof fn lemma_shift_in_zero()
    by (bit_vector)
    ensures
        shift_in(0, false) == 0,
{
}

/// A register of fifteen bits is still one of fifteen bits after any bits
/// have been shifted in.
pub proof fn lemma_register_fits(reg: u16, bits: Seq<bool>)
    requires
        reg <= REGISTER_MASK,
    ensures
        shift_in_all(reg, bits) <= REGISTER_MASK,
    decreases bits.len(),
{
    if bits.len() > 0 {
        lemma_shift_in_fits(shift_in_all(reg, bits.drop_last()), bits.last());
    }
}

/// Every checksum is a fifteen-bit value.
pub proof fn lemma_crc_fits(bits: Seq<bool>)
    ensures
        can_crc(bits) <= REGISTER_MASK,
{
    lemma_register_fits(0, bits);
}

/// A register that holds zero stays at zero for as long as zeros are
/// shifted in.
pub proof fn lemma_zero_bits_give_zero(n: nat)
    ensures
        can_crc(zero_bits(n)) == 0,
    decreases n,
{
    if n > 0 {
        lemma_zero_bits_give_zero((n - 1) as nat);
        lemma_shift_in_zero();
        assert(zero_bits(n).drop_last() =~= zero_bits((n - 1) as nat));
    }
}

/// One step of the recurrence on a machine word.
pub fn crc_step(reg: u16, bit: bool) -> (next: u16)
    ensures
        next == shift_in(reg, bit),
        next <= REGISTER_MASK,
{
    proof {
        lemma_shift_in_fits(reg, bit);
    }
    let feedback = bit ^ ((reg >> 14) & 1 == 1);
    let shifted = (reg << 1) & REGISTER_MASK;
    if feedback {
        shifted ^ CAN_POLY
    } else {
        shifted
    }
}

/// Bit-serial checksum, the definition every other path is held to.
pub fn calculate_can_crc(bits: &[bool]) -> (crc: u16)
    ensures
        crc == can_crc(bits@),
        crc <= REGISTER_MASK,
        bits@.len() == 0 ==> crc == 0,
{
    let mut reg: u16 = 0;
    let mut i: usize = 0;
    while i < bits.len()
        invariant
            i <= bits.len(),
            reg == shift_in_all(0, bits@.take(i as int)),
        decreases bits.len() - i,
    {
        proof {
            assert(bits@.take(i + 1).drop_last() =~= bits@.take(i as int));
        }
        reg = crc_step(reg, bits[i]);
        i += 1;
    }
    proof {
        assert(bits@.take(bits.len() as int) =~= bits@);
        lemma_crc_fits(bits@);
    }
    reg
}

} // verus!
