//! Powers of two, bit counts and alignment.

use vstd::prelude::*;

verus! {

/// The number of one bits in the binary representation of `x`.
pub open spec fn ones(x: nat) -> nat
    decreases x,
{
    if x == 0 {
        0
    } else {
        x % 2 + ones(x / 2)
    }
}

/// Whether `x` is one of the 32 powers of two that a `u32` can hold.
pub open spec fn is_power_of_two(x: u32) -> bool {
    exists|k: nat| k < 32 && x == #[trigger] vstd::arithmetic::power2::pow2(k)
}

/// The largest multiple of `unit` that is not above `x`.
pub open spec fn align_down(x: int, unit: int) -> int {
    x - x % unit
}

/// `u32::count_ones` returns the number of one bits of its argument.
pub assume_specification[ u32::count_ones ](x: u32) -> (r: u32)
    ensures
        r == ones(x as nat),
;

proof fn lemma_ones_zero(x: nat)
    ensures
        ones(x) == 0 <==> x == 0,
    decreases x,
{
    if x > 0 {
        lemma_ones_zero(x / 2);
    }
}

proof fn lemma_single_one_is_power(x: nat) -> (k: nat)
    requires
        ones(x) == 1,
    ensures
        x == vstd::arithmetic::power2::pow2(k),
    decreases x,
{
    if x % 2 == 1 {
        lemma_ones_zero(x / 2);
        vstd::arithmetic::power2::lemma2_to64();
        0
    } else {
        let half = lemma_single_one_is_power(x / 2);
        vstd::arithmetic::power2::lemma_pow2_unfold(half + 1);
        half + 1
    }
}

proof fn lemma_power_has_single_one(k: nat)
    ensures
        ones(vstd::arithmetic::power2::pow2(k)) == 1,
    decreases k,
{
    vstd::arithmetic::power2::lemma2_to64();
    if k == 0 {
        reveal_with_fuel(ones, 3);
    } else {
        lemma_power_has_single_one((k - 1) as nat);
        vstd::arithmetic::power2::lemma_pow2_unfold(k);
        vstd::arithmetic::power2::lemma_pow2_pos(k);
    }
}

/// A `u32` has exactly one bit set precisely when it is a power of two.
/// In particular zero has no bit set and is rejected with the rest.
pub proof fn single_bit_is_power_of_two(x: u32)
    ensures
        ones(x as nat) == 1 <==> is_power_of_two(x),
{
    if ones(x as nat) == 1 {
        let k = lemma_single_one_is_power(x as nat);
        if k >= 32 {
            vstd::arithmetic::power2::lemma2_to64();
            if k > 32 {
                vstd::arithmetic::power2::lemma_pow2_strictly_increases(32, k);
            }
        }
    }
    if is_power_of_two(x) {
        let k = choose|k: nat| k < 32 && x == #[trigger] vstd::arithmetic::power2::pow2(k);
        lemma_power_has_single_one(k);
    }
}

/// A power of two is positive and divides the size of the address space.
pub proof fn lemma_power_of_two_divides(x: u32)
    requires
        is_power_of_two(x),
    ensures
        x > 0,
        0x1_0000_0000int % (x as int) == 0,
{
    let k = choose|k: nat| k < 32 && x == #[trigger] vstd::arithmetic::power2::pow2(k);
    vstd::arithmetic::power2::lemma_pow2_pos(k);
    let j = (32 - k) as nat;
    vstd::arithmetic::power2::lemma_pow2_adds(k, j);
    vstd::arithmetic::power2::lemma2_to64();
    vstd::arithmetic::div_mod::lemma_mod_multiples_basic(
        vstd::arithmetic::power2::pow2(j) as int,
        x as int,
    );
    assert(0x1_0000_0000int == vstd::arithmetic::power2::pow2(j) * x) by (nonlinear_arith)
        requires
            0x1_0000_0000int == x * vstd::arithmetic::power2::pow2(j),
    ;
}

/// Clearing the bits below a power of two rounds down to a multiple of it.
pub proof fn lemma_mask_aligns(x: u64, unit: u32)
    requires
        is_power_of_two(unit),
    ensures
        (x & !((unit as u64 - 1) as u64)) as int == align_down(x as int, unit as int),
        x & !((unit as u64 - 1) as u64) <= x,
{
    let k = choose|k: nat| k < 32 && unit == #[trigger] vstd::arithmetic::power2::pow2(k);
    vstd::arithmetic::power2::lemma_pow2_pos(k);
    vstd::bits::lemma_u64_low_bits_mask_is_mod(x, k);
    vstd::bits::lemma_low_bits_mask_values();
    let m = (unit as u64 - 1) as u64;
    assert(vstd::bits::low_bits_mask(k) == m) by {
        reveal(vstd::bits::low_bits_mask);
    }
    assert((x & !m) == x - (x & m) && (x & !m) <= x) by (bit_vector);
}

/// The bits below a power of two are the remainder of dividing by it.
pub proof fn lemma_mask_is_remainder(x: u32, unit: u32)
    requires
        is_power_of_two(unit),
    ensures
        x & ((unit - 1) as u32) == x % unit,
{
    let k = choose|k: nat| k < 32 && unit == #[trigger] vstd::arithmetic::power2::pow2(k);
    vstd::arithmetic::power2::lemma_pow2_pos(k);
    vstd::bits::lemma_u32_low_bits_mask_is_mod(x, k);
    assert(vstd::bits::low_bits_mask(k) == unit - 1) by {
        reveal(vstd::bits::low_bits_mask);
    }
}

/// Doubling a number keeps its one bits, and adding one to that adds one bit.
pub proof fn ones_are_counted_bit_by_bit(x: nat)
    ensures
        ones(0) == 0,
        ones(2 * x) == ones(x),
        ones(2 * x + 1) == ones(x) + 1,
{
    assert(ones(2 * x + 1) == (2 * x + 1) % 2 + ones((2 * x + 1) / 2));
    if x > 0 {
        assert(ones(2 * x) == (2 * x) % 2 + ones((2 * x) / 2));
    }
}

/// A number is a power of two exactly where it is positive and has no bit in common with its
/// predecessor.
pub proof fn power_of_two_clears_with_its_predecessor(x: u32)
    ensures
        is_power_of_two(x) <==> x > 0 && x & ((x - 1) as u32) == 0,
{
    vstd::arithmetic::power2::lemma2_to64();
    if is_power_of_two(x) {
        let k = choose|k: nat| k < 32 && x == #[trigger] vstd::arithmetic::power2::pow2(k);
        assert(x == 0x1 || x == 0x2 || x == 0x4 || x == 0x8 || x == 0x10 || x == 0x20 || x == 0x40
            || x == 0x80 || x == 0x100 || x == 0x200 || x == 0x400 || x == 0x800 || x == 0x1000
            || x == 0x2000 || x == 0x4000 || x == 0x8000 || x == 0x1_0000 || x == 0x2_0000 || x
            == 0x4_0000 || x == 0x8_0000 || x == 0x10_0000 || x == 0x20_0000 || x == 0x40_0000
            || x == 0x80_0000 || x == 0x100_0000 || x == 0x200_0000 || x == 0x400_0000 || x
            == 0x800_0000 || x == 0x1000_0000 || x == 0x2000_0000 || x == 0x4000_0000 || x
            == 0x8000_0000);
        assert(x & ((x - 1) as u32) == 0) by (bit_vector)
            requires
                x == 0x1 || x == 0x2 || x == 0x4 || x == 0x8 || x == 0x10 || x == 0x20 || x
                    == 0x40 || x == 0x80 || x == 0x100 || x == 0x200 || x == 0x400 || x == 0x800
                    || x == 0x1000 || x == 0x2000 || x == 0x4000 || x == 0x8000 || x == 0x1_0000
                    || x == 0x2_0000 || x == 0x4_0000 || x == 0x8_0000 || x == 0x10_0000 || x
                    == 0x20_0000 || x == 0x40_0000 || x == 0x80_0000 || x == 0x100_0000 || x
                    == 0x200_0000 || x == 0x400_0000 || x == 0x800_0000 || x == 0x1000_0000 || x
                    == 0x2000_0000 || x == 0x4000_0000 || x == 0x8000_0000,
        ;
    }
    if x > 0 && x & ((x - 1) as u32) == 0 {
        lemma_power_from_bits(x);
    }
}

/// Halving an even number that has no bit in common with its predecessor gives another one.
proof fn lemma_power_from_bits(x: u32) -> (k: nat)
    requires
        x > 0,
        x & ((x - 1) as u32) == 0,
    ensures
        x == vstd::arithmetic::power2::pow2(k),
        k < 32,
    decreases x,
{
    vstd::arithmetic::power2::lemma2_to64();
    if x == 1 {
        0
    } else {
        assert(x % 2 == 0 && x / 2 > 0 && (x / 2) & ((x / 2 - 1) as u32) == 0) by (bit_vector)
            requires
                x > 1,
                x & ((x - 1) as u32) == 0,
        ;
        let half = lemma_power_from_bits(x / 2);
        vstd::arithmetic::power2::lemma_pow2_unfold(half + 1);
        if half == 31 {
            assert(false);
        }
        half + 1
    }
}

/// The aligned value is the one multiple of the unit that is not above `x` and less than one
/// unit below it.
pub proof fn aligned_value_is_the_multiple_below(x: int, unit: int, y: int)
    requires
        unit > 0,
    ensures
        y == align_down(x, unit) <==> y % unit == 0 && y <= x < y + unit,
{
    vstd::arithmetic::div_mod::lemma_fundamental_div_mod(x, unit);
    vstd::arithmetic::div_mod::lemma_mod_bound(x, unit);
    let a = x / unit;
    vstd::arithmetic::div_mod::lemma_mod_multiples_basic(a, unit);
    assert(align_down(x, unit) == a * unit) by (nonlinear_arith)
        requires
            x == unit * a + x % unit,
            align_down(x, unit) == x - x % unit,
    ;
    if y % unit == 0 && y <= x < y + unit {
        vstd::arithmetic::div_mod::lemma_fundamental_div_mod(y, unit);
        let b = y / unit;
        assert(unit * b == b * unit) by (nonlinear_arith);
        vstd::arithmetic::div_mod::lemma_fundamental_div_mod_converse(x, unit, b, x - y);
    }
}

} // verus!
