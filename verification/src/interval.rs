//! The split of the 32-bit address space into one interval per thread.

use vstd::prelude::*;

use crate::bits;

verus! {

/// A closed range of candidate base addresses.
#[derive(Debug, Clone, Copy, PartialEq, Eq, Structural)]
pub struct Interval {
    pub start_addr: u32,
    pub end_addr: u32,
}

/// The share of the address space that each of `threads` threads gets, rounded up.
pub open spec fn share(threads: int) -> int {
    (u32::MAX + threads - 1) / threads
}

/// Where the interval `index` of `threads` starts: its share, aligned down to
/// `offset` and reduced to 32 bits.
pub open spec fn start_of(index: int, threads: int, offset: int) -> int {
    bits::align_down(index * share(threads), offset) % 0x1_0000_0000
}

/// Where the interval `index` of `threads` ends: at the aligned start of the
/// next share, or at the last address where the shares reach it.
pub open spec fn end_of(index: int, threads: int, offset: int) -> int {
    if (index + 1) * share(threads) >= u32::MAX {
        u32::MAX as int
    } else {
        bits::align_down((index + 1) * share(threads), offset)
    }
}

proof fn lemma_share_bounds(index: int, threads: int)
    requires
        0 <= index < threads,
    ensures
        1 <= share(threads),
        0 <= index * share(threads),
        index * share(threads) + share(threads) == (index + 1) * share(threads),
        (index + 1) * share(threads) <= threads * share(threads),
        u32::MAX <= threads * share(threads) <= u32::MAX + threads - 1,
{
    let total = u32::MAX + threads - 1;
    let each = share(threads);
    vstd::arithmetic::div_mod::lemma_fundamental_div_mod(total, threads);
    vstd::arithmetic::div_mod::lemma_mod_bound(total, threads);
    assert(1 <= each) by (nonlinear_arith)
        requires
            threads > 0,
            total == threads * each + total % threads,
            total >= threads,
            0 <= total % threads < threads,
    ;
    assert(0 <= index * each) by (nonlinear_arith)
        requires
            0 <= index,
            1 <= each,
    ;
    assert(index * each + each == (index + 1) * each) by (nonlinear_arith);
    assert((index + 1) * each <= threads * each) by (nonlinear_arith)
        requires
            index + 1 <= threads,
            1 <= each,
    ;
}

proof fn lemma_align_down(x: int, y: int, unit: int)
    requires
        0 <= x <= y,
        unit > 0,
    ensures
        0 <= bits::align_down(x, unit) <= x,
        bits::align_down(x, unit) % unit == 0,
        bits::align_down(x, unit) <= bits::align_down(y, unit),
        x % unit == 0 ==> x <= bits::align_down(y, unit),
{
    vstd::arithmetic::div_mod::lemma_fundamental_div_mod(x, unit);
    vstd::arithmetic::div_mod::lemma_fundamental_div_mod(y, unit);
    vstd::arithmetic::div_mod::lemma_mod_bound(x, unit);
    vstd::arithmetic::div_mod::lemma_mod_bound(y, unit);
    vstd::arithmetic::div_mod::lemma_div_is_ordered(x, y, unit);
    let a = x / unit;
    let b = y / unit;
    assert(bits::align_down(x, unit) == a * unit) by (nonlinear_arith)
        requires
            x == unit * a + x % unit,
            bits::align_down(x, unit) == x - x % unit,
    ;
    vstd::arithmetic::div_mod::lemma_mod_multiples_basic(a, unit);
    assert(unit * a <= unit * b) by (nonlinear_arith)
        requires
            a <= b,
            unit > 0,
    ;
    assert(0 <= unit * a) by (nonlinear_arith)
        requires
            0 <= x,
            unit > 0,
            a == x / unit,
    ;
}

/// Every interval starts at a multiple of the offset and does not end before it starts.
pub proof fn interval_is_ordered(index: int, threads: int, offset: u32)
    requires
        0 <= index < threads,
        bits::is_power_of_two(offset),
    ensures
        0 <= start_of(index, threads, offset as int) <= end_of(index, threads, offset as int)
            <= u32::MAX,
        start_of(index, threads, offset as int) % (offset as int) == 0,
{
    let o = offset as int;
    bits::lemma_power_of_two_divides(offset);
    lemma_share_bounds(index, threads);
    let first = index * share(threads);
    let next = (index + 1) * share(threads);
    lemma_align_down(first, next, o);
    lemma_align_down(next, next, o);
    let aligned = bits::align_down(first, o);
    // Reducing to 32 bits keeps a multiple of the offset one.
    let q = 0x1_0000_0000int / o;
    vstd::arithmetic::div_mod::lemma_fundamental_div_mod(0x1_0000_0000, o);
    assert(0x1_0000_0000int == o * q);
    vstd::arithmetic::div_mod::lemma_fundamental_div_mod(aligned, 0x1_0000_0000);
    let wraps = aligned / 0x1_0000_0000;
    assert(start_of(index, threads, o) == aligned + o * (-(q * wraps))) by (nonlinear_arith)
        requires
            aligned == 0x1_0000_0000int * wraps + start_of(index, threads, o),
            0x1_0000_0000int == o * q,
    ;
    vstd::arithmetic::div_mod::lemma_mod_multiples_vanish(-(q * wraps), aligned, o);
}

/// Together the intervals reach from the first address to the last.
pub proof fn intervals_span_the_address_space(threads: int, offset: u32)
    requires
        0 < threads,
        bits::is_power_of_two(offset),
    ensures
        start_of(0, threads, offset as int) == 0,
        end_of(threads - 1, threads, offset as int) == u32::MAX,
{
    bits::lemma_power_of_two_divides(offset);
    lemma_share_bounds(threads - 1, threads);
    assert(0 * share(threads) == 0);
    vstd::arithmetic::div_mod::lemma_small_mod(0, offset as nat);
}

/// Where an interval does not reach the last address, the next one starts where it ends.
pub proof fn neighbouring_intervals_meet(index: int, threads: int, offset: u32)
    requires
        0 <= index,
        index + 1 < threads,
        bits::is_power_of_two(offset),
    ensures
        end_of(index, threads, offset as int) == u32::MAX || end_of(index, threads, offset as int)
            == start_of(index + 1, threads, offset as int),
{
    bits::lemma_power_of_two_divides(offset);
    lemma_share_bounds(index, threads);
    let next = (index + 1) * share(threads);
    lemma_align_down(next, next, offset as int);
    if next < u32::MAX {
        vstd::arithmetic::div_mod::lemma_small_mod(
            bits::align_down(next, offset as int) as nat,
            0x1_0000_0000,
        );
    }
}

/// Every candidate address, that is every multiple of the offset, lies in some interval.
pub proof fn every_candidate_is_covered(addr: u32, threads: int, offset: u32) -> (index: int)
    requires
        0 < threads,
        bits::is_power_of_two(offset),
        addr % offset == 0,
    ensures
        0 <= index < threads,
        start_of(index, threads, offset as int) <= addr <= end_of(index, threads, offset as int),
{
    let o = offset as int;
    let a = addr as int;
    bits::lemma_power_of_two_divides(offset);
    lemma_share_bounds(0, threads);
    let each = share(threads);
    vstd::arithmetic::div_mod::lemma_fundamental_div_mod(a, each);
    vstd::arithmetic::div_mod::lemma_mod_bound(a, each);
    assert(0 <= a / each) by (nonlinear_arith)
        requires
            0 <= a,
            1 <= each,
    ;
    let index = if a / each < threads {
        a / each
    } else {
        threads - 1
    };
    lemma_share_bounds(index, threads);
    let first = index * each;
    let next = (index + 1) * each;
    assert(each * (a / each) == (a / each) * each) by (nonlinear_arith);
    if a / each >= threads {
        assert(threads * each <= (a / each) * each) by (nonlinear_arith)
            requires
                threads <= a / each,
                1 <= each,
        ;
    }
    assert(first <= a);
    lemma_align_down(first, a, o);
    vstd::arithmetic::div_mod::lemma_small_mod(
        bits::align_down(first, o) as nat,
        0x1_0000_0000,
    );
    if next < u32::MAX {
        lemma_align_down(a, next, o);
    }
    index
}

impl Interval {
    /// The interval that the thread `index` out of `max_threads` scans in steps of `offset`.
    pub fn get_range(index: usize, max_threads: usize, offset: u32) -> (r: Result<
        Interval,
        &'static str,
    >)
        requires
            index < max_threads && bits::is_power_of_two(offset) ==> max_threads + u32::MAX
                <= u64::MAX,
        ensures
            index >= max_threads ==> r is Err && r->Err_0@ == "Invalid index specified"@,
            index < max_threads && !bits::is_power_of_two(offset) ==> r is Err && r->Err_0@
                == "Invalid additive offset"@,
            index < max_threads && bits::is_power_of_two(offset) ==> {
                &&& r is Ok
                &&& r->Ok_0.start_addr == start_of(index as int, max_threads as int, offset as int)
                &&& r->Ok_0.end_addr == end_of(index as int, max_threads as int, offset as int)
            },
    {
        if index >= max_threads {
            return Err("Invalid index specified");
        }
        proof {
            bits::single_bit_is_power_of_two(offset);
        }
        if offset.count_ones() != 1 {
            return Err("Invalid additive offset");
        }
        proof {
            lemma_share_bounds(index as int, max_threads as int);
            bits::lemma_power_of_two_divides(offset);
        }
        let each: u64 = (u32::MAX as u64 + max_threads as u64 - 1) / max_threads as u64;
        assert(each == share(max_threads as int));
        let first: u64 = index as u64 * each;
        let next: u64 = (index as u64 + 1) * each;
        let mask: u64 = !(offset as u64 - 1);
        proof {
            bits::lemma_mask_aligns(first, offset);
            bits::lemma_mask_aligns(next, offset);
        }
        // Mask the address such that it's aligned to the 2^N offset.
        let start: u64 = first & mask;
        let end: u64 = if next >= u32::MAX as u64 {
            u32::MAX as u64
        } else {
            next & mask
        };
        assert(start as u32 == start % 0x1_0000_0000) by (bit_vector);
        Ok(Interval { start_addr: #[verifier::truncate] (start as u32), end_addr: end as u32 })
    }
}

/// The share is the smallest number of addresses of which one for each thread spans the
/// address space.
pub proof fn share_is_the_smallest_that_suffices(threads: int, each: int)
    requires
        0 < threads,
    ensures
        each == share(threads) <==> threads * (each - 1) < u32::MAX <= threads * each,
{
    let total = u32::MAX + threads - 1;
    lemma_share_bounds(0, threads);
    let s = share(threads);
    assert(threads * (s - 1) == threads * s - threads) by (nonlinear_arith);
    assert(threads * (each - 1) == threads * each - threads) by (nonlinear_arith);
    if threads * (each - 1) < u32::MAX <= threads * each {
        assert(each * threads == threads * each) by (nonlinear_arith);
        vstd::arithmetic::div_mod::lemma_fundamental_div_mod_converse(
            total,
            threads,
            each,
            total - each * threads,
        );
    }
}

/// An interval starts less than one offset below its share, in 32 bits, and ends less than one
/// offset below the next share, or at the last address where that is reached.
pub proof fn interval_lies_at_its_share(index: int, threads: int, offset: u32, each: int)
    requires
        0 <= index < threads,
        bits::is_power_of_two(offset),
        threads * (each - 1) < u32::MAX <= threads * each,
    ensures
        ({
            let start = start_of(index, threads, offset as int);
            let end = end_of(index, threads, offset as int);
            &&& 0 <= start <= u32::MAX
            &&& start % (offset as int) == 0
            &&& (index * each - start) % 0x1_0000_0000 < offset
            &&& index * each <= u32::MAX ==> start <= index * each < start + offset
            &&& (index + 1) * each >= u32::MAX ==> end == u32::MAX
            &&& (index + 1) * each < u32::MAX ==> end % (offset as int) == 0 && end <= (index + 1)
                * each < end + offset
        }),
{
    let o = offset as int;
    share_is_the_smallest_that_suffices(threads, each);
    lemma_share_bounds(index, threads);
    interval_is_ordered(index, threads, offset);
    bits::lemma_power_of_two_divides(offset);
    let first = index * each;
    let next = (index + 1) * each;
    let aligned = bits::align_down(first, o);
    bits::aligned_value_is_the_multiple_below(first, o, aligned);
    bits::aligned_value_is_the_multiple_below(next, o, bits::align_down(next, o));
    lemma_align_down(first, next, o);
    let d = first - aligned;
    let big = 0x1_0000_0000int;
    vstd::arithmetic::div_mod::lemma_fundamental_div_mod(aligned, big);
    let wraps = aligned / big;
    let start = start_of(index, threads, o);
    assert(first - start == d + big * wraps);
    vstd::arithmetic::div_mod::lemma_mod_multiples_vanish(wraps, d, big);
    vstd::arithmetic::div_mod::lemma_small_mod(d as nat, big as nat);
    if first <= u32::MAX {
        vstd::arithmetic::div_mod::lemma_small_mod(aligned as nat, big as nat);
    }
}

/// The intervals divide the address space: an interval ends at or before the start of every
/// later one whose share begins before the last address.
pub proof fn intervals_do_not_overlap(i: int, j: int, threads: int, offset: u32, each: int)
    requires
        0 <= i < j < threads,
        bits::is_power_of_two(offset),
        threads * (each - 1) < u32::MAX <= threads * each,
        j * each < u32::MAX,
    ensures
        end_of(i, threads, offset as int) <= start_of(j, threads, offset as int),
        start_of(i, threads, offset as int) <= start_of(j, threads, offset as int),
        end_of(i, threads, offset as int) <= end_of(j, threads, offset as int),
{
    let o = offset as int;
    share_is_the_smallest_that_suffices(threads, each);
    lemma_share_bounds(i, threads);
    lemma_share_bounds(j, threads);
    bits::lemma_power_of_two_divides(offset);
    assert((i + 1) * each <= j * each) by (nonlinear_arith)
        requires
            i + 1 <= j,
            each >= 1,
    ;
    lemma_align_down((i + 1) * each, j * each, o);
    lemma_align_down(j * each, j * each, o);
    vstd::arithmetic::div_mod::lemma_small_mod(
        bits::align_down(j * each, o) as nat,
        0x1_0000_0000,
    );
    interval_is_ordered(i, threads, offset);
    interval_is_ordered(j, threads, offset);
}

/// An interval whose share begins in the address space is less than one offset longer than the
/// share.
pub proof fn interval_is_no_longer_than_its_share(
    index: int,
    threads: int,
    offset: u32,
    each: int,
)
    requires
        0 <= index < threads,
        bits::is_power_of_two(offset),
        threads * (each - 1) < u32::MAX <= threads * each,
        index * each <= u32::MAX,
    ensures
        end_of(index, threads, offset as int) - start_of(index, threads, offset as int) < each
            + offset,
{
    interval_lies_at_its_share(index, threads, offset, each);
    assert((index + 1) * each == index * each + each) by (nonlinear_arith);
}

} // verus!
