//! The search over the whole address space, interval by interval.

use vstd::multiset::Multiset;
use vstd::prelude::*;

use crate::bits;
use crate::config::Config;
use crate::heap::MatchHeap;
use crate::interval;
use crate::scan;

verus! {

/// All that the heaps hold together.
pub open spec fn combined(heaps: Seq<MatchHeap>) -> Multiset<(usize, u32)>
    decreases heaps.len(),
{
    if heaps.len() == 0 {
        Multiset::empty()
    } else {
        combined(heaps.drop_last()).add(heaps.last()@)
    }
}

/// Merges the heaps of the intervals into one.
pub fn merge(heaps: Vec<MatchHeap>) -> (r: MatchHeap)
    ensures
        r@ == combined(heaps@),
{
    let mut heaps: Vec<MatchHeap> = heaps;
    let ghost all = combined(heaps@);
    let mut heap: MatchHeap = MatchHeap::new();
    assert(heap@.add(combined(heaps@)) =~= all);
    loop
        invariant
            heap@.add(combined(heaps@)) == all,
        ensures
            heap@ == all,
        decreases heaps.len(),
    {
        let ghost before = heaps@;
        match heaps.pop() {
            None => {
                assert(heap@.add(Multiset::empty()) =~= heap@);
                break;
            },
            Some(mut child) => {
                let ghost merged = heap@;
                let ghost part = child@;
                heap.append(&mut child);
                assert(merged.add(part).add(combined(before.drop_last())) =~= merged.add(
                    combined(before.drop_last()).add(part),
                ));
            },
        }
    }
    heap
}

/// The matches of all intervals, merged.
pub fn cpu_search(config: &Config, strings: &Vec<u32>, pointers: &fnv::FnvHashSet<u32>) -> (r:
    MatchHeap)
    requires
        config.threads > 0 ==> bits::is_power_of_two(config.offset) && config.threads + u32::MAX
            <= u64::MAX,
    ensures
        r@ == scan::all_matches(
            scan::counts(strings@, pointers@),
            config.threads as int,
            config.offset as int,
            config.threads as nat,
        ),
{
    let ghost f = scan::counts(strings@, pointers@);
    let ghost threads = config.threads as int;
    let ghost offset = config.offset as int;
    let mut children: Vec<MatchHeap> = Vec::new();
    for i in 0..config.threads
        invariant
            config.threads > 0 ==> bits::is_power_of_two(config.offset) && config.threads
                + u32::MAX <= u64::MAX,
            f == scan::counts(strings@, pointers@),
            threads == config.threads,
            offset == config.offset,
            combined(children@) == scan::all_matches(f, threads, offset, i as nat),
    {
        // The index and the offset are valid, so no interval is refused.
        if let Ok(child) = scan::find_matches(config, strings, pointers, i) {
            let ghost before = children@;
            children.push(child);
            assert(children@.drop_last() =~= before);
        }
    }
    merge(children)
}

/// Whether `x` is a match: a multiple of the offset that has hits, with their number.
pub open spec fn is_hit(counts: spec_fn(u32) -> nat, offset: u32, x: (usize, u32)) -> bool {
    &&& x.1 % offset == 0
    &&& counts(x.1) > 0
    &&& x.0 == counts(x.1) as usize
}

proof fn lemma_interval_finds(
    counts: spec_fn(u32) -> nat,
    index: int,
    threads: int,
    offset: u32,
    x: (usize, u32),
)
    requires
        0 <= index < threads,
        bits::is_power_of_two(offset),
    ensures
        scan::interval_matches(counts, index, threads, offset as int).contains(x) <==> is_hit(
            counts,
            offset,
            x,
        ) && interval::start_of(index, threads, offset as int) <= x.1 <= interval::end_of(
            index,
            threads,
            offset as int,
        ),
        scan::interval_matches(counts, index, threads, offset as int).count(x) <= 1,
{
    let o = offset as int;
    let start = interval::start_of(index, threads, o);
    let end = interval::end_of(index, threads, o);
    let n = scan::steps(start, end, o);
    bits::lemma_power_of_two_divides(offset);
    interval::interval_is_ordered(index, threads, offset);
    vstd::arithmetic::div_mod::lemma_fundamental_div_mod(end - start, o);
    vstd::arithmetic::div_mod::lemma_mod_bound(end - start, o);
    let last = (end - start) / o;
    assert(0 <= last) by (nonlinear_arith)
        requires
            last == (end - start) / o,
            end >= start,
            o > 0,
    ;
    assert(o * last == last * o) by (nonlinear_arith);
    assert(scan::scan_address(start, o, n - 1) <= end);
    scan::scan_finds_each_match_once(counts, start, o, n, x);
    if is_hit(counts, offset, x) && start <= x.1 <= end {
        // The distance from the start is a whole number of steps.
        let d = x.1 - start;
        vstd::arithmetic::div_mod::lemma_sub_mod_noop(x.1 as int, start, o);
        vstd::arithmetic::div_mod::lemma_small_mod(0, offset as nat);
        assert(d % o == 0);
        vstd::arithmetic::div_mod::lemma_fundamental_div_mod(d, o);
        vstd::arithmetic::div_mod::lemma_div_is_ordered(d, end - start, o);
        let k = d / o;
        assert(0 <= k) by (nonlinear_arith)
            requires
                k == d / o,
                d >= 0,
                o > 0,
        ;
        assert(o * k == k * o) by (nonlinear_arith);
        assert(scan::scan_address(start, o, k) == x.1);
        assert(scan::is_scanned_match(counts, start, o, n, x));
    }
    if scan::is_scanned_match(counts, start, o, n, x) {
        let k = choose|k: int|
            0 <= k < n && x.1 == #[trigger] scan::scan_address(start, o, k);
        assert(0 <= k * o <= last * o) by (nonlinear_arith)
            requires
                0 <= k <= last,
                o > 0,
        ;
        vstd::arithmetic::div_mod::lemma_mod_multiples_vanish(k, start, o);
        assert(o * k == k * o) by (nonlinear_arith);
    }
}

/// How many of the first `n` intervals of `threads` hold the address.
pub open spec fn coverage(addr: u32, threads: int, offset: int, n: nat) -> nat
    decreases n,
{
    if n == 0 {
        0
    } else {
        coverage(addr, threads, offset, (n - 1) as nat) + if interval::start_of(
            n - 1,
            threads,
            offset,
        ) <= addr <= interval::end_of(n - 1, threads, offset) {
            1nat
        } else {
            0nat
        }
    }
}

/// The search finds each match as often as there are intervals that hold its address,
/// and nothing else.
pub proof fn search_finds_matches_by_coverage(
    counts: spec_fn(u32) -> nat,
    threads: int,
    offset: u32,
    n: nat,
    x: (usize, u32),
)
    requires
        n <= threads,
        bits::is_power_of_two(offset),
    ensures
        scan::all_matches(counts, threads, offset as int, n).count(x) == if is_hit(
            counts,
            offset,
            x,
        ) {
            coverage(x.1, threads, offset as int, n)
        } else {
            0
        },
    decreases n,
{
    if n > 0 {
        search_finds_matches_by_coverage(counts, threads, offset, (n - 1) as nat, x);
        lemma_interval_finds(counts, n - 1, threads, offset, x);
    }
}

proof fn lemma_covered_once_at_least(addr: u32, threads: int, offset: int, n: nat, index: int)
    requires
        0 <= index < n,
        interval::start_of(index, threads, offset) <= addr <= interval::end_of(
            index,
            threads,
            offset,
        ),
    ensures
        coverage(addr, threads, offset, n) > 0,
    decreases n,
{
    if index < n - 1 {
        lemma_covered_once_at_least(addr, threads, offset, (n - 1) as nat, index);
    }
}

/// Whatever the number of threads, the search finds exactly the multiples of the offset
/// that have hits.
pub proof fn search_finds_every_match(
    counts: spec_fn(u32) -> nat,
    threads: int,
    offset: u32,
    x: (usize, u32),
)
    requires
        0 < threads,
        bits::is_power_of_two(offset),
    ensures
        scan::all_matches(counts, threads, offset as int, threads as nat).contains(x)
            <==> is_hit(counts, offset, x),
{
    search_finds_matches_by_coverage(counts, threads, offset, threads as nat, x);
    if is_hit(counts, offset, x) {
        let index = interval::every_candidate_is_covered(x.1, threads, offset);
        lemma_covered_once_at_least(x.1, threads, offset as int, threads as nat, index);
    }
}

/// One thread finds each match once.
pub proof fn single_thread_finds_each_match_once(
    counts: spec_fn(u32) -> nat,
    offset: u32,
    x: (usize, u32),
)
    requires
        bits::is_power_of_two(offset),
    ensures
        scan::all_matches(counts, 1, offset as int, 1).count(x) == if is_hit(
            counts,
            offset,
            x,
        ) {
            1nat
        } else {
            0nat
        },
{
    search_finds_matches_by_coverage(counts, 1, offset, 1, x);
    interval::intervals_span_the_address_space(1, offset);
    reveal_with_fuel(coverage, 2);
}

/// Whatever the number of threads, an address is found exactly where it is a multiple of the
/// offset that has hits, and it is found with their number.
pub proof fn search_finds_the_multiples_with_hits(
    counts: spec_fn(u32) -> nat,
    threads: int,
    offset: u32,
    count: usize,
    addr: u32,
)
    requires
        0 < threads,
        bits::is_power_of_two(offset),
    ensures
        scan::all_matches(counts, threads, offset as int, threads as nat).contains((count, addr))
            <==> addr as int % offset as int == 0 && counts(addr) > 0 && count == counts(
            addr,
        ) as usize,
{
    search_finds_every_match(counts, threads, offset, (count, addr));
}

/// One interval finds the multiples of the offset with hits that lie in it, each once.
pub proof fn interval_finds_the_multiples_with_hits(
    counts: spec_fn(u32) -> nat,
    index: int,
    threads: int,
    offset: u32,
    count: usize,
    addr: u32,
)
    requires
        0 <= index < threads,
        bits::is_power_of_two(offset),
    ensures
        scan::interval_matches(counts, index, threads, offset as int).count((count, addr)) == if addr
            as int % offset as int == 0 && counts(addr) > 0 && count == counts(addr) as usize
            && interval::start_of(index, threads, offset as int) <= addr <= interval::end_of(
            index,
            threads,
            offset as int,
        ) {
            1nat
        } else {
            0nat
        },
{
    lemma_interval_finds(counts, index, threads, offset, (count, addr));
}

/// The coverage of an address is the number of the intervals that hold it.
pub proof fn coverage_counts_the_intervals(addr: u32, threads: int, offset: int, n: nat)
    ensures
        ({
            let holding = Set::new(
                |i: int|
                    0 <= i < n && interval::start_of(i, threads, offset) <= addr
                        <= interval::end_of(i, threads, offset),
            );
            &&& holding.finite()
            &&& coverage(addr, threads, offset, n) == holding.len()
        }),
    decreases n,
{
    let holding = Set::new(
        |i: int|
            0 <= i < n && interval::start_of(i, threads, offset) <= addr <= interval::end_of(
                i,
                threads,
                offset,
            ),
    );
    if n == 0 {
        assert(holding =~= Set::<int>::empty());
    } else {
        let m = (n - 1) as nat;
        coverage_counts_the_intervals(addr, threads, offset, m);
        let before = Set::new(
            |i: int|
                0 <= i < m && interval::start_of(i, threads, offset) <= addr <= interval::end_of(
                    i,
                    threads,
                    offset,
                ),
        );
        if interval::start_of(m as int, threads, offset) <= addr <= interval::end_of(
            m as int,
            threads,
            offset,
        ) {
            assert(holding =~= before.insert(m as int));
        } else {
            assert(holding =~= before);
        }
    }
}

/// Where two intervals hold an address, the first ends and the second starts there.
proof fn lemma_shared_address_is_a_border(
    addr: u32,
    i: int,
    j: int,
    threads: int,
    offset: u32,
    each: int,
)
    requires
        0 <= i < j < threads,
        bits::is_power_of_two(offset),
        threads * (each - 1) < u32::MAX <= threads * each,
        (threads - 1) * each < u32::MAX,
        offset <= each,
        interval::start_of(i, threads, offset as int) <= addr <= interval::end_of(
            i,
            threads,
            offset as int,
        ),
        interval::start_of(j, threads, offset as int) <= addr <= interval::end_of(
            j,
            threads,
            offset as int,
        ),
    ensures
        j == i + 1,
        addr == interval::end_of(i, threads, offset as int),
        addr == interval::start_of(j, threads, offset as int),
{
    let o = offset as int;
    assert(j * each <= (threads - 1) * each) by (nonlinear_arith)
        requires
            j <= threads - 1,
            each >= 0,
    ;
    interval::intervals_do_not_overlap(i, j, threads, offset, each);
    if j > i + 1 {
        let k = i + 1;
        assert(k * each <= j * each && (k + 1) * each <= j * each && (k + 1) * each == k * each
            + each && (i + 1) * each == k * each) by (nonlinear_arith)
            requires
                k + 1 <= j,
                each >= 0,
                k == i + 1,
        ;
        interval::intervals_do_not_overlap(i, k, threads, offset, each);
        interval::intervals_do_not_overlap(k, j, threads, offset, each);
        interval::interval_lies_at_its_share(k, threads, offset, each);
        interval::interval_lies_at_its_share(i, threads, offset, each);
        let start = interval::start_of(k, threads, o);
        let end = interval::end_of(k, threads, o);
        // The middle interval would be a single address, but it is an offset long.
        assert(start == end);
        assert(false);
    }
}

/// Where the offset is not above the share and every share begins before the last address, the
/// candidates at which two intervals meet lie in these two, and all others lie in one.
pub proof fn candidates_lie_in_one_interval_or_where_two_meet(
    addr: u32,
    threads: int,
    offset: u32,
    each: int,
)
    requires
        0 < threads,
        bits::is_power_of_two(offset),
        threads * (each - 1) < u32::MAX <= threads * each,
        (threads - 1) * each < u32::MAX,
        offset <= each,
        addr % offset == 0,
    ensures
        coverage(addr, threads, offset as int, threads as nat) == if exists|i: int|
            0 <= i && i + 1 < threads && addr == #[trigger] interval::end_of(
                i,
                threads,
                offset as int,
            ) {
            2nat
        } else {
            1nat
        },
{
    let o = offset as int;
    let holding = Set::new(
        |i: int|
            0 <= i < threads as nat && interval::start_of(i, threads, o) <= addr
                <= interval::end_of(i, threads, o),
    );
    coverage_counts_the_intervals(addr, threads, o, threads as nat);
    let index = interval::every_candidate_is_covered(addr, threads, offset);
    assert(holding.contains(index));
    if exists|i: int|
        0 <= i && i + 1 < threads && addr == #[trigger] interval::end_of(i, threads, o) {
        let i = choose|i: int|
            0 <= i && i + 1 < threads && addr == #[trigger] interval::end_of(i, threads, o);
        interval::interval_is_ordered(i, threads, offset);
        interval::interval_is_ordered(i + 1, threads, offset);
        interval::neighbouring_intervals_meet(i, threads, offset);
        assert((i + 1) * each <= (threads - 1) * each) by (nonlinear_arith)
            requires
                i + 1 <= threads - 1,
                each >= 0,
        ;
        interval::interval_lies_at_its_share(i, threads, offset, each);
        assert(holding.contains(i));
        assert(holding.contains(i + 1));
        assert forall|k: int| holding.contains(k) implies k == i || k == i + 1 by {
            if k < i {
                lemma_shared_address_is_a_border(addr, k, i, threads, offset, each);
                lemma_shared_address_is_a_border(addr, k, i + 1, threads, offset, each);
            } else if k > i {
                lemma_shared_address_is_a_border(addr, i, k, threads, offset, each);
            }
        }
        assert(holding =~= Set::<int>::empty().insert(i).insert(i + 1));
    } else {
        assert forall|k: int| holding.contains(k) implies k == index by {
            if k < index {
                lemma_shared_address_is_a_border(addr, k, index, threads, offset, each);
                assert(addr == interval::end_of(k, threads, o));
            } else if index < k {
                lemma_shared_address_is_a_border(addr, index, k, threads, offset, each);
                assert(addr == interval::end_of(index, threads, o));
            }
        }
        assert(holding =~= Set::<int>::empty().insert(index));
    }
}

/// The search lists a candidate with hits twice where two intervals meet at it, and once
/// otherwise, with the same provisos; whatever else is asked for is not listed.
pub proof fn search_lists_candidates_once_or_where_intervals_meet(
    counts: spec_fn(u32) -> nat,
    threads: int,
    offset: u32,
    each: int,
    count: usize,
    addr: u32,
)
    requires
        0 < threads,
        bits::is_power_of_two(offset),
        threads * (each - 1) < u32::MAX <= threads * each,
        (threads - 1) * each < u32::MAX,
        offset <= each,
    ensures
        scan::all_matches(counts, threads, offset as int, threads as nat).count((count, addr))
            == if addr as int % offset as int != 0 || counts(addr) == 0 || count != counts(
            addr,
        ) as usize {
            0nat
        } else if exists|i: int|
            0 <= i && i + 1 < threads && addr == #[trigger] interval::end_of(
                i,
                threads,
                offset as int,
            ) {
            2nat
        } else {
            1nat
        },
{
    search_finds_matches_by_coverage(counts, threads, offset, threads as nat, (count, addr));
    if addr as int % offset as int == 0 {
        candidates_lie_in_one_interval_or_where_two_meet(addr, threads, offset, each);
    }
}

/// Merging holds each match as often as the heaps together do: nothing for no heap, the heap
/// itself for one, and the sum for two lists of heaps.
pub proof fn merging_adds_up(a: Seq<MatchHeap>, b: Seq<MatchHeap>, heap: MatchHeap)
    ensures
        combined(Seq::empty()) == Multiset::<(usize, u32)>::empty(),
        combined(seq![heap]) == heap@,
        combined(a + b) == combined(a).add(combined(b)),
    decreases b.len(),
{
    let one = seq![heap];
    reveal_with_fuel(combined, 2);
    assert(one.drop_last() =~= Seq::empty());
    assert(combined(one) =~= heap@);
    if b.len() == 0 {
        assert(a + b =~= a);
        assert(combined(a).add(combined(b)) =~= combined(a));
    } else {
        merging_adds_up(a, b.drop_last(), heap);
        assert((a + b).drop_last() =~= a + b.drop_last());
        assert(combined(a).add(combined(b.drop_last())).add(b.last()@) =~= combined(a).add(
            combined(b.drop_last()).add(b.last()@),
        ));
    }
}

/// The search over the first `n` intervals lists a candidate with hits, with their number, as
/// often as there are intervals that hold it, and nothing else; without an interval it lists
/// nothing.
pub proof fn search_lists_candidates_once_per_interval(
    counts: spec_fn(u32) -> nat,
    threads: int,
    offset: u32,
    n: nat,
    count: usize,
    addr: u32,
)
    requires
        n <= threads,
        bits::is_power_of_two(offset),
    ensures
        scan::all_matches(counts, threads, offset as int, n).count((count, addr)) == if addr as int
            % offset as int == 0 && counts(addr) > 0 && count == counts(addr) as usize {
            Set::new(
                |i: int|
                    0 <= i < n && interval::start_of(i, threads, offset as int) <= addr
                        <= interval::end_of(i, threads, offset as int),
            ).len()
        } else {
            0
        },
{
    search_finds_matches_by_coverage(counts, threads, offset, n, (count, addr));
    coverage_counts_the_intervals(addr, threads, offset as int, n);
}

} // verus!
