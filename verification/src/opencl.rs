//! The search on a compute device, chunk by chunk over all candidate addresses.

use vstd::multiset::Multiset;
use vstd::prelude::*;

use crate::bits;
use crate::config::Config;
use crate::cpu;
use crate::heap::MatchHeap;
use crate::job;
use crate::job::{Job, Preparation};
use crate::scan;

verus! {

/// How many candidates a device looks at in one go.
pub const OPENCL_CHUNK_SIZE: usize = 0x100000;

/// How many multiples of the offset the address space holds.
pub open spec fn candidates(offset: u32) -> int {
    u32::MAX as int / offset as int + 1
}

/// How many candidates the next chunk has when `processed` are done.
pub open spec fn chunk_len(offset: u32, processed: int) -> int {
    if candidates(offset) - processed < OPENCL_CHUNK_SIZE {
        candidates(offset) - processed
    } else {
        OPENCL_CHUNK_SIZE as int
    }
}

/// The matches that the first `n` counts report, for the candidates from `first` on.
pub open spec fn reported(counts: Seq<u32>, first: int, offset: int, n: nat) -> Multiset<
    (usize, u32),
>
    decreases n,
{
    if n == 0 {
        Multiset::empty()
    } else {
        let before = reported(counts, first, offset, (n - 1) as nat);
        if counts[n - 1] > 0 {
            before.insert((counts[n - 1] as usize, ((first + n - 1) * offset) as u32))
        } else {
            before
        }
    }
}

/// The candidates that the device is to look at next.
#[derive(Debug, Clone, Copy, PartialEq, Eq, Structural)]
pub struct Chunk {
    pub base_start: u32,
    pub candidate_count: usize,
}

/// A search on a device: what is done and what has been found so far.
pub struct DeviceSearch {
    pub offset: u32,
    pub processed: u64,
    pub heap: MatchHeap,
}

impl DeviceSearch {
    /// The step is positive and no more candidates are done than there are.
    pub open spec fn wf(self) -> bool {
        &&& 0 < self.offset
        &&& self.processed <= candidates(self.offset)
    }

    /// A search that has not looked at anything yet.
    pub fn new(offset: u32) -> (r: DeviceSearch)
        requires
            offset > 0,
        ensures
            r.wf(),
            r.offset == offset,
            r.processed == 0,
            r.heap@ == Multiset::<(usize, u32)>::empty(),
    {
        DeviceSearch { offset, processed: 0, heap: MatchHeap::new() }
    }

    /// How many candidates there are.
    pub fn total_candidates(&self) -> (r: u64)
        requires
            self.wf(),
        ensures
            r == candidates(self.offset),
    {
        u32::MAX as u64 / self.offset as u64 + 1
    }

    /// The next chunk, unless every candidate is done.
    pub fn next_chunk(&self) -> (r: Option<Chunk>)
        requires
            self.wf(),
        ensures
            match r {
                None => self.processed == candidates(self.offset),
                Some(chunk) => {
                    &&& self.processed < candidates(self.offset)
                    &&& chunk.base_start == self.processed * self.offset
                    &&& chunk.candidate_count == chunk_len(self.offset, self.processed as int)
                },
            },
    {
        let total: u64 = self.total_candidates();
        if self.processed >= total {
            return None;
        }
        let remaining: u64 = total - self.processed;
        let candidate_count: usize = if remaining < OPENCL_CHUNK_SIZE as u64 {
            remaining as usize
        } else {
            OPENCL_CHUNK_SIZE
        };
        proof {
            lemma_candidate_address(self.offset, self.processed as int);
        }
        let base_start: u32 = (self.processed * self.offset as u64) as u32;
        Some(Chunk { base_start, candidate_count })
    }

    /// Takes in what the device counted for the candidates of the next chunk.
    pub fn accept(&mut self, counts: &[u32])
        requires
            old(self).wf(),
            old(self).processed < candidates(old(self).offset),
            counts@.len() == chunk_len(old(self).offset, old(self).processed as int),
        ensures
            final(self).wf(),
            final(self).offset == old(self).offset,
            final(self).processed == old(self).processed + counts@.len(),
            final(self).heap@ == old(self).heap@.add(
                reported(
                    counts@,
                    old(self).processed as int,
                    old(self).offset as int,
                    counts@.len(),
                ),
            ),
    {
        proof {
            lemma_candidate_address(self.offset, self.processed as int);
        }
        let base_start: u32 = (self.processed * self.offset as u64) as u32;
        let ghost first = self.processed as int;
        let ghost offset = self.offset;
        let ghost heap = self.heap@;
        assert(heap.add(reported(counts@, first, offset as int, 0)) =~= heap);
        for idx in 0..counts.len()
            invariant
                self.wf(),
                self.offset == offset,
                self.processed == first,
                base_start == first * offset,
                first + counts@.len() <= candidates(offset),
                counts@.len() <= OPENCL_CHUNK_SIZE,
                self.heap@ == heap.add(reported(counts@, first, offset as int, idx as nat)),
        {
            let count: u32 = counts[idx];
            if count > 0 {
                proof {
                    lemma_candidate_address(offset, first + idx);
                    assert((first + idx) * offset == first * offset + idx * offset
                        && 0 <= idx * offset && 0 <= first * offset) by (nonlinear_arith)
                        requires
                            0 <= idx,
                            0 <= first,
                            0 < offset,
                    ;
                }
                let addr: u32 = base_start + idx as u32 * self.offset;
                self.heap.push((count as usize, addr));
                assert(heap.add(
                    reported(counts@, first, offset as int, idx as nat),
                ).insert((count as usize, addr)) =~= heap.add(
                    reported(counts@, first, offset as int, idx as nat).insert(
                        (count as usize, addr),
                    ),
                ));
            }
        }
        self.processed = self.processed + counts.len() as u64;
    }
}

/// A candidate is an address.
proof fn lemma_candidate_address(offset: u32, k: int)
    requires
        0 < offset,
        0 <= k < candidates(offset),
    ensures
        0 <= k * offset <= u32::MAX,
{
    vstd::arithmetic::div_mod::lemma_fundamental_div_mod(u32::MAX as int, offset as int);
    vstd::arithmetic::div_mod::lemma_mod_bound(u32::MAX as int, offset as int);
    assert(0 <= k * offset <= offset * (u32::MAX as int / offset as int)) by (nonlinear_arith)
        requires
            0 < offset,
            0 <= k <= u32::MAX as int / offset as int,
    ;
}

/// The hits as a function of the base address, where every string counts.
pub open spec fn all_hits(strings: Set<u32>, pointers: Set<u32>) -> spec_fn(u32) -> nat {
    |addr: u32| scan::hits(strings, pointers, addr)
}

/// A device that reports the right count for each candidate of a chunk extends what has been
/// found by exactly the matches of the chunk.
pub proof fn true_counts_extend_the_scan(
    f: spec_fn(u32) -> nat,
    counts: Seq<u32>,
    offset: u32,
    first: nat,
    n: nat,
)
    requires
        n <= counts.len(),
        forall|k: int|
            0 <= k < n ==> #[trigger] counts[k] as nat == f(((first + k) * offset) as u32),
    ensures
        scan::scanned(f, 0, offset as int, first).add(
            reported(counts, first as int, offset as int, n),
        ) == scan::scanned(f, 0, offset as int, first + n),
    decreases n,
{
    let done = scan::scanned(f, 0, offset as int, first);
    if n == 0 {
        assert(done.add(reported(counts, first as int, offset as int, 0)) =~= done);
    } else {
        let m = (n - 1) as nat;
        true_counts_extend_the_scan(f, counts, offset, first, m);
        let before = reported(counts, first as int, offset as int, m);
        let addr = ((first + m) * offset) as u32;
        assert(counts[m as int] as nat == f(addr));
        assert((first + n - 1) * offset == (first + m) * offset);
        let item = (f(addr) as usize, addr);
        assert(done.add(before.insert(item)) =~= done.add(before).insert(item));
    }
}

/// The matches of the search on a device among all strings and pointers, unless there are too
/// many of them for its 32-bit counts.
pub open spec fn device_matches(all: Set<u32>, pointers: Set<u32>, offset: u32) -> Option<
    Multiset<(usize, u32)>,
> {
    let kept = job::kept_pointers(all, offset, pointers);
    if kept.len() > 0 && (all.len() > u32::MAX || kept.len() > u32::MAX) {
        None
    } else {
        Some(
            scan::scanned(
                all_hits(all, kept),
                0,
                offset as int,
                candidates(offset) as nat,
            ),
        )
    }
}

/// Runs the search with the work of the device done on the host.
pub fn opencl_search_on_host(config: &Config, strings: &[u32], pointers: &[u32]) -> (r: Result<
    MatchHeap,
    &'static str,
>)
    requires
        strings@.len() > 0 ==> config.offset > 0,
    ensures
        ({
            if strings@.len() == 0 {
                r is Ok && r->Ok_0@ == Multiset::<(usize, u32)>::empty()
            } else {
                match device_matches(strings@.to_set(), pointers@.to_set(), config.offset) {
                    Some(found) => r is Ok && r->Ok_0@ == found,
                    None => {
                        &&& r is Err
                        &&& r->Err_0@
                            == "OpenCL path does not support > u32::MAX strings/pointers"@
                    },
                }
            }
        }),
{
    let ghost all = strings@.to_set();
    let ghost kept = job::kept_pointers(all, config.offset, pointers@.to_set());
    let ghost f = all_hits(all, kept);
    let job: Job = match job::prepare(config, strings, pointers) {
        Err(e) => return Err(e),
        Ok(Preparation::NoStrings) => return Ok(MatchHeap::new()),
        Ok(Preparation::NoPointers { .. }) => {
            proof {
                lemma_no_pointers_no_matches(
                    all,
                    kept,
                    config.offset as int,
                    candidates(config.offset) as nat,
                );
            }
            return Ok(MatchHeap::new());
        },
        Ok(Preparation::Ready(job)) => job,
    };
    let mut search: DeviceSearch = DeviceSearch::new(config.offset);
    loop
        invariant
            job.wf(),
            job.strings@.to_set() == all,
            job.pointers@.to_set() == kept,
            job.offset == config.offset,
            f == all_hits(all, kept),
            search.wf(),
            search.offset == config.offset,
            search.heap@ == scan::scanned(f, 0, config.offset as int, search.processed as nat),
        ensures
            search.processed == candidates(config.offset),
        decreases candidates(config.offset) - search.processed,
    {
        let chunk: Chunk = match search.next_chunk() {
            Some(chunk) => chunk,
            None => break,
        };
        let ghost first = search.processed as nat;
        let count: u32 = chunk.candidate_count as u32;
        let mut counts: Vec<u32> = Vec::new();
        let mut gid: u32 = 0;
        while gid < count
            invariant
                job.wf(),
                job.strings@.to_set() == all,
                job.pointers@.to_set() == kept,
                job.offset == config.offset,
                f == all_hits(all, kept),
                search.wf(),
                search.offset == config.offset,
                search.processed == first,
                chunk.base_start == first * config.offset,
                first + count <= candidates(config.offset),
                gid <= count,
                counts@.len() == gid,
                forall|k: int|
                    0 <= k < gid ==> #[trigger] counts@[k] as nat == f(
                        ((first + k) * config.offset) as u32,
                    ),
            decreases count - gid,
        {
            proof {
                lemma_candidate_address(config.offset, first + gid);
                assert((first + gid) * config.offset == first * config.offset + gid
                    * config.offset) by (nonlinear_arith);
            }
            if let Some(hits) = job.find(chunk.base_start, count, gid) {
                counts.push(hits);
            }
            gid += 1;
        }
        proof {
            true_counts_extend_the_scan(f, counts@, config.offset, first, count as nat);
        }
        search.accept(counts.as_slice());
    }
    Ok(search.heap)
}

proof fn lemma_no_pointers_no_matches(strings: Set<u32>, pointers: Set<u32>, offset: int, n: nat)
    requires
        pointers.len() == 0,
    ensures
        scan::scanned(all_hits(strings, pointers), 0, offset, n) == Multiset::<
            (usize, u32),
        >::empty(),
    decreases n,
{
    if n > 0 {
        lemma_no_pointers_no_matches(strings, pointers, offset, (n - 1) as nat);
        broadcast use vstd::set_lib::full_set_properties;

        assert(pointers.subset_of(Set::<u32>::full()));
        vstd::set_lib::lemma_set_subset_finite(Set::<u32>::full(), pointers);
        let addr = (0 + (n - 1) * offset) as u32;
        pointers.lemma_len0_is_empty();
        assert(scan::translated(strings, addr).intersect(pointers) =~= Set::<u32>::empty());
    }
}

/// Leaving out the pointers whose bits below the offset no string has changes no count.
pub proof fn filtering_keeps_hits(
    strings: Set<u32>,
    pointers: Set<u32>,
    offset: u32,
    addr: u32,
)
    requires
        bits::is_power_of_two(offset),
        addr % offset == 0,
    ensures
        scan::hits(strings, job::kept_pointers(strings, offset, pointers), addr) == scan::hits(
            strings,
            pointers,
            addr,
        ),
{
    let kept = job::kept_pointers(strings, offset, pointers);
    let moved = scan::translated(strings, addr);
    bits::lemma_power_of_two_divides(offset);
    assert forall|t: u32| moved.intersect(pointers).contains(t) implies moved.intersect(
        kept,
    ).contains(t) by {
        let s = choose|s: u32| #[trigger] strings.contains(s) && s + addr == t;
        bits::lemma_mask_is_remainder(s, offset);
        bits::lemma_mask_is_remainder(t, offset);
        vstd::arithmetic::div_mod::lemma_add_mod_noop(s as int, addr as int, offset as int);
        vstd::arithmetic::div_mod::lemma_mod_twice(s as int, offset as int);
        assert(t % offset == s % offset);
        assert(job::may_be_hit(strings, offset, t));
    }
    assert(moved.intersect(pointers) =~= moved.intersect(kept));
}

/// For strings in ascending order the search on a device finds each match once, and it finds
/// the same matches as the search over the intervals of any number of threads.
pub proof fn device_search_agrees_with_cpu_search(
    strings: Seq<u32>,
    pointers: Set<u32>,
    threads: int,
    offset: u32,
    x: (usize, u32),
)
    requires
        forall|i: int, j: int| 0 <= i < j < strings.len() ==> strings[i] <= strings[j],
        0 < threads,
        bits::is_power_of_two(offset),
    ensures
        ({
            let on_device = scan::scanned(
                all_hits(
                    strings.to_set(),
                    job::kept_pointers(strings.to_set(), offset, pointers),
                ),
                0,
                offset as int,
                candidates(offset) as nat,
            );
            let on_cpu = scan::all_matches(
                scan::counts(strings, pointers),
                threads,
                offset as int,
                threads as nat,
            );
            &&& on_device.contains(x) <==> on_cpu.contains(x)
            &&& on_device.count(x) <= 1
            &&& threads == 1 ==> on_device.count(x) == on_cpu.count(x)
        }),
{
    let kept = job::kept_pointers(strings.to_set(), offset, pointers);
    let f = all_hits(strings.to_set(), kept);
    let g = scan::counts(strings, pointers);
    let o = offset as int;
    let n = candidates(offset) as nat;
    bits::lemma_power_of_two_divides(offset);
    lemma_candidate_address(offset, candidates(offset) - 1);
    assert forall|addr: u32| addr % offset == 0 implies #[trigger] f(addr) == g(addr) by {
        scan::ordered_strings_all_count(strings, pointers, addr);
        filtering_keeps_hits(strings.to_set(), pointers, offset, addr);
    }
    scan::lemma_scans_agree(f, g, offset, n);
    scan::scan_finds_each_match_once(g, 0, o, n, x);
    cpu::search_finds_every_match(g, threads, offset, x);
    cpu::single_thread_finds_each_match_once(g, offset, x);
    if cpu::is_hit(g, offset, x) {
        let k = x.1 as int / o;
        vstd::arithmetic::div_mod::lemma_fundamental_div_mod(x.1 as int, o);
        vstd::arithmetic::div_mod::lemma_div_is_ordered(x.1 as int, u32::MAX as int, o);
        assert(0 <= k) by (nonlinear_arith)
            requires
                k == x.1 as int / o,
                o > 0,
        ;
        assert(o * k == k * o) by (nonlinear_arith);
        assert(x.1 == scan::scan_address(0, o, k));
        assert(scan::is_scanned_match(g, 0, o, n, x));
    }
    if scan::is_scanned_match(g, 0, o, n, x) {
        let k = choose|k: int| 0 <= k < n && x.1 == #[trigger] scan::scan_address(0, o, k);
        vstd::arithmetic::div_mod::lemma_mod_multiples_basic(k, o);
    }
}

/// What is done to find a device.
pub enum DeviceChoice {
    /// The first device that is a GPU is taken.
    FirstGpu,
    /// There is no GPU: the devices of every kind are listed.
    ListAll,
    /// The first device of any kind is taken.
    FirstOfAll,
}

/// Which device searches, from the number of GPUs and, once they are listed, of all devices: a
/// GPU is preferred, and the devices of every kind are listed only where there is none.
pub fn choose_device(gpus: usize, all: Option<usize>) -> (r: Result<DeviceChoice, &'static str>)
    ensures
        match (gpus > 0, all) {
            (true, _) => r == Ok::<DeviceChoice, &'static str>(DeviceChoice::FirstGpu),
            (false, None) => r == Ok::<DeviceChoice, &'static str>(DeviceChoice::ListAll),
            (false, Some(n)) => if n > 0 {
                r == Ok::<DeviceChoice, &'static str>(DeviceChoice::FirstOfAll)
            } else {
                r is Err && r->Err_0@ == "no OpenCL devices found"@
            },
        },
{
    if gpus > 0 {
        return Ok(DeviceChoice::FirstGpu);
    }
    match all {
        None => Ok(DeviceChoice::ListAll),
        Some(n) => if n > 0 {
            Ok(DeviceChoice::FirstOfAll)
        } else {
            Err("no OpenCL devices found")
        },
    }
}

/// The last candidate is an address, and one offset on would not be.
pub proof fn candidates_fill_the_address_space(offset: u32)
    requires
        0 < offset,
    ensures
        0 < candidates(offset),
        (candidates(offset) - 1) * offset <= u32::MAX < candidates(offset) * offset,
{
    let o = offset as int;
    let q = u32::MAX as int / o;
    vstd::arithmetic::div_mod::lemma_fundamental_div_mod(u32::MAX as int, o);
    vstd::arithmetic::div_mod::lemma_mod_bound(u32::MAX as int, o);
    assert(0 <= q) by (nonlinear_arith)
        requires
            q == u32::MAX as int / o,
            o > 0,
    ;
    assert(o * q == q * o && (q + 1) * o == q * o + o) by (nonlinear_arith);
}

/// A chunk is never empty, never above its size and never beyond the last candidate, and only
/// the last one is below its size.
pub proof fn chunks_divide_the_candidates(offset: u32, processed: int)
    requires
        0 < offset,
        0 <= processed < candidates(offset),
    ensures
        0 < chunk_len(offset, processed) <= 0x10_0000,
        processed + chunk_len(offset, processed) <= candidates(offset),
        chunk_len(offset, processed) < 0x10_0000 ==> processed + chunk_len(offset, processed)
            == candidates(offset),
{
}

/// What a device counts is reported once for each candidate with hits: no count reports
/// nothing, and one more adds its address and number exactly where it is positive.
pub proof fn one_more_count_is_reported(counts: Seq<u32>, first: int, offset: int, n: nat)
    requires
        n < counts.len(),
    ensures
        reported(counts, first, offset, 0) == Multiset::<(usize, u32)>::empty(),
        counts[n as int] == 0 ==> reported(counts, first, offset, n + 1) == reported(
            counts,
            first,
            offset,
            n,
        ),
        counts[n as int] > 0 ==> reported(counts, first, offset, n + 1) == reported(
            counts,
            first,
            offset,
            n,
        ).insert((counts[n as int] as usize, ((first + n) * offset) as u32)),
{
    assert(first + (n + 1) - 1 == first + n);
}

/// The search on a device finds each multiple of the offset that has hits among the kept
/// pointers once, with their number. It refuses more strings or kept pointers than 32 bits can
/// count, unless no pointer is kept.
pub proof fn device_finds_the_multiples_that_hit_kept_pointers(
    strings: Set<u32>,
    pointers: Set<u32>,
    offset: u32,
    count: usize,
    addr: u32,
)
    requires
        0 < offset,
    ensures
        ({
            let kept = job::kept_pointers(strings, offset, pointers);
            &&& device_matches(strings, pointers, offset) is None <==> kept.len() > 0 && (
            strings.len() > u32::MAX || kept.len() > u32::MAX)
            &&& device_matches(strings, pointers, offset) matches Some(found) ==> found.count(
                (count, addr),
            ) == if addr as int % offset as int == 0 && count > 0 && count == scan::hits(
                strings,
                kept,
                addr,
            ) {
                1nat
            } else {
                0nat
            }
        }),
{
    let o = offset as int;
    let kept = job::kept_pointers(strings, offset, pointers);
    let f = all_hits(strings, kept);
    candidates_fill_the_address_space(offset);
    scan::scan_finds_what_its_steps_reach(f, 0, o, candidates(offset) as nat, count, addr);
    vstd::arithmetic::div_mod::lemma_div_is_ordered(addr as int, u32::MAX as int, o);
    if device_matches(strings, pointers, offset) is Some {
        lemma_hits_fit(strings, kept, addr);
    }
}

/// With an offset that is a power of two the search on a device finds each multiple of it that
/// has hits among all pointers once, with their number. It can take what 32 bits can count.
pub proof fn device_finds_the_multiples_with_hits(
    strings: Set<u32>,
    pointers: Set<u32>,
    offset: u32,
    count: usize,
    addr: u32,
)
    requires
        bits::is_power_of_two(offset),
    ensures
        strings.len() <= u32::MAX && pointers.len() <= u32::MAX ==> device_matches(
            strings,
            pointers,
            offset,
        ) is Some,
        device_matches(strings, pointers, offset) matches Some(found) ==> found.count(
            (count, addr),
        ) == if addr as int % offset as int == 0 && count > 0 && count == scan::hits(
            strings,
            pointers,
            addr,
        ) {
            1nat
        } else {
            0nat
        },
{
    broadcast use vstd::set_lib::full_set_properties;

    bits::lemma_power_of_two_divides(offset);
    let kept = job::kept_pointers(strings, offset, pointers);
    assert(pointers.subset_of(Set::<u32>::full()));
    vstd::set_lib::lemma_set_subset_finite(Set::<u32>::full(), pointers);
    vstd::set_lib::lemma_len_subset(kept, pointers);
    device_finds_the_multiples_that_hit_kept_pointers(strings, pointers, offset, count, addr);
    if addr as int % offset as int == 0 {
        filtering_keeps_hits(strings, pointers, offset, addr);
    }
}

/// The hits of an address are a number of 32-bit values, of which those that a device takes on
/// fit a machine word.
proof fn lemma_hits_fit(strings: Set<u32>, kept: Set<u32>, addr: u32)
    requires
        kept.len() > 0 ==> strings.len() <= u32::MAX && kept.len() <= u32::MAX,
    ensures
        scan::hits(strings, kept, addr) <= u32::MAX,
{
    scan::hits_are_bounded(strings, kept, addr);
}

} // verus!
