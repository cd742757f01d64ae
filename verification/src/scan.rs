//! The search: how many translated strings hit a pointer at each candidate base address.

use vstd::multiset::Multiset;
use vstd::prelude::*;

use crate::bits;
use crate::config::Config;
use crate::heap::MatchHeap;
use crate::interval;
use crate::interval::Interval;
use crate::value_set;

verus! {

/// Whether string `i` and all before it stay in the address space when `addr` is added.
pub open spec fn reached(strings: Seq<u32>, addr: u32, i: int) -> bool {
    &&& 0 <= i < strings.len()
    &&& forall|j: int| 0 <= j <= i ==> #[trigger] strings[j] + addr <= u32::MAX
}

/// The strings before the first one that leaves the address space when `addr` is added.
pub open spec fn reached_strings(strings: Seq<u32>, addr: u32) -> Set<u32> {
    Set::new(|s: u32| exists|i: int| #[trigger] reached(strings, addr, i) && strings[i] == s)
}

/// Where the strings lie in memory when the image is loaded at `addr`.
pub open spec fn translated(strings: Set<u32>, addr: u32) -> Set<u32> {
    Set::new(|t: u32| exists|s: u32| #[trigger] strings.contains(s) && s + addr == t)
}

/// How many of the strings lie where a pointer points when the image is loaded at `addr`.
pub open spec fn hits(strings: Set<u32>, pointers: Set<u32>, addr: u32) -> nat {
    translated(strings, addr).intersect(pointers).len()
}

/// The hits of the base address `addr`, where the strings count that come before the first
/// one to leave the address space.
pub open spec fn match_count(strings: Seq<u32>, pointers: Set<u32>, addr: u32) -> nat {
    hits(reached_strings(strings, addr), pointers, addr)
}

/// The match count as a function of the base address.
pub open spec fn counts(strings: Seq<u32>, pointers: Set<u32>) -> spec_fn(u32) -> nat {
    |addr: u32| match_count(strings, pointers, addr)
}

/// The matches among the first `n` addresses from `start` in steps of `offset`: an address
/// matches where `counts` is positive.
pub open spec fn scanned(counts: spec_fn(u32) -> nat, start: int, offset: int, n: nat) -> Multiset<
    (usize, u32),
>
    decreases n,
{
    if n == 0 {
        Multiset::empty()
    } else {
        let before = scanned(counts, start, offset, (n - 1) as nat);
        let addr = (start + (n - 1) * offset) as u32;
        if counts(addr) > 0 {
            before.insert((counts(addr) as usize, addr))
        } else {
            before
        }
    }
}

/// How many addresses lie in steps of `offset` from `start` to `end`, both inclusive.
pub open spec fn steps(start: int, end: int, offset: int) -> nat {
    ((end - start) / offset + 1) as nat
}

/// The matches in the interval `index` of `threads`.
pub open spec fn interval_matches(
    counts: spec_fn(u32) -> nat,
    index: int,
    threads: int,
    offset: int,
) -> Multiset<(usize, u32)> {
    let start = interval::start_of(index, threads, offset);
    let end = interval::end_of(index, threads, offset);
    scanned(counts, start, offset, steps(start, end, offset))
}

/// The matches in the first `n` of the intervals of `threads`, with multiplicity.
pub open spec fn all_matches(
    counts: spec_fn(u32) -> nat,
    threads: int,
    offset: int,
    n: nat,
) -> Multiset<(usize, u32)>
    decreases n,
{
    if n == 0 {
        Multiset::empty()
    } else {
        all_matches(counts, threads, offset, (n - 1) as nat).add(
            interval_matches(counts, n - 1, threads, offset),
        )
    }
}

/// Counts the distinct addresses that both a string translated to `addr` and a pointer hit.
pub fn count_matches(strings: &Vec<u32>, pointers: &fnv::FnvHashSet<u32>, addr: u32) -> (r: usize)
    ensures
        r == match_count(strings@, pointers@, addr),
{
    let mut news: fnv::FnvHashSet<u32> = fnv::FnvHashSet::default();
    let mut i: usize = 0;
    assert(news@ =~= translated(strings@.take(0).to_set(), addr));
    while i < strings.len()
        invariant
            i <= strings.len(),
            forall|j: int| 0 <= j < i ==> #[trigger] strings@[j] + addr <= u32::MAX,
            news@ == translated(strings@.take(i as int).to_set(), addr),
        ensures
            i < strings.len() ==> strings@[i as int] + addr > u32::MAX,
        decreases strings.len() - i,
    {
        match strings[i].checked_add(addr) {
            Some(add) => {
                value_set::insert(&mut news, add);
                proof {
                    lemma_translate_one_more(strings@, addr, i as int);
                }
            },
            // Ordered strings leave the address space from the first overflow on.
            None => break,
        }
        i += 1;
    }
    proof {
        lemma_reached_prefix(strings@, addr, i as int);
    }
    let intersection = value_set::intersection(&news, pointers);
    value_set::len(&intersection)
}

/// The strings before the first overflow are the ones that are reached.
proof fn lemma_reached_prefix(strings: Seq<u32>, addr: u32, i: int)
    requires
        0 <= i <= strings.len(),
        forall|j: int| 0 <= j < i ==> #[trigger] strings[j] + addr <= u32::MAX,
        i < strings.len() ==> strings[i] + addr > u32::MAX,
    ensures
        strings.take(i).to_set() == reached_strings(strings, addr),
{
    assert forall|s: u32| strings.take(i).to_set().contains(s) <==> reached_strings(
        strings,
        addr,
    ).contains(s) by {
        if strings.take(i).contains(s) {
            let k = choose|k: int| 0 <= k < i && strings.take(i)[k] == s;
            assert(reached(strings, addr, k));
        }
        if reached_strings(strings, addr).contains(s) {
            let k = choose|k: int| #[trigger] reached(strings, addr, k) && strings[k] == s;
            assert(k < i);
            assert(strings.take(i)[k] == s);
        }
    }
    assert(strings.take(i).to_set() =~= reached_strings(strings, addr));
}

/// One more string adds its translation.
pub proof fn lemma_translate_one_more(strings: Seq<u32>, addr: u32, i: int)
    requires
        0 <= i < strings.len(),
        strings[i] + addr <= u32::MAX,
    ensures
        translated(strings.take(i).to_set(), addr).insert((strings[i] + addr) as u32)
            == translated(strings.take(i + 1).to_set(), addr),
{
    let old_set = strings.take(i).to_set();
    let new_set = strings.take(i + 1).to_set();
    assert(strings.take(i + 1) =~= strings.take(i).push(strings[i]));
    strings.take(i).lemma_push_to_set_commute(strings[i]);
    assert(new_set =~= old_set.insert(strings[i]));
    assert(new_set.contains(strings[i]));
    assert forall|t: u32|
        translated(old_set, addr).insert((strings[i] + addr) as u32).contains(t)
            <==> translated(new_set, addr).contains(t) by {
        if translated(old_set, addr).contains(t) {
            let s = choose|s: u32| #[trigger] old_set.contains(s) && s + addr == t;
            assert(new_set.contains(s));
        }
        if translated(new_set, addr).contains(t) {
            let s = choose|s: u32| #[trigger] new_set.contains(s) && s + addr == t;
            assert(s == strings[i] || old_set.contains(s));
        }
    }
    assert(translated(old_set, addr).insert((strings[i] + addr) as u32) =~= translated(
        new_set,
        addr,
    ));
}

/// A scan over the candidate addresses of one interval.
pub struct Scan {
    pub interval: Interval,
    pub offset: u32,
    /// The address that is next, unless the addresses have run out.
    pub current: Option<u32>,
}

impl Scan {
    /// The step is positive and the interval does not end before it starts.
    pub open spec fn wf(self) -> bool {
        &&& 0 < self.offset
        &&& self.interval.start_addr <= self.interval.end_addr
    }

    /// Whether no address of the interval is left.
    pub open spec fn is_finished(self) -> bool {
        match self.current {
            Some(addr) => addr > self.interval.end_addr,
            None => true,
        }
    }

    /// A scan that is about to look at the first address of the interval `scan_interval`.
    pub fn new(config: &Config, scan_interval: usize) -> (r: Result<Scan, &'static str>)
        requires
            scan_interval < config.threads && bits::is_power_of_two(config.offset)
                ==> config.threads + u32::MAX <= u64::MAX,
        ensures
            scan_interval >= config.threads ==> r is Err && r->Err_0@
                == "Invalid index specified"@,
            scan_interval < config.threads && !bits::is_power_of_two(config.offset) ==> r is Err
                && r->Err_0@ == "Invalid additive offset"@,
            scan_interval < config.threads && bits::is_power_of_two(config.offset) ==> {
                &&& r is Ok
                &&& r->Ok_0.wf()
                &&& r->Ok_0.interval.start_addr == interval::start_of(
                    scan_interval as int,
                    config.threads as int,
                    config.offset as int,
                )
                &&& r->Ok_0.interval.end_addr == interval::end_of(
                    scan_interval as int,
                    config.threads as int,
                    config.offset as int,
                )
                &&& r->Ok_0.offset == config.offset
                &&& r->Ok_0.current == Some(r->Ok_0.interval.start_addr)
            },
    {
        match Interval::get_range(scan_interval, config.threads, config.offset) {
            Ok(interval) => {
                proof {
                    interval::interval_is_ordered(
                        scan_interval as int,
                        config.threads as int,
                        config.offset,
                    );
                    bits::lemma_power_of_two_divides(config.offset);
                }
                Ok(
                    Scan {
                        interval,
                        offset: config.offset,
                        current: Some(interval.start_addr),
                    },
                )
            },
            Err(e) => Err(e),
        }
    }

    /// How many times the offset fits between the ends of the interval.
    pub fn total(&self) -> (r: u64)
        requires
            self.wf(),
        ensures
            r == (self.interval.end_addr - self.interval.start_addr) / self.offset as int,
    {
        ((self.interval.end_addr - self.interval.start_addr) / self.offset) as u64
    }

    /// Whether no address of the interval is left.
    pub fn finished(&self) -> (r: bool)
        ensures
            r == self.is_finished(),
            self.current matches Some(addr) ==> (r <==> addr > self.interval.end_addr),
            self.current is None ==> r,
    {
        match self.current {
            Some(addr) => addr > self.interval.end_addr,
            None => true,
        }
    }

    /// Looks at the next address: adds it to the heap if it has hits, and moves on by the
    /// offset. Returns `false` where that leaves the address space.
    pub fn step(
        &mut self,
        strings: &Vec<u32>,
        pointers: &fnv::FnvHashSet<u32>,
        heap: &mut MatchHeap,
    ) -> (r: bool)
        requires
            !old(self).is_finished(),
        ensures
            final(heap)@ == ({
                let addr = old(self).current->Some_0;
                let count = match_count(strings@, pointers@, addr);
                if count > 0 {
                    old(heap)@.insert((count as usize, addr))
                } else {
                    old(heap)@
                }
            }),
            r == (old(self).current->Some_0 + old(self).offset <= u32::MAX),
            final(self).current == (if r {
                Some((old(self).current->Some_0 + old(self).offset) as u32)
            } else {
                None::<u32>
            }),
            final(self).interval == old(self).interval,
            final(self).offset == old(self).offset,
    {
        match self.current {
            Some(addr) => {
                let count: usize = count_matches(strings, pointers, addr);
                if count > 0 {
                    heap.push((count, addr));
                }
                self.current = addr.checked_add(self.offset);
                self.current.is_some()
            },
            None => false,
        }
    }
}

/// The matches in one interval of the address space.
pub fn find_matches(
    config: &Config,
    strings: &Vec<u32>,
    pointers: &fnv::FnvHashSet<u32>,
    scan_interval: usize,
) -> (r: Result<MatchHeap, &'static str>)
    requires
        scan_interval < config.threads && bits::is_power_of_two(config.offset) ==> config.threads
            + u32::MAX <= u64::MAX,
    ensures
        scan_interval >= config.threads ==> r is Err && r->Err_0@ == "Invalid index specified"@,
        scan_interval < config.threads && !bits::is_power_of_two(config.offset) ==> r is Err
            && r->Err_0@ == "Invalid additive offset"@,
        scan_interval < config.threads && bits::is_power_of_two(config.offset) ==> r is Ok
            && r->Ok_0@ == interval_matches(
            counts(strings@, pointers@),
            scan_interval as int,
            config.threads as int,
            config.offset as int,
        ),
{
    let mut scan: Scan = match Scan::new(config, scan_interval) {
        Ok(scan) => scan,
        Err(e) => return Err(e),
    };
    let mut heap: MatchHeap = MatchHeap::new();
    let ghost f = counts(strings@, pointers@);
    let ghost start = scan.interval.start_addr as int;
    let ghost end = scan.interval.end_addr as int;
    let ghost offset = config.offset as int;
    let ghost mut n: nat = 0;
    while !scan.finished()
        invariant
            f == counts(strings@, pointers@),
            scan.wf(),
            scan.offset == offset,
            scan.interval.start_addr == start,
            scan.interval.end_addr == end,
            heap@ == scanned(f, start, offset, n),
            match scan.current {
                Some(addr) => addr == start + n * offset,
                None => start + n * offset > u32::MAX,
            },
            n > 0 ==> start + (n - 1) * offset <= end,
        decreases 0x2_0000_0000 - (start + n * offset),
    {
        scan.step(strings, pointers, &mut heap);
        proof {
            assert((n + 1) * offset == n * offset + offset) by (nonlinear_arith);
            n = n + 1;
        }
    }
    proof {
        lemma_steps(start, end, offset, n);
    }
    Ok(heap)
}

proof fn lemma_steps(start: int, end: int, offset: int, n: nat)
    requires
        start <= end,
        0 < offset,
        start + n * offset > end,
        n > 0 ==> start + (n - 1) * offset <= end,
    ensures
        n == steps(start, end, offset),
{
    let d = end - start;
    if n == 0 {
        assert(0 * offset == 0);
    }
    assert((n - 1) * offset <= d < (n - 1) * offset + offset) by (nonlinear_arith)
        requires
            n > 0,
            start + n * offset > end,
            start + (n - 1) * offset <= end,
            d == end - start,
    ;
    vstd::arithmetic::div_mod::lemma_fundamental_div_mod_converse(
        d,
        offset,
        n - 1,
        d - (n - 1) * offset,
    );
}

/// Whether `x` is a match at one of the first `n` addresses from `start` in steps of `offset`.
pub open spec fn is_scanned_match(
    counts: spec_fn(u32) -> nat,
    start: int,
    offset: int,
    n: nat,
    x: (usize, u32),
) -> bool {
    &&& counts(x.1) > 0
    &&& x.0 == counts(x.1) as usize
    &&& exists|k: int| 0 <= k < n && x.1 == #[trigger] scan_address(start, offset, k)
}

/// The address that a scan looks at after `k` steps.
pub open spec fn scan_address(start: int, offset: int, k: int) -> int {
    start + k * offset
}

/// A scan finds exactly the addresses it looks at that have hits, and each of them once.
pub proof fn scan_finds_each_match_once(
    counts: spec_fn(u32) -> nat,
    start: int,
    offset: int,
    n: nat,
    x: (usize, u32),
)
    requires
        0 <= start,
        0 < offset,
        n > 0 ==> scan_address(start, offset, n - 1) <= u32::MAX,
    ensures
        scanned(counts, start, offset, n).contains(x) <==> is_scanned_match(
            counts,
            start,
            offset,
            n,
            x,
        ),
        scanned(counts, start, offset, n).count(x) <= 1,
    decreases n,
{
    if n > 0 {
        let m = (n - 1) as nat;
        let addr = scan_address(start, offset, m as int);
        assert(addr >= 0) by (nonlinear_arith)
            requires
                addr == start + m * offset,
                0 <= start,
                0 < offset,
        ;
        if m > 0 {
            assert(scan_address(start, offset, m - 1) <= addr) by (nonlinear_arith)
                requires
                    addr == start + m * offset,
                    scan_address(start, offset, m - 1) == start + (m - 1) * offset,
                    0 < offset,
            ;
        }
        scan_finds_each_match_once(counts, start, offset, m, x);
        if x.1 == addr {
            // No earlier step looks at this address.
            assert forall|k: int| 0 <= k < m implies #[trigger] scan_address(start, offset, k)
                != addr by {
                assert(k * offset < m * offset) by (nonlinear_arith)
                    requires
                        k < m,
                        0 < offset,
                ;
            }
            assert(!is_scanned_match(counts, start, offset, m, x));
        }
        if is_scanned_match(counts, start, offset, n, x) && x.1 != addr {
            let k = choose|k: int| 0 <= k < n && x.1 == #[trigger] scan_address(start, offset, k);
            assert(k < m);
            assert(is_scanned_match(counts, start, offset, m, x));
        }
        if is_scanned_match(counts, start, offset, m, x) {
            assert(is_scanned_match(counts, start, offset, n, x));
        }
    }
}

/// Scans with counts that agree on every multiple of the offset find the same matches.
pub proof fn lemma_scans_agree(
    f: spec_fn(u32) -> nat,
    g: spec_fn(u32) -> nat,
    offset: u32,
    n: nat,
)
    requires
        0 < offset,
        n > 0 ==> (n - 1) * offset <= u32::MAX,
        forall|addr: u32| addr % offset == 0 ==> #[trigger] f(addr) == g(addr),
    ensures
        scanned(f, 0, offset as int, n) == scanned(g, 0, offset as int, n),
    decreases n,
{
    if n > 0 {
        if n > 1 {
            assert((n - 2) * offset <= (n - 1) * offset) by (nonlinear_arith)
                requires
                    0 < offset,
            ;
        }
        lemma_scans_agree(f, g, offset, (n - 1) as nat);
        assert(0 <= (n - 1) * offset) by (nonlinear_arith)
            requires
                0 < offset,
                n > 0,
        ;
        vstd::arithmetic::div_mod::lemma_mod_multiples_basic(n - 1, offset as int);
        let addr = (0 + (n - 1) * offset) as u32;
        assert(addr % offset == 0);
        assert(f(addr) == g(addr));
    }
}

/// Where the strings ascend, as the strings of an image do, those left out because of an
/// overflow would all leave the address space themselves: every string counts.
pub proof fn ordered_strings_all_count(strings: Seq<u32>, pointers: Set<u32>, addr: u32)
    requires
        forall|i: int, j: int| 0 <= i < j < strings.len() ==> strings[i] <= strings[j],
    ensures
        match_count(strings, pointers, addr) == hits(strings.to_set(), pointers, addr),
{
    let part = reached_strings(strings, addr);
    let whole = strings.to_set();
    assert forall|t: u32| translated(part, addr).contains(t) <==> translated(
        whole,
        addr,
    ).contains(t) by {
        if translated(part, addr).contains(t) {
            let s = choose|s: u32| #[trigger] part.contains(s) && s + addr == t;
            let i = choose|i: int| #[trigger] reached(strings, addr, i) && strings[i] == s;
            assert(strings.contains(strings[i]));
            assert(whole.contains(s));
        }
        if translated(whole, addr).contains(t) {
            let s = choose|s: u32| #[trigger] whole.contains(s) && s + addr == t;
            let i = choose|i: int| 0 <= i < strings.len() && strings[i] == s;
            assert(reached(strings, addr, i));
            assert(part.contains(s));
        }
    }
    assert(translated(part, addr) =~= translated(whole, addr));
}

/// The strings that lie where a pointer points when the image is loaded at `addr`.
spec fn pointed_at(strings: Set<u32>, pointers: Set<u32>, addr: u32) -> Set<u32> {
    strings.filter(|s: u32| s + addr <= u32::MAX && pointers.contains((s + addr) as u32))
}

proof fn lemma_hits_count_strings(strings: Set<u32>, pointers: Set<u32>, addr: u32)
    ensures
        hits(strings, pointers, addr) == pointed_at(strings, pointers, addr).len(),
        pointed_at(strings, pointers, addr).finite(),
        strings.finite(),
{
    broadcast use vstd::set_lib::full_set_properties;

    let from = pointed_at(strings, pointers, addr);
    let to = translated(strings, addr).intersect(pointers);
    let f = |s: u32| (s + addr) as u32;
    assert(from.subset_of(Set::<u32>::full()));
    assert(strings.subset_of(Set::<u32>::full()));
    vstd::set_lib::lemma_set_subset_finite(Set::<u32>::full(), from);
    vstd::set_lib::lemma_set_subset_finite(Set::<u32>::full(), strings);
    assert forall|t: u32| from.map(f).contains(t) <==> to.contains(t) by {
        if from.map(f).contains(t) {
            let s = choose|s: u32| from.contains(s) && f(s) == t;
            assert(strings.contains(s));
        }
        if to.contains(t) {
            let s = choose|s: u32| #[trigger] strings.contains(s) && s + addr == t;
            assert(from.contains(s));
            assert(f(s) == t);
        }
    }
    assert(from.map(f) =~= to);
    vstd::set_lib::lemma_map_size(from, to, f);
}

/// An address never has more hits than there are strings or pointers.
pub proof fn hits_are_bounded(strings: Set<u32>, pointers: Set<u32>, addr: u32)
    ensures
        hits(strings, pointers, addr) <= strings.len(),
        hits(strings, pointers, addr) <= pointers.len(),
{
    broadcast use vstd::set_lib::full_set_properties;

    lemma_hits_count_strings(strings, pointers, addr);
    vstd::set_lib::lemma_len_subset(pointed_at(strings, pointers, addr), strings);
    assert(pointers.subset_of(Set::<u32>::full()));
    vstd::set_lib::lemma_set_subset_finite(Set::<u32>::full(), pointers);
    vstd::set_lib::lemma_len_subset(translated(strings, addr).intersect(pointers), pointers);
}

/// A base address at which every string lies where a pointer points has as many hits as
/// there are distinct strings, and no other address has more.
pub proof fn true_base_is_never_beaten(
    strings: Seq<u32>,
    pointers: Set<u32>,
    base: u32,
    other: u32,
)
    requires
        forall|i: int|
            0 <= i < strings.len() ==> #[trigger] strings[i] + base <= u32::MAX
                && pointers.contains((strings[i] + base) as u32),
    ensures
        match_count(strings, pointers, base) == strings.to_set().len(),
        match_count(strings, pointers, other) <= match_count(strings, pointers, base),
{
    let whole = strings.to_set();
    assert(reached_strings(strings, base) =~= whole) by {
        lemma_reached_prefix(strings, base, strings.len() as int);
        assert(strings.take(strings.len() as int) =~= strings);
    }
    lemma_hits_count_strings(whole, pointers, base);
    assert(pointed_at(whole, pointers, base) =~= whole);
    let part = reached_strings(strings, other);
    hits_are_bounded(part, pointers, other);
    assert forall|s: u32| part.contains(s) implies whole.contains(s) by {
        let i = choose|i: int| #[trigger] reached(strings, other, i) && strings[i] == s;
        assert(strings.contains(strings[i]));
    }
    vstd::set_lib::lemma_len_subset(part, whole);
}

/// The hits of an address are the strings that lie where a pointer points once the address is
/// added to them.
pub proof fn hits_are_the_strings_at_pointers(strings: Set<u32>, pointers: Set<u32>, addr: u32)
    ensures
        hits(strings, pointers, addr) == strings.filter(
            |s: u32| s + addr <= u32::MAX && pointers.contains((s + addr) as u32),
        ).len(),
{
    lemma_hits_count_strings(strings, pointers, addr);
    assert(pointed_at(strings, pointers, addr) =~= strings.filter(
        |s: u32| s + addr <= u32::MAX && pointers.contains((s + addr) as u32),
    ));
}

/// One more string adds one to the count of an address exactly where no string before it has
/// left the address space, it stays inside itself, it lies where a pointer points, and it is
/// not there already. Without strings the count is zero.
pub proof fn one_more_string_counts_once(
    strings: Seq<u32>,
    s: u32,
    pointers: Set<u32>,
    addr: u32,
)
    ensures
        match_count(Seq::empty(), pointers, addr) == 0,
        match_count(strings.push(s), pointers, addr) == match_count(strings, pointers, addr) + if (
        forall|j: int| 0 <= j < strings.len() ==> #[trigger] strings[j] + addr <= u32::MAX) && s
            + addr <= u32::MAX && pointers.contains((s + addr) as u32) && !strings.contains(s) {
            1nat
        } else {
            0nat
        },
{
    broadcast use vstd::set_lib::full_set_properties;

    let none = Seq::<u32>::empty();
    lemma_reached_prefix(none, addr, 0);
    assert(none.take(0) =~= none);
    assert(translated(none.to_set(), addr).intersect(pointers) =~= Set::<u32>::empty());
    let more = strings.push(s);
    let n = strings.len() as int;
    let inside = forall|j: int| 0 <= j < strings.len() ==> #[trigger] strings[j] + addr <= u32::MAX;
    if inside {
        lemma_reached_prefix(strings, addr, n);
        assert(strings.take(n) =~= strings);
        assert(more.take(n) =~= strings);
        assert(more.take(n + 1) =~= more);
        assert forall|j: int| 0 <= j < n implies #[trigger] more[j] + addr <= u32::MAX by {
            assert(more[j] == strings[j]);
        }
        if s + addr <= u32::MAX {
            assert forall|j: int| 0 <= j < n + 1 implies #[trigger] more[j] + addr
                <= u32::MAX by {
                assert(j < n ==> more[j] == strings[j]);
            }
            lemma_reached_prefix(more, addr, n + 1);
            lemma_translate_one_more(more, addr, n);
            let t = (s + addr) as u32;
            let before = translated(strings.to_set(), addr).intersect(pointers);
            let after = translated(more.to_set(), addr).intersect(pointers);
            assert(before.subset_of(Set::<u32>::full()));
            vstd::set_lib::lemma_set_subset_finite(Set::<u32>::full(), before);
            if strings.contains(s) {
                assert(strings.to_set().contains(s));
                assert(translated(strings.to_set(), addr).contains(t));
                assert(after =~= before);
            } else if pointers.contains(t) {
                assert(after =~= before.insert(t));
                if before.contains(t) {
                    let q = choose|q: u32| #[trigger]
                        strings.to_set().contains(q) && q + addr == t;
                    assert(q == s);
                }
            } else {
                assert(after =~= before);
            }
        } else {
            lemma_reached_prefix(more, addr, n);
        }
    } else {
        let out = choose|j: int| 0 <= j < n && #[trigger] strings[j] + addr > u32::MAX;
        assert(more[out] == strings[out]);
        assert forall|i: int| reached(more, addr, i) <==> reached(strings, addr, i) by {
            if reached(more, addr, i) {
                assert(i < out);
                assert forall|j: int| 0 <= j <= i implies #[trigger] strings[j] + addr
                    <= u32::MAX by {
                    assert(more[j] == strings[j]);
                }
            }
            if reached(strings, addr, i) {
                assert forall|j: int| 0 <= j <= i implies #[trigger] more[j] + addr
                    <= u32::MAX by {
                    assert(more[j] == strings[j]);
                }
            }
        }
        assert forall|q: u32| reached_strings(more, addr).contains(q) <==> reached_strings(
            strings,
            addr,
        ).contains(q) by {
            if reached_strings(more, addr).contains(q) {
                let i = choose|i: int| #[trigger] reached(more, addr, i) && more[i] == q;
                assert(reached(strings, addr, i) && strings[i] == q);
            }
            if reached_strings(strings, addr).contains(q) {
                let i = choose|i: int| #[trigger] reached(strings, addr, i) && strings[i] == q;
                assert(reached(more, addr, i) && more[i] == q);
            }
        }
        assert(reached_strings(more, addr) =~= reached_strings(strings, addr));
    }
}

/// A scan that takes `n` steps finds an address exactly where it has hits, is not below the
/// start, and is fewer than `n` whole steps away from it; it finds it once, with its count.
pub proof fn scan_finds_what_its_steps_reach(
    counts: spec_fn(u32) -> nat,
    start: int,
    offset: int,
    n: nat,
    count: usize,
    addr: u32,
)
    requires
        0 <= start,
        0 < offset,
        n > 0 ==> start + (n - 1) * offset <= u32::MAX,
    ensures
        scanned(counts, start, offset, n).count((count, addr)) == if counts(addr) > 0 && count
            == counts(addr) as usize && start <= addr && (addr - start) % offset == 0 && (addr
            - start) / offset < n {
            1nat
        } else {
            0nat
        },
{
    let x = (count, addr);
    scan_finds_each_match_once(counts, start, offset, n, x);
    let d = addr - start;
    vstd::arithmetic::div_mod::lemma_fundamental_div_mod(d, offset);
    let q = d / offset;
    assert(offset * q == q * offset) by (nonlinear_arith);
    if start <= addr && d % offset == 0 && q < n {
        assert(0 <= q) by (nonlinear_arith)
            requires
                q == d / offset,
                0 <= d,
                0 < offset,
        ;
        assert(addr == scan_address(start, offset, q));
    }
    if exists|k: int| 0 <= k < n && addr == #[trigger] scan_address(start, offset, k) {
        let k = choose|k: int| 0 <= k < n && addr == #[trigger] scan_address(start, offset, k);
        assert(d == k * offset);
        assert(0 <= k * offset) by (nonlinear_arith)
            requires
                0 <= k,
                0 < offset,
        ;
        vstd::arithmetic::div_mod::lemma_fundamental_div_mod_converse(d, offset, k, 0);
    }
}

/// The last step of a scan does not leave its interval, and one more would.
pub proof fn steps_fill_the_interval(start: int, end: int, offset: int)
    requires
        start <= end,
        0 < offset,
    ensures
        start + (steps(start, end, offset) - 1) * offset <= end < start + steps(
            start,
            end,
            offset,
        ) * offset,
{
    let d = end - start;
    let q = d / offset;
    vstd::arithmetic::div_mod::lemma_fundamental_div_mod(d, offset);
    vstd::arithmetic::div_mod::lemma_mod_bound(d, offset);
    assert(0 <= q) by (nonlinear_arith)
        requires
            q == d / offset,
            0 <= d,
            0 < offset,
    ;
    assert(offset * q == q * offset && (q + 1) * offset == q * offset + offset)
        by (nonlinear_arith);
}

/// The count of an address does not depend on which other addresses are looked at.
pub proof fn counts_are_those_of_each_address(strings: Seq<u32>, pointers: Set<u32>, addr: u32)
    ensures
        counts(strings, pointers)(addr) == match_count(strings, pointers, addr),
{
}

} // verus!
