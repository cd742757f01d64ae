//! What a compute device is given to search with, and what it computes for each candidate.

use vstd::prelude::*;

use crate::bits;
use crate::config::Config;
use crate::scan;
use crate::value_set;

verus! {

/// Whether the values ascend strictly.
pub open spec fn ascending(s: Seq<u32>) -> bool {
    forall|i: int, j: int| 0 <= i < j < s.len() ==> s[i] < s[j]
}

spec fn sorted(s: Seq<u32>) -> bool {
    forall|i: int, j: int| 0 <= i < j < s.len() ==> s[i] <= s[j]
}

/// The values without those that equal the value right before them.
spec fn without_repeats(s: Seq<u32>) -> Seq<u32>
    decreases s.len(),
{
    if s.len() <= 1 {
        s
    } else if s.last() == s[s.len() - 2] {
        without_repeats(s.drop_last())
    } else {
        without_repeats(s.drop_last()).push(s.last())
    }
}

/// `slice::sort_unstable` on `u32` values: the same values in ascending order.
#[verifier::external_body]
fn sort(values: &mut Vec<u32>)
    ensures
        sorted(final(values)@),
        final(values)@.to_multiset() == old(values)@.to_multiset(),
{
    values.sort_unstable();
}

/// `Vec::dedup` on `u32` values: of equal values in a row the first stays.
#[verifier::external_body]
fn dedup(values: &mut Vec<u32>)
    ensures
        final(values)@ == without_repeats(old(values)@),
{
    values.dedup();
}

proof fn lemma_without_repeats(s: Seq<u32>)
    requires
        sorted(s),
    ensures
        ascending(without_repeats(s)),
        without_repeats(s).to_set() == s.to_set(),
        s.len() > 0 ==> without_repeats(s).len() > 0 && without_repeats(s).last() == s.last(),
    decreases s.len(),
{
    if s.len() > 1 {
        let init = s.drop_last();
        lemma_without_repeats(init);
        let kept = without_repeats(init);
        assert(init.last() == s[s.len() - 2]);
        assert(s =~= init.push(s.last()));
        init.lemma_push_to_set_commute(s.last());
        if s.last() == s[s.len() - 2] {
            assert(init.contains(init.last()));
            assert(s.to_set() =~= init.to_set());
        } else {
            kept.lemma_push_to_set_commute(s.last());
            assert(kept.last() < s.last());
        }
    }
}

/// Sorts the values and drops those that repeat.
fn sorted_unique(values: Vec<u32>) -> (r: Vec<u32>)
    ensures
        ascending(r@),
        r@.to_set() == values@.to_set(),
        r@.len() == values@.to_set().len(),
{
    let mut values: Vec<u32> = values;
    let ghost given = values@;
    sort(&mut values);
    proof {
        broadcast use vstd::seq_lib::group_to_multiset_ensures;

        assert forall|x: u32| values@.contains(x) <==> given.contains(x) by {
            vstd::seq_lib::to_multiset_contains(values@, x);
            vstd::seq_lib::to_multiset_contains(given, x);
        }
        assert(values@.to_set() =~= given.to_set());
        lemma_without_repeats(values@);
    }
    dedup(&mut values);
    proof {
        values@.unique_seq_to_set();
    }
    values
}

/// Whether a pointer can be hit at all: where the step is not one, some string has the same
/// bits below the step.
pub open spec fn may_be_hit(strings: Set<u32>, offset: u32, pointer: u32) -> bool {
    offset == 1 || exists|s: u32| #[trigger]
        strings.contains(s) && s & ((offset - 1) as u32) == pointer & ((offset - 1) as u32)
}

/// The pointers that can be hit.
pub open spec fn kept_pointers(strings: Set<u32>, offset: u32, pointers: Set<u32>) -> Set<u32> {
    pointers.filter(|p: u32| may_be_hit(strings, offset, p))
}

/// What a compute device searches with.
pub struct Job {
    pub strings: Vec<u32>,
    pub pointers: Vec<u32>,
    pub ptr_min: u32,
    pub ptr_max: u32,
    pub offset: u32,
}

impl Job {
    /// The strings and the pointers ascend strictly, are not more than 32 bits can count, and
    /// the pointers lie from `ptr_min` to `ptr_max`.
    pub open spec fn wf(self) -> bool {
        &&& ascending(self.strings@)
        &&& ascending(self.pointers@)
        &&& self.strings@.len() <= u32::MAX
        &&& 0 < self.pointers@.len() <= u32::MAX
        &&& self.ptr_min == self.pointers@[0]
        &&& self.ptr_max == self.pointers@.last()
    }
}

/// The outcome of preparing a search on a device.
pub enum Preparation {
    /// There is no string, so nothing can match.
    NoStrings,
    /// No pointer can be hit by any of the strings, so nothing can match.
    NoPointers { strings_unique: usize },
    /// The device has to search.
    Ready(Job),
}

/// Keeps the pointers that can be hit.
fn filter_pointers(strings: &Vec<u32>, offset: u32, pointers: &[u32]) -> (r: Vec<u32>)
    requires
        offset > 0,
    ensures
        r@.to_set() == kept_pointers(strings@.to_set(), offset, pointers@.to_set()),
{
    if offset == 1 {
        assert(kept_pointers(strings@.to_set(), offset, pointers@.to_set()) =~= pointers@.to_set());
        return vstd::slice::slice_to_vec(pointers);
    }
    let mask: u32 = offset - 1;
    let mut string_low_bits: fnv::FnvHashSet<u32> = fnv::FnvHashSet::default();
    for i in 0..strings.len()
        invariant
            forall|b: u32|
                string_low_bits@.contains(b) <==> exists|j: int|
                    0 <= j < i && (#[trigger] strings@[j]) & mask == b,
    {
        value_set::insert(&mut string_low_bits, strings[i] & mask);
    }
    let mut kept: Vec<u32> = Vec::new();
    for i in 0..pointers.len()
        invariant
            offset > 1,
            mask == offset - 1,
            forall|b: u32|
                string_low_bits@.contains(b) <==> exists|j: int|
                    0 <= j < strings@.len() && (#[trigger] strings@[j]) & mask == b,
            forall|p: u32|
                kept@.contains(p) <==> pointers@.take(i as int).contains(p) && may_be_hit(
                    strings@.to_set(),
                    offset,
                    p,
                ),
    {
        let p: u32 = pointers[i];
        let hit: bool = value_set::contains(&string_low_bits, p & mask);
        proof {
            let set = strings@.to_set();
            if hit {
                let j = choose|j: int|
                    0 <= j < strings@.len() && (#[trigger] strings@[j]) & mask == p & mask;
                assert(set.contains(strings@[j]));
            }
            if may_be_hit(set, offset, p) {
                let s = choose|s: u32| #[trigger]
                    set.contains(s) && s & ((offset - 1) as u32) == p & ((offset - 1) as u32);
                let j = choose|j: int| 0 <= j < strings@.len() && strings@[j] == s;
                assert(strings@[j] & mask == p & mask);
            }
            assert(hit == may_be_hit(set, offset, p));
            assert(pointers@.take(i + 1) =~= pointers@.take(i as int).push(p));
        }
        let ghost before = kept@;
        if hit {
            kept.push(p);
        }
        proof {
            let init = pointers@.take(i as int);
            assert forall|q: u32|
                kept@.contains(q) <==> pointers@.take(i + 1).contains(q) && may_be_hit(
                    strings@.to_set(),
                    offset,
                    q,
                ) by {
                vstd::seq_lib::lemma_seq_contains_after_push(before, p, q);
                vstd::seq_lib::lemma_seq_contains_after_push(init, p, q);
                assert(before.push(p).contains(q) ==> before.contains(q) || q == p);
                assert(init.push(p).contains(q) ==> init.contains(q) || q == p);
                assert(before.contains(q) <==> init.contains(q) && may_be_hit(
                    strings@.to_set(),
                    offset,
                    q,
                ));
            }
        }
    }
    assert(pointers@.take(pointers@.len() as int) =~= pointers@);
    assert(kept@.to_set() =~= kept_pointers(strings@.to_set(), offset, pointers@.to_set()));
    kept
}

/// Sorts out what a device has to search for.
pub fn prepare(config: &Config, strings: &[u32], pointers: &[u32]) -> (r: Result<
    Preparation,
    &'static str,
>)
    requires
        strings@.len() > 0 ==> config.offset > 0,
    ensures
        ({
            let all = strings@.to_set();
            let kept = kept_pointers(all, config.offset, pointers@.to_set());
            if strings@.len() == 0 {
                r == Ok::<Preparation, &'static str>(Preparation::NoStrings)
            } else if kept.len() == 0 {
                &&& r is Ok
                &&& r->Ok_0 is NoPointers
                &&& r->Ok_0->strings_unique == all.len()
            } else if all.len() > u32::MAX || kept.len() > u32::MAX {
                &&& r is Err
                &&& r->Err_0@ == "OpenCL path does not support > u32::MAX strings/pointers"@
            } else {
                &&& r is Ok
                &&& r->Ok_0 is Ready
                &&& r->Ok_0->Ready_0.wf()
                &&& r->Ok_0->Ready_0.strings@.to_set() == all
                &&& r->Ok_0->Ready_0.pointers@.to_set() == kept
                &&& r->Ok_0->Ready_0.offset == config.offset
            }
        }),
{
    if strings.len() == 0 {
        return Ok(Preparation::NoStrings);
    }
    let sorted_strings: Vec<u32> = sorted_unique(vstd::slice::slice_to_vec(strings));
    let filtered_pointers: Vec<u32> = sorted_unique(
        filter_pointers(&sorted_strings, config.offset, pointers),
    );
    if filtered_pointers.len() == 0 {
        return Ok(Preparation::NoPointers { strings_unique: sorted_strings.len() });
    }
    if sorted_strings.len() as u64 > u32::MAX as u64 || filtered_pointers.len() as u64
        > u32::MAX as u64 {
        return Err("OpenCL path does not support > u32::MAX strings/pointers");
    }
    let ptr_min: u32 = filtered_pointers[0];
    let ptr_max: u32 = filtered_pointers[filtered_pointers.len() - 1];
    Ok(
        Preparation::Ready(
            Job {
                strings: sorted_strings,
                pointers: filtered_pointers,
                ptr_min,
                ptr_max,
                offset: config.offset,
            },
        ),
    )
}

/// The hits of the strings do not change when strings are added that hit nothing.
proof fn lemma_rest_misses(
    strings: Seq<u32>,
    pointers: Set<u32>,
    addr: u32,
    i: int,
)
    requires
        0 <= i <= strings.len(),
        forall|j: int, t: u32|
            i <= j < strings.len() && #[trigger] strings[j] + addr == t
                ==> !#[trigger] pointers.contains(t),
    ensures
        scan::hits(strings.take(i).to_set(), pointers, addr) == scan::hits(
            strings.to_set(),
            pointers,
            addr,
        ),
{
    let part = strings.take(i).to_set();
    let whole = strings.to_set();
    let a = scan::translated(part, addr).intersect(pointers);
    let b = scan::translated(whole, addr).intersect(pointers);
    assert forall|t: u32| a.contains(t) <==> b.contains(t) by {
        if a.contains(t) {
            let s = choose|s: u32| #[trigger] part.contains(s) && s + addr == t;
            let k = choose|k: int| 0 <= k < i && strings.take(i)[k] == s;
            assert(strings[k] == s);
            assert(whole.contains(s));
        }
        if b.contains(t) {
            let s = choose|s: u32| #[trigger] whole.contains(s) && s + addr == t;
            let k = choose|k: int| 0 <= k < strings.len() && strings[k] == s;
            if k >= i {
                assert(strings[k] + addr == t);
            }
            assert(strings.take(i)[k] == s);
            assert(part.contains(s));
        }
    }
    assert(a =~= b);
}

/// One more string adds one hit where it meets a pointer, and none otherwise.
proof fn lemma_one_more_string(strings: Seq<u32>, pointers: Set<u32>, addr: u32, i: int)
    requires
        ascending(strings),
        0 <= i < strings.len(),
        strings[i] + addr <= u32::MAX,
    ensures
        scan::hits(strings.take(i + 1).to_set(), pointers, addr) == scan::hits(
            strings.take(i).to_set(),
            pointers,
            addr,
        ) + if pointers.contains((strings[i] + addr) as u32) {
            1nat
        } else {
            0nat
        },
{
    let t = (strings[i] + addr) as u32;
    let part = strings.take(i).to_set();
    scan::lemma_translate_one_more(strings, addr, i);
    let old_hits = scan::translated(part, addr).intersect(pointers);
    let new_hits = scan::translated(strings.take(i + 1).to_set(), addr).intersect(pointers);
    broadcast use vstd::set_lib::full_set_properties;

    assert(old_hits.subset_of(Set::<u32>::full()));
    vstd::set_lib::lemma_set_subset_finite(Set::<u32>::full(), old_hits);
    if pointers.contains(t) {
        assert(new_hits =~= old_hits.insert(t));
        if old_hits.contains(t) {
            let s = choose|s: u32| #[trigger] part.contains(s) && s + addr == t;
            let k = choose|k: int| 0 <= k < i && strings.take(i)[k] == s;
            assert(strings[k] == strings[i]);
        }
    } else {
        assert(new_hits =~= old_hits);
    }
}

/// Whether the ascending values hold `target`, by halving the range that can hold it.
fn contains_sorted(values: &Vec<u32>, target: u32) -> (r: bool)
    requires
        ascending(values@),
        values@.len() <= u32::MAX,
    ensures
        r == values@.contains(target),
{
    let count: u32 = values.len() as u32;
    let mut lo: u32 = 0;
    let mut hi: u32 = count;
    while lo < hi
        invariant
            ascending(values@),
            count == values@.len(),
            lo <= hi <= count,
            forall|i: int| 0 <= i < lo ==> #[trigger] values@[i] < target,
            forall|i: int| hi <= i < count ==> #[trigger] values@[i] >= target,
        decreases hi - lo,
    {
        let gap: u32 = hi - lo;
        assert(gap >> 1 == gap / 2) by (bit_vector);
        let mid: u32 = lo + (gap >> 1);
        if values[mid as usize] < target {
            lo = mid + 1;
        } else {
            hi = mid;
        }
    }
    lo < count && values[lo as usize] == target
}

impl Job {
    /// What the device computes for the candidate `gid` of the `candidate_count` that start
    /// at `base_start`: the hits of its address. It computes nothing for a `gid` beyond.
    pub fn find(&self, base_start: u32, candidate_count: u32, gid: u32) -> (r: Option<u32>)
        requires
            self.wf(),
        ensures
            match r {
                None => gid >= candidate_count,
                Some(count) => {
                    let addr = base_start + gid * self.offset;
                    &&& gid < candidate_count
                    &&& addr > u32::MAX ==> count == 0
                    &&& addr <= u32::MAX ==> count == scan::hits(
                        self.strings@.to_set(),
                        self.pointers@.to_set(),
                        addr as u32,
                    )
                },
            },
    {
        if gid >= candidate_count {
            return None;
        }
        assert(gid * self.offset <= 0xffff_ffff * 0xffff_ffff) by (nonlinear_arith)
            requires
                0 <= gid <= 0xffff_ffff,
                0 <= self.offset <= 0xffff_ffff,
        ;
        let current_addr: u64 = base_start as u64 + gid as u64 * self.offset as u64;
        if current_addr > u32::MAX as u64 {
            return Some(0);
        }
        let ghost addr = current_addr as u32;
        let ghost targets = self.pointers@.to_set();
        let str_count: usize = self.strings.len();
        let mut intersect_count: u32 = 0;
        let mut i: usize = 0;
        proof {
            assert(scan::translated(self.strings@.take(0).to_set(), addr).intersect(targets)
                =~= Set::<u32>::empty());
        }
        while i < str_count
            invariant
                self.wf(),
                str_count == self.strings@.len(),
                i <= str_count,
                addr == current_addr,
                targets == self.pointers@.to_set(),
                intersect_count <= i,
                intersect_count == scan::hits(
                    self.strings@.take(i as int).to_set(),
                    targets,
                    addr,
                ),
            ensures
                forall|j: int, t: u32|
                    i <= j < str_count && #[trigger] self.strings@[j] + addr == t
                        ==> !#[trigger] targets.contains(t),
            decreases str_count - i,
        {
            let translated_string: u64 = self.strings[i] as u64 + current_addr;
            if translated_string > u32::MAX as u64 {
                break;
            }
            proof {
                lemma_one_more_string(self.strings@, targets, addr, i as int);
            }
            if translated_string < self.ptr_min as u64 {
                i += 1;
                continue;
            }
            if translated_string > self.ptr_max as u64 {
                break;
            }
            let target: u32 = translated_string as u32;
            if contains_sorted(&self.pointers, target) {
                intersect_count += 1;
            }
            i += 1;
        }
        proof {
            lemma_rest_misses(self.strings@, targets, addr, i as int);
        }
        Some(intersect_count)
    }
}

/// A pointer is kept exactly where some string leaves the same remainder when it is divided by
/// the offset; with an offset of one, every pointer is.
pub proof fn kept_pointers_leave_the_remainder_of_a_string(
    strings: Set<u32>,
    offset: u32,
    pointers: Set<u32>,
    p: u32,
)
    requires
        bits::is_power_of_two(offset),
    ensures
        kept_pointers(strings, offset, pointers).contains(p) <==> pointers.contains(p) && (offset
            == 1 || exists|s: u32| #[trigger]
            strings.contains(s) && s as int % offset as int == p as int % offset as int),
{
    assert forall|s: u32| #[trigger] strings.contains(s) implies (s & ((offset - 1) as u32) == p & (
    (offset - 1) as u32) <==> s as int % offset as int == p as int % offset as int) by {
        bits::lemma_mask_is_remainder(s, offset);
        bits::lemma_mask_is_remainder(p, offset);
    }
}

/// A pointer is kept exactly where some string has the same bits below the offset; with an
/// offset of one, every pointer is.
pub proof fn kept_pointers_have_the_low_bits_of_a_string(
    strings: Set<u32>,
    offset: u32,
    pointers: Set<u32>,
    p: u32,
)
    requires
        offset > 0,
    ensures
        kept_pointers(strings, offset, pointers).contains(p) <==> pointers.contains(p) && (offset
            == 1 || exists|s: u32| #[trigger]
            strings.contains(s) && s & ((offset - 1) as u32) == p & ((offset - 1) as u32)),
{
}

} // verus!
