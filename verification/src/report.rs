//! The best matches and how they are reported.

use vstd::multiset::Multiset;
use vstd::prelude::*;

use crate::heap;
use crate::heap::MatchHeap;
use crate::text;

verus! {

/// Whether `top` lists the best `max` of all matches, or all of them where there are fewer,
/// in descending order.
pub open spec fn is_top(
    all: Multiset<(usize, u32)>,
    max: nat,
    top: Seq<(usize, u32)>,
) -> bool {
    &&& top.len() == if max < all.len() {
        max
    } else {
        all.len()
    }
    &&& top.to_multiset().subset_of(all)
    &&& forall|i: int, j: int| 0 <= i < j < top.len() ==> heap::at_most(top[j], top[i])
    &&& forall|x: (usize, u32), i: int|
        all.sub(top.to_multiset()).contains(x) && 0 <= i < top.len() ==> heap::at_most(x, top[i])
}

/// Takes the best `max_matches` matches out of the heap, best first.
pub fn top_matches(found: MatchHeap, max_matches: usize) -> (r: Vec<(usize, u32)>)
    ensures
        is_top(found@, max_matches as nat, r@),
{
    broadcast use vstd::seq_lib::group_to_multiset_ensures;

    let mut rest: MatchHeap = found;
    let ghost all = rest@;
    let mut top: Vec<(usize, u32)> = Vec::new();
    assert(top@.to_multiset().add(rest@) =~= all);
    while top.len() < max_matches
        invariant
            top@.len() <= max_matches,
            top@.to_multiset().add(rest@) == all,
            forall|i: int, j: int| 0 <= i < j < top@.len() ==> heap::at_most(top@[j], top@[i]),
            forall|x: (usize, u32), i: int|
                rest@.contains(x) && 0 <= i < top@.len() ==> heap::at_most(x, top@[i]),
        ensures
            top@.len() == max_matches || rest@.len() == 0,
        decreases max_matches - top@.len(),
    {
        let ghost before = rest@;
        let ghost listed = top@;
        match rest.pop() {
            Some(best) => {
                top.push(best);
                proof {
                    vstd::seq_lib::to_multiset_build(listed, best);
                }
                assert(listed.to_multiset().insert(best).add(before.remove(best)) =~= all);
                assert(forall|x: (usize, u32)| #[trigger]
                    rest@.contains(x) ==> before.contains(x));
            },
            None => break,
        }
    }
    proof {
        assert(all.sub(top@.to_multiset()) =~= rest@);
    }
    top
}

/// The lines that report the matches, in the order in which they are given.
pub fn report_lines(matches: &Vec<(usize, u32)>) -> (r: Vec<String>)
    ensures
        r@.len() == matches@.len(),
        forall|i: int|
            0 <= i < r@.len() ==> (#[trigger] r@[i])@ == text::report_line(
                matches@[i].1,
                matches@[i].0,
            ),
{
    let mut lines: Vec<String> = Vec::new();
    for i in 0..matches.len()
        invariant
            lines@.len() == i,
            forall|j: int|
                0 <= j < i ==> (#[trigger] lines@[j])@ == text::report_line(
                    matches@[j].1,
                    matches@[j].0,
                ),
    {
        let (count, addr): (usize, u32) = matches[i];
        lines.push(text::format_match(addr, count));
    }
    lines
}

proof fn lemma_next_best(
    all: Multiset<(usize, u32)>,
    max: nat,
    top: Seq<(usize, u32)>,
    i: int,
    x: (usize, u32),
)
    requires
        is_top(all, max, top),
        0 <= i < top.len(),
        all.sub(top.take(i).to_multiset()).contains(x),
    ensures
        all.sub(top.take(i).to_multiset()).contains(top[i]),
        heap::at_most(x, top[i]),
{
    broadcast use vstd::seq_lib::group_to_multiset_ensures;

    let head = top.take(i);
    let tail = top.skip(i);
    assert(top =~= head + tail);
    vstd::seq_lib::lemma_multiset_commutative(head, tail);
    assert(tail[0] == top[i]);
    assert(tail.contains(top[i]));
    assert(top.to_multiset().count(top[i]) <= all.count(top[i]));
    if tail.to_multiset().contains(x) {
        let k = choose|k: int| 0 <= k < tail.len() && tail[k] == x;
        assert(top[i + k] == x);
    } else {
        assert(all.sub(top.to_multiset()).contains(x));
    }
}

proof fn lemma_top_agrees(
    all: Multiset<(usize, u32)>,
    max: nat,
    a: Seq<(usize, u32)>,
    b: Seq<(usize, u32)>,
    n: nat,
)
    requires
        is_top(all, max, a),
        is_top(all, max, b),
        n <= a.len(),
    ensures
        a.take(n as int) == b.take(n as int),
    decreases n,
{
    if n == 0 {
        assert(a.take(0) =~= b.take(0));
    } else {
        let i = n - 1;
        lemma_top_agrees(all, max, a, b, i as nat);
        let left = all.sub(a.take(i).to_multiset());
        broadcast use vstd::seq_lib::group_to_multiset_ensures;

        assert(left.contains(a[i])) by {
            let tail = a.skip(i);
            assert(a =~= a.take(i) + tail);
            vstd::seq_lib::lemma_multiset_commutative(a.take(i), tail);
            assert(tail[0] == a[i]);
            assert(tail.contains(a[i]));
            assert(a.to_multiset().count(a[i]) <= all.count(a[i]));
        }
        lemma_next_best(all, max, b, i, a[i]);
        lemma_next_best(all, max, a, i, b[i]);
        assert(a.take(n as int) =~= a.take(i).push(a[i]));
        assert(b.take(n as int) =~= b.take(i).push(b[i]));
    }
}

/// What is found decides what is listed and in what order, whatever order it was found in.
pub proof fn top_is_determined(
    all: Multiset<(usize, u32)>,
    max: nat,
    a: Seq<(usize, u32)>,
    b: Seq<(usize, u32)>,
)
    requires
        is_top(all, max, a),
        is_top(all, max, b),
    ensures
        a == b,
{
    lemma_top_agrees(all, max, a, b, a.len());
    assert(a.take(a.len() as int) =~= a);
    assert(b.take(b.len() as int) =~= b);
}

/// What is listed are as many matches as were asked for, or all there are; hits do not
/// increase down the list, addresses do not where the hits are the same, and no match that is
/// left out has more hits than one that is listed.
pub proof fn top_lists_the_most_hits(
    all: Multiset<(usize, u32)>,
    max: nat,
    top: Seq<(usize, u32)>,
)
    requires
        is_top(all, max, top),
    ensures
        max <= all.len() ==> top.len() == max,
        max >= all.len() ==> top.len() == all.len(),
        forall|x: (usize, u32)| #[trigger] top.to_multiset().count(x) <= all.count(x),
        forall|i: int, j: int|
            0 <= i < j < top.len() ==> (#[trigger] top[i]).0 > (#[trigger] top[j]).0 || (top[i].0
                == top[j].0 && top[i].1 >= top[j].1),
        forall|x: (usize, u32), i: int|
            all.count(x) > #[trigger] top.to_multiset().count(x) && 0 <= i < top.len() ==> (
            #[trigger] top[i]).0 > x.0 || (top[i].0 == x.0 && top[i].1 >= x.1),
{
    assert forall|i: int, j: int| 0 <= i < j < top.len() implies (#[trigger] top[i]).0 > (
    #[trigger] top[j]).0 || (top[i].0 == top[j].0 && top[i].1 >= top[j].1) by {
        assert(heap::at_most(top[j], top[i]));
    }
    assert forall|x: (usize, u32), i: int|
        all.count(x) > #[trigger] top.to_multiset().count(x) && 0 <= i < top.len() implies (
    #[trigger] top[i]).0 > x.0 || (top[i].0 == x.0 && top[i].1 >= x.1) by {
        assert(all.sub(top.to_multiset()).contains(x));
        assert(heap::at_most(x, top[i]));
    }
}

/// A list of all matches holds each of them as often as it was found.
pub proof fn long_list_holds_all_matches(
    all: Multiset<(usize, u32)>,
    max: nat,
    top: Seq<(usize, u32)>,
)
    requires
        is_top(all, max, top),
        all.len() <= max,
    ensures
        top.to_multiset() == all,
{
    broadcast use vstd::seq_lib::group_to_multiset_ensures;

    let left = all.sub(top.to_multiset());
    assert(left.add(top.to_multiset()) =~= all);
    vstd::multiset::lemma_multiset_empty_len(left);
    assert(top.to_multiset() =~= all);
}

} // verus!
