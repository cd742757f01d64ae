//! A priority queue of matches: the candidate with the most hits comes out first.

use vstd::multiset::Multiset;
use vstd::prelude::*;

verus! {

/// How two matches `(count, address)` are ordered: by count, then by address.
pub open spec fn at_most(a: (usize, u32), b: (usize, u32)) -> bool {
    a.0 < b.0 || (a.0 == b.0 && a.1 <= b.1)
}

/// The index of the parent of node `i` in an implicit binary tree.
spec fn parent(i: int) -> int {
    (i - 1) / 2
}

/// No node of the implicit tree is above its parent.
spec fn heap_ordered(items: Seq<(usize, u32)>) -> bool {
    forall|i: int| 0 < i < items.len() ==> at_most(#[trigger] items[i], items[parent(i)])
}

fn is_at_most(a: (usize, u32), b: (usize, u32)) -> (r: bool)
    ensures
        r == at_most(a, b),
{
    a.0 < b.0 || (a.0 == b.0 && a.1 <= b.1)
}

/// Exchanges two elements of a vector.
fn swap(items: &mut Vec<(usize, u32)>, i: usize, j: usize)
    requires
        i < old(items).len(),
        j < old(items).len(),
    ensures
        final(items)@ == old(items)@.update(i as int, old(items)@[j as int]).update(
            j as int,
            old(items)@[i as int],
        ),
        final(items)@.to_multiset() == old(items)@.to_multiset(),
{
    let a: (usize, u32) = items[i];
    let b: (usize, u32) = items[j];
    items.set(i, b);
    items.set(j, a);
    proof {
        broadcast use vstd::seq_lib::group_to_multiset_ensures;

        let s = old(items)@;
        let t = s.update(i as int, b);
        vstd::seq_lib::to_multiset_update(s, i as int, b);
        vstd::seq_lib::to_multiset_update(t, j as int, a);
        assert(s.to_multiset().contains(a)) by {
            vstd::seq_lib::to_multiset_contains(s, a);
            assert(s.contains(a));
        }
        assert(items@.to_multiset() =~= s.to_multiset());
    }
}

/// Moves the element at `pos` up until it is not above its parent.
fn sift_up(items: &mut Vec<(usize, u32)>, pos: usize)
    requires
        pos < old(items).len(),
        forall|i: int|
            0 < i < old(items).len() && i != pos ==> at_most(
                #[trigger] old(items)@[i],
                old(items)@[parent(i)],
            ),
        forall|i: int|
            0 < i < old(items).len() && parent(i) == pos && pos > 0 ==> at_most(
                #[trigger] old(items)@[i],
                old(items)@[parent(pos as int)],
            ),
    ensures
        heap_ordered(final(items)@),
        final(items)@.to_multiset() == old(items)@.to_multiset(),
{
    let mut pos: usize = pos;
    while pos > 0
        invariant
            pos < items.len(),
            items@.to_multiset() == old(items)@.to_multiset(),
            forall|i: int|
                0 < i < items.len() && i != pos ==> at_most(#[trigger] items@[i], items@[parent(i)]),
            forall|i: int|
                0 < i < items.len() && parent(i) == pos && pos > 0 ==> at_most(
                    #[trigger] items@[i],
                    items@[parent(pos as int)],
                ),
        ensures
            heap_ordered(items@),
        decreases pos,
    {
        let up: usize = (pos - 1) / 2;
        if is_at_most(items[pos], items[up]) {
            break;
        }
        let ghost before = items@;
        swap(items, pos, up);
        proof {
            assert(at_most(before[up as int], before[pos as int]));
            assert forall|i: int| 0 < i < items.len() && i != up implies at_most(
                #[trigger] items@[i],
                items@[parent(i)],
            ) by {
                assert(i != pos ==> at_most(before[i], before[parent(i)]));
            }
            assert forall|i: int|
                0 < i < items.len() && parent(i) == up && up > 0 implies at_most(
                #[trigger] items@[i],
                items@[parent(up as int)],
            ) by {
                assert(at_most(before[up as int], before[parent(up as int)]));
                assert(i != pos ==> at_most(before[i], before[parent(i)]));
            }
        }
        pos = up;
    }
}

/// Moves the first element down until none of its children is above it.
fn sift_down(items: &mut Vec<(usize, u32)>)
    requires
        old(items).len() > 0,
        forall|i: int|
            0 < i < old(items).len() && parent(i) != 0 ==> at_most(
                #[trigger] old(items)@[i],
                old(items)@[parent(i)],
            ),
    ensures
        heap_ordered(final(items)@),
        final(items)@.to_multiset() == old(items)@.to_multiset(),
{
    let len: usize = items.len();
    let mut pos: usize = 0;
    while pos < len / 2
        invariant
            len == items.len(),
            pos < len,
            items@.to_multiset() == old(items)@.to_multiset(),
            forall|i: int|
                0 < i < items.len() && parent(i) != pos ==> at_most(
                    #[trigger] items@[i],
                    items@[parent(i)],
                ),
            forall|i: int|
                0 < i < items.len() && parent(i) == pos && pos > 0 ==> at_most(
                    #[trigger] items@[i],
                    items@[parent(pos as int)],
                ),
        ensures
            heap_ordered(items@),
        decreases len - pos,
    {
        let left: usize = 2 * pos + 1;
        let mut child: usize = left;
        if left + 1 < len && !is_at_most(items[left + 1], items[left]) {
            child = left + 1;
        }
        assert(forall|i: int|
            0 < i < items.len() && parent(i) == pos ==> at_most(
                #[trigger] items@[i],
                items@[child as int],
            ) && (i == left || i == left + 1));
        if is_at_most(items[child], items[pos]) {
            break;
        }
        let ghost before = items@;
        swap(items, pos, child);
        proof {
            assert forall|i: int| 0 < i < items.len() && parent(i) != child implies at_most(
                #[trigger] items@[i],
                items@[parent(i)],
            ) by {
                if parent(i) == pos {
                    assert(at_most(before[i], before[child as int]));
                    assert(i != child ==> items@[i] == before[i]);
                } else if i == pos {
                    assert(at_most(before[child as int], before[parent(pos as int)]));
                } else {
                    assert(at_most(before[i], before[parent(i)]));
                }
            }
            assert forall|i: int| 0 < i < items.len() && parent(i) == child implies at_most(
                #[trigger] items@[i],
                items@[parent(child as int)],
            ) by {
                assert(at_most(before[i], before[parent(i)]));
            }
        }
        pos = child;
    }
}

/// The first element of an ordered tree is its largest.
proof fn lemma_first_is_largest(items: Seq<(usize, u32)>, i: int)
    requires
        heap_ordered(items),
        0 <= i < items.len(),
    ensures
        at_most(items[i], items[0]),
    decreases i,
{
    if i > 0 {
        lemma_first_is_largest(items, parent(i));
        assert(at_most(items[i], items[parent(i)]));
    }
}

/// Matches `(count, address)`, of which the largest is taken out first.
pub struct MatchHeap {
    items: Vec<(usize, u32)>,
}

impl View for MatchHeap {
    type V = Multiset<(usize, u32)>;

    closed spec fn view(&self) -> Multiset<(usize, u32)> {
        self.items@.to_multiset()
    }
}

impl MatchHeap {
    #[verifier::type_invariant]
    spec fn ordered(self) -> bool {
        heap_ordered(self.items@)
    }

    /// A heap that holds nothing.
    pub fn new() -> (r: MatchHeap)
        ensures
            r@ == Multiset::<(usize, u32)>::empty(),
    {
        broadcast use vstd::seq_lib::group_to_multiset_ensures;

        let items: Vec<(usize, u32)> = Vec::new();
        assert(items@.to_multiset() =~= Multiset::<(usize, u32)>::empty());
        MatchHeap { items }
    }

    /// How many matches the heap holds.
    pub fn len(&self) -> (r: usize)
        ensures
            r == self@.len(),
    {
        broadcast use vstd::seq_lib::group_to_multiset_ensures;

        self.items.len()
    }

    /// Adds a match.
    pub fn push(&mut self, item: (usize, u32))
        ensures
            final(self)@ == old(self)@.insert(item),
    {
        broadcast use vstd::seq_lib::group_to_multiset_ensures;

        proof {
            use_type_invariant(&*self);
        }
        let mut items: Vec<(usize, u32)> = Vec::new();
        std::mem::swap(&mut items, &mut self.items);
        items.push(item);
        let last: usize = items.len() - 1;
        sift_up(&mut items, last);
        self.items = items;
    }

    /// Takes the largest match out.
    pub fn pop(&mut self) -> (r: Option<(usize, u32)>)
        ensures
            match r {
                None => old(self)@.len() == 0 && final(self)@ == old(self)@,
                Some(top) => {
                    &&& old(self)@.contains(top)
                    &&& forall|x: (usize, u32)| old(self)@.contains(x) ==> at_most(x, top)
                    &&& final(self)@ == old(self)@.remove(top)
                },
            },
    {
        broadcast use vstd::seq_lib::group_to_multiset_ensures;

        proof {
            use_type_invariant(&*self);
        }
        let mut items: Vec<(usize, u32)> = Vec::new();
        std::mem::swap(&mut items, &mut self.items);
        let ghost whole = items@;
        if items.len() == 0 {
            self.items = items;
            return None;
        }
        let top: (usize, u32) = items[0];
        let last: usize = items.len() - 1;
        swap(&mut items, 0, last);
        items.pop();
        if items.len() > 0 {
            sift_down(&mut items);
        }
        proof {
            let swapped = whole.update(0, whole[last as int]).update(last as int, whole[0]);
            assert(swapped.drop_last().push(top) =~= swapped);
            vstd::seq_lib::to_multiset_build(swapped.drop_last(), top);
            assert(whole.to_multiset().remove(top) =~= swapped.drop_last().to_multiset());
            assert(whole.contains(whole[0]));
            vstd::seq_lib::to_multiset_contains(whole, top);
            assert forall|x: (usize, u32)| whole.to_multiset().contains(x) implies at_most(
                x,
                top,
            ) by {
                vstd::seq_lib::to_multiset_contains(whole, x);
                let i = choose|i: int| 0 <= i < whole.len() && whole[i] == x;
                lemma_first_is_largest(whole, i);
            }
        }
        self.items = items;
        Some(top)
    }

    /// Moves every match of `other` into this heap.
    pub fn append(&mut self, other: &mut MatchHeap)
        ensures
            final(self)@ == old(self)@.add(old(other)@),
            final(other)@ == Multiset::<(usize, u32)>::empty(),
    {
        let ghost all = self@.add(other@);
        loop
            invariant
                self@.add(other@) == all,
            ensures
                self@ == all,
                other@ == Multiset::<(usize, u32)>::empty(),
            decreases other@.len(),
        {
            let ghost before = other@;
            match other.pop() {
                None => {
                    proof {
                        vstd::multiset::lemma_multiset_empty_len(other@);
                        assert(self@.add(other@) =~= self@);
                    }
                    break;
                },
                Some(item) => {
                    let ghost mine = self@;
                    self.push(item);
                    proof {
                        assert(mine.insert(item).add(before.remove(item)) =~= mine.add(before));
                    }
                },
            }
        }
    }
}

/// More hits rank higher whatever the addresses are, and between equal numbers of hits the
/// higher address does.
pub proof fn more_hits_rank_higher(a: (usize, u32), b: (usize, u32))
    ensures
        a.0 < b.0 ==> at_most(a, b) && !at_most(b, a),
        a.0 == b.0 && a.1 < b.1 ==> at_most(a, b) && !at_most(b, a),
        at_most(a, b) && at_most(b, a) <==> a == b,
        at_most(a, b) || at_most(b, a),
{
}

} // verus!
