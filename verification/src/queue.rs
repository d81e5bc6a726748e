//! A max-priority queue of generalized indices.
use vstd::multiset::Multiset;
use vstd::prelude::*;

verus! {

/// A max-priority queue of indices: a binary heap in a vector, the children of
/// the item at place `i` being at the places `2 * i + 1` and `2 * i + 2`, so
/// that the largest index is the first item.
pub struct IndexQueue {
    items: Vec<u128>,
}

/// No item of `items` is larger than one that follows it.
pub open spec fn ascending(items: Seq<u128>) -> bool {
    forall|i: int, j: int| 0 <= i < j < items.len() ==> items[i] <= items[j]
}

/// The place above `place` in the heap.
spec fn above(place: int) -> int {
    (place - 1) / 2
}

/// Whether the item at `place` is not larger than the one above it.
spec fn settled(items: Seq<u128>, place: int) -> bool {
    items[place] <= items[above(place)]
}

/// Whether no item is larger than the one above it, but perhaps the item at
/// `loose`, and the items below `loose` are not larger than the item above
/// `loose`.
spec fn ordered_but_up(items: Seq<u128>, loose: int) -> bool {
    &&& forall|place: int| 0 < place < items.len() && place != loose ==> settled(items, place)
    &&& forall|place: int|
        0 < place < items.len() && above(place) == loose && loose > 0 ==> items[place]
            <= items[above(loose)]
}

/// Whether no item is larger than the one above it, but perhaps the items
/// below `loose`, which are not larger than the item above `loose`.
spec fn ordered_but_down(items: Seq<u128>, loose: int) -> bool {
    &&& forall|place: int|
        0 < place < items.len() && above(place) != loose ==> settled(items, place)
    &&& forall|place: int|
        0 < place < items.len() && above(place) == loose && loose > 0 ==> items[place]
            <= items[above(loose)]
}

/// Whether no item is larger than the one above it.
spec fn ordered(items: Seq<u128>) -> bool {
    forall|place: int| 0 < place < items.len() ==> settled(items, place)
}

/// In a heap no item is larger than the first.
proof fn lemma_first_is_largest(items: Seq<u128>, place: int)
    requires
        ordered(items),
        0 <= place < items.len(),
    ensures
        items[place] <= items[0],
    decreases place,
{
    if place > 0 {
        assert(settled(items, place));
        lemma_first_is_largest(items, above(place));
    }
}

/// Exchanges the items at two places.
fn exchange(items: &mut Vec<u128>, i: usize, j: usize)
    requires
        i < old(items)@.len(),
        j < old(items)@.len(),
    ensures
        final(items)@ == old(items)@.update(i as int, old(items)@[j as int]).update(
            j as int,
            old(items)@[i as int],
        ),
        final(items)@.to_multiset() == old(items)@.to_multiset(),
{
    let a = items[i];
    let b = items[j];
    items[i] = b;
    items[j] = a;
    proof {
        broadcast use vstd::seq_lib::group_to_multiset_ensures;

        let start = old(items)@;
        let half = start.update(i as int, b);
        vstd::seq_lib::to_multiset_update(start, i as int, b);
        vstd::seq_lib::to_multiset_update(half, j as int, a);
        assert(start.to_multiset().count(a) > 0) by {
            assert(start.contains(a));
        }
        assert(items@.to_multiset() =~= start.to_multiset());
    }
}

/// Moves the item at `loose` up to where it is not larger than the one above
/// it.
fn sift_up(items: &mut Vec<u128>, loose: usize)
    requires
        loose < old(items)@.len(),
        ordered_but_up(old(items)@, loose as int),
    ensures
        ordered(final(items)@),
        final(items)@.to_multiset() == old(items)@.to_multiset(),
{
    let mut at = loose;
    while at > 0 && items[at] > items[(at - 1) / 2]
        invariant
            at < items@.len(),
            ordered_but_up(items@, at as int),
            items@.to_multiset() == old(items)@.to_multiset(),
        decreases at,
    {
        let up = (at - 1) / 2;
        let ghost before = items@;
        exchange(items, at, up);
        proof {
            assert forall|place: int|
                0 < place < items@.len() && place != up implies settled(items@, place) by {
                if place != at && above(place) != at {
                    assert(settled(before, place));
                }
            }
            assert forall|place: int|
                0 < place < items@.len() && above(place) == up && up > 0 implies items@[place]
                <= items@[above(up as int)] by {
                assert(settled(before, up as int));
                if place != at {
                    assert(settled(before, place));
                }
            }
        }
        at = up;
    }
    proof {
        assert forall|place: int| 0 < place < items@.len() implies settled(items@, place) by {
        }
    }
}

/// Moves the item at the first place down to where no item below it is
/// larger.
fn sift_down(items: &mut Vec<u128>)
    requires
        ordered_but_down(old(items)@, 0),
    ensures
        ordered(final(items)@),
        final(items)@.to_multiset() == old(items)@.to_multiset(),
{
    let count = items.len();
    let mut at: usize = 0;
    while at < count / 2
        invariant
            count == items@.len(),
            ordered_but_down(items@, at as int),
            items@.to_multiset() == old(items)@.to_multiset(),
        ensures
            ordered(items@),
            items@.to_multiset() == old(items)@.to_multiset(),
        decreases count - at,
    {
        let left = 2 * at + 1;
        let right = left + 1;
        let down = if right < count && items[right] > items[left] {
            right
        } else {
            left
        };
        if items[down] <= items[at] {
            proof {
                assert forall|place: int| 0 < place < items@.len() implies settled(
                    items@,
                    place,
                ) by {
                    if above(place) == at {
                        assert(place == left || place == right);
                    }
                }
            }
            break ;
        }
        let ghost before = items@;
        exchange(items, at, down);
        proof {
            assert forall|place: int|
                0 < place < items@.len() && above(place) != down implies settled(
                items@,
                place,
            ) by {
                if above(place) == at {
                    assert(place == left || place == right);
                } else if place != at {
                    assert(settled(before, place));
                } else {
                    assert(above(down as int) == at);
                    assert(before[down as int] <= before[above(at as int)]);
                }
            }
            assert forall|place: int|
                0 < place < items@.len() && above(place) == down && down > 0 implies items@[place]
                <= items@[above(down as int)] by {
                assert(settled(before, place));
            }
        }
        at = down;
    }
    proof {
        assert forall|place: int| 0 < place < items@.len() implies settled(items@, place) by {
            if above(place) == at {
                assert(place >= 2 * at + 1);
            }
        }
    }
}

impl View for IndexQueue {
    type V = Multiset<u128>;

    closed spec fn view(&self) -> Multiset<u128> {
        self.items@.to_multiset()
    }
}

impl IndexQueue {
    #[verifier::type_invariant]
    spec fn is_heap(self) -> bool {
        ordered(self.items@)
    }

    /// A queue of the items of `items`, which are in ascending order: taken
    /// from the last to the first they are a heap as they come.
    pub fn from_ascending(items: Vec<u128>) -> (queue: Self)
        requires
            ascending(items@),
        ensures
            queue@ == items@.to_multiset(),
    {
        let mut rest = items;
        let mut heap: Vec<u128> = Vec::new();
        let ghost count = items@.len();
        while rest.len() > 0
            invariant
                count == items@.len(),
                rest@ == items@.take(count - heap@.len()),
                heap@.len() <= count,
                forall|place: int|
                    0 <= place < heap@.len() ==> heap@[place] == items@[count - 1 - place],
            decreases rest@.len(),
        {
            let last = rest.pop();
            match last {
                Some(item) => {
                    heap.push(item);
                },
                None => {},
            }
        }
        proof {
            assert(heap@ =~= items@.reverse());
            items@.lemma_reverse_to_multiset();
            assert forall|place: int| 0 < place < heap@.len() implies settled(heap@, place) by {
                assert(count - 1 - place <= count - 1 - above(place));
            }
        }
        IndexQueue { items: heap }
    }

    /// Adds `index` to the queue.
    pub fn push(&mut self, index: u128)
        ensures
            final(self)@ == old(self)@.insert(index),
    {
        proof {
            use_type_invariant(&*self);
        }
        let mut items = Vec::new();
        std::mem::swap(&mut items, &mut self.items);
        let ghost before = items@;
        items.push(index);
        proof {
            vstd::seq_lib::to_multiset_build(before, index);
            assert forall|place: int|
                0 < place < items@.len() && place != items@.len() - 1 implies settled(
                items@,
                place,
            ) by {
                assert(settled(before, place));
            }
        }
        let last = items.len() - 1;
        sift_up(&mut items, last);
        self.items = items;
    }

    /// Takes the largest index out of the queue, if there is any.
    pub fn pop(&mut self) -> (largest: Option<u128>)
        ensures
            match largest {
                Some(index) => {
                    &&& old(self)@.count(index) > 0
                    &&& forall|other: u128| old(self)@.count(other) > 0 ==> other <= index
                    &&& final(self)@ == old(self)@.remove(index)
                },
                None => old(self)@ == Multiset::<u128>::empty() && final(self)@ == old(self)@,
            },
    {
        proof {
            use_type_invariant(&*self);
            broadcast use vstd::seq_lib::group_to_multiset_ensures;
        }
        let mut items = Vec::new();
        std::mem::swap(&mut items, &mut self.items);
        let ghost before = items@;
        let count = items.len();
        if count == 0 {
            assert(old(self)@ =~= Multiset::<u128>::empty());
            self.items = items;
            return None;
        }
        exchange(&mut items, 0, count - 1);
        let ghost turned = items@;
        let largest = items.pop();
        proof {
            assert(turned == items@.push(before[0]));
            assert(largest == Some(before[0]));
            assert(items@.to_multiset() =~= before.to_multiset().remove(before[0]));
            assert forall|other: u128| before.to_multiset().count(other) > 0 implies other
                <= before[0] by {
                assert(before.contains(other));
                let place = choose|place: int| 0 <= place < before.len() && before[place] == other;
                lemma_first_is_largest(before, place);
            }
            assert forall|place: int|
                0 < place < items@.len() && above(place) != 0 implies settled(items@, place) by {
                assert(settled(before, place));
            }
        }
        sift_down(&mut items);
        self.items = items;
        largest
    }
}

} // verus!
