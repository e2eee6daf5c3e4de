//! A binary max-heap of integers stored in a vector.
use vstd::multiset::Multiset;
use vstd::prelude::*;

verus! {

broadcast use vstd::seq_lib::group_to_multiset_ensures;

/// A max-heap: every element is at most its parent, so the first is the largest.
pub struct MaxHeap {
    data: Vec<i32>,
}

/// The index of the parent of position `i`.
pub open spec fn parent(i: int) -> int {
    (i - 1) / 2
}

/// Every element except the first is at most its parent.
pub open spec fn heap_ordered(s: Seq<i32>) -> bool {
    forall|i: int| 0 < i < s.len() ==> s[parent(i)] >= #[trigger] s[i]
}

/// Ordered except at the edge above position `k`; and `k`'s parent, if any,
/// is at least `k`'s children.
pub open spec fn ordered_except_up(s: Seq<i32>, k: int) -> bool {
    &&& forall|i: int| 0 < i < s.len() && i != k ==> s[parent(i)] >= #[trigger] s[i]
    &&& forall|c: int| 0 < c < s.len() && parent(c) == k && k > 0 ==> s[parent(k)] >= #[trigger] s[c]
}

/// Ordered except at the edges below position `k`; and `k`'s parent, if any,
/// is at least `k`'s children.
pub open spec fn ordered_except_down(s: Seq<i32>, k: int) -> bool {
    &&& forall|i: int| 0 < i < s.len() && parent(i) != k ==> s[parent(i)] >= #[trigger] s[i]
    &&& forall|c: int| 0 < c < s.len() && parent(c) == k && k > 0 ==> s[parent(k)] >= #[trigger] s[c]
}

/// The first element of an ordered heap is its largest.
pub proof fn lemma_root_is_max(s: Seq<i32>, i: int)
    requires
        heap_ordered(s),
        0 <= i < s.len(),
    ensures
        s[0] >= s[i],
    decreases i,
{
    if i > 0 {
        lemma_root_is_max(s, parent(i));
    }
}

proof fn lemma_swap_multiset(s: Seq<i32>, i: int, j: int)
    requires
        0 <= i < s.len(),
        0 <= j < s.len(),
    ensures
        s.update(i, s[j]).update(j, s[i]).to_multiset() == s.to_multiset(),
{
    broadcast use vstd::seq_lib::to_multiset_update;
    broadcast use vstd::multiset::group_multiset_properties;

    let t = s.update(i, s[j]);
    assert(t[j] == if i == j { s[i] } else { s[j] });
    assert(t.update(j, s[i]).to_multiset() =~= s.to_multiset());
}

proof fn lemma_sift_down_step(s: Seq<i32>, k: int, m: int)
    requires
        0 <= k < m < s.len(),
        parent(m) == k,
        ordered_except_down(s, k),
        s[m] > s[k],
        forall|c: int| 0 < c < s.len() && parent(c) == k ==> s[m] >= #[trigger] s[c],
    ensures
        ordered_except_down(s.update(k, s[m]).update(m, s[k]), m),
{
    let t = s.update(k, s[m]).update(m, s[k]);
    assert forall|i: int| 0 < i < t.len() && parent(i) != m implies t[parent(i)] >= #[trigger] t[i] by {
        if i == m {
        } else if parent(i) == k {
            assert(s[m] >= s[i]);
        } else if i == k {
            assert(s[parent(k)] >= s[m]);
        } else {
            assert(s[parent(i)] >= s[i]);
        }
    }
    assert forall|c: int| 0 < c < t.len() && parent(c) == m && m > 0 implies t[parent(m)] >= #[trigger] t[c] by {
        assert(s[m] >= s[c]);
    }
}

proof fn lemma_sift_down_done(s: Seq<i32>, k: int)
    requires
        0 <= k < s.len(),
        ordered_except_down(s, k),
        forall|c: int| 0 < c < s.len() && parent(c) == k ==> s[k] >= #[trigger] s[c],
    ensures
        heap_ordered(s),
{
    assert forall|i: int| 0 < i < s.len() implies s[parent(i)] >= #[trigger] s[i] by {
        if parent(i) == k {
        }
    }
}

impl View for MaxHeap {
    type V = Multiset<i32>;

    closed spec fn view(&self) -> Multiset<i32> {
        self.data@.to_multiset()
    }
}

impl MaxHeap {
    pub closed spec fn wf(&self) -> bool {
        heap_ordered(self.data@)
    }

    /// An empty heap.
    pub fn new() -> (r: Self)
        ensures
            r.wf(),
            r@ == Multiset::<i32>::empty(),
    {
        let r = MaxHeap { data: Vec::new() };
        assert(r.data@.to_multiset() =~= Multiset::<i32>::empty());
        r
    }

    /// Adds `value`.
    pub fn insert(&mut self, value: i32)
        requires
            old(self).wf(),
        ensures
            final(self).wf(),
            final(self)@ == old(self)@.insert(value),
    {
        self.data.push(value);
        let last = self.data.len() - 1;
        self.heapify_up(last);
    }

    /// Removes and returns a largest element.
    pub fn extract_max(&mut self) -> (r: Option<i32>)
        requires
            old(self).wf(),
        ensures
            final(self).wf(),
            old(self)@.len() == 0 <==> r is None,
            r is None ==> final(self)@ == old(self)@,
            r is Some ==> old(self)@.count(r->Some_0) > 0 && final(self)@ == old(self)@.remove(r->Some_0),
            r is Some ==> forall|x: i32| old(self)@.count(x) > 0 ==> x <= r->Some_0,
    {
        if self.data.len() == 0 {
            return None;
        }
        let ghost s = self.data@;
        proof {
            self.lemma_max_first();
        }
        let max = self.data[0];
        let last = self.data.pop().unwrap();
        if self.data.len() > 0 {
            let ghost t = self.data@;
            self.data.set(0, last);
            proof {
                assert(s.drop_last() == t);
                assert(s.remove(s.len() - 1) =~= t);
                assert(self.data@ =~= s.remove(0).insert(0, last).remove(s.len() - 1)) by {
                    assert(self.data@ =~= t.update(0, last));
                };
                assert(self.data@.to_multiset() == t.to_multiset().insert(last).remove(s[0])) by {
                    broadcast use vstd::seq_lib::to_multiset_update;
                };
                assert(t.to_multiset() == s.to_multiset().remove(last));
                broadcast use vstd::multiset::group_multiset_properties;
                assert(s.to_multiset().count(last) > 0) by {
                    assert(s[s.len() - 1] == last);
                };
                assert(self.data@.to_multiset() =~= s.to_multiset().remove(max));
                assert(ordered_except_down(self.data@, 0));
            }
            self.heapify_down(0);
        } else {
            proof {
                assert(self.data@.to_multiset() =~= s.to_multiset().remove(max)) by {
                    broadcast use vstd::multiset::group_multiset_properties;
                    assert(s.len() == 1);
                    assert(self.data@ == s.remove(0));
                };
            }
        }
        Some(max)
    }

    proof fn lemma_max_first(&self)
        requires
            self.wf(),
            self.data@.len() > 0,
        ensures
            self@.count(self.data@[0]) > 0,
            forall|x: i32| self@.count(x) > 0 ==> x <= self.data@[0],
    {
        assert forall|x: i32| self@.count(x) > 0 implies x <= self.data@[0] by {
            let i = choose|i: int| 0 <= i < self.data@.len() && self.data@[i] == x;
            lemma_root_is_max(self.data@, i);
        }
        assert(self.data@.contains(self.data@[0]));
    }

    /// A largest element, left in place.
    pub fn peek(&self) -> (r: Option<&i32>)
        requires
            self.wf(),
        ensures
            self@.len() == 0 <==> r is None,
            r is Some ==> self@.count(*r->Some_0) > 0 && forall|x: i32| self@.count(x) > 0 ==> x <= *r->Some_0,
    {
        if self.data.len() == 0 {
            None
        } else {
            proof {
                self.lemma_max_first();
            }
            Some(&self.data[0])
        }
    }

    /// The number of elements.
    pub fn size(&self) -> (r: usize)
        ensures
            r == self@.len(),
    {
        self.data.len()
    }

    /// Whether the heap holds no element.
    pub fn is_empty(&self) -> (r: bool)
        ensures
            r == (self@.len() == 0),
    {
        self.data.len() == 0
    }

    /// Moves the element at `index` up until its parent is at least as large.
    fn heapify_up(&mut self, index: usize)
        requires
            index < old(self).data@.len(),
            ordered_except_up(old(self).data@, index as int),
        ensures
            final(self).wf(),
            final(self).data@.to_multiset() == old(self).data@.to_multiset(),
        decreases index,
    {
        if index == 0 {
            return;
        }
        let parent_index = (index - 1) / 2;
        if self.data[index] > self.data[parent_index] {
            let ghost s = self.data@;
            let a = self.data[index];
            let b = self.data[parent_index];
            self.data.set(index, b);
            self.data.set(parent_index, a);
            proof {
                lemma_swap_multiset(s, index as int, parent_index as int);
                let t = self.data@;
                let k = index as int;
                let p = parent_index as int;
                assert(t == s.update(k, s[p]).update(p, s[k]));
                assert forall|i: int| 0 < i < t.len() && i != p implies t[parent(i)] >= #[trigger] t[i] by {
                    if parent(i) == p {
                        if i != k {
                            assert(s[p] >= s[i]);
                        }
                    } else if i == k {
                    } else if parent(i) == k {
                        assert(s[parent(k)] >= s[i]);
                    } else {
                        assert(s[parent(i)] >= s[i]);
                    }
                }
                assert forall|c: int| 0 < c < t.len() && parent(c) == p && p > 0 implies t[parent(p)] >= #[trigger] t[c] by {
                    assert(s[parent(p)] >= s[p]);
                    if c != k {
                        assert(s[p] >= s[c]);
                    }
                }
            }
            self.heapify_up(parent_index);
        } else {
            proof {
                assert forall|i: int| 0 < i < self.data@.len() implies self.data@[parent(i)] >= #[trigger] self.data@[i] by {
                }
            }
        }
    }

    /// Moves the element at `index` down until it is at least its children.
    fn heapify_down(&mut self, index: usize)
        requires
            index < old(self).data@.len(),
            ordered_except_down(old(self).data@, index as int),
        ensures
            final(self).wf(),
            final(self).data@.to_multiset() == old(self).data@.to_multiset(),
        decreases old(self).data@.len() - index,
    {
        let len = self.data.len();
        let mut largest = index;
        if index <= (len - 1) / 2 && 2 * index + 1 < len {
            let left = 2 * index + 1;
            if self.data[left] > self.data[largest] {
                largest = left;
            }
            if left + 1 < len && self.data[left + 1] > self.data[largest] {
                largest = left + 1;
            }
        }
        proof {
            let s = self.data@;
            let k = index as int;
            assert forall|c: int| 0 < c < s.len() && parent(c) == k implies s[largest as int] >= #[trigger] s[c] by {
                assert(c == 2 * k + 1 || c == 2 * k + 2);
            }
        }
        if largest != index {
            let ghost s = self.data@;
            let a = self.data[index];
            let b = self.data[largest];
            self.data.set(index, b);
            self.data.set(largest, a);
            proof {
                lemma_swap_multiset(s, index as int, largest as int);
                lemma_sift_down_step(s, index as int, largest as int);
            }
            self.heapify_down(largest);
        } else {
            proof {
                lemma_sift_down_done(self.data@, index as int);
            }
        }
    }
}

} // verus!
