//! A singly linked list that grows at the front.
use vstd::prelude::*;

verus! {

/// One node of a list.
pub struct ListNode<T> {
    pub value: T,
    pub next: Option<Box<ListNode<T>>>,
}

/// A singly linked list with its length.
pub struct LinkedList<T> {
    head: Option<Box<ListNode<T>>>,
    length: usize,
}

/// The values from `node` to the end, in order.
pub open spec fn values_from<T>(node: Option<Box<ListNode<T>>>) -> Seq<T>
    decreases node,
{
    match node {
        None => Seq::empty(),
        Some(n) => seq![n.value] + values_from(n.next),
    }
}

/// The values in reverse order.
pub open spec fn reversed<T>(s: Seq<T>) -> Seq<T>
    decreases s.len(),
{
    if s.len() == 0 {
        s
    } else {
        reversed(s.drop_first()).push(s[0])
    }
}

impl<T> ListNode<T> {
    /// A node without a successor.
    pub fn new(value: T) -> (r: Self)
        ensures
            r.value == value,
            r.next is None,
    {
        ListNode { value, next: None }
    }
}

impl<T> View for LinkedList<T> {
    type V = Seq<T>;

    closed spec fn view(&self) -> Seq<T> {
        values_from(self.head)
    }
}

/// Puts `value` at position `index` of the list that starts at `node`.
fn insert_at<T>(node: &mut Option<Box<ListNode<T>>>, index: usize, value: T)
    requires
        index <= values_from(*old(node)).len(),
    ensures
        values_from(*final(node)) == values_from(*old(node)).insert(index as int, value),
    decreases index,
{
    if index == 0 {
        let rest = node.take();
        *node = Some(Box::new(ListNode { value, next: rest }));
        proof {
            assert(values_from(*node) =~= values_from(rest).insert(0, value));
        }
    } else {
        match node {
            Some(n) => {
                let ghost before = values_from(n.next);
                insert_at(&mut n.next, index - 1, value);
                proof {
                    assert(seq![n.value] + before.insert(index - 1, value) =~= (seq![n.value] + before).insert(
                        index as int,
                        value,
                    ));
                }
            },
            None => {},
        }
    }
}

impl<T> LinkedList<T> {
    pub closed spec fn wf(&self) -> bool {
        self.length == values_from(self.head).len()
    }

    /// An empty list.
    pub fn new() -> (r: Self)
        ensures
            r.wf(),
            r@ == Seq::<T>::empty(),
    {
        LinkedList { head: None, length: 0 }
    }

    /// Puts `value` at the front.
    pub fn push(&mut self, value: T)
        requires
            old(self).wf(),
            old(self)@.len() < usize::MAX,
        ensures
            final(self).wf(),
            final(self)@ == seq![value] + old(self)@,
    {
        let old_head = self.head.take();
        self.head = Some(Box::new(ListNode { value, next: old_head }));
        self.length = self.length + 1;
    }

    /// Takes the front value off.
    pub fn pop(&mut self) -> (r: Option<T>)
        requires
            old(self).wf(),
        ensures
            final(self).wf(),
            old(self)@.len() == 0 ==> r is None && final(self)@ == old(self)@,
            old(self)@.len() > 0 ==> r == Some(old(self)@[0]) && final(self)@ == old(self)@.drop_first(),
    {
        match self.head.take() {
            None => None,
            Some(node) => {
                let node = *node;
                proof {
                    assert(values_from(node.next) =~= values_from(Some(Box::new(node))).drop_first());
                }
                self.head = node.next;
                self.length = self.length - 1;
                Some(node.value)
            },
        }
    }

    /// Puts `value` at position `index`, or fails when `index` is past the end.
    pub fn insert(&mut self, index: usize, value: T) -> (r: Result<(), String>)
        requires
            old(self).wf(),
            old(self)@.len() < usize::MAX,
        ensures
            final(self).wf(),
            index > old(self)@.len() ==> r is Err && final(self)@ == old(self)@,
            index <= old(self)@.len() ==> r is Ok && final(self)@ == old(self)@.insert(index as int, value),
    {
        if index > self.length {
            return Err("Index out of bounds".to_owned());
        }
        insert_at(&mut self.head, index, value);
        self.length = self.length + 1;
        Ok(())
    }

    /// The value at position `index`.
    pub fn get(&self, index: usize) -> (r: Option<&T>)
        requires
            self.wf(),
        ensures
            index >= self@.len() ==> r is None,
            index < self@.len() ==> r == Some(&self@[index as int]),
    {
        if index >= self.length {
            return None;
        }
        let mut current = &self.head;
        let mut i: usize = 0;
        while i < index
            invariant
                0 <= i <= index < self@.len(),
                values_from(*current) == self@.skip(i as int),
            decreases index - i,
        {
            match current {
                Some(node) => {
                    proof {
                        assert(values_from(*current) == seq![node.value] + values_from(node.next));
                        assert(values_from(node.next) =~= values_from(*current).drop_first());
                        assert(self@.skip(i as int).drop_first() =~= self@.skip(i + 1));
                    }
                    current = &node.next;
                },
                None => {
                    return None;
                },
            }
            i = i + 1;
        }
        match current {
            Some(node) => {
                proof {
                    assert(values_from(*current) == seq![node.value] + values_from(node.next));
                    assert(self@.skip(index as int)[0] == self@[index as int]);
                }
                Some(&node.value)
            },
            None => None,
        }
    }

    /// Reverses the order of the values.
    pub fn reverse(&mut self)
        requires
            old(self).wf(),
        ensures
            final(self).wf(),
            final(self)@ == reversed(old(self)@),
    {
        let ghost all = values_from(self.head);
        let mut prev: Option<Box<ListNode<T>>> = None;
        let mut current = self.head.take();
        while current.is_some()
            invariant
                self.length == all.len(),
                reversed(all) == reversed(values_from(current)) + values_from(prev),
                values_from(current).len() + values_from(prev).len() == all.len(),
            decreases values_from(current).len(),
        {
            let ghost cur_vals = values_from(current);
            let ghost prev_vals = values_from(prev);
            match current {
                Some(mut node) => {
                    let next = node.next.take();
                    let ghost x = node.value;
                    let ghost rest = values_from(next);
                    assert(cur_vals == seq![x] + rest);
                    node.next = prev;
                    assert(values_from(Some(node)) == seq![x] + prev_vals);
                    prev = Some(node);
                    current = next;
                    proof {
                        assert((seq![x] + rest).drop_first() =~= rest);
                        assert((seq![x] + rest)[0] == x);
                        assert(reversed(rest).push(x) + prev_vals =~= reversed(rest) + (seq![x] + prev_vals));
                    }
                },
                None => {},
            }
        }
        proof {
            assert(values_from(current) == Seq::<T>::empty());
            assert(reversed(Seq::<T>::empty()) == Seq::<T>::empty());
            assert(Seq::<T>::empty() + values_from(prev) =~= values_from(prev));
        }
        self.head = prev;
    }

    /// The number of values.
    pub fn length(&self) -> (r: usize)
        requires
            self.wf(),
        ensures
            r == self@.len(),
    {
        self.length
    }
}

} // verus!
