//! A singly linked list whose head is a sentinel.
//!
//! The head node never holds a value. The values of the list live in the
//! nodes behind it, one in each, in the order in which they were added. An
//! empty list is the sentinel alone.

use vstd::prelude::*;
use vstd::std_specs::cmp::PartialEqSpec;

verus! {

/// One node of a list: at most one value, and the node that follows, if any.
#[derive(Debug, PartialEq)]
pub struct Node<T> {
    value: Option<T>,
    next: Option<Box<Node<T>>>,
}

/// A list of values in the order they were added.
#[derive(Debug)]
pub struct LinkedList<T> {
    head: Option<Box<Node<T>>>,
}

/// `s` without its first element that equals `value`; `s` itself where no
/// element does. Equality is that of `==` on `T`.
pub open spec fn without_first<T: PartialEq>(s: Seq<T>, value: T) -> Seq<T>
    decreases s.len(),
{
    if s.len() == 0 {
        s
    } else if s[0].eq_spec(&value) {
        s.drop_first()
    } else {
        seq![s[0]] + without_first(s.drop_first(), value)
    }
}

/// `after` is `before`, or `before` with the element at one position taken out.
pub open spec fn at_most_one_less<T>(before: Seq<T>, after: Seq<T>) -> bool {
    after == before || exists|i: int| 0 <= i < before.len() && after == before.remove(i)
}

/// Stated by position: where `i` is the first position of `s` whose element
/// equals `value`, removing the first match removes exactly position `i`.
pub proof fn lemma_without_first_at<T: PartialEq>(s: Seq<T>, value: T, i: int)
    requires
        0 <= i < s.len(),
        s[i].eq_spec(&value),
        forall|j: int| 0 <= j < i ==> !(#[trigger] s[j]).eq_spec(&value),
    ensures
        without_first(s, value) == s.remove(i),
    decreases s.len(),
{
    if i == 0 {
        assert(s.drop_first() =~= s.remove(0));
    } else {
        let rest = s.drop_first();
        assert(!s[0].eq_spec(&value));
        assert forall|j: int| 0 <= j < i - 1 implies !(#[trigger] rest[j]).eq_spec(&value) by {
            assert(rest[j] == s[j + 1]);
        }
        lemma_without_first_at(rest, value, i - 1);
        assert(seq![s[0]] + rest.remove(i - 1) =~= s.remove(i));
    }
}

/// Where no element of `s` equals `value`, removing the first match changes
/// nothing.
pub proof fn lemma_without_first_absent<T: PartialEq>(s: Seq<T>, value: T)
    requires
        forall|j: int| 0 <= j < s.len() ==> !(#[trigger] s[j]).eq_spec(&value),
    ensures
        without_first(s, value) == s,
    decreases s.len(),
{
    if s.len() > 0 {
        let rest = s.drop_first();
        assert(!s[0].eq_spec(&value));
        assert forall|j: int| 0 <= j < rest.len() implies !(#[trigger] rest[j]).eq_spec(
            &value,
        ) by {
            assert(rest[j] == s[j + 1]);
        }
        lemma_without_first_absent(rest, value);
        assert(seq![s[0]] + rest =~= s);
    }
}

impl<T> Node<T> {
    /// The value the node holds; none for a sentinel.
    pub closed spec fn value_view(&self) -> Option<T> {
        self.value
    }

    /// The values held by the nodes behind this one, nearest first.
    pub closed spec fn following(&self) -> Seq<T>
        decreases self,
    {
        match self.next {
            None => Seq::empty(),
            Some(node) => match node.value {
                Some(v) => seq![v] + node.following(),
                None => node.following(),
            },
        }
    }

    /// Every node behind this one holds a value.
    pub closed spec fn filled(&self) -> bool
        decreases self,
    {
        match self.next {
            None => true,
            Some(node) => node.value is Some && node.filled(),
        }
    }

    /// The value the node holds; none for a sentinel.
    pub fn value(&self) -> (value: Option<&T>)
        ensures
            value is Some <==> self.value_view() is Some,
            value is Some ==> *value.unwrap() == self.value_view().unwrap(),
    {
        match &self.value {
            Some(v) => Some(v),
            None => None,
        }
    }

    /// The node behind this one; none at the end of the list.
    pub fn next(&self) -> (next: Option<&Node<T>>)
        requires
            self.filled(),
        ensures
            next is Some <==> self.following().len() > 0,
            next is Some ==> {
                &&& next.unwrap().filled()
                &&& next.unwrap().value_view() == Some(self.following()[0])
                &&& next.unwrap().following() == self.following().drop_first()
            },
    {
        match &self.next {
            Some(node) => {
                assert(node.following() =~= self.following().drop_first());
                Some(&**node)
            },
            None => None,
        }
    }

    /// Links a new node that holds `value` behind the last node.
    fn append(&mut self, value: T)
        requires
            old(self).filled(),
        ensures
            final(self).filled(),
            final(self).value_view() == old(self).value_view(),
            final(self).following() == old(self).following().push(value),
        decreases *old(self),
    {
        match self.next.take() {
            None => {
                let last = Box::new(Node { value: Some(value), next: None });
                assert(last.filled());
                assert(last.following() =~= Seq::empty());
                self.next = Some(last);
                assert(self.following() =~= old(self).following().push(value));
            },
            Some(mut node) => {
                node.append(value);
                self.next = Some(node);
                assert(self.following() =~= old(self).following().push(value));
            },
        }
    }
}

impl<T: PartialEq> Node<T> {
    /// Unlinks the first node behind this one whose value equals `value`.
    fn unlink_first(&mut self, value: &T)
        requires
            old(self).filled(),
        ensures
            final(self).filled(),
            final(self).value_view() == old(self).value_view(),
            at_most_one_less(old(self).following(), final(self).following()),
            T::obeys_eq_spec() ==> final(self).following() == without_first(
                old(self).following(),
                *value,
            ),
        decreases *old(self),
    {
        match self.next.take() {
            None => {},
            Some(mut node) => {
                let hit = match &node.value {
                    Some(v) => *v == *value,
                    None => false,
                };
                assert(node.filled());
                assert(node.following() =~= old(self).following().drop_first());
                if hit {
                    let ghost behind = node.following();
                    self.next = node.next.take();
                    assert(self.filled());
                    assert(self.following() =~= behind);
                    assert(behind =~= old(self).following().remove(0));
                } else {
                    let ghost behind = node.following();
                    node.unlink_first(value);
                    self.next = Some(node);
                    proof {
                        let held = old(self).following();
                        if node.following() == behind {
                            assert(self.following() =~= held);
                        } else {
                            let i = choose|i: int|
                                0 <= i < behind.len() && node.following() == behind.remove(i);
                            assert(self.following() =~= held.remove(i + 1));
                        }
                    }
                    assert(T::obeys_eq_spec() ==> self.following() =~= without_first(
                        old(self).following(),
                        *value,
                    ));
                }
            },
        }
    }
}

impl<T> View for LinkedList<T> {
    type V = Seq<T>;

    /// The values of the list in the order they were added. The sentinel
    /// holds none and does not show.
    closed spec fn view(&self) -> Seq<T> {
        match self.head {
            Some(head) => head.following(),
            None => Seq::empty(),
        }
    }
}

impl<T: PartialEq> LinkedList<T> {
    /// The list owns its sentinel, the sentinel holds no value, and every
    /// node behind it holds one.
    pub closed spec fn wf(&self) -> bool {
        &&& self.head is Some
        &&& self.head.unwrap().value is None
        &&& self.head.unwrap().filled()
    }

    /// An empty list: the sentinel alone.
    pub fn new() -> (list: Self)
        ensures
            list.wf(),
            list@ == Seq::<T>::empty(),
    {
        Self { head: Some(Box::new(Node { value: None, next: None })) }
    }

    /// Appends `value` at the end of the list.
    pub fn add_node(&mut self, value: T)
        requires
            old(self).wf(),
        ensures
            final(self).wf(),
            final(self)@ == old(self)@.push(value),
    {
        match self.head.take() {
            Some(mut head) => {
                head.append(value);
                self.head = Some(head);
            },
            None => {},
        }
    }

    /// Removes the first node behind the sentinel whose value equals `value`
    /// and joins its neighbours; where no value equals it the list stays as
    /// it is. Whatever `==` answers, at most one value leaves the list.
    pub fn remove_node(&mut self, value: &T)
        requires
            old(self).wf(),
        ensures
            final(self).wf(),
            at_most_one_less(old(self)@, final(self)@),
            T::obeys_eq_spec() ==> final(self)@ == without_first(old(self)@, *value),
            T::obeys_eq_spec() && (forall|j: int|
                0 <= j < old(self)@.len() ==> !(#[trigger] old(self)@[j]).eq_spec(value))
                ==> final(self)@ == old(self)@,
            forall|i: int|
                T::obeys_eq_spec() && 0 <= i < old(self)@.len() && (#[trigger] old(self)@[i]).eq_spec(
                    value,
                ) && (forall|j: int| 0 <= j < i ==> !(#[trigger] old(self)@[j]).eq_spec(value))
                    ==> final(self)@ == old(self)@.remove(i),
    {
        match self.head.take() {
            Some(mut head) => {
                head.unlink_first(value);
                self.head = Some(head);
            },
            None => {},
        }
        proof {
            let held = old(self)@;
            if T::obeys_eq_spec() {
                if forall|j: int| 0 <= j < held.len() ==> !(#[trigger] held[j]).eq_spec(value) {
                    lemma_without_first_absent(held, *value);
                }
                assert forall|i: int|
                    0 <= i < held.len() && (#[trigger] held[i]).eq_spec(value) && (forall|j: int|
                        0 <= j < i ==> !(#[trigger] held[j]).eq_spec(value)) implies self@
                    == held.remove(i) by {
                    lemma_without_first_at(held, *value, i);
                }
            }
        }
    }

    /// The node at position `index`, counted from the sentinel, which is at
    /// position 0: position `i` from 1 on holds the `i`-th value that was
    /// added and is followed by the later ones. None where `index` is
    /// negative or beyond the last node.
    pub fn get_node(&self, index: i16) -> (node: Option<&Node<T>>)
        requires
            self.wf(),
        ensures
            node is Some <==> 0 <= index <= self@.len(),
            node is Some ==> {
                &&& node.unwrap().filled()
                &&& node.unwrap().following() == self@.skip(index as int)
                &&& node.unwrap().value_view() == if index == 0 {
                    None
                } else {
                    Some(self@[index - 1])
                }
            },
    {
        if index < 0 {
            return None;
        }
        let mut current: &Node<T> = match &self.head {
            Some(head) => &**head,
            None => {
                return None;
            },
        };
        let mut at: i16 = 0;
        assert(self@.skip(0) =~= self@);
        while at < index
            invariant
                0 <= at <= index,
                at <= self@.len(),
                current.filled(),
                current.following() == self@.skip(at as int),
                current.value_view() == if at == 0 {
                    None
                } else {
                    Some(self@[at - 1])
                },
            decreases index - at,
        {
            match &current.next {
                None => {
                    return None;
                },
                Some(node) => {
                    assert(node.following() =~= current.following().drop_first());
                    assert(current.following().drop_first() =~= self@.skip(at + 1));
                    assert(node.value == Some(self@.skip(at as int)[0]));
                    current = &**node;
                    at += 1;
                },
            }
        }
        Some(current)
    }
}

} // verus!
