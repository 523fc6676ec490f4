//! A FIFO queue over any element type.

use vstd::prelude::*;

verus! {

/// The queue that results from enqueuing `value` on `q`: `value` goes to the back.
pub open spec fn enqueued<T>(q: Seq<T>, value: T) -> Seq<T> {
    q.push(value)
}

/// What one dequeue does to `q`: the element handed out (none on an empty
/// queue) and the queue that is left.
pub open spec fn dequeued<T>(q: Seq<T>) -> (Option<T>, Seq<T>) {
    if q.len() == 0 {
        (None, q)
    } else {
        (Some(q.first()), q.drop_first())
    }
}

/// The queue after enqueuing the elements of `vals` on `q`, first element first.
pub open spec fn enqueued_all<T>(q: Seq<T>, vals: Seq<T>) -> Seq<T>
    decreases vals.len(),
{
    if vals.len() == 0 {
        q
    } else {
        enqueued(enqueued_all(q, vals.drop_last()), vals.last())
    }
}

/// The results of `n` dequeues in a row on `q`, in the order they are handed
/// out, and the queue that is left after them.
pub open spec fn dequeued_many<T>(q: Seq<T>, n: nat) -> (Seq<Option<T>>, Seq<T>)
    decreases n,
{
    if n == 0 {
        (Seq::empty(), q)
    } else {
        let (first, rest) = dequeued(q);
        let (results, left) = dequeued_many(rest, (n - 1) as nat);
        (seq![first] + results, left)
    }
}

/// Enqueuing a run of values appends them behind what the queue held.
pub proof fn lemma_enqueued_all_appends<T>(q: Seq<T>, vals: Seq<T>)
    ensures
        enqueued_all(q, vals) == q + vals,
    decreases vals.len(),
{
    if vals.len() == 0 {
        assert(q + vals =~= q);
    } else {
        lemma_enqueued_all_appends(q, vals.drop_last());
        assert((q + vals.drop_last()).push(vals.last()) =~= q + vals);
    }
}

/// Dequeuing `n` times from a queue that holds at least `n` elements hands out
/// its first `n` elements in order and leaves the others.
pub proof fn lemma_dequeued_many_takes_front<T>(q: Seq<T>, n: nat)
    requires
        n <= q.len(),
    ensures
        dequeued_many(q, n).1 == q.skip(n as int),
        dequeued_many(q, n).0.len() == n,
        forall|i: int| 0 <= i < n ==> #[trigger] dequeued_many(q, n).0[i] == Some(q[i]),
    decreases n,
{
    if n == 0 {
        assert(q.skip(0) =~= q);
    } else {
        let rest = q.drop_first();
        lemma_dequeued_many_takes_front(rest, (n - 1) as nat);
        let inner = dequeued_many(rest, (n - 1) as nat);
        let outer = dequeued_many(q, n);
        assert(outer.0 == seq![Some(q.first())] + inner.0);
        assert(rest.skip(n - 1) =~= q.skip(n as int));
        assert forall|i: int| 0 <= i < n implies #[trigger] outer.0[i] == Some(q[i]) by {
            if i > 0 {
                assert(outer.0[i] == inner.0[i - 1]);
            }
        }
    }
}

/// Round trip: after the values of `vals` are enqueued on an empty queue, as
/// many dequeues hand the same values back in the order of enqueuing, every
/// dequeue gives a value, and the queue is empty again.
pub proof fn lemma_enqueue_dequeue_round_trip<T>(vals: Seq<T>)
    ensures
        dequeued_many(enqueued_all(Seq::<T>::empty(), vals), vals.len()).1 == Seq::<T>::empty(),
        dequeued_many(enqueued_all(Seq::<T>::empty(), vals), vals.len()).0.len() == vals.len(),
        forall|i: int|
            0 <= i < vals.len() ==> #[trigger] dequeued_many(
                enqueued_all(Seq::<T>::empty(), vals),
                vals.len(),
            ).0[i] == Some(vals[i]),
{
    lemma_enqueued_all_appends(Seq::<T>::empty(), vals);
    assert(Seq::<T>::empty() + vals =~= vals);
    lemma_dequeued_many_takes_front(vals, vals.len());
    assert(vals.skip(vals.len() as int) =~= Seq::<T>::empty());
}

/// A first-in, first-out queue.
#[derive(Debug)]
pub struct Queue<T> {
    items: Vec<T>,
}

impl<T> View for Queue<T> {
    type V = Seq<T>;

    /// The elements from the front of the queue to its back.
    closed spec fn view(&self) -> Seq<T> {
        self.items@
    }
}

impl<T> Queue<T> {
    /// An empty queue.
    pub fn new() -> (q: Self)
        ensures
            q@ == Seq::<T>::empty(),
    {
        Self { items: Vec::new() }
    }

    /// Puts `val` at the back.
    pub fn enqueue(&mut self, val: T)
        ensures
            final(self)@ == enqueued(old(self)@, val),
    {
        self.items.push(val);
    }

    /// Takes the front element off and returns it; on an empty queue returns
    /// `None` and changes nothing.
    pub fn dequeue(&mut self) -> (front: Option<T>)
        ensures
            front == dequeued(old(self)@).0,
            final(self)@ == dequeued(old(self)@).1,
    {
        if self.items.len() > 0 {
            let front = self.items.remove(0);
            assert(self.items@ =~= old(self).items@.drop_first());
            Some(front)
        } else {
            None
        }
    }

    /// The elements from front to back.
    pub fn items(&self) -> (items: &Vec<T>)
        ensures
            items@ == self@,
    {
        &self.items
    }
}

} // verus!
