//! A named LIFO stack of 32-bit signed integers.

use vstd::prelude::*;

verus! {

/// The stack that results from pushing `value` onto `s`: `value` becomes the top.
pub open spec fn pushed(s: Seq<i32>, value: i32) -> Seq<i32> {
    s.push(value)
}

/// What one pop does to `s`: the value handed out (none on an empty stack)
/// and the stack that is left.
pub open spec fn popped(s: Seq<i32>) -> (Option<i32>, Seq<i32>) {
    if s.len() == 0 {
        (None, s)
    } else {
        (Some(s.last()), s.drop_last())
    }
}

/// The stack after pushing the elements of `vals` onto `s`, first element first.
pub open spec fn pushed_all(s: Seq<i32>, vals: Seq<i32>) -> Seq<i32>
    decreases vals.len(),
{
    if vals.len() == 0 {
        s
    } else {
        pushed(pushed_all(s, vals.drop_last()), vals.last())
    }
}

/// The results of `n` pops in a row on `s`, in the order they are handed out,
/// and the stack that is left after them.
pub open spec fn popped_many(s: Seq<i32>, n: nat) -> (Seq<Option<i32>>, Seq<i32>)
    decreases n,
{
    if n == 0 {
        (Seq::empty(), s)
    } else {
        let (first, rest) = popped(s);
        let (results, left) = popped_many(rest, (n - 1) as nat);
        (seq![first] + results, left)
    }
}

/// Pushing a run of values appends them above what the stack held.
pub proof fn lemma_pushed_all_appends(s: Seq<i32>, vals: Seq<i32>)
    ensures
        pushed_all(s, vals) == s + vals,
    decreases vals.len(),
{
    if vals.len() == 0 {
        assert(s + vals =~= s);
    } else {
        lemma_pushed_all_appends(s, vals.drop_last());
        assert((s + vals.drop_last()).push(vals.last()) =~= s + vals);
    }
}

/// Round trip: after the values of `vals` are pushed onto any stack `s`, as many
/// pops hand the same values back in reverse order of pushing, every pop gives
/// a value, and the stack is `s` again.
pub proof fn lemma_push_pop_round_trip(s: Seq<i32>, vals: Seq<i32>)
    ensures
        popped_many(pushed_all(s, vals), vals.len()).1 == s,
        popped_many(pushed_all(s, vals), vals.len()).0.len() == vals.len(),
        forall|i: int|
            0 <= i < vals.len() ==> #[trigger] popped_many(pushed_all(s, vals), vals.len()).0[i]
                == Some(vals[vals.len() - 1 - i]),
    decreases vals.len(),
{
    lemma_pushed_all_appends(s, vals);
    if vals.len() > 0 {
        let init = vals.drop_last();
        lemma_pushed_all_appends(s, init);
        lemma_push_pop_round_trip(s, init);
        assert((s + vals).drop_last() =~= s + init);
        assert((s + vals).last() == vals.last());
        let inner = popped_many(s + init, init.len());
        let outer = popped_many(s + vals, vals.len());
        assert(outer.0 == seq![Some(vals.last())] + inner.0);
        assert forall|i: int| 0 <= i < vals.len() implies #[trigger] outer.0[i] == Some(
            vals[vals.len() - 1 - i],
        ) by {
            if i > 0 {
                assert(outer.0[i] == inner.0[i - 1]);
            }
        }
    }
}

/// A stack of `i32` values that carries a name.
pub struct StackStruct {
    name: String,
    stack: Vec<i32>,
}

impl View for StackStruct {
    type V = Seq<i32>;

    /// The elements from the bottom of the stack to its top.
    closed spec fn view(&self) -> Seq<i32> {
        self.stack@
    }
}

impl StackStruct {
    /// The name the stack was created with.
    pub closed spec fn name_view(&self) -> Seq<char> {
        self.name@
    }

    /// An empty stack called `name`.
    pub fn new(name: String) -> (s: Self)
        ensures
            s@ == Seq::<i32>::empty(),
            s.name_view() == name@,
    {
        Self { name: name, stack: Vec::new() }
    }

    /// A copy of the stack's name.
    pub fn get_name(&self) -> (name: String)
        ensures
            name@ == self.name_view(),
    {
        self.name.clone()
    }

    /// Puts `value` on top.
    pub fn push(&mut self, value: i32)
        ensures
            final(self)@ == pushed(old(self)@, value),
            final(self).name_view() == old(self).name_view(),
    {
        self.stack.push(value);
    }

    /// Takes the top element off and returns it; on an empty stack returns
    /// `None` and changes nothing.
    pub fn pop(&mut self) -> (top: Option<i32>)
        ensures
            top == popped(old(self)@).0,
            final(self)@ == popped(old(self)@).1,
            final(self).name_view() == old(self).name_view(),
    {
        self.stack.pop()
    }

    /// The elements from bottom to top.
    pub fn items(&self) -> (items: &Vec<i32>)
        ensures
            items@ == self@,
    {
        &self.stack
    }
}

} // verus!
