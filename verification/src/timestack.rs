//! A stack whose past states stay readable: every `Time` handed out keeps
//! naming the same sequence of items, and `warp` jumps back to an earlier
//! time without forgetting what came after it.
use vstd::prelude::*;

verus! {

/// One cell of the stack: either a pushed item, or a jump back to an
/// earlier time.
#[derive(Debug)]
pub enum StackItem<T> {
    Item(T),
    Ref(usize),
}

/// Every jump in `items` points strictly below its own position, so
/// walking the stack downwards always terminates.
pub open spec fn refs_point_back<T>(items: Seq<StackItem<T>>) -> bool {
    forall|p: int|
        #![trigger items[p]]
        0 <= p < items.len() ==> (items[p] matches StackItem::Ref(r) ==> r < p)
}

/// The items in scope at time `t`, most recent first: what `iter_at`
/// yields.
pub open spec fn visible<T>(items: Seq<StackItem<T>>, t: nat) -> Seq<T>
    decreases t,
{
    if t == 0 || t > items.len() {
        Seq::empty()
    } else {
        match items[t - 1] {
            StackItem::Item(x) => seq![x] + visible(items, (t - 1) as nat),
            StackItem::Ref(r) => if r < t {
                visible(items, r as nat)
            } else {
                Seq::empty()
            },
        }
    }
}

/// Cells above `n` do not change what is visible at any time up to `n`.
pub proof fn lemma_visible_prefix<T>(items: Seq<StackItem<T>>, n: nat, t: nat)
    requires
        t <= n <= items.len(),
    ensures
        visible(items.subrange(0, n as int), t) == visible(items, t),
    decreases t,
{
    let pre = items.subrange(0, n as int);
    if t == 0 {
    } else {
        assert(pre[t - 1] == items[t - 1]);
        lemma_visible_prefix(items, n, (t - 1) as nat);
        if let StackItem::Ref(r) = items[t - 1] {
            if r < t {
                lemma_visible_prefix(items, n, r as nat);
            }
        }
    }
}

/// Nothing is visible at the origin, the time before any push.
pub proof fn law_origin_is_empty<T>(items: Seq<StackItem<T>>)
    ensures
        visible(items, 0) == Seq::<T>::empty(),
{
}

/// Adding a cell on top never changes what was visible at the times that
/// were handed out before: old times keep naming the same items.
pub proof fn law_history_preserved<T>(items: Seq<StackItem<T>>, cell: StackItem<T>, t: nat)
    requires
        t <= items.len(),
    ensures
        visible(items.push(cell), t) == visible(items, t),
{
    let pushed = items.push(cell);
    lemma_visible_prefix(pushed, items.len(), t);
    assert(pushed.subrange(0, items.len() as int) =~= items);
}

/// After a push, the new present shows the pushed item first, followed by
/// everything that was visible just before.
pub proof fn law_push_shows_item_first<T>(items: Seq<StackItem<T>>, x: T)
    ensures
        visible(items.push(StackItem::Item(x)), items.len() + 1) == seq![x] + visible(
            items,
            items.len(),
        ),
{
    let pushed = items.push(StackItem::Item(x));
    assert(pushed[items.len() as int] == StackItem::Item(x));
    law_history_preserved(items, StackItem::Item(x), items.len());
}

/// After a warp to an earlier time `t`, the new present shows exactly what
/// was visible at `t`.
pub proof fn law_warp_restores<T>(items: Seq<StackItem<T>>, t: usize)
    requires
        t < items.len(),
    ensures
        visible(items.push(StackItem::Ref(t)), items.len() + 1) == visible(items, t as nat),
{
    let pushed = items.push(StackItem::Ref(t));
    assert(pushed[items.len() as int] == StackItem::<T>::Ref(t));
    law_history_preserved(items, StackItem::Ref(t), t as nat);
}

/// A stack of items addressed by the times at which they were visible.
#[derive(Debug)]
pub struct TimeStack<T> {
    items: Vec<StackItem<T>>,
}

/// Time refers to the index you need to start to read the stack from.
///
/// A Time of 0 refers to the origin, before any element were added.
///
/// The first element can be added with a time of 1.
#[derive(Debug, Clone, Copy)]
pub struct Time(usize);

impl View for Time {
    type V = usize;

    closed spec fn view(&self) -> usize {
        self.0
    }
}

impl<T> View for TimeStack<T> {
    type V = Seq<StackItem<T>>;

    closed spec fn view(&self) -> Seq<StackItem<T>> {
        self.items@
    }
}

impl<T> TimeStack<T> {
    #[verifier::type_invariant]
    closed spec fn wf(self) -> bool {
        refs_point_back(self.items@)
    }

    /// The items in scope at time `t`.
    pub open spec fn visible_at(self, t: nat) -> Seq<T> {
        visible(self@, t)
    }
}

impl<T> Default for TimeStack<T> {
    fn default() -> (s: Self)
        ensures
            s@ == Seq::<StackItem<T>>::empty(),
            refs_point_back(s@),
    {
        TimeStack { items: Vec::new() }
    }
}

impl<T> TimeStack<T> {
    /// An empty stack.
    pub fn new() -> (s: Self)
        ensures
            s@ == Seq::<StackItem<T>>::empty(),
            refs_point_back(s@),
    {
        Self::default()
    }

    /// The present time: the number of cells pushed so far.
    pub fn time(&self) -> (t: Time)
        ensures
            t@ == self@.len(),
    {
        Time(self.items.len())
    }

    /// Pushes an item; it becomes the first item visible at the new time.
    pub fn push(&mut self, item: T)
        ensures
            final(self)@ == old(self)@.push(StackItem::Item(item)),
            refs_point_back(final(self)@),
    {
        proof {
            use_type_invariant(&*self);
        }
        let mut items = Vec::new();
        std::mem::swap(&mut items, &mut self.items);
        items.push(StackItem::Item(item));
        self.items = items;
    }

    /// Jumps back to `time`: at the new present, what was visible at `time`
    /// is visible again.
    pub fn warp(&mut self, time: Time)
        requires
            time@ < old(self)@.len(),
        ensures
            final(self)@ == old(self)@.push(StackItem::Ref(time@)),
            refs_point_back(final(self)@),
    {
        proof {
            use_type_invariant(&*self);
        }
        let mut items = Vec::new();
        std::mem::swap(&mut items, &mut self.items);
        items.push(StackItem::Ref(time.0));
        self.items = items;
    }

    /// Iterates over the items visible at `time`, most recent first.
    pub fn iter_at(&self, time: Time) -> (it: Iter<'_, T>)
        requires
            time@ <= self@.len(),
        ensures
            it.remaining() == self.visible_at(time@ as nat),
    {
        proof {
            use_type_invariant(self);
        }
        let (view, _) = self.items.as_slice().split_at(time.0);
        proof {
            lemma_visible_prefix(self@, time@ as nat, time@ as nat);
            assert(view@ == self@.subrange(0, time@ as int));
        }
        Iter::new(view)
    }
}

/// Walks the items visible at some time, most recent first.
#[derive(Debug)]
pub struct Iter<'a, T> {
    stack: &'a [StackItem<T>],
    idx: usize,
}

impl<'a, T> Iter<'a, T> {
    #[verifier::type_invariant]
    closed spec fn wf(self) -> bool {
        &&& refs_point_back(self.stack@)
        &&& self.idx <= self.stack@.len()
    }

    /// What is left to yield.
    pub closed spec fn remaining(self) -> Seq<T> {
        visible(self.stack@, self.idx as nat)
    }

    fn new(view: &'a [StackItem<T>]) -> (it: Self)
        requires
            refs_point_back(view@),
        ensures
            it.remaining() == visible(view@, view@.len()),
    {
        Iter { stack: view, idx: view.len().saturating_sub(0) }
    }

    /// Yields the next visible item, or `None` once everything visible has
    /// been yielded.
    pub fn next(&mut self) -> (r: Option<&'a T>)
        ensures
            old(self).remaining().len() == 0 ==> r is None && final(self).remaining().len() == 0,
            old(self).remaining().len() > 0 ==> (r matches Some(x) && *x == old(
                self,
            ).remaining()[0]),
            old(self).remaining().len() > 0 ==> final(self).remaining() == old(
                self,
            ).remaining().drop_first(),
    {
        proof {
            use_type_invariant(&*self);
        }
        let stack = self.stack;
        let ghost start = self.remaining();
        while self.idx != 0
            invariant
                self.stack == stack,
                refs_point_back(stack@),
                self.idx <= stack@.len(),
                self.remaining() == start,
                start == old(self).remaining(),
            decreases self.idx,
        {
            match &stack[self.idx - 1] {
                StackItem::Item(item) => {
                    proof {
                        assert(stack@[self.idx - 1] == StackItem::Item(*item));
                        assert(start == seq![*item] + visible(stack@, (self.idx - 1) as nat));
                        assert(start.drop_first() =~= visible(stack@, (self.idx - 1) as nat));
                    }
                    self.idx = self.idx - 1;
                    return Some(item);
                },
                StackItem::Ref(back) => {
                    proof {
                        assert(stack@[self.idx - 1] == StackItem::<T>::Ref(*back));
                    }
                    self.idx = *back;
                },
            }
        }
        None
    }
}

impl<'a, T> Clone for Iter<'a, T> {
    fn clone(&self) -> (c: Self)
        ensures
            c.remaining() == self.remaining(),
    {
        proof {
            use_type_invariant(self);
        }
        Iter { stack: self.stack, idx: self.idx }
    }
}

/// A frozen stack of items.
pub struct ReadOnlyStack<T> {
    items: Box<[T]>,
}

} // verus!
