use vstd::prelude::*;

verus! {

pub struct BusModel<T> {
    pub items: Seq<T>,
    pub capacity: nat,
}

/// A bounded first-in first-out queue between producers and one consumer.
/// When full, a push drops the oldest undelivered item, so producers never wait.
pub struct Bus<T> {
    items: Vec<T>,
    capacity: usize,
}

impl<T> View for Bus<T> {
    type V = BusModel<T>;

    closed spec fn view(&self) -> BusModel<T> {
        BusModel { items: self.items@, capacity: self.capacity as nat }
    }
}

impl<T> Bus<T> {
    pub open spec fn wf(&self) -> bool {
        0 < self@.capacity && self@.items.len() <= self@.capacity
    }

    pub fn new(capacity: usize) -> (r: Bus<T>)
        requires
            capacity > 0,
        ensures
            r.wf(),
            r@.items == Seq::<T>::empty(),
            r@.capacity == capacity,
    {
        Bus { items: Vec::new(), capacity }
    }

    /// Enqueues an item; returns whether the oldest item was dropped for it.
    pub fn push(&mut self, item: T) -> (dropped: bool)
        requires
            old(self).wf(),
        ensures
            final(self).wf(),
            final(self)@.capacity == old(self)@.capacity,
            dropped == (old(self)@.items.len() == old(self)@.capacity),
            !dropped ==> final(self)@.items == old(self)@.items.push(item),
            dropped ==> final(self)@.items == old(self)@.items.drop_first().push(item),
    {
        let dropped = self.items.len() == self.capacity;
        if dropped {
            self.items.remove(0);
        }
        self.items.push(item);
        dropped
    }

    /// Dequeues the oldest item, if any.
    pub fn pop(&mut self) -> (r: Option<T>)
        requires
            old(self).wf(),
        ensures
            final(self).wf(),
            final(self)@.capacity == old(self)@.capacity,
            old(self)@.items.len() == 0 ==> r is None && final(self)@.items == old(self)@.items,
            old(self)@.items.len() > 0 ==> r == Some(old(self)@.items[0])
                && final(self)@.items == old(self)@.items.drop_first(),
    {
        if self.items.len() == 0 {
            None
        } else {
            Some(self.items.remove(0))
        }
    }

    pub fn len(&self) -> (r: usize)
        ensures
            r == self@.items.len(),
    {
        self.items.len()
    }

    pub fn capacity(&self) -> (r: usize)
        ensures
            r == self@.capacity,
    {
        self.capacity
    }
}

/// The order in which items of two producers reach the bus: `tags` says whose
/// turn each step is (true: the first producer). A producer whose items are
/// used up lets its turn pass; what is left when `tags` ends follows in order,
/// the first producer's before the second's.
pub open spec fn interleave<T>(tags: Seq<bool>, a: Seq<T>, b: Seq<T>) -> Seq<(bool, T)>
    decreases tags.len() + a.len() + b.len(),
{
    if tags.len() == 0 {
        if a.len() > 0 {
            seq![(true, a[0])] + interleave(tags, a.drop_first(), b)
        } else if b.len() > 0 {
            seq![(false, b[0])] + interleave(tags, a, b.drop_first())
        } else {
            Seq::empty()
        }
    } else if tags[0] && a.len() > 0 {
        seq![(true, a[0])] + interleave(tags.drop_first(), a.drop_first(), b)
    } else if !tags[0] && b.len() > 0 {
        seq![(false, b[0])] + interleave(tags.drop_first(), a, b.drop_first())
    } else {
        interleave(tags.drop_first(), a, b)
    }
}

/// The items of one producer in a merged sequence, in the order they stand.
pub open spec fn items_from<T>(s: Seq<(bool, T)>, who: bool) -> Seq<T>
    decreases s.len(),
{
    if s.len() == 0 {
        Seq::empty()
    } else if s[0].0 == who {
        seq![s[0].1] + items_from(s.drop_first(), who)
    } else {
        items_from(s.drop_first(), who)
    }
}

proof fn lemma_items_from_prepend<T>(x: (bool, T), s: Seq<(bool, T)>, who: bool)
    ensures
        items_from(seq![x] + s, who) == if x.0 == who {
            seq![x.1] + items_from(s, who)
        } else {
            items_from(s, who)
        },
{
    assert((seq![x] + s).drop_first() =~= s);
}

/// Two producers feeding one bus in any interleaving: every item of both
/// arrives, and each producer's items arrive in that producer's own order.
pub proof fn lemma_producers_keep_order<T>(tags: Seq<bool>, a: Seq<T>, b: Seq<T>)
    ensures
        interleave(tags, a, b).len() == a.len() + b.len(),
        items_from(interleave(tags, a, b), true) == a,
        items_from(interleave(tags, a, b), false) == b,
    decreases tags.len() + a.len() + b.len(),
{
    if tags.len() == 0 {
        if a.len() > 0 {
            lemma_producers_keep_order(tags, a.drop_first(), b);
            lemma_items_from_prepend((true, a[0]), interleave(tags, a.drop_first(), b), true);
            lemma_items_from_prepend((true, a[0]), interleave(tags, a.drop_first(), b), false);
            assert(seq![a[0]] + a.drop_first() =~= a);
        } else if b.len() > 0 {
            lemma_producers_keep_order(tags, a, b.drop_first());
            lemma_items_from_prepend((false, b[0]), interleave(tags, a, b.drop_first()), true);
            lemma_items_from_prepend((false, b[0]), interleave(tags, a, b.drop_first()), false);
            assert(seq![b[0]] + b.drop_first() =~= b);
        } else {
            assert(a =~= Seq::<T>::empty());
            assert(b =~= Seq::<T>::empty());
        }
    } else if tags[0] && a.len() > 0 {
        lemma_producers_keep_order(tags.drop_first(), a.drop_first(), b);
        lemma_items_from_prepend((true, a[0]), interleave(tags.drop_first(), a.drop_first(), b), true);
        lemma_items_from_prepend((true, a[0]), interleave(tags.drop_first(), a.drop_first(), b), false);
        assert(seq![a[0]] + a.drop_first() =~= a);
    } else if !tags[0] && b.len() > 0 {
        lemma_producers_keep_order(tags.drop_first(), a, b.drop_first());
        lemma_items_from_prepend((false, b[0]), interleave(tags.drop_first(), a, b.drop_first()), true);
        lemma_items_from_prepend((false, b[0]), interleave(tags.drop_first(), a, b.drop_first()), false);
        assert(seq![b[0]] + b.drop_first() =~= b);
    } else {
        lemma_producers_keep_order(tags.drop_first(), a, b);
    }
}

/// Pushing items one after another into a bus that has room for all of them
/// leaves them all in it, after what it held, in the order pushed.
pub proof fn lemma_push_keeps_all<T>(held: Seq<T>, pushed: Seq<T>, capacity: nat)
    requires
        held.len() + pushed.len() <= capacity,
    ensures
        pushes(BusModel { items: held, capacity }, pushed).items == held + pushed,
    decreases pushed.len(),
{
    if pushed.len() > 0 {
        lemma_push_keeps_all(held.push(pushed[0]), pushed.drop_first(), capacity);
        assert(held.push(pushed[0]) + pushed.drop_first() =~= held + pushed);
    } else {
        assert(held + pushed =~= held);
    }
}

/// The bus after each of `pushed` is pushed in turn, as `push` states it.
pub open spec fn pushes<T>(m: BusModel<T>, pushed: Seq<T>) -> BusModel<T>
    decreases pushed.len(),
{
    if pushed.len() == 0 {
        m
    } else {
        let items = if m.items.len() < m.capacity {
            m.items.push(pushed[0])
        } else {
            m.items.drop_first().push(pushed[0])
        };
        pushes(BusModel { items, capacity: m.capacity }, pushed.drop_first())
    }
}

} // verus!
