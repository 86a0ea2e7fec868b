use vstd::prelude::*;

use rand::seq::SliceRandom;

verus! {

/// Relies on rand's `SliceRandom::shuffle` with the thread-local generator: it only swaps
/// elements, so the result is some permutation of the input.
#[verifier::external_body]
fn shuffle_items<T>(items: &mut Vec<T>)
    ensures
        final(items)@.to_multiset() == old(items)@.to_multiset(),
        final(items)@.len() == old(items)@.len(),
{
    items.shuffle(&mut rand::rng());
}

/// The draw pool: a shuffled store of items, removed as they are drawn.
#[derive(Debug)]
pub struct Bag<T> {
    items: Vec<T>,
}

impl<T> View for Bag<T> {
    type V = Seq<T>;

    /// The items in the order they are stored; draws take from the end.
    closed spec fn view(&self) -> Seq<T> {
        self.items@
    }
}

impl<T> Bag<T> {
    /// A bag holding `items` in a random order.
    pub fn new(items: Vec<T>) -> (r: Bag<T>)
        ensures
            r@.to_multiset() == items@.to_multiset(),
            r@.len() == items@.len(),
    {
        let mut items = items;
        shuffle_items(&mut items);
        Bag { items }
    }

    /// A bag holding `items` in exactly the given order, with no shuffle.
    pub fn from_items(items: Vec<T>) -> (r: Bag<T>)
        ensures
            r@ == items@,
    {
        Bag { items }
    }

    /// Replaces the contents of this bag with `items` in a random order.
    pub fn restock(&mut self, items: Vec<T>)
        ensures
            final(self)@.to_multiset() == items@.to_multiset(),
            final(self)@.len() == items@.len(),
    {
        let mut items = items;
        shuffle_items(&mut items);
        self.items = items;
    }

    /// The items of this bag.
    pub fn items(&self) -> (r: &Vec<T>)
        ensures
            r@ == self@,
    {
        &self.items
    }

    /// Draws one item, if any is left.
    pub fn next(&mut self) -> (r: Option<T>)
        ensures
            old(self)@.len() == 0 ==> r is None && final(self)@ == old(self)@,
            old(self)@.len() > 0 ==> r == Some(old(self)@.last()) && final(self)@ == old(self)@.drop_last(),
    {
        self.items.pop()
    }

    /// Draws up to `n` items: fewer only when the bag runs out.
    pub fn draw(&mut self, n: usize) -> (r: Vec<T>)
        ensures
            r@.len() == if n <= old(self)@.len() {
                n as int
            } else {
                old(self)@.len() as int
            },
            final(self)@ == old(self)@.take(old(self)@.len() - r@.len()),
            forall|j: int| 0 <= j < r@.len() ==> #[trigger] r@[j] == old(self)@[old(self)@.len() - 1 - j],
    {
        let mut out: Vec<T> = Vec::new();
        let ghost start = self@;
        assert(start.take(start.len() as int) =~= start);
        while out.len() < n
            invariant
                start == old(self)@,
                out@.len() <= n,
                out@.len() <= start.len(),
                self@ == start.take(start.len() - out@.len()),
                forall|j: int| 0 <= j < out@.len() ==> #[trigger] out@[j] == start[start.len() - 1 - j],
            decreases n - out@.len(),
        {
            match self.items.pop() {
                Some(x) => {
                    out.push(x);
                    assert(self@ =~= start.take(start.len() - out@.len()));
                },
                None => {
                    assert(self@.len() == 0);
                    assert(start.take(start.len() - out@.len()).len() == start.len() - out@.len());
                    assert(self@ =~= start.take(start.len() - out@.len()));
                    return out;
                },
            }
        }
        out
    }
}

} // verus!
