use vstd::prelude::*;

verus! {

/// An append-only container. Items come out most recently added first.
#[derive(Debug)]
pub struct Bag<T> {
    items: Vec<T>,
}

/// A forward cursor over a bag.
pub struct Iter<'a, T> {
    bag: &'a Bag<T>,
    left: usize,
}

impl<T> Bag<T> {
    /// The items in the order in which they are handed out.
    pub closed spec fn view(&self) -> Seq<T> {
        self.items@.reverse()
    }

    /// A bag that holds nothing.
    pub fn get_empty_bag() -> (bag: Self)
        ensures
            bag@ == Seq::<T>::empty(),
    {
        let bag = Bag { items: Vec::new() };
        assert(bag.items@.reverse() =~= Seq::<T>::empty());
        bag
    }

    /// Whether the bag holds nothing.
    pub fn is_empty_bag(&self) -> (b: bool)
        ensures
            b == (self@.len() == 0),
    {
        self.items.len() == 0
    }

    /// The most recently added item, if there is one.
    pub fn get_from_bag(&self) -> (item: Option<&T>)
        ensures
            self@.len() == 0 ==> item.is_none(),
            self@.len() > 0 ==> item == Some(&self@[0]),
    {
        let n = self.items.len();
        if n == 0 {
            None
        } else {
            Some(&self.items[n - 1])
        }
    }

    /// The number of items.
    pub fn size(&self) -> (n: usize)
        ensures
            n == self@.len(),
    {
        self.items.len()
    }

    /// Puts `item` in front of all the others.
    pub fn add(&mut self, item: T)
        ensures
            final(self)@ == seq![item] + old(self)@,
    {
        self.items.push(item);
        assert(self.items@.reverse() =~= seq![item] + old(self).items@.reverse());
    }

    /// A cursor that starts at the most recently added item.
    pub fn iter(&self) -> (it: Iter<'_, T>)
        ensures
            it@ == self@,
    {
        let it = Iter { bag: self, left: self.items.len() };
        assert(it@ =~= self@);
        it
    }

    /// The item at position `i`, counting from the most recently added.
    pub fn item(&self, i: usize) -> (item: &T)
        requires
            i < self@.len(),
        ensures
            *item == self@[i as int],
    {
        &self.items[self.items.len() - 1 - i]
    }

    /// Exclusive access to the item at position `i`, counting from the most recently added.
    pub fn item_mut(&mut self, i: usize) -> (item: &mut T)
        requires
            i < old(self)@.len(),
        ensures
            *item == old(self)@[i as int],
            final(self)@ == old(self)@.update(i as int, *final(item)),
    {
        let k = self.items.len() - 1 - i;
        let r = &mut self.items[k];
        r
    }
}

impl<'a, T> Iter<'a, T> {
    #[verifier::type_invariant]
    spec fn in_range(&self) -> bool {
        self.left <= self.bag.items@.len()
    }

    /// The items still to come.
    pub closed spec fn view(&self) -> Seq<T> {
        self.bag.items@.subrange(0, self.left as int).reverse()
    }

    /// Hands out the next item, or `None` once all have been handed out.
    pub fn next(&mut self) -> (item: Option<&'a T>)
        ensures
            old(self)@.len() == 0 ==> item.is_none() && final(self)@ == old(self)@,
            old(self)@.len() > 0 ==> item == Some(&old(self)@[0]) && final(self)@ == old(self)@.drop_first(),
    {
        proof {
            use_type_invariant(&*self);
        }
        if self.left == 0 {
            None
        } else {
            let k = self.left - 1;
            self.left = k;
            assert(self@ =~= old(self)@.drop_first());
            Some(&self.bag.items[k])
        }
    }
}

} // verus!
