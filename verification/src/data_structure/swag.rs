use crate::algebra::{lemma_product_concat, lemma_product_first, lemma_product_one, product};
use crate::traits::Monoid;
use vstd::prelude::*;

verus! {

/// A queue that keeps the product of its items: a sliding window
/// aggregation over a monoid that need not be commutative.
///
/// The items stand in two parts. New items join the back part; when the
/// front part is empty, the whole back part becomes the front part.
pub struct Swag<T: Monoid> {
    front: Vec<T::S>,
    back: Vec<T::S>,
    back_raw: Vec<T::S>,
    front_raw: Ghost<Seq<T::S>>,
}

impl<T: Monoid> View for Swag<T> {
    type V = Seq<T::S>;

    /// The items of the queue, the oldest first.
    open spec fn view(&self) -> Seq<T::S> {
        self.front_items() + self.back_items()
    }
}

impl<T: Monoid> Swag<T> {
    /// The items of the front part, the oldest first.
    pub closed spec fn front_items(&self) -> Seq<T::S> {
        self.front_raw@
    }

    /// The items of the back part, the oldest first.
    pub closed spec fn back_items(&self) -> Seq<T::S> {
        self.back_raw@
    }

    /// The stored products belong to the items: each entry of the back
    /// stack is the product of the back items up to it, each entry of the
    /// front stack the product of the front items from it on.
    pub closed spec fn wf(&self) -> bool {
        &&& self.back@.len() == self.back_raw@.len()
        &&& forall|k: int|
            0 <= k < self.back@.len() ==> self.back@[k] == product::<T>(
                self.back_raw@.subrange(0, k + 1),
            )
        &&& self.front@.len() == self.front_raw@.len()
        &&& forall|k: int|
            0 <= k < self.front@.len() ==> self.front@[k] == product::<T>(
                self.front_raw@.subrange(self.front_raw@.len() - 1 - k, self.front_raw@.len() as int),
            )
    }

    /// An empty queue.
    pub fn new() -> (swag: Self)
        ensures
            swag.wf(),
            swag.front_items() == Seq::<T::S>::empty(),
            swag.back_items() == Seq::<T::S>::empty(),
    {
        Swag { front: Vec::new(), back: Vec::new(), back_raw: Vec::new(), front_raw: Ghost(Seq::empty()) }
    }

    /// Puts `x` before the items of the front part.
    fn add_front(&mut self, x: T::S)
        requires
            old(self).wf(),
        ensures
            final(self).wf(),
            final(self).front_items() == seq![x] + old(self).front_items(),
            final(self).back@ == old(self).back@,
            final(self).back_raw@ == old(self).back_raw@,
    {
        let ghost items = self.front_raw@;
        let ghost stack = self.front@;
        let ghost longer = seq![x] + items;
        if self.front.is_empty() {
            self.front.push(x);
            proof {
                assert(longer.subrange(0, 1) =~= seq![x]);
                lemma_product_one::<T>(x);
            }
        } else {
            let vi = &self.front[self.front.len() - 1];
            let v = T::op(&x, vi);
            self.front.push(v);
            proof {
                assert(longer.subrange(1, longer.len() as int) =~= items);
                assert(items.subrange(0, items.len() as int) =~= items);
                lemma_product_first::<T>(longer, 0, longer.len() as int);
            }
        }
        self.front_raw = Ghost(longer);
        proof {
            assert forall|k: int| 0 <= k < self.front@.len() implies self.front@[k] == product::<T>(
                longer.subrange(longer.len() - 1 - k, longer.len() as int),
            ) by {
                if k < stack.len() {
                    assert(longer.subrange(longer.len() - 1 - k, longer.len() as int)
                        =~= items.subrange(items.len() - 1 - k, items.len() as int));
                }
            }
        }
    }

    /// Puts `x` behind the products of the back part.
    fn add_back(&mut self, x: T::S)
        requires
            old(self).back@.len() == old(self).back_raw@.len(),
            forall|k: int|
                0 <= k < old(self).back@.len() ==> old(self).back@[k] == product::<T>(
                    old(self).back_raw@.subrange(0, k + 1),
                ),
        ensures
            final(self).back@ == old(self).back@.push(
                T::op_spec(product::<T>(old(self).back_raw@), x),
            ),
            final(self).back_raw@ == old(self).back_raw@,
            final(self).front@ == old(self).front@,
            final(self).front_raw@ == old(self).front_raw@,
    {
        if self.back.is_empty() {
            proof {
                T::left_identity(x);
            }
            self.back.push(x);
        } else {
            proof {
                assert(self.back_raw@.subrange(0, self.back_raw@.len() as int) =~= self.back_raw@);
            }
            let vi = &self.back[self.back.len() - 1];
            let v = T::op(vi, &x);
            self.back.push(v);
        }
    }

    /// Makes the back part the front part, where the front part is empty.
    fn b_to_f(&mut self)
        requires
            old(self).wf(),
        ensures
            final(self).wf(),
            old(self).front_items().len() > 0 ==> final(self).front_items() == old(self).front_items() && final(self).back_items() == old(self).back_items(),
            old(self).front_items().len() == 0 ==> final(self).front_items() == old(self).back_items() && final(self).back_items() == Seq::<T::S>::empty(),
    {
        if self.front.is_empty() {
            let ghost all = self.back_raw@;
            while self.back.len() > 0
                invariant
                    self.wf(),
                    self.back_raw@ + self.front_raw@ == all,
                decreases self.back@.len(),
            {
                let ghost raw = self.back_raw@;
                let ghost stack = self.back@;
                self.back.pop();
                let ri = self.back_raw.pop().unwrap();
                proof {
                    assert forall|k: int| 0 <= k < self.back@.len() implies self.back@[k]
                        == product::<T>(self.back_raw@.subrange(0, k + 1)) by {
                        assert(stack[k] == product::<T>(raw.subrange(0, k + 1)));
                        assert(self.back_raw@.subrange(0, k + 1) =~= raw.subrange(0, k + 1));
                    }
                }
                self.add_front(ri);
                proof {
                    assert(self.back_raw@ + self.front_raw@ =~= all);
                }
            }
            proof {
                assert(self.back_raw@ =~= Seq::<T::S>::empty());
                assert(self.front_raw@ =~= all);
            }
        }
    }

    /// Adds `x` as the newest item.
    pub fn push_back(&mut self, x: T::S)
        requires
            old(self).wf(),
        ensures
            final(self).wf(),
            final(self).front_items() == old(self).front_items(),
            final(self).back_items() == old(self).back_items().push(x),
    {
        let ghost raw = self.back_raw@;
        let ghost stack = self.back@;
        let c = x.clone();
        proof {
            T::clone_exact(x, c);
        }
        self.add_back(c);
        self.back_raw.push(x);
        proof {
            assert forall|k: int| 0 <= k < self.back@.len() implies self.back@[k] == product::<T>(
                self.back_raw@.subrange(0, k + 1),
            ) by {
                if k < stack.len() {
                    assert(self.back_raw@.subrange(0, k + 1) =~= raw.subrange(0, k + 1));
                } else {
                    assert(self.back_raw@.subrange(0, k + 1) =~= raw.push(x));
                    assert(raw.push(x).drop_last() =~= raw);
                }
            }
        }
    }

    /// Removes the oldest item and returns the product of the front part
    /// as it stood with that item; `None` where the queue is empty. An
    /// empty front part is first filled from the back part.
    pub fn pop_front(&mut self) -> (popped: Option<T::S>)
        requires
            old(self).wf(),
        ensures
            final(self).wf(),
            old(self)@.len() == 0 ==> popped.is_none() && final(self).front_items() == old(self).front_items() && final(self).back_items() == old(self).back_items(),
            old(self).front_items().len() > 0 ==> popped == Some(
                product::<T>(old(self).front_items()),
            ) && final(self).front_items() == old(self).front_items().drop_first() && final(self).back_items() == old(self).back_items(),
            old(self).front_items().len() == 0 && old(self).back_items().len() > 0 ==> popped
                == Some(product::<T>(old(self).back_items())) && final(self).front_items() == old(self).back_items().drop_first() && final(self).back_items() == Seq::<T::S>::empty(),
    {
        self.b_to_f();
        let ghost items = self.front_raw@;
        let ghost stack = self.front@;
        let popped = self.front.pop();
        proof {
            if items.len() > 0 {
                assert(items.subrange(0, items.len() as int) =~= items);
                let rest = items.drop_first();
                self.front_raw = Ghost(rest);
                assert forall|k: int| 0 <= k < self.front@.len() implies self.front@[k]
                    == product::<T>(rest.subrange(rest.len() - 1 - k, rest.len() as int)) by {
                    assert(stack[k] == product::<T>(
                        items.subrange(items.len() - 1 - k, items.len() as int),
                    ));
                    assert(rest.subrange(rest.len() - 1 - k, rest.len() as int) =~= items.subrange(
                        items.len() - 1 - k,
                        items.len() as int,
                    ));
                }
            }
        }
        popped
    }

    /// The product of all the items, the oldest first.
    pub fn fold(&mut self) -> (value: T::S)
        requires
            old(self).wf(),
        ensures
            final(self).wf(),
            final(self).front_items() == old(self).front_items(),
            final(self).back_items() == old(self).back_items(),
            value == product::<T>(old(self)@),
    {
        proof {
            lemma_product_concat::<T>(self.front_raw@, self.back_raw@);
            assert(self.front_raw@.subrange(0, self.front_raw@.len() as int) =~= self.front_raw@);
            assert(self.back_raw@.subrange(0, self.back_raw@.len() as int) =~= self.back_raw@);
            T::left_identity(product::<T>(self.back_raw@));
            T::right_identity(product::<T>(self.front_raw@));
        }
        if self.front.is_empty() && self.back.is_empty() {
            return T::e();
        }
        if self.front.is_empty() {
            let v = self.back[self.back.len() - 1].clone();
            proof {
                T::clone_exact(self.back@[self.back@.len() - 1], v);
            }
            return v;
        }
        if self.back.is_empty() {
            let v = self.front[self.front.len() - 1].clone();
            proof {
                T::clone_exact(self.front@[self.front@.len() - 1], v);
            }
            return v;
        }
        T::op(&self.front[self.front.len() - 1], &self.back[self.back.len() - 1])
    }
}

impl<T: Monoid> Default for Swag<T> {
    fn default() -> (swag: Self)
        ensures
            swag.wf(),
            swag.front_items() == Seq::<T::S>::empty(),
            swag.back_items() == Seq::<T::S>::empty(),
    {
        Self::new()
    }
}

} // verus!
