//! Compact representations of a run of one or more semigroup items.

use crate::error::Error;
use crate::semigroup::Semigroup;
use vstd::prelude::*;

verus! {

/// The left fold of a non-empty sequence under the semigroup operation.
pub open spec fn fold_combine<T: Semigroup>(s: Seq<T>) -> T
    recommends
        s.len() > 0,
    decreases s.len(),
{
    if s.len() <= 1 {
        s[0]
    } else {
        fold_combine(s.drop_last()).combine_spec(s.last())
    }
}

/// The summary of two runs laid end to end is the combination of their
/// summaries: this is what lets a branch keep one summary per child and
/// still summarize its whole subtree.
pub proof fn lemma_fold_combine_concat<T: Semigroup>(a: Seq<T>, b: Seq<T>)
    requires
        a.len() > 0,
        b.len() > 0,
    ensures
        fold_combine(a + b) == fold_combine(a).combine_spec(fold_combine(b)),
    decreases b.len(),
{
    if b.len() == 1 {
        assert((a + b).drop_last() =~= a);
        assert((a + b).last() == b[0]);
    } else {
        assert((a + b).drop_last() =~= a + b.drop_last());
        assert((a + b).last() == b.last());
        lemma_fold_combine_concat(a, b.drop_last());
        T::lemma_combine_assoc(fold_combine(a), fold_combine(b.drop_last()), b.last());
    }
}

/// The pairs `(i, s[i])` with `i < n` and `bits[i]` set, in order.
pub open spec fn selected<T>(s: Seq<T>, bits: Seq<bool>, n: int) -> Seq<(usize, T)>
    recommends
        0 <= n <= s.len(),
        s.len() <= bits.len(),
    decreases n,
{
    if n <= 0 {
        Seq::empty()
    } else if bits[n - 1] {
        selected(s, bits, n - 1).push(((n - 1) as usize, s[n - 1]))
    } else {
        selected(s, bits, n - 1)
    }
}

/// A compact representation of a sequence of one or more items.
///
/// An implementation may store a run of keys in a form more compact than
/// one value per item; `items` is the sequence of items it stands for.
pub trait CompactSeq: Sized {
    /// The item type.
    type Item: Semigroup + Copy;

    /// The sequence of items this value stands for.
    spec fn items(&self) -> Seq<Self::Item>;

    /// A sequence with no items.
    fn empty() -> (s: Self)
        ensures
            s.items() == Seq::<Self::Item>::empty(),
    ;

    /// A sequence holding exactly `item`.
    fn single(item: &Self::Item) -> (s: Self)
        ensures
            s.items() == seq![*item],
    ;

    /// Appends a new item at the end.
    fn push(&mut self, value: &Self::Item)
        ensures
            final(self).items() == old(self).items().push(*value),
    ;

    /// Combines `value` into the last item, keeping the count.
    fn extend(&mut self, value: &Self::Item)
        requires
            old(self).items().len() > 0,
        ensures
            final(self).items() == old(self).items().update(
                old(self).items().len() - 1,
                old(self).items().last().combine_spec(*value),
            ),
    ;

    /// Number of items.
    fn count(&self) -> (n: u64)
        ensures
            n == self.items().len(),
    ;

    /// Number of items, as a usize.
    fn len(&self) -> (n: usize)
        ensures
            n == self.items().len(),
    ;

    /// The item at `index`; `Some` exactly when `index` is in range.
    fn get(&self, index: usize) -> (r: Option<Self::Item>)
        ensures
            r == if index < self.items().len() {
                Some(self.items()[index as int])
            } else {
                None::<Self::Item>
            },
    ;

    /// Combines all items under the semigroup operation.
    fn summarize(&self) -> (r: Self::Item)
        requires
            self.items().len() > 0,
        ensures
            r == fold_combine(self.items()),
    ;

    /// Builds a sequence from the items of a vector; rejects an empty one.
    fn new(items: &Vec<Self::Item>) -> (r: Result<Self, Error>)
        ensures
            match r {
                Ok(s) => items@.len() > 0 && s.items() == items@,
                Err(e) => items@.len() == 0 && e == Error::EmptyIterator,
            },
    {
        if items.len() == 0 {
            return Err(Error::EmptyIterator);
        }
        let mut s = Self::single(&items[0]);
        let mut i: usize = 1;
        while i < items.len()
            invariant
                1 <= i <= items@.len(),
                s.items() == items@.take(i as int),
            decreases items@.len() - i,
        {
            s.push(&items[i]);
            proof {
                assert(items@.take(i + 1) =~= items@.take(i as int).push(items@[i as int]));
            }
            i = i + 1;
        }
        proof {
            assert(items@.take(items@.len() as int) =~= items@);
        }
        Ok(s)
    }

    /// All items, one value each.
    fn to_vec(&self) -> (r: Vec<Self::Item>)
        ensures
            r@ == self.items(),
    {
        let mut r: Vec<Self::Item> = Vec::new();
        let n = self.len();
        let mut i: usize = 0;
        while i < n
            invariant
                0 <= i <= n,
                n == self.items().len(),
                r@ == self.items().take(i as int),
            decreases n - i,
        {
            let x = self.get(i).unwrap();
            r.push(x);
            proof {
                assert(self.items().take(i + 1) =~= self.items().take(i as int).push(
                    self.items()[i as int],
                ));
            }
            i = i + 1;
        }
        proof {
            assert(self.items().take(self.items().len() as int) =~= self.items());
        }
        r
    }

    /// The `(index, item)` pairs whose bit is set in `bits`.
    fn select(&self, bits: &Vec<bool>) -> (r: Vec<(usize, Self::Item)>)
        requires
            self.items().len() <= bits@.len(),
        ensures
            r@ == selected(self.items(), bits@, self.items().len() as int),
    {
        let mut r: Vec<(usize, Self::Item)> = Vec::new();
        let n = self.len();
        let mut i: usize = 0;
        while i < n
            invariant
                0 <= i <= n,
                n == self.items().len(),
                self.items().len() <= bits@.len(),
                r@ == selected(self.items(), bits@, i as int),
            decreases n - i,
        {
            if bits[i] {
                let x = self.get(i).unwrap();
                r.push((i, x));
            }
            i = i + 1;
        }
        r
    }
}

/// A trivial implementation of a `CompactSeq`: one stored value per item.
///
/// Useful as a reference implementation and for testing.
#[derive(Debug)]
pub struct SimpleCompactSeq<T>(pub Vec<T>);

impl<T> View for SimpleCompactSeq<T> {
    type V = Seq<T>;

    open spec fn view(&self) -> Seq<T> {
        self.0@
    }
}

impl<T: Copy> Clone for SimpleCompactSeq<T> {
    fn clone(&self) -> (r: Self)
        ensures
            r@ == self@,
    {
        let mut v: Vec<T> = Vec::new();
        let mut i: usize = 0;
        while i < self.0.len()
            invariant
                0 <= i <= self.0@.len(),
                v@ == self.0@.take(i as int),
            decreases self.0@.len() - i,
        {
            v.push(self.0[i]);
            proof {
                assert(self.0@.take(i + 1) =~= self.0@.take(i as int).push(self.0@[i as int]));
            }
            i = i + 1;
        }
        proof {
            assert(self.0@.take(self.0@.len() as int) =~= self.0@);
        }
        SimpleCompactSeq(v)
    }
}

impl<T: Semigroup + Copy> CompactSeq for SimpleCompactSeq<T> {
    type Item = T;

    open spec fn items(&self) -> Seq<T> {
        self.0@
    }

    fn empty() -> (s: Self) {
        SimpleCompactSeq(Vec::new())
    }

    fn single(item: &T) -> (s: Self) {
        let mut v: Vec<T> = Vec::new();
        v.push(*item);
        proof {
            assert(v@ =~= seq![*item]);
        }
        SimpleCompactSeq(v)
    }

    fn push(&mut self, value: &T) {
        self.0.push(*value);
    }

    fn extend(&mut self, value: &T) {
        let mut last = self.0.pop().unwrap();
        last.combine(value);
        self.0.push(last);
        proof {
            assert(final(self).items() =~= old(self).items().update(
                old(self).items().len() - 1,
                old(self).items().last().combine_spec(*value),
            ));
        }
    }

    fn count(&self) -> (n: u64) {
        self.0.len() as u64
    }

    fn len(&self) -> (n: usize) {
        self.0.len()
    }

    fn get(&self, index: usize) -> (r: Option<T>) {
        if index < self.0.len() {
            Some(self.0[index])
        } else {
            None
        }
    }

    fn summarize(&self) -> (r: T) {
        let mut acc = self.0[0];
        let mut i: usize = 1;
        while i < self.0.len()
            invariant
                1 <= i <= self.0@.len(),
                acc == fold_combine(self.0@.take(i as int)),
            decreases self.0@.len() - i,
        {
            acc.combine(&self.0[i]);
            proof {
                let s = self.0@;
                assert(s.take(i + 1).drop_last() =~= s.take(i as int));
                assert(s.take(i + 1).last() == s[i as int]);
            }
            i = i + 1;
        }
        proof {
            assert(self.0@.take(self.0@.len() as int) =~= self.0@);
        }
        acc
    }
}

} // verus!
