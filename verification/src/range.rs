//! A small helper for reading and overwriting a run of items in a buffer,
//! returning `None` or `false` instead of failing when a range does not fit.

use vstd::prelude::*;
use vstd::slice::slice_subrange;

verus! {

/// Helper trait to read or modify a collection of items by range.
pub trait RangeReplaceable {
    type Item;

    /// The items the buffer holds, in order.
    spec fn contents(&self) -> Seq<Self::Item>;

    /// Get the items in `start .. end`; `None` when the range ends past the buffer.
    fn items_at_range(&self, start: usize, end: usize) -> (r: Option<&Self>)
        requires
            start <= end,
        ensures
            end <= self.contents().len() ==> (r matches Some(part) && part.contents()
                == self.contents().subrange(start as int, end as int)),
            end > self.contents().len() ==> r is None,
    ;

    /// Overwrite the items from `start` on with `items`; `true` on success,
    /// `false` when `items` does not fit in the remaining capacity.
    fn replace_items(&mut self, start: usize, items: &Self) -> (ok: bool)
        ensures
            ok == (start + items.contents().len() <= old(self).contents().len()),
            ok ==> final(self).contents() == (Seq::new(
                old(self).contents().len(),
                |i: int|
                    if start <= i < start + items.contents().len() {
                        items.contents()[i - start]
                    } else {
                        old(self).contents()[i]
                    },
            )),
            !ok ==> final(self).contents() == old(self).contents(),
    ;

    /// Get `length` items starting at `start`; `None` when they run past the buffer.
    fn items(&self, start: usize, length: usize) -> (r: Option<&Self>)
        requires
            start + length <= usize::MAX,
        ensures
            start + length <= self.contents().len() ==> (r matches Some(part) && part.contents()
                == self.contents().subrange(start as int, start + length)),
            start + length > self.contents().len() ==> r is None,
    ;
}

impl<T: Copy> RangeReplaceable for [T] {
    type Item = T;

    open spec fn contents(&self) -> Seq<T> {
        self@
    }

    fn items_at_range(&self, start: usize, end: usize) -> (r: Option<&Self>) {
        if end <= self.len() {
            Some(slice_subrange(self, start, end))
        } else {
            None
        }
    }

    fn replace_items(&mut self, start: usize, items: &Self) -> (ok: bool) {
        let m = items.len();
        let n = self.len();
        if m <= n && start <= n - m {
            let mut index: usize = 0;
            while index < m
                invariant
                    index <= m,
                    m <= n,
                    start <= n - m,
                    n == self@.len(),
                    m == items@.len(),
                    forall|j: int| 0 <= j < index ==> self@[start + j] == items@[j],
                    forall|j: int|
                        0 <= j < n && !(start <= j < start + index) ==> self@[j] == old(self)@[j],
                decreases m - index,
            {
                let item = *vstd::slice::slice_index_get(items, index);
                let replace_index = start + index;
                self[replace_index] = item;
                index = index + 1;
            }
            proof {
                assert(self@ =~= Seq::new(
                    old(self)@.len(),
                    |i: int|
                        if start <= i < start + items@.len() {
                            items@[i - start]
                        } else {
                            old(self)@[i]
                        },
                ));
            }
            true
        } else {
            false
        }
    }

    fn items(&self, start: usize, length: usize) -> (r: Option<&Self>) {
        self.items_at_range(start, start + length)
    }
}

} // verus!
