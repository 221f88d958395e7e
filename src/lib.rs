//! A vector of values, each tagged with an `isize` ordering key, kept sorted by key.
//!
//! Values that share a key are tie-broken by the sign of the key: a non-negative key
//! places a new value after the values already holding it, a negative key places it
//! before them.
use vstd::prelude::*;
use vstd::std_specs::iter::IteratorSpec;

pub mod laws;
mod model;

pub use model::{count_at_most, count_true, insert_each, insert_index, keys_sorted, select, splits_above, tie_bound};
use laws::law_insert_keeps_keys_sorted;
use model::{lemma_select_len, lemma_split_is_count};

verus! {

/// Container of values sorted by an associated `isize` key, lowest key first.
#[derive(Clone, Debug)]
pub struct IsizeVec<T> {
    items: Vec<T>,
    order: Vec<isize>,
}

/// The standard library's mutable slice iterator, carried through as an opaque value.
#[verifier::external_type_specification]
#[verifier::external_body]
#[verifier::reject_recursive_types(T)]
pub struct ExIterMut<'a, T: 'a>(std::slice::IterMut<'a, T>);

/// Relies on `<[T]>::iter_mut`: the iterator only lends out the slice's elements, so the
/// slice keeps its length.
#[verifier::external_body]
fn slice_iter_mut<'a, T>(s: &'a mut [T]) -> (r: std::slice::IterMut<'a, T>)
    ensures
        final(s)@.len() == old(s)@.len(),
{
    s.iter_mut()
}

impl<T> Default for IsizeVec<T> {
    fn default() -> (r: Self)
        ensures
            r.wf(),
            r.values() == Seq::<T>::empty(),
            r.keys() == Seq::<isize>::empty(),
    {
        IsizeVec { items: Vec::new(), order: Vec::new() }
    }
}

impl<T> IsizeVec<T> {
    /// The values, in their current order.
    pub closed spec fn values(&self) -> Seq<T> {
        self.items@
    }

    /// The keys, position by position beside `values()`.
    pub closed spec fn keys(&self) -> Seq<isize> {
        self.order@
    }

    /// One key per value, and the keys in ascending order.
    pub open spec fn wf(&self) -> bool {
        &&& self.values().len() == self.keys().len()
        &&& keys_sorted(self.keys())
    }

    /// Create a new, empty vector.
    pub fn new() -> (r: Self)
        ensures
            r.wf(),
            r.values() == Seq::<T>::empty(),
            r.keys() == Seq::<isize>::empty(),
    {
        IsizeVec { items: Vec::new(), order: Vec::new() }
    }

    /// An iterator over the values, first to last.
    pub fn iter(&self) -> (r: std::slice::Iter<'_, T>)
        ensures
            r.remaining() == self.values().as_ref(),
    {
        self.items.as_slice().iter()
    }

    /// An iterator over the values for change in place, first to last. The keys and the
    /// number of values stay as they are.
    pub fn iter_mut(&mut self) -> (r: std::slice::IterMut<'_, T>)
        requires
            old(self).wf(),
        ensures
            final(self).wf(),
            final(self).keys() == old(self).keys(),
            final(self).values().len() == old(self).values().len(),
    {
        slice_iter_mut(self.items.as_mut_slice())
    }

    /// Number of values held.
    pub fn len(&self) -> (r: usize)
        requires
            self.wf(),
        ensures
            r == self.values().len(),
            r == self.keys().len(),
    {
        self.items.len()
    }

    /// Whether no value is held.
    pub fn is_empty(&self) -> (r: bool)
        requires
            self.wf(),
        ensures
            r <==> self.values().len() == 0,
    {
        self.items.is_empty()
    }

    /// Append a value with the key `isize::MAX`, which sorts after every other key.
    /// Returns the index of the new value.
    pub fn push(&mut self, item: T) -> (r: usize)
        requires
            old(self).wf(),
            old(self).values().len() < usize::MAX,
        ensures
            final(self).wf(),
            final(self).values() == old(self).values().push(item),
            final(self).keys() == old(self).keys().push(isize::MAX),
            r == old(self).values().len(),
    {
        self.items.push(item);
        self.order.push(isize::MAX);
        self.items.len() - 1
    }

    /// Remove the last value and return it with its key, or `None` when empty.
    pub fn pop(&mut self) -> (r: Option<(T, isize)>)
        requires
            old(self).wf(),
        ensures
            final(self).wf(),
            old(self).values().len() == 0 ==> r is None && final(self).values() == old(
                self,
            ).values() && final(self).keys() == old(self).keys(),
            old(self).values().len() > 0 ==> r == Some(
                (old(self).values().last(), old(self).keys().last()),
            ) && final(self).values() == old(self).values().drop_last() && final(self).keys()
                == old(self).keys().drop_last(),
    {
        if !self.items.is_empty() {
            let item = self.items.pop().unwrap();
            let key = self.order.pop().unwrap();
            Some((item, key))
        } else {
            None
        }
    }

    /// Remove the value at `index` and return it with its key.
    pub fn remove(&mut self, index: usize) -> (r: (T, isize))
        requires
            old(self).wf(),
            index < old(self).values().len(),
        ensures
            final(self).wf(),
            r == (old(self).values()[index as int], old(self).keys()[index as int]),
            final(self).values() == old(self).values().remove(index as int),
            final(self).keys() == old(self).keys().remove(index as int),
    {
        let item = self.items.remove(index);
        let key = self.order.remove(index);
        proof {
            let ks = old(self).keys();
            let nk = self.keys();
            assert forall|i: int, j: int| 0 <= i <= j < nk.len() implies nk[i] <= nk[j] by {
                let oi = if i < index { i } else { i + 1 };
                let oj = if j < index { j } else { j + 1 };
                assert(nk[i] == ks[oi] && nk[j] == ks[oj]);
            }
        }
        (item, key)
    }

    /// Remove the values at the indices `range.start .. range.end`, with their keys, and
    /// return those values in order.
    pub fn drain(&mut self, range: std::ops::Range<usize>) -> (r: Vec<T>)
        requires
            old(self).wf(),
            range.start <= range.end <= old(self).values().len(),
        ensures
            final(self).wf(),
            r@ == old(self).values().subrange(range.start as int, range.end as int),
            final(self).values() == old(self).values().subrange(0, range.start as int) + old(
                self,
            ).values().subrange(range.end as int, old(self).values().len() as int),
            final(self).keys() == old(self).keys().subrange(0, range.start as int) + old(
                self,
            ).keys().subrange(range.end as int, old(self).keys().len() as int),
    {
        let start = range.start;
        let end = range.end;
        let mut tail_items = self.items.split_off(end);
        let removed = self.items.split_off(start);
        self.items.append(&mut tail_items);
        let mut tail_order = self.order.split_off(end);
        let _removed_order = self.order.split_off(start);
        self.order.append(&mut tail_order);
        proof {
            let ks = old(self).keys();
            let nk = self.keys();
            let gap = end - start;
            assert forall|i: int, j: int| 0 <= i <= j < nk.len() implies nk[i] <= nk[j] by {
                let oi = if i < start { i } else { i + gap };
                let oj = if j < start { j } else { j + gap };
                assert(nk[i] == ks[oi] && nk[j] == ks[oj]);
            }
        }
        removed
    }

    /// Hand over all values, in order, and leave the vector empty.
    pub fn extract(&mut self) -> (r: Vec<T>)
        requires
            old(self).wf(),
        ensures
            final(self).wf(),
            r@ == old(self).values(),
            final(self).values() == Seq::<T>::empty(),
            final(self).keys() == Seq::<isize>::empty(),
    {
        self.order.clear();
        let mut out: Vec<T> = Vec::new();
        std::mem::swap(&mut self.items, &mut out);
        out
    }

    /// The value at `index`, or `None` when `index` is out of range.
    pub fn get(&self, index: usize) -> (r: Option<&T>)
        requires
            self.wf(),
        ensures
            index < self.values().len() ==> r is Some && *r.unwrap() == self.values()[index as int],
            index >= self.values().len() ==> r is None,
    {
        if index < self.items.len() {
            Some(&self.items[index])
        } else {
            None
        }
    }

    /// The value at `index` for change in place, or `None` when `index` is out of range.
    pub fn get_mut(&mut self, index: usize) -> (r: Option<&mut T>)
        requires
            old(self).wf(),
        ensures
            final(self).wf(),
            final(self).keys() == old(self).keys(),
            index < old(self).values().len() ==> r is Some && *r.unwrap() == old(
                self,
            ).values()[index as int] && final(self).values() == old(self).values().update(
                index as int,
                *final(r.unwrap()),
            ),
            index >= old(self).values().len() ==> r is None && final(self).values() == old(
                self,
            ).values(),
    {
        if index < self.items.len() {
            let slice = self.items.as_mut_slice();
            let (_, right) = slice.split_at_mut(index);
            right.first_mut()
        } else {
            None
        }
    }

    /// Exchange the values at `a` and `b`. The keys stay where they are: each position
    /// keeps its key, so the keys stay ascending while the two values change places.
    pub fn swap(&mut self, a: usize, b: usize)
        requires
            old(self).wf(),
            a < old(self).values().len(),
            b < old(self).values().len(),
        ensures
            final(self).wf(),
            final(self).keys() == old(self).keys(),
            final(self).values() == old(self).values().update(
                a as int,
                old(self).values()[b as int],
            ).update(b as int, old(self).values()[a as int]),
    {
        if a != b {
            let lo = if a < b { a } else { b };
            let hi = if a < b { b } else { a };
            let slice = self.items.as_mut_slice();
            let (left, right) = slice.split_at_mut(hi);
            let (_, mid) = left.split_at_mut(lo);
            let x = mid.first_mut().unwrap();
            let y = right.first_mut().unwrap();
            std::mem::swap(x, y);
        }
    }

    /// The value at `index`. The index must be in range.
    pub fn index(&self, index: usize) -> (r: &T)
        requires
            self.wf(),
            index < self.values().len(),
        ensures
            *r == self.values()[index as int],
    {
        &self.items[index]
    }

    /// The value at `index`, for change in place. The index must be in range; the keys
    /// stay as they are.
    pub fn index_mut(&mut self, index: usize) -> (r: &mut T)
        requires
            old(self).wf(),
            index < old(self).values().len(),
        ensures
            final(self).wf(),
            final(self).keys() == old(self).keys(),
            *r == old(self).values()[index as int],
            final(self).values() == old(self).values().update(index as int, *final(r)),
    {
        let slice = self.items.as_mut_slice();
        let (_, right) = slice.split_at_mut(index);
        right.first_mut().unwrap()
    }

    /// Exchange the entries at `a` and `b`, each value together with its key. The keys stay
    /// ascending only when the two keys are equal, which is required.
    pub fn swap_entries(&mut self, a: usize, b: usize)
        requires
            old(self).wf(),
            a < old(self).values().len(),
            b < old(self).values().len(),
            old(self).keys()[a as int] == old(self).keys()[b as int],
        ensures
            final(self).wf(),
            final(self).keys() == old(self).keys().update(
                a as int,
                old(self).keys()[b as int],
            ).update(b as int, old(self).keys()[a as int]),
            final(self).values() == old(self).values().update(
                a as int,
                old(self).values()[b as int],
            ).update(b as int, old(self).values()[a as int]),
    {
        self.swap(a, b);
        proof {
            assert(self.keys() =~= old(self).keys().update(
                a as int,
                old(self).keys()[b as int],
            ).update(b as int, old(self).keys()[a as int]));
        }
    }

    /// Keep the values for which `f` returns true, with their keys, in their order; drop
    /// the others with their keys. `f` is called once on each value, from first to last.
    pub fn retain<F: Fn(&T) -> bool>(&mut self, f: F)
        requires
            old(self).wf(),
            forall|i: int| 0 <= i < old(self).values().len() ==> f.requires((&old(self).values()[i],)),
        ensures
            final(self).wf(),
            exists|keep: Seq<bool>|
                {
                    &&& keep.len() == old(self).values().len()
                    &&& forall|i: int|
                        0 <= i < keep.len() ==> f.ensures((&old(self).values()[i],), #[trigger] keep[i])
                    &&& final(self).values() == select(old(self).values(), keep)
                    &&& final(self).keys() == select(old(self).keys(), keep)
                    &&& final(self).values().len() == count_true(keep)
                },
    {
        let ghost vals = self.values();
        let ghost ks = self.keys();
        let n = self.items.len();
        let mut rev_items: Vec<T> = Vec::new();
        let mut rev_order: Vec<isize> = Vec::new();
        while self.items.len() > 0
            invariant
                self.wf(),
                vals.len() == n,
                ks.len() == n,
                self.values() == vals.subrange(0, self.values().len() as int),
                self.keys() == ks.subrange(0, self.keys().len() as int),
                rev_items@.len() == n - self.values().len(),
                rev_order@.len() == n - self.values().len(),
                forall|j: int| 0 <= j < rev_items@.len() ==> #[trigger] rev_items@[j] == vals[n - 1 - j],
                forall|j: int| 0 <= j < rev_order@.len() ==> #[trigger] rev_order@[j] == ks[n - 1 - j],
            decreases self.values().len(),
        {
            let item = self.items.pop().unwrap();
            let key = self.order.pop().unwrap();
            rev_items.push(item);
            rev_order.push(key);
        }
        let ghost mut keep: Seq<bool> = Seq::empty();
        let mut i: usize = 0;
        while i < n
            invariant
                0 <= i <= n,
                vals.len() == n,
                ks.len() == n,
                keys_sorted(ks),
                forall|j: int| 0 <= j < n ==> f.requires((&vals[j],)),
                rev_items@.len() == n - i,
                rev_order@.len() == n - i,
                forall|j: int| 0 <= j < rev_items@.len() ==> #[trigger] rev_items@[j] == vals[n - 1 - j],
                forall|j: int| 0 <= j < rev_order@.len() ==> #[trigger] rev_order@[j] == ks[n - 1 - j],
                keep.len() == i,
                forall|j: int| 0 <= j < i ==> f.ensures((&vals[j],), #[trigger] keep[j]),
                self.values() == select(vals.subrange(0, i as int), keep),
                self.keys() == select(ks.subrange(0, i as int), keep),
                self.values().len() == self.keys().len(),
                keys_sorted(self.keys()),
                self.keys().len() > 0 ==> forall|j: int| i <= j < n ==> self.keys().last() <= #[trigger] ks[j],
            decreases n - i,
        {
            let item = rev_items.pop().unwrap();
            let key = rev_order.pop().unwrap();
            let b = f(&item);
            let ghost prev = keep;
            proof {
                keep = keep.push(b);
                assert(keep.drop_last() =~= prev);
                assert(item == vals[i as int] && key == ks[i as int]);
                assert(vals.subrange(0, i + 1).drop_last() =~= vals.subrange(0, i as int));
                assert(ks.subrange(0, i + 1).drop_last() =~= ks.subrange(0, i as int));
            }
            if b {
                self.items.push(item);
                self.order.push(key);
            }
            i = i + 1;
        }
        proof {
            assert(vals.subrange(0, n as int) =~= vals);
            assert(ks.subrange(0, n as int) =~= ks);
            lemma_select_len(vals, keep);
        }
    }

    /// Binary search of the keys for `key`: `Ok` with the index of some entry holding it, or
    /// `Err` with the index at which it would keep the keys ascending.
    fn search(&self, key: isize) -> (r: Result<usize, usize>)
        requires
            self.wf(),
        ensures
            r matches Ok(i) ==> i < self.keys().len() && self.keys()[i as int] == key,
            r matches Err(p) ==> p <= self.keys().len()
                && (forall|j: int| 0 <= j < p ==> self.keys()[j] < key)
                && (forall|j: int| p <= j < self.keys().len() ==> self.keys()[j] > key),
    {
        let mut lo: usize = 0;
        let mut hi: usize = self.order.len();
        while lo < hi
            invariant
                self.wf(),
                lo <= hi <= self.keys().len(),
                forall|j: int| 0 <= j < lo ==> self.keys()[j] < key,
                forall|j: int| hi <= j < self.keys().len() ==> self.keys()[j] > key,
            decreases hi - lo,
        {
            let mid: usize = lo + (hi - lo) / 2;
            let k = self.order[mid];
            if k < key {
                lo = mid + 1;
            } else if k > key {
                hi = mid;
            } else {
                return Ok(mid);
            }
        }
        Err(lo)
    }

    /// From an entry holding `key`, the first index on its right whose key differs.
    fn run_end(&self, key: isize, from: usize) -> (p: usize)
        requires
            self.wf(),
            from < self.keys().len(),
            self.keys()[from as int] == key,
        ensures
            splits_above(self.keys(), key as int, p as int),
    {
        let mut j: usize = from;
        while j < self.order.len() && self.order[j] == key
            invariant
                self.wf(),
                from <= j <= self.keys().len(),
                self.keys()[from as int] == key,
                forall|m: int| from <= m < j ==> self.keys()[m] == key,
            decreases self.keys().len() - j,
        {
            j = j + 1;
        }
        assert(forall|m: int| 0 <= m < from ==> self.keys()[m] <= self.keys()[from as int]);
        assert(forall|m: int| j <= m < self.keys().len() ==> self.keys()[m] >= self.keys()[j as int]);
                j
    }

    /// From an entry holding `key`, the first index of the run of equal keys that holds it.
    fn run_start(&self, key: isize, from: usize) -> (p: usize)
        requires
            self.wf(),
            from < self.keys().len(),
            self.keys()[from as int] == key,
        ensures
            splits_above(self.keys(), key - 1, p as int),
    {
        let mut i: usize = from;
        while i > 0 && self.order[i - 1] == key
            invariant
                self.wf(),
                i <= from < self.keys().len(),
                forall|m: int| i <= m <= from ==> self.keys()[m] == key,
            decreases i,
        {
            i = i - 1;
        }
        assert(forall|m: int| i <= m < self.keys().len() ==> self.keys()[m] >= self.keys()[i as int]);
        if i > 0 {
            assert(forall|m: int| 0 <= m < i ==> #[trigger] self.keys()[m] <= self.keys()[i - 1]);
        }
        i
    }

    /// Insert `item` with the key `key`, keeping the keys ascending. Among entries with an
    /// equal key, the new one goes last if `key` is non-negative and first if it is negative.
    /// Returns the index of insertion.
    pub fn insert(&mut self, key: isize, item: T) -> (r: usize)
        requires
            old(self).wf(),
        ensures
            final(self).wf(),
            r == insert_index(old(self).keys(), key),
            final(self).values() == old(self).values().insert(r as int, item),
            final(self).keys() == old(self).keys().insert(r as int, key),
    {
        let p: usize = match self.search(key) {
            Ok(exact) => {
                if key >= 0 {
                    self.run_end(key, exact)
                } else {
                    self.run_start(key, exact)
                }
            },
            Err(p) => p,
        };
        proof {
            lemma_split_is_count(self.keys(), tie_bound(key), p as int);
        }
        proof {
            law_insert_keeps_keys_sorted(self.keys(), key);
        }
        self.items.insert(p, item);
        self.order.insert(p, key);
        p
    }

    /// The first index whose key is greater than `key`, or the length if there is none.
    pub fn first_right_of(&self, key: isize) -> (r: usize)
        requires
            self.wf(),
        ensures
            r == count_at_most(self.keys(), key as int),
            splits_above(self.keys(), key as int, r as int),
    {
        let r: usize = match self.search(key) {
            Ok(exact) => self.run_end(key, exact),
            Err(p) => p,
        };
        proof {
            lemma_split_is_count(self.keys(), key as int, r as int);
        }
        r
    }

    /// The first index whose key is non-negative, or the length if there is none.
    pub fn first_positive(&self) -> (r: usize)
        requires
            self.wf(),
        ensures
            r == count_at_most(self.keys(), -1),
            splits_above(self.keys(), -1, r as int),
    {
        self.first_right_of(-1)
    }
}

impl<T> IntoIterator for IsizeVec<T> {
    type Item = T;

    type IntoIter = std::vec::IntoIter<T>;

    fn into_iter(self) -> (r: std::vec::IntoIter<T>)
        ensures
            r.remaining() == self.values(),
    {
        self.items.into_iter()
    }
}

impl<'a, T> IntoIterator for &'a IsizeVec<T> {
    type Item = &'a T;

    type IntoIter = std::slice::Iter<'a, T>;

    fn into_iter(self) -> (r: std::slice::Iter<'a, T>)
        ensures
            r.remaining() == self.values().as_ref(),
    {
        self.items.as_slice().iter()
    }
}

impl<'a, T> IntoIterator for &'a mut IsizeVec<T> {
    type Item = &'a mut T;

    type IntoIter = std::slice::IterMut<'a, T>;

    fn into_iter(self) -> (r: std::slice::IterMut<'a, T>)
        ensures
            final(self).wf() == old(self).wf(),
            final(self).keys() == old(self).keys(),
            final(self).values().len() == old(self).values().len(),
    {
        slice_iter_mut(self.items.as_mut_slice())
    }
}

} // verus!
