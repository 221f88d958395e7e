//! Laws that relate several operations of `IsizeVec`, stated over its model.
use vstd::prelude::*;

use crate::model::{
    count_at_most, insert_each, insert_index, keys_sorted, lemma_count_splits,
    lemma_split_is_count, splits_above, tie_bound,
};
use crate::IsizeVec;

verus! {

/// Inserting a key at its insertion index keeps ascending keys ascending.
pub proof fn law_insert_keeps_keys_sorted(keys: Seq<isize>, key: isize)
    requires
        keys_sorted(keys),
    ensures
        keys_sorted(keys.insert(insert_index(keys, key), key)),
{
    let p = insert_index(keys, key);
    lemma_count_splits(keys, tie_bound(key));
    let nk = keys.insert(p, key);
    assert forall|i: int, j: int| 0 <= i <= j < nk.len() implies nk[i] <= nk[j] by {
        if i < p && j > p {
            assert(nk[j] == keys[j - 1]);
        } else if i > p {
            assert(nk[i] == keys[i - 1] && nk[j] == keys[j - 1]);
        }
    }
}

/// `n` copies of `key`.
pub open spec fn copies(key: isize, n: nat) -> Seq<isize> {
    Seq::new(n, |_i: int| key)
}

proof fn lemma_insert_each<T>(values: Seq<T>, keys: Seq<isize>, key: isize, items: Seq<T>)
    requires
        values.len() == keys.len(),
        keys_sorted(keys),
    ensures
        ({
            let p = insert_index(keys, key);
            let r = insert_each(values, keys, key, items);
            let run = if key >= 0 {
                items
            } else {
                items.reverse()
            };
            &&& r.0 == values.subrange(0, p) + run + values.subrange(p, values.len() as int)
            &&& r.1 == keys.subrange(0, p) + copies(key, items.len()) + keys.subrange(
                p,
                keys.len() as int,
            )
        }),
    decreases items.len(),
{
    let p = insert_index(keys, key);
    let tb = tie_bound(key);
    lemma_count_splits(keys, tb);
    let vpre = values.subrange(0, p);
    let vpost = values.subrange(p, values.len() as int);
    let kpre = keys.subrange(0, p);
    let kpost = keys.subrange(p, keys.len() as int);
    if items.len() == 0 {
        assert(values =~= vpre + items + vpost);
        assert(items.reverse() =~= items);
        assert(keys =~= kpre + copies(key, 0) + kpost);
    } else {
        let m = (items.len() - 1) as int;
        let front = items.drop_last();
        lemma_insert_each(values, keys, key, front);
        let prev = insert_each(values, keys, key, front);
        let pk = prev.1;
        let q = if key >= 0 {
            p + m
        } else {
            p
        };
        assert(pk == kpre + copies(key, front.len()) + kpost);
        assert(splits_above(pk, tb, q)) by {
            assert forall|j: int| 0 <= j < q implies pk[j] <= tb by {
                if j < p {
                    assert(pk[j] == keys[j]);
                } else {
                    assert(pk[j] == key);
                }
            }
            assert forall|j: int| q <= j < pk.len() implies pk[j] > tb by {
                if j < p + m {
                    assert(pk[j] == key);
                } else {
                    assert(pk[j] == keys[j - m]);
                }
            }
        }
        lemma_split_is_count(pk, tb, q);
        let x = items.last();
        assert(pk.insert(q, key) =~= kpre + copies(key, items.len()) + kpost);
        if key >= 0 {
            assert(prev.0 == vpre + front + vpost);
            assert(prev.0.insert(q, x) =~= vpre + items + vpost);
        } else {
            assert(prev.0 == vpre + front.reverse() + vpost);
            assert(prev.0.insert(q, x) =~= vpre + items.reverse() + vpost);
        }
    }
}

/// Values inserted one after another with the same non-negative key stand side by side in
/// the order in which they were inserted, at the insertion index of that key.
pub proof fn law_non_negative_ties_keep_insertion_order<T>(
    values: Seq<T>,
    keys: Seq<isize>,
    key: isize,
    items: Seq<T>,
)
    requires
        values.len() == keys.len(),
        keys_sorted(keys),
        key >= 0,
    ensures
        ({
            let p = insert_index(keys, key);
            insert_each(values, keys, key, items).0 == values.subrange(0, p) + items
                + values.subrange(p, values.len() as int)
        }),
{
    lemma_insert_each(values, keys, key, items);
}

/// Values inserted one after another with the same negative key stand side by side in the
/// reverse of the order in which they were inserted, at the insertion index of that key.
pub proof fn law_negative_ties_reverse_insertion_order<T>(
    values: Seq<T>,
    keys: Seq<isize>,
    key: isize,
    items: Seq<T>,
)
    requires
        values.len() == keys.len(),
        keys_sorted(keys),
        key < 0,
    ensures
        ({
            let p = insert_index(keys, key);
            insert_each(values, keys, key, items).0 == values.subrange(0, p) + items.reverse()
                + values.subrange(p, values.len() as int)
        }),
{
    lemma_insert_each(values, keys, key, items);
}

/// The first index right of the greatest key is the length: every key is at most `isize::MAX`.
pub proof fn law_first_right_of_max_is_len<T>(v: &IsizeVec<T>)
    requires
        v.wf(),
    ensures
        count_at_most(v.keys(), isize::MAX as int) == v.values().len(),
{
    assert(splits_above(v.keys(), isize::MAX as int, v.keys().len() as int));
    lemma_split_is_count(v.keys(), isize::MAX as int, v.keys().len() as int);
}

/// Removing the entry at `i` and inserting its key and value again gives back the same keys;
/// the value moves to the insertion index `j`, and every key from `i` to `j` equals its key,
/// so each value keeps the key it had.
pub proof fn law_remove_then_insert_restores<T>(values: Seq<T>, keys: Seq<isize>, i: int)
    requires
        values.len() == keys.len(),
        keys_sorted(keys),
        0 <= i < keys.len(),
    ensures
        ({
            let key = keys[i];
            let k2 = keys.remove(i);
            let j = insert_index(k2, key);
            let v2 = values.remove(i).insert(j, values[i]);
            &&& k2.insert(j, key) == keys
            &&& forall|m: int|
                (i <= m <= j || j <= m <= i) ==> #[trigger] keys[m] == key
            &&& forall|m: int|
                0 <= m < values.len() && !(i <= m <= j || j <= m <= i) ==> #[trigger] v2[m]
                    == values[m]
        }),
{
    let key = keys[i];
    let k2 = keys.remove(i);
    let tb = tie_bound(key);
    assert(keys_sorted(k2)) by {
        assert forall|a: int, b: int| 0 <= a <= b < k2.len() implies k2[a] <= k2[b] by {
            let oa = if a < i { a } else { a + 1 };
            let ob = if b < i { b } else { b + 1 };
            assert(k2[a] == keys[oa] && k2[b] == keys[ob]);
        }
    }
    lemma_count_splits(k2, tb);
    let j = insert_index(k2, key);
    if key >= 0 {
        if j < i {
            assert(k2[j] == keys[j]);
            assert(keys[j] <= keys[i]);
        }
        assert forall|m: int| i <= m <= j implies #[trigger] keys[m] == key by {
            if m > i {
                assert(k2[m - 1] == keys[m]);
                assert(keys[i] <= keys[m]);
            }
        }
    } else {
        if j > i {
            assert(k2[i] == keys[i + 1]);
            assert(keys[i] <= keys[i + 1]);
        }
        assert forall|m: int| j <= m <= i implies #[trigger] keys[m] == key by {
            if m < i {
                assert(k2[m] == keys[m]);
                assert(keys[m] <= keys[i]);
            }
        }
    }
    assert(k2.insert(j, key) =~= keys);
}

/// A vector left empty by `extract` holds what a new vector holds, so every later call
/// behaves on it as on a new one.
pub proof fn law_extracted_is_fresh<T>(emptied: &IsizeVec<T>, fresh: &IsizeVec<T>)
    requires
        emptied.values() == Seq::<T>::empty(),
        emptied.keys() == Seq::<isize>::empty(),
        fresh.values() == Seq::<T>::empty(),
        fresh.keys() == Seq::<isize>::empty(),
    ensures
        emptied.wf(),
        emptied.values() == fresh.values(),
        emptied.keys() == fresh.keys(),
{
}

} // verus!
