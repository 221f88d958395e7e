//! Mathematical model of the key sequence and of filtering in lockstep.
use vstd::prelude::*;

verus! {

/// The keys ascend: no key is greater than one that stands to its right.
pub open spec fn keys_sorted(keys: Seq<isize>) -> bool {
    forall|i: int, j: int| 0 <= i <= j < keys.len() ==> keys[i] <= keys[j]
}

/// How many keys are at most `bound`. On ascending keys this is the first index whose
/// key is greater than `bound`.
pub open spec fn count_at_most(keys: Seq<isize>, bound: int) -> nat
    decreases keys.len(),
{
    if keys.len() == 0 {
        0
    } else {
        count_at_most(keys.drop_last(), bound) + if keys.last() <= bound {
            1nat
        } else {
            0nat
        }
    }
}

/// `p` splits the keys into those at most `bound` (left of `p`) and those greater (from `p` on).
pub open spec fn splits_above(keys: Seq<isize>, bound: int, p: int) -> bool {
    &&& 0 <= p <= keys.len()
    &&& forall|j: int| 0 <= j < p ==> keys[j] <= bound
    &&& forall|j: int| p <= j < keys.len() ==> keys[j] > bound
}

/// The bound that decides where a new entry with `key` goes: a non-negative key goes after
/// the entries with an equal key, a negative key before them.
pub open spec fn tie_bound(key: isize) -> int {
    if key >= 0 {
        key as int
    } else {
        key - 1
    }
}

/// The index at which a new entry with `key` is inserted.
pub open spec fn insert_index(keys: Seq<isize>, key: isize) -> int {
    count_at_most(keys, tie_bound(key)) as int
}

/// The values and keys after inserting each of `items`, first to last, all with `key`, the
/// way `IsizeVec::insert` places them.
pub open spec fn insert_each<T>(values: Seq<T>, keys: Seq<isize>, key: isize, items: Seq<T>) -> (
    Seq<T>,
    Seq<isize>,
)
    decreases items.len(),
{
    if items.len() == 0 {
        (values, keys)
    } else {
        let prev = insert_each(values, keys, key, items.drop_last());
        let p = insert_index(prev.1, key);
        (prev.0.insert(p, items.last()), prev.1.insert(p, key))
    }
}

/// A split point of the keys is the count of keys at most the bound.
pub proof fn lemma_split_is_count(keys: Seq<isize>, bound: int, p: int)
    requires
        splits_above(keys, bound, p),
    ensures
        count_at_most(keys, bound) == p,
    decreases keys.len(),
{
    if keys.len() > 0 {
        let k = keys.drop_last();
        if p == keys.len() {
            assert(keys.last() <= bound);
            lemma_split_is_count(k, bound, p - 1);
        } else {
            assert(keys.last() > bound);
            lemma_split_is_count(k, bound, p);
        }
    }
}

/// On ascending keys, the count of keys at most the bound is a split point.
pub proof fn lemma_count_splits(keys: Seq<isize>, bound: int)
    requires
        keys_sorted(keys),
    ensures
        splits_above(keys, bound, count_at_most(keys, bound) as int),
    decreases keys.len(),
{
    if keys.len() > 0 {
        let k = keys.drop_last();
        assert(keys_sorted(k));
        lemma_count_splits(k, bound);
        let c = count_at_most(k, bound) as int;
        if keys.last() <= bound {
            if c < k.len() {
                assert(keys[c] <= keys[keys.len() - 1]);
                assert(k[c] > bound);
            }
            assert(c == k.len());
            assert forall|j: int| 0 <= j < keys.len() implies keys[j] <= bound by {
                if j < k.len() {
                    assert(keys[j] == k[j]);
                }
            }
        } else {
            assert forall|j: int| 0 <= j < c implies keys[j] <= bound by {
                assert(keys[j] == k[j]);
            }
            assert forall|j: int| c <= j < keys.len() implies keys[j] > bound by {
                if j < k.len() {
                    assert(keys[j] == k[j]);
                }
            }
        }
    }
}

/// The elements of `s` whose flag in `keep` is true, in their order.
pub open spec fn select<A>(s: Seq<A>, keep: Seq<bool>) -> Seq<A>
    decreases s.len(),
{
    if s.len() == 0 || keep.len() == 0 {
        Seq::empty()
    } else {
        let rest = select(s.drop_last(), keep.drop_last());
        if keep.last() {
            rest.push(s.last())
        } else {
            rest
        }
    }
}

/// How many flags are true.
pub open spec fn count_true(keep: Seq<bool>) -> nat
    decreases keep.len(),
{
    if keep.len() == 0 {
        0
    } else {
        count_true(keep.drop_last()) + if keep.last() {
            1nat
        } else {
            0nat
        }
    }
}

/// Selecting by flags as many as the elements keeps one element per true flag.
pub proof fn lemma_select_len<A>(s: Seq<A>, keep: Seq<bool>)
    requires
        s.len() == keep.len(),
    ensures
        select(s, keep).len() == count_true(keep),
    decreases s.len(),
{
    if s.len() > 0 {
        lemma_select_len(s.drop_last(), keep.drop_last());
    }
}

} // verus!
