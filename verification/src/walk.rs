use crate::keys::{key_le, Key};
use crate::model::{
    above, below, bound_above, bound_below, count_in, count_upto, in_order, in_range, range_in,
    range_upto, same_key, tombstoned, view_ok, Entry, TreeView,
};
use vstd::prelude::*;

verus! {

/// A scan of entries of which none is in the range gives nothing.
pub proof fn lemma_range_in_none<K: Key, VV>(entries: Seq<Entry<K::V, VV>>, min: K::V, max: K::V)
    requires
        forall|i: int| 0 <= i < entries.len() ==> !in_range::<K, VV>(#[trigger] entries[i], min, max),
    ensures
        range_in::<K, VV>(entries, min, max) == Seq::<(K::V, VV)>::empty(),
    decreases entries.len(),
{
    if entries.len() > 0 {
        let front = entries.drop_last();
        assert forall|i: int| 0 <= i < front.len() implies !in_range::<K, VV>(
            #[trigger] front[i],
            min,
            max,
        ) by {
            assert(front[i] == entries[i]);
        }
        lemma_range_in_none::<K, VV>(front, min, max);
        assert(!in_range::<K, VV>(entries[entries.len() - 1], min, max));
    }
}

/// A scan of one entry more gives the pair of that entry where it is in the
/// range, and nothing more where it is not.
pub proof fn lemma_range_in_step<K: Key, VV>(
    entries: Seq<Entry<K::V, VV>>,
    i: int,
    min: K::V,
    max: K::V,
)
    requires
        0 <= i < entries.len(),
    ensures
        range_in::<K, VV>(entries.take(i + 1), min, max) == if in_range::<K, VV>(
            entries[i],
            min,
            max,
        ) {
            range_in::<K, VV>(entries.take(i), min, max).push((entries[i].key, entries[i].val))
        } else {
            range_in::<K, VV>(entries.take(i), min, max)
        },
{
    assert(entries.take(i + 1).drop_last() =~= entries.take(i));
    assert(entries.take(i + 1).last() == entries[i]);
}

/// A scan may stop where no later entry is in the range.
pub proof fn lemma_range_in_rest_none<K: Key, VV>(
    entries: Seq<Entry<K::V, VV>>,
    i: int,
    min: K::V,
    max: K::V,
)
    requires
        0 <= i <= entries.len(),
        forall|j: int| i <= j < entries.len() ==> !in_range::<K, VV>(#[trigger] entries[j], min, max),
    ensures
        range_in::<K, VV>(entries, min, max) == range_in::<K, VV>(entries.take(i), min, max),
    decreases entries.len() - i,
{
    if i == entries.len() {
        assert(entries.take(i) =~= entries);
    } else {
        let front = entries.drop_last();
        assert forall|j: int| i <= j < front.len() implies !in_range::<K, VV>(
            #[trigger] front[j],
            min,
            max,
        ) by {
            assert(front[j] == entries[j]);
        }
        lemma_range_in_rest_none::<K, VV>(front, i, min, max);
        assert(front.take(i) =~= entries.take(i));
        assert(!in_range::<K, VV>(entries[entries.len() - 1], min, max));
    }
}

/// A scan of leaves gives the same up to `a` and up to `b` where no leaf
/// between them holds an entry in the range.
pub proof fn lemma_range_upto_none<K: Key, VV>(
    leaves: Seq<Seq<Entry<K::V, VV>>>,
    a: int,
    b: int,
    min: K::V,
    max: K::V,
)
    requires
        0 <= a <= b <= leaves.len(),
        forall|t: int, i: int|
            a <= t < b && 0 <= i < leaves[t].len() ==> !in_range::<K, VV>(
                #[trigger] leaves[t][i],
                min,
                max,
            ),
    ensures
        range_upto::<K, VV>(leaves, b, min, max) == range_upto::<K, VV>(leaves, a, min, max),
    decreases b - a,
{
    if a < b {
        lemma_range_upto_none::<K, VV>(leaves, a, b - 1, min, max);
        lemma_range_in_none::<K, VV>(leaves[b - 1], min, max);
        assert(range_upto::<K, VV>(leaves, b - 1, min, max) + Seq::<(K::V, VV)>::empty()
            =~= range_upto::<K, VV>(leaves, b - 1, min, max));
    }
}

/// Among entries of which none has the key, the count of the key is zero.
pub proof fn lemma_count_in_none<K: Key, VV>(entries: Seq<Entry<K::V, VV>>, key: K::V)
    requires
        forall|i: int| 0 <= i < entries.len() ==> !same_key::<K>((#[trigger] entries[i]).key, key),
    ensures
        count_in::<K, VV>(entries, key) == 0,
    decreases entries.len(),
{
    if entries.len() > 0 {
        let front = entries.drop_last();
        assert forall|i: int| 0 <= i < front.len() implies !same_key::<K>(
            (#[trigger] front[i]).key,
            key,
        ) by {
            assert(front[i] == entries[i]);
        }
        lemma_count_in_none::<K, VV>(front, key);
        assert(!same_key::<K>(entries[entries.len() - 1].key, key));
    }
}

/// One entry more adds one to the count where it has the key.
pub proof fn lemma_count_in_step<K: Key, VV>(entries: Seq<Entry<K::V, VV>>, i: int, key: K::V)
    requires
        0 <= i < entries.len(),
    ensures
        count_in::<K, VV>(entries.take(i + 1), key) == count_in::<K, VV>(entries.take(i), key)
            + if same_key::<K>(entries[i].key, key) {
            1nat
        } else {
            0nat
        },
{
    assert(entries.take(i + 1).drop_last() =~= entries.take(i));
    assert(entries.take(i + 1).last() == entries[i]);
}

/// The count may stop where no later entry has the key.
pub proof fn lemma_count_in_rest_none<K: Key, VV>(entries: Seq<Entry<K::V, VV>>, i: int, key: K::V)
    requires
        0 <= i <= entries.len(),
        forall|j: int| i <= j < entries.len() ==> !same_key::<K>((#[trigger] entries[j]).key, key),
    ensures
        count_in::<K, VV>(entries, key) == count_in::<K, VV>(entries.take(i), key),
    decreases entries.len() - i,
{
    if i == entries.len() {
        assert(entries.take(i) =~= entries);
    } else {
        let front = entries.drop_last();
        assert forall|j: int| i <= j < front.len() implies !same_key::<K>(
            (#[trigger] front[j]).key,
            key,
        ) by {
            assert(front[j] == entries[j]);
        }
        lemma_count_in_rest_none::<K, VV>(front, i, key);
        assert(front.take(i) =~= entries.take(i));
        assert(!same_key::<K>(entries[entries.len() - 1].key, key));
    }
}

/// The count over leaves is the same up to `a` and up to `b` where no leaf
/// between them holds the key.
pub proof fn lemma_count_upto_none<K: Key, VV>(
    leaves: Seq<Seq<Entry<K::V, VV>>>,
    a: int,
    b: int,
    key: K::V,
)
    requires
        0 <= a <= b <= leaves.len(),
        forall|t: int, i: int|
            a <= t < b && 0 <= i < leaves[t].len() ==> !same_key::<K>(
                (#[trigger] leaves[t][i]).key,
                key,
            ),
    ensures
        count_upto::<K, VV>(leaves, b, key) == count_upto::<K, VV>(leaves, a, key),
    decreases b - a,
{
    if a < b {
        lemma_count_upto_none::<K, VV>(leaves, a, b - 1, key);
        lemma_count_in_none::<K, VV>(leaves[b - 1], key);
    }
}

/// Among entries, no more have the key than there are.
pub proof fn lemma_count_in_bound<K: Key, VV>(entries: Seq<Entry<K::V, VV>>, key: K::V)
    ensures
        count_in::<K, VV>(entries, key) <= entries.len(),
    decreases entries.len(),
{
    if entries.len() > 0 {
        lemma_count_in_bound::<K, VV>(entries.drop_last(), key);
    }
}

/// Leaves of fewer than `b` entries each hold the key fewer than `b` times
/// each.
pub proof fn lemma_count_upto_bound<K: Key, VV>(
    leaves: Seq<Seq<Entry<K::V, VV>>>,
    n: int,
    key: K::V,
    b: nat,
)
    requires
        0 <= n <= leaves.len(),
        forall|t: int| 0 <= t < leaves.len() ==> (#[trigger] leaves[t]).len() < b,
    ensures
        count_upto::<K, VV>(leaves, n, key) <= n * b,
    decreases n,
{
    if n > 0 {
        lemma_count_upto_bound::<K, VV>(leaves, n - 1, key, b);
        lemma_count_in_bound::<K, VV>(leaves[n - 1], key);
        assert((n - 1) * b + b == n * b) by (nonlinear_arith);
    }
}

/// The count over leaves grows with the leaves counted.
pub proof fn lemma_count_upto_mono<K: Key, VV>(
    leaves: Seq<Seq<Entry<K::V, VV>>>,
    a: int,
    b: int,
    key: K::V,
)
    requires
        a <= b,
    ensures
        count_upto::<K, VV>(leaves, a, key) <= count_upto::<K, VV>(leaves, b, key),
    decreases b - a,
{
    if a < b {
        lemma_count_upto_mono::<K, VV>(leaves, a, b - 1, key);
    }
}

/// Entries of which none has the key are left as they are where the
/// entries of the key are made tombstones.
pub proof fn lemma_tombstoned_none<K: Key, VV>(entries: Seq<Entry<K::V, VV>>, key: K::V)
    requires
        forall|i: int| 0 <= i < entries.len() ==> !same_key::<K>((#[trigger] entries[i]).key, key),
    ensures
        tombstoned::<K, VV>(entries, key) == entries,
{
    assert(tombstoned::<K, VV>(entries, key) =~= entries);
}

/// In a model that is in order, the keys of a leaf do not come after the
/// keys of a later leaf, nor after any bound from its own on; and they do
/// not come before any bound before the leaf.
pub proof fn lemma_leaves_in_order<K: Key, VV>(
    view: TreeView<K::V, VV>,
    b: nat,
    unique: bool,
    t: int,
    i: int,
    u: int,
)
    requires
        view_ok::<K, VV>(view, b, unique),
        0 <= t < view.leaves.len(),
        0 <= i < view.leaves[t].len(),
        0 <= u < view.bounds.len(),
    ensures
        t <= u ==> key_le::<K>(view.leaves[t][i].key, view.bounds[u]),
        u < t ==> in_order::<K>(view.bounds[u], view.leaves[t][i].key, unique),
        u < t ==> key_le::<K>(view.bounds[u], view.leaves[t][i].key),
{
    let e = view.leaves[t][i];
    assert(above::<K>(bound_below(view.bounds, t), e.key, unique));
    assert(below::<K>(e.key, bound_above(view.bounds, t)));
    if t <= u {
        if t < u {
            assert(in_order::<K>(view.bounds[t], view.bounds[u], unique));
        }
    } else {
        if u < t - 1 {
            assert(in_order::<K>(view.bounds[u], view.bounds[t - 1], unique));
        }
    }
}

} // verus!
