use crate::grow::{lemma_keys_insert, lemma_keys_remove};
use crate::keys::{key_le, key_lt, lemma_first_after, lemma_first_at_least, Key};
use crate::layout::keys_ok;
use crate::model::{
    above, ascending, below, bound_above, bound_below, compacted, delete_from, find_in, holds,
    in_order, in_range, insert_into, is_duplicate, keys_of, last_tombstone, leaf_for, range_in,
    with_split,
    last_of, range_of, range_upto, same_key, slot_for, tombstoned, view_ok, Entry, TreeView,
};
use crate::walk::lemma_leaves_in_order;
use vstd::prelude::*;

verus! {

/// The last tombstone is a tombstone, and no entry after it is one.
pub proof fn lemma_last_tombstone_is<KV, VV>(entries: Seq<Entry<KV, VV>>)
    ensures
        -1 <= last_tombstone(entries) < entries.len(),
        last_tombstone(entries) >= 0 ==> entries[last_tombstone(entries)].deleted,
        forall|j: int|
            last_tombstone(entries) < j < entries.len() ==> !(#[trigger] entries[j]).deleted,
    decreases entries.len(),
{
    if entries.len() > 0 && !entries.last().deleted {
        let front = entries.drop_last();
        lemma_last_tombstone_is(front);
        assert forall|j: int| last_tombstone(entries) < j < entries.len() implies !(
        #[trigger] entries[j]).deleted by {
            if j < front.len() {
                assert(front[j] == entries[j]);
            }
        }
    }
}

/// Whether the keys of `entries` do not descend.
pub open spec fn settled<K: Key, VV>(entries: Seq<Entry<K::V, VV>>) -> bool {
    forall|a: int, c: int|
        0 <= a < c < entries.len() ==> key_le::<K>(
            (#[trigger] entries[a]).key,
            (#[trigger] entries[c]).key,
        )
}

/// The keys of a leaf of a model that is in order do not descend.
pub proof fn lemma_leaf_settled<K: Key, VV>(view: TreeView<K::V, VV>, b: nat, unique: bool, t: int)
    requires
        view_ok::<K, VV>(view, b, unique),
        0 <= t < view.leaves.len(),
    ensures
        settled::<K, VV>(view.leaves[t]),
{
    let leaf = view.leaves[t];
    assert forall|a: int, c: int| 0 <= a < c < leaf.len() implies key_le::<K>(
        (#[trigger] leaf[a]).key,
        (#[trigger] leaf[c]).key,
    ) by {
        assert(in_order::<K>(keys_of(leaf)[a], keys_of(leaf)[c], unique));
    }
}

/// Whether the index holds `val` under `key` in an entry that is no
/// tombstone.
pub open spec fn has_live<K: Key, VV>(view: TreeView<K::V, VV>, key: K::V, val: VV) -> bool {
    exists|t: int, i: int|
        0 <= t < view.leaves.len() && 0 <= i < view.leaves[t].len() && same_key::<K>(
            (#[trigger] view.leaves[t][i]).key,
            key,
        ) && !view.leaves[t][i].deleted && view.leaves[t][i].val == val
}

/// What a lookup gives is a value that the index holds under the key in an
/// entry that is no tombstone.
pub proof fn law_found_is_live<K: Key, VV>(view: TreeView<K::V, VV>, key: K::V)
    requires
        view.leaves.len() == view.bounds.len() + 1,
    ensures
        find_in::<K, VV>(view, key) matches Some(val) ==> has_live::<K, VV>(view, key, val),
{
    let t = leaf_for::<K>(view.bounds, key);
    lemma_first_at_least::<K>(view.bounds, key, 0);
    let leaf = view.leaves[t];
    let i = last_of::<K, VV>(leaf, key);
    lemma_first_after::<K>(keys_of(leaf), key, 0);
    if find_in::<K, VV>(view, key) is Some {
        assert(same_key::<K>(view.leaves[t][i].key, key));
    }
}

/// Where a new entry of `key` stands after it was put into a leaf and the
/// leaf dropped its last tombstone.
pub open spec fn new_place<K: Key, VV>(leaf: Seq<Entry<K::V, VV>>, key: K::V, val: VV) -> int {
    let i = slot_for::<K, VV>(leaf, key);
    let q = last_tombstone(leaf.insert(i, Entry { key, val, deleted: false }));
    if 0 <= q < i {
        i - 1
    } else {
        i
    }
}

/// A new entry is the last of its key in its leaf: no entry before it has a
/// key that comes after, and every entry after it has. A leaf that has
/// grown by the entry holds no tombstone.
pub proof fn lemma_new_place<K: Key, VV>(leaf: Seq<Entry<K::V, VV>>, key: K::V, val: VV)
    requires
        settled::<K, VV>(leaf),
    ensures
        ({
            let i = slot_for::<K, VV>(leaf, key);
            let grown = compacted(leaf.insert(i, Entry { key, val, deleted: false }));
            let p = new_place::<K, VV>(leaf, key, val);
            &&& 0 <= p < grown.len()
            &&& grown.len() <= leaf.len() + 1
            &&& grown[p] == (Entry { key, val, deleted: false })
            &&& forall|j: int| 0 <= j < p ==> key_le::<K>((#[trigger] grown[j]).key, key)
            &&& forall|j: int| p < j < grown.len() ==> key_lt::<K>(key, (#[trigger] grown[j]).key)
            &&& slot_for::<K, VV>(grown, key) == p + 1
            &&& grown.len() == leaf.len() + 1 ==> forall|j: int|
                0 <= j < grown.len() ==> !(#[trigger] grown[j]).deleted
        }),
{
    let keys = keys_of(leaf);
    let i = slot_for::<K, VV>(leaf, key);
    lemma_first_after::<K>(keys, key, 0);
    let e = Entry { key, val, deleted: false };
    let put = leaf.insert(i, e);
    let q = last_tombstone(put);
    lemma_last_tombstone_is(put);
    let grown = compacted(put);
    let p = new_place::<K, VV>(leaf, key, val);
    assert(put[i] == e);
    assert(q != i);
    assert forall|j: int| 0 <= j < p implies key_le::<K>((#[trigger] grown[j]).key, key) by {
        let j0 = if 0 <= q <= j {
            j + 1
        } else {
            j
        };
        assert(grown[j] == put[j0]);
        assert(j0 < i);
        assert(put[j0] == leaf[j0]);
        assert(keys[j0] == leaf[j0].key);
    }
    assert forall|j: int| p < j < grown.len() implies key_lt::<K>(
        key,
        (#[trigger] grown[j]).key,
    ) by {
        let j0 = if 0 <= q <= j {
            j + 1
        } else {
            j
        };
        assert(grown[j] == put[j0]);
        assert(j0 > i);
        assert(put[j0] == leaf[j0 - 1]);
        assert(keys[i] == leaf[i].key);
        if j0 - 1 > i {
            assert(key_le::<K>(leaf[i].key, leaf[j0 - 1].key));
        }
    }
    assert forall|j: int| 0 <= j < p + 1 implies key_le::<K>(
        #[trigger] keys_of(grown)[j],
        key,
    ) by {
        assert(keys_of(grown)[j] == grown[j].key);
    }
    if p + 1 < grown.len() {
        assert(keys_of(grown)[p + 1] == grown[p + 1].key);
    }
    lemma_first_after::<K>(keys_of(grown), key, p + 1);
}

/// A lookup finds a key after its leaf was split: where the last entry of
/// the key went to the left half, or the middle key comes before the key,
/// it finds that entry; and else the middle entry, which has the same key.
pub proof fn lemma_find_in_split<K: Key, VV>(
    view: TreeView<K::V, VV>,
    key: K::V,
    grown: Seq<Entry<K::V, VV>>,
    p: int,
    b: nat,
)
    requires
        view.leaves.len() == view.bounds.len() + 1,
        b >= 3,
        grown.len() >= b,
        0 <= p < grown.len(),
        same_key::<K>(grown[p].key, key),
        forall|j: int| 0 <= j < p ==> key_le::<K>((#[trigger] grown[j]).key, key),
        forall|j: int| p < j < grown.len() ==> key_lt::<K>(key, (#[trigger] grown[j]).key),
        forall|j: int| 0 <= j < grown.len() ==> !(#[trigger] grown[j]).deleted,
    ensures
        find_in::<K, VV>(with_split(view, leaf_for::<K>(view.bounds, key), grown, b), key) is Some,
        p <= b / 2 || key_lt::<K>(grown[(b / 2) as int].key, key) ==> find_in::<K, VV>(
            with_split(view, leaf_for::<K>(view.bounds, key), grown, b),
            key,
        ) == Some(grown[p].val),
{
    let t = leaf_for::<K>(view.bounds, key);
    lemma_first_at_least::<K>(view.bounds, key, 0);
    let after = with_split(view, t, grown, b);
    let s = (b / 2) as int;
    let left = grown.take(s + 1);
    let right = grown.skip(s + 1);
    let bounds = after.bounds;
    assert(bounds == view.bounds.insert(t, grown[s].key));
    assert(after.leaves[t] == left);
    assert(after.leaves[t + 1] == right);
    assert forall|j: int| 0 <= j < t implies key_lt::<K>(#[trigger] bounds[j], key) by {
        assert(bounds[j] == view.bounds[j]);
    }
    if t + 1 < bounds.len() {
        assert(bounds[t + 1] == view.bounds[t]);
    }
    if p <= s || !key_lt::<K>(grown[s].key, key) {
        let at = if p <= s {
            p
        } else {
            s
        };
        assert(!key_lt::<K>(bounds[t], key));
        lemma_first_at_least::<K>(bounds, key, t);
        assert forall|j: int| 0 <= j < at + 1 implies key_le::<K>(
            #[trigger] keys_of(left)[j],
            key,
        ) by {
            assert(keys_of(left)[j] == grown[j].key);
        }
        if at + 1 < left.len() {
            assert(keys_of(left)[at + 1] == grown[at + 1].key);
        }
        lemma_first_after::<K>(keys_of(left), key, at + 1);
        assert(left[at] == grown[at]);
        if p > s {
            assert(key_le::<K>(grown[s].key, key));
        }
    } else {
        assert forall|j: int| 0 <= j < t + 1 implies key_lt::<K>(#[trigger] bounds[j], key) by {
            if j < t {
                assert(bounds[j] == view.bounds[j]);
            }
        }
        lemma_first_at_least::<K>(bounds, key, t + 1);
        let pr = p - s - 1;
        assert forall|j: int| 0 <= j < pr + 1 implies key_le::<K>(
            #[trigger] keys_of(right)[j],
            key,
        ) by {
            assert(keys_of(right)[j] == grown[s + 1 + j].key);
        }
        if pr + 1 < right.len() {
            assert(keys_of(right)[pr + 1] == grown[p + 1].key);
        }
        lemma_first_after::<K>(keys_of(right), key, pr + 1);
        assert(right[pr] == grown[p]);
    }
}

/// After an insert of `key` with `val` that is not refused, a lookup of
/// `key` gives a value: the new value where keys are unique, and where the
/// leaf was not split; and else the value of an entry of `key`, which may
/// be an older one where the new entry went to the right half.
pub proof fn law_find_after_insert<K: Key, VV>(
    view: TreeView<K::V, VV>,
    key: K::V,
    val: VV,
    b: nat,
    unique: bool,
)
    requires
        view_ok::<K, VV>(view, b, unique),
        b >= 3,
        !is_duplicate::<K, VV>(view, key, unique),
    ensures
        find_in::<K, VV>(insert_into::<K, VV>(view, key, val, b, unique), key) is Some,
        unique || insert_into::<K, VV>(view, key, val, b, unique).leaves.len()
            == view.leaves.len() ==> find_in::<K, VV>(
            insert_into::<K, VV>(view, key, val, b, unique),
            key,
        ) == Some(val),
{
    let t = leaf_for::<K>(view.bounds, key);
    lemma_first_at_least::<K>(view.bounds, key, 0);
    let leaf = view.leaves[t];
    let i = slot_for::<K, VV>(leaf, key);
    lemma_first_after::<K>(keys_of(leaf), key, 0);
    lemma_leaf_settled::<K, VV>(view, b, unique, t);
    let after = insert_into::<K, VV>(view, key, val, b, unique);
    if unique && holds::<K, VV>(leaf, i - 1, key) {
        let changed = leaf.update(i - 1, Entry { key: leaf[i - 1].key, val, deleted: false });
        assert(keys_of(changed) =~= keys_of(leaf));
    } else {
        lemma_new_place::<K, VV>(leaf, key, val);
        lemma_grown_in_order::<K, VV>(view, key, val, b, unique);
        let grown = compacted(leaf.insert(i, Entry { key, val, deleted: false }));
        let gk = keys_of(grown);
        let p = new_place::<K, VV>(leaf, key, val);
        if grown.len() >= b {
            let s = (b / 2) as int;
            lemma_find_in_split::<K, VV>(view, key, grown, p, b);
            if p > s {
                assert(gk[s] == grown[s].key && gk[p] == grown[p].key);
                assert(in_order::<K>(gk[s], gk[p], unique));
            }
        }
    }
}

/// Where an entry of `key` that a lookup finds stands after another key was
/// put into its leaf and the leaf dropped its last tombstone.
pub open spec fn moved_place<K: Key, VV>(
    leaf: Seq<Entry<K::V, VV>>,
    key: K::V,
    other: K::V,
    val: VV,
) -> int {
    let i = last_of::<K, VV>(leaf, key);
    let i2 = slot_for::<K, VV>(leaf, other);
    let i0 = if i2 <= i {
        i + 1
    } else {
        i
    };
    let q = last_tombstone(leaf.insert(i2, Entry { key: other, val, deleted: false }));
    if 0 <= q < i0 {
        i0 - 1
    } else {
        i0
    }
}

/// An entry that a lookup finds stays the last of its key where another
/// key is put into its leaf.
pub proof fn lemma_moved_place<K: Key, VV>(
    leaf: Seq<Entry<K::V, VV>>,
    key: K::V,
    other: K::V,
    val: VV,
)
    requires
        settled::<K, VV>(leaf),
        !same_key::<K>(key, other),
        holds::<K, VV>(leaf, last_of::<K, VV>(leaf, key), key),
        !leaf[last_of::<K, VV>(leaf, key)].deleted,
    ensures
        ({
            let grown = compacted(
                leaf.insert(
                    slot_for::<K, VV>(leaf, other),
                    Entry { key: other, val, deleted: false },
                ),
            );
            let p = moved_place::<K, VV>(leaf, key, other, val);
            &&& 0 <= p < grown.len()
            &&& grown.len() <= leaf.len() + 1
            &&& grown[p] == leaf[last_of::<K, VV>(leaf, key)]
            &&& forall|j: int| 0 <= j < p ==> key_le::<K>((#[trigger] grown[j]).key, key)
            &&& forall|j: int| p < j < grown.len() ==> key_lt::<K>(key, (#[trigger] grown[j]).key)
            &&& slot_for::<K, VV>(grown, key) == p + 1
            &&& grown.len() == leaf.len() + 1 ==> forall|j: int|
                0 <= j < grown.len() ==> !(#[trigger] grown[j]).deleted
        }),
{
    let keys = keys_of(leaf);
    let i = last_of::<K, VV>(leaf, key);
    let i2 = slot_for::<K, VV>(leaf, other);
    lemma_first_after::<K>(keys, key, 0);
    lemma_first_after::<K>(keys, other, 0);
    let e = Entry { key: other, val, deleted: false };
    let put = leaf.insert(i2, e);
    let i0 = if i2 <= i {
        i + 1
    } else {
        i
    };
    let q = last_tombstone(put);
    lemma_last_tombstone_is(put);
    let grown = compacted(put);
    let p = moved_place::<K, VV>(leaf, key, other, val);
    assert(put[i0] == leaf[i]);
    assert(q != i0);
    assert(keys[i] == leaf[i].key);
    if i2 <= i {
        assert(key_lt::<K>(other, key)) by {
            assert(keys[i2] == leaf[i2].key);
            if i2 < i {
                assert(key_le::<K>(leaf[i2].key, leaf[i].key));
            }
        }
    } else {
        assert(key_lt::<K>(key, other)) by {
            assert(key_le::<K>(keys[i], other));
        }
    }
    assert forall|j: int| 0 <= j < p implies key_le::<K>((#[trigger] grown[j]).key, key) by {
        let j0 = if 0 <= q <= j {
            j + 1
        } else {
            j
        };
        assert(grown[j] == put[j0]);
        assert(j0 < i0);
        if j0 != i2 {
            let j1 = if j0 > i2 {
                j0 - 1
            } else {
                j0
            };
            assert(put[j0] == leaf[j1]);
            assert(keys[j1] == leaf[j1].key);
            assert(j1 < i);
        }
    }
    assert forall|j: int| p < j < grown.len() implies key_lt::<K>(
        key,
        (#[trigger] grown[j]).key,
    ) by {
        let j0 = if 0 <= q <= j {
            j + 1
        } else {
            j
        };
        assert(grown[j] == put[j0]);
        assert(j0 > i0);
        if j0 != i2 {
            let j1 = if j0 > i2 {
                j0 - 1
            } else {
                j0
            };
            assert(put[j0] == leaf[j1]);
            assert(j1 > i);
            assert(keys[i + 1] == leaf[i + 1].key);
            if j1 > i + 1 {
                assert(key_le::<K>(leaf[i + 1].key, leaf[j1].key));
            }
        }
    }
    assert forall|j: int| 0 <= j < p + 1 implies key_le::<K>(
        #[trigger] keys_of(grown)[j],
        key,
    ) by {
        assert(keys_of(grown)[j] == grown[j].key);
    }
    if p + 1 < grown.len() {
        assert(keys_of(grown)[p + 1] == grown[p + 1].key);
    }
    lemma_first_after::<K>(keys_of(grown), key, p + 1);
}

/// An insert of one key leaves a lookup of another key with a value where
/// it had one: the same value where keys are unique, and where no leaf was
/// split.
pub proof fn law_find_kept_by_insert<K: Key, VV>(
    view: TreeView<K::V, VV>,
    key: K::V,
    other: K::V,
    val: VV,
    b: nat,
    unique: bool,
)
    requires
        view_ok::<K, VV>(view, b, unique),
        b >= 3,
        !same_key::<K>(key, other),
        !is_duplicate::<K, VV>(view, other, unique),
        find_in::<K, VV>(view, key) is Some,
    ensures
        find_in::<K, VV>(insert_into::<K, VV>(view, other, val, b, unique), key) is Some,
        unique || insert_into::<K, VV>(view, other, val, b, unique).leaves.len()
            == view.leaves.len() ==> find_in::<K, VV>(
            insert_into::<K, VV>(view, other, val, b, unique),
            key,
        ) == find_in::<K, VV>(view, key),
{
    let t = leaf_for::<K>(view.bounds, key);
    let t2 = leaf_for::<K>(view.bounds, other);
    lemma_first_at_least::<K>(view.bounds, key, 0);
    lemma_first_at_least::<K>(view.bounds, other, 0);
    let leaf = view.leaves[t];
    let leaf2 = view.leaves[t2];
    let i = last_of::<K, VV>(leaf, key);
    let i2 = slot_for::<K, VV>(leaf2, other);
    lemma_first_after::<K>(keys_of(leaf), key, 0);
    lemma_first_after::<K>(keys_of(leaf2), other, 0);
    lemma_leaf_settled::<K, VV>(view, b, unique, t);
    lemma_leaf_settled::<K, VV>(view, b, unique, t2);
    let after = insert_into::<K, VV>(view, other, val, b, unique);
    if unique && holds::<K, VV>(leaf2, i2 - 1, other) {
        let changed = leaf2.update(i2 - 1, Entry { key: leaf2[i2 - 1].key, val, deleted: false });
        assert(keys_of(changed) =~= keys_of(leaf2));
        if t == t2 {
            assert(i != i2 - 1);
        }
    } else {
        lemma_grown_in_order::<K, VV>(view, other, val, b, unique);
        let grown = compacted(leaf2.insert(i2, Entry { key: other, val, deleted: false }));
        let gk = keys_of(grown);
        let s = (b / 2) as int;
        if t != t2 {
            if grown.len() >= b {
                let bounds = after.bounds;
                assert(bounds == view.bounds.insert(t2, grown[s].key));
                if t < t2 {
                    assert forall|j: int| 0 <= j < t implies key_lt::<K>(
                        #[trigger] bounds[j],
                        key,
                    ) by {
                        assert(bounds[j] == view.bounds[j]);
                    }
                    assert(bounds[t] == view.bounds[t]);
                    lemma_first_at_least::<K>(bounds, key, t);
                    assert(after.leaves[t] == leaf);
                } else {
                    assert(gk[s] == grown[s].key);
                    assert(key_le::<K>(grown[s].key, view.bounds[t2]));
                    assert(key_lt::<K>(view.bounds[t2], key)) by {
                        if t2 < t - 1 {
                            assert(in_order::<K>(view.bounds[t2], view.bounds[t - 1], unique));
                        }
                    }
                    assert forall|j: int| 0 <= j < t + 1 implies key_lt::<K>(
                        #[trigger] bounds[j],
                        key,
                    ) by {
                        if j < t2 {
                            assert(bounds[j] == view.bounds[j]);
                        } else if j > t2 {
                            assert(bounds[j] == view.bounds[j - 1]);
                        }
                    }
                    if t + 1 < bounds.len() {
                        assert(bounds[t + 1] == view.bounds[t]);
                    }
                    lemma_first_at_least::<K>(bounds, key, t + 1);
                    assert(after.leaves[t + 1] == leaf);
                }
            }
        } else {
            lemma_moved_place::<K, VV>(leaf, key, other, val);
            let p = moved_place::<K, VV>(leaf, key, other, val);
            if grown.len() >= b {
                lemma_find_in_split::<K, VV>(view, key, grown, p, b);
                if p > s {
                    assert(gk[s] == grown[s].key && gk[p] == grown[p].key);
                    assert(in_order::<K>(gk[s], gk[p], unique));
                }
            }
        }
    }
}

/// The keys of a leaf that took a new entry are in order between the bounds
/// of the leaf.
pub proof fn lemma_grown_in_order<K: Key, VV>(
    view: TreeView<K::V, VV>,
    key: K::V,
    val: VV,
    b: nat,
    unique: bool,
)
    requires
        view_ok::<K, VV>(view, b, unique),
        !(unique && holds::<K, VV>(
            view.leaves[leaf_for::<K>(view.bounds, key)],
            last_of::<K, VV>(view.leaves[leaf_for::<K>(view.bounds, key)], key),
            key,
        )),
    ensures
        ({
            let t = leaf_for::<K>(view.bounds, key);
            let leaf = view.leaves[t];
            let grown = compacted(
                leaf.insert(slot_for::<K, VV>(leaf, key), Entry { key, val, deleted: false }),
            );
            &&& 0 <= t < view.leaves.len()
            &&& grown.len() <= leaf.len() + 1
            &&& grown.len() >= 1
            &&& keys_ok::<K>(
                keys_of(grown),
                bound_below(view.bounds, t),
                bound_above(view.bounds, t),
                unique,
                b as int + 5,
            )
        }),
{
    let t = leaf_for::<K>(view.bounds, key);
    lemma_first_at_least::<K>(view.bounds, key, 0);
    let leaf = view.leaves[t];
    let keys = keys_of(leaf);
    let at = slot_for::<K, VV>(leaf, key);
    lemma_first_after::<K>(keys, key, 0);
    let lo = bound_below(view.bounds, t);
    let hi = bound_above(view.bounds, t);
    let s = b as int + 5;
    assert(leaf.len() < b);
    assert forall|i: int| 0 <= i < keys.len() implies above::<K>(lo, #[trigger] keys[i], unique)
        && below::<K>(keys[i], hi) by {
        assert(keys[i] == leaf[i].key);
    }
    assert(keys_ok::<K>(keys, lo, hi, unique, s));
    if t > 0 {
        assert(key_lt::<K>(view.bounds[t - 1], key));
    }
    if at > 0 {
        assert(keys[at - 1] == leaf[at - 1].key);
    }
    lemma_keys_insert::<K>(keys, lo, hi, unique, s, key);
    let put = leaf.insert(at, Entry { key, val, deleted: false });
    assert(keys_of(put) =~= keys.insert(at, key));
    let q = last_tombstone(put);
    lemma_last_tombstone_is(put);
    if q >= 0 {
        lemma_keys_remove::<K>(keys_of(put), lo, hi, unique, s, q);
        assert(keys_of(put.remove(q)) =~= keys_of(put).remove(q));
        assert(!put[at].deleted);
    }
}

/// An insert that is not refused leaves the model in order.
pub proof fn law_insert_keeps_order<K: Key, VV>(
    view: TreeView<K::V, VV>,
    key: K::V,
    val: VV,
    b: nat,
    unique: bool,
)
    requires
        view_ok::<K, VV>(view, b, unique),
        b >= 3,
        b % 2 == 1,
        !is_duplicate::<K, VV>(view, key, unique),
    ensures
        view_ok::<K, VV>(insert_into::<K, VV>(view, key, val, b, unique), b, unique),
{
    let t = leaf_for::<K>(view.bounds, key);
    lemma_first_at_least::<K>(view.bounds, key, 0);
    let leaf = view.leaves[t];
    let i = slot_for::<K, VV>(leaf, key);
    lemma_first_after::<K>(keys_of(leaf), key, 0);
    let after = insert_into::<K, VV>(view, key, val, b, unique);
    let lo = bound_below(view.bounds, t);
    let hi = bound_above(view.bounds, t);
    if unique && holds::<K, VV>(leaf, i - 1, key) {
        let changed = leaf.update(i - 1, Entry { key: leaf[i - 1].key, val, deleted: false });
        assert(keys_of(changed) =~= keys_of(leaf));
        assert forall|u: int| 0 <= u < after.leaves.len() implies {
            &&& (#[trigger] after.leaves[u]).len() < b
            &&& ascending::<K>(keys_of(after.leaves[u]), unique)
            &&& forall|j: int|
                0 <= j < after.leaves[u].len() ==> above::<K>(
                    bound_below(after.bounds, u),
                    (#[trigger] after.leaves[u][j]).key,
                    unique,
                ) && below::<K>(after.leaves[u][j].key, bound_above(after.bounds, u))
        } by {
            assert(view.leaves[u].len() < b);
            assert forall|j: int| 0 <= j < after.leaves[u].len() implies above::<K>(
                bound_below(after.bounds, u),
                (#[trigger] after.leaves[u][j]).key,
                unique,
            ) && below::<K>(after.leaves[u][j].key, bound_above(after.bounds, u)) by {
                assert(after.leaves[u][j].key == view.leaves[u][j].key);
            }
        }
    } else {
        lemma_grown_in_order::<K, VV>(view, key, val, b, unique);
        let grown = compacted(leaf.insert(i, Entry { key, val, deleted: false }));
        let gk = keys_of(grown);
        if grown.len() < b {
            assert forall|u: int| 0 <= u < after.leaves.len() implies {
                &&& (#[trigger] after.leaves[u]).len() < b
                &&& ascending::<K>(keys_of(after.leaves[u]), unique)
                &&& forall|j: int|
                    0 <= j < after.leaves[u].len() ==> above::<K>(
                        bound_below(after.bounds, u),
                        (#[trigger] after.leaves[u][j]).key,
                        unique,
                    ) && below::<K>(after.leaves[u][j].key, bound_above(after.bounds, u))
            } by {
                if u == t {
                    assert forall|j: int| 0 <= j < grown.len() implies above::<K>(
                        lo,
                        (#[trigger] grown[j]).key,
                        unique,
                    ) && below::<K>(grown[j].key, hi) by {
                        assert(gk[j] == grown[j].key);
                    }
                } else {
                    assert(view.leaves[u].len() < b);
                }
            }
        } else {
            let s = (b / 2) as int;
            let left = grown.take(s + 1);
            let right = grown.skip(s + 1);
            let mid = grown[s].key;
            assert(gk[s] == mid);
            assert(grown.len() == b);
            assert(after.bounds == view.bounds.insert(t, mid));
            assert(in_order::<K>(gk[s], gk[b - 1], unique));
            assert(above::<K>(lo, gk[s], unique) && below::<K>(gk[b - 1], hi));
            assert forall|a: int, c: int| 0 <= a < c < after.bounds.len() implies in_order::<K>(
                #[trigger] after.bounds[a],
                #[trigger] after.bounds[c],
                unique,
            ) by {
                if a < t && c > t {
                    assert(in_order::<K>(view.bounds[a], view.bounds[c - 1], unique));
                } else if a < t && c < t {
                    assert(in_order::<K>(view.bounds[a], view.bounds[c], unique));
                } else if a < t {
                    if a < t - 1 {
                        assert(in_order::<K>(view.bounds[a], view.bounds[t - 1], unique));
                    }
                } else if a == t {
                    if c - 1 > t {
                        assert(in_order::<K>(view.bounds[t], view.bounds[c - 1], unique));
                    }
                } else {
                    assert(in_order::<K>(view.bounds[a - 1], view.bounds[c - 1], unique));
                }
            }
            assert forall|u: int| 0 <= u < after.leaves.len() implies {
                &&& (#[trigger] after.leaves[u]).len() < b
                &&& ascending::<K>(keys_of(after.leaves[u]), unique)
                &&& forall|j: int|
                    0 <= j < after.leaves[u].len() ==> above::<K>(
                        bound_below(after.bounds, u),
                        (#[trigger] after.leaves[u][j]).key,
                        unique,
                    ) && below::<K>(after.leaves[u][j].key, bound_above(after.bounds, u))
            } by {
                if u == t {
                    assert(after.leaves[u] == left);
                    assert forall|a: int, c: int| 0 <= a < c < left.len() implies in_order::<K>(
                        #[trigger] keys_of(left)[a],
                        #[trigger] keys_of(left)[c],
                        unique,
                    ) by {
                        assert(in_order::<K>(gk[a], gk[c], unique));
                    }
                    assert forall|j: int| 0 <= j < left.len() implies above::<K>(
                        bound_below(after.bounds, u),
                        (#[trigger] left[j]).key,
                        unique,
                    ) && below::<K>(left[j].key, bound_above(after.bounds, u)) by {
                        assert(gk[j] == left[j].key);
                        if j < s {
                            assert(in_order::<K>(gk[j], gk[s], unique));
                        }
                    }
                } else if u == t + 1 {
                    assert(after.leaves[u] == right);
                    assert forall|a: int, c: int| 0 <= a < c < right.len() implies in_order::<K>(
                        #[trigger] keys_of(right)[a],
                        #[trigger] keys_of(right)[c],
                        unique,
                    ) by {
                        assert(in_order::<K>(gk[s + 1 + a], gk[s + 1 + c], unique));
                    }
                    assert forall|j: int| 0 <= j < right.len() implies above::<K>(
                        bound_below(after.bounds, u),
                        (#[trigger] right[j]).key,
                        unique,
                    ) && below::<K>(right[j].key, bound_above(after.bounds, u)) by {
                        assert(gk[s + 1 + j] == right[j].key);
                        assert(in_order::<K>(gk[s], gk[s + 1 + j], unique));
                        if t < view.bounds.len() {
                            assert(after.bounds[t + 1] == view.bounds[t]);
                        }
                    }
                } else if u < t {
                    assert(after.leaves[u] == view.leaves[u]);
                    assert(view.leaves[u].len() < b);
                    assert forall|j: int| 0 <= j < after.leaves[u].len() implies above::<K>(
                        bound_below(after.bounds, u),
                        (#[trigger] after.leaves[u][j]).key,
                        unique,
                    ) && below::<K>(after.leaves[u][j].key, bound_above(after.bounds, u)) by {
                        assert(above::<K>(
                            bound_below(view.bounds, u),
                            view.leaves[u][j].key,
                            unique,
                        ));
                    }
                } else {
                    assert(after.leaves[u] == view.leaves[u - 1]);
                    assert(view.leaves[u - 1].len() < b);
                    assert forall|j: int| 0 <= j < after.leaves[u].len() implies above::<K>(
                        bound_below(after.bounds, u),
                        (#[trigger] after.leaves[u][j]).key,
                        unique,
                    ) && below::<K>(after.leaves[u][j].key, bound_above(after.bounds, u)) by {
                        assert(above::<K>(
                            bound_below(view.bounds, u - 1),
                            view.leaves[u - 1][j].key,
                            unique,
                        ));
                        if u - 1 < view.bounds.len() {
                            assert(after.bounds[u] == view.bounds[u - 1]);
                        }
                        assert(after.bounds[u - 1] == view.bounds[u - 2]);
                    }
                }
            }
        }
    }
}

/// After a delete of `key`, a lookup of `key` gives nothing.
pub proof fn law_find_after_delete<K: Key, VV>(view: TreeView<K::V, VV>, key: K::V)
    requires
        view.leaves.len() == view.bounds.len() + 1,
    ensures
        find_in::<K, VV>(delete_from::<K, VV>(view, key), key) is None,
{
    let t = leaf_for::<K>(view.bounds, key);
    lemma_first_at_least::<K>(view.bounds, key, 0);
    let leaf = view.leaves[t];
    let after = delete_from::<K, VV>(view, key);
    assert(after.leaves[t] == tombstoned::<K, VV>(leaf, key));
    assert(keys_of(after.leaves[t]) =~= keys_of(leaf));
    lemma_first_after::<K>(keys_of(leaf), key, 0);
}

/// A delete of one key leaves the lookup of every other key as it was.
pub proof fn law_find_kept_by_delete<K: Key, VV>(
    view: TreeView<K::V, VV>,
    key: K::V,
    other: K::V,
)
    requires
        view.leaves.len() == view.bounds.len() + 1,
        !same_key::<K>(key, other),
    ensures
        find_in::<K, VV>(delete_from::<K, VV>(view, other), key) == find_in::<K, VV>(view, key),
{
    let t = leaf_for::<K>(view.bounds, key);
    lemma_first_at_least::<K>(view.bounds, key, 0);
    let leaf = view.leaves[t];
    let after = delete_from::<K, VV>(view, other);
    assert(after.leaves[t] == tombstoned::<K, VV>(leaf, other));
    assert(keys_of(after.leaves[t]) =~= keys_of(leaf));
    lemma_first_after::<K>(keys_of(leaf), key, 0);
}

/// An index of unique keys refuses an insert of `key` exactly where a
/// lookup of `key` gives a value; an index of other keys refuses none.
pub proof fn law_duplicate_iff_found<K: Key, VV>(view: TreeView<K::V, VV>, key: K::V, unique: bool)
    ensures
        is_duplicate::<K, VV>(view, key, unique) <==> unique && find_in::<K, VV>(view, key) is Some,
{
}

/// After a delete of `key`, an insert of `key` is not refused.
pub proof fn law_insert_after_delete<K: Key, VV>(view: TreeView<K::V, VV>, key: K::V, unique: bool)
    requires
        view.leaves.len() == view.bounds.len() + 1,
    ensures
        !is_duplicate::<K, VV>(delete_from::<K, VV>(view, key), key, unique),
{
    law_find_after_delete::<K, VV>(view, key);
}

/// A delete leaves the model in order.
pub proof fn law_delete_keeps_order<K: Key, VV>(
    view: TreeView<K::V, VV>,
    key: K::V,
    b: nat,
    unique: bool,
)
    requires
        view_ok::<K, VV>(view, b, unique),
    ensures
        view_ok::<K, VV>(delete_from::<K, VV>(view, key), b, unique),
{
    let after = delete_from::<K, VV>(view, key);
    assert forall|t: int| 0 <= t < after.leaves.len() implies {
        &&& (#[trigger] after.leaves[t]).len() < b
        &&& ascending::<K>(keys_of(after.leaves[t]), unique)
        &&& forall|i: int|
            0 <= i < after.leaves[t].len() ==> above::<K>(
                bound_below(after.bounds, t),
                (#[trigger] after.leaves[t][i]).key,
                unique,
            ) && below::<K>(after.leaves[t][i].key, bound_above(after.bounds, t))
    } by {
        assert(view.leaves[t].len() < b);
        assert(keys_of(after.leaves[t]) =~= keys_of(view.leaves[t]));
        assert forall|i: int| 0 <= i < after.leaves[t].len() implies above::<K>(
            bound_below(after.bounds, t),
            (#[trigger] after.leaves[t][i]).key,
            unique,
        ) && below::<K>(after.leaves[t][i].key, bound_above(after.bounds, t)) by {
            assert(after.leaves[t][i].key == view.leaves[t][i].key);
        }
    }
}

/// In a model that is in order, the keys ascend from leaf to leaf: a key of
/// a leaf comes before every key of a later leaf, strictly where keys are
/// unique.
pub proof fn law_leaves_ascend<K: Key, VV>(
    view: TreeView<K::V, VV>,
    b: nat,
    unique: bool,
    t: int,
    i: int,
    u: int,
    j: int,
)
    requires
        view_ok::<K, VV>(view, b, unique),
        0 <= t < u < view.leaves.len(),
        0 <= i < view.leaves[t].len(),
        0 <= j < view.leaves[u].len(),
    ensures
        in_order::<K>(view.leaves[t][i].key, view.leaves[u][j].key, unique),
{
    lemma_leaves_in_order::<K, VV>(view, b, unique, t, i, u - 1);
    lemma_leaves_in_order::<K, VV>(view, b, unique, u, j, u - 1);
}

/// Whether `pair` is the key and value of an entry of `entries` that a
/// range scan from `min` to `max` gives.
pub open spec fn given_by<K: Key, VV>(
    entries: Seq<Entry<K::V, VV>>,
    min: K::V,
    max: K::V,
    pair: (K::V, VV),
) -> bool {
    exists|i: int|
        0 <= i < entries.len() && in_range::<K, VV>(#[trigger] entries[i], min, max) && pair == (
            entries[i].key,
            entries[i].val,
        )
}

/// A scan of entries gives the pair of every entry in the range, and no
/// other pair; and where the keys of the entries ascend, the keys of the
/// pairs ascend.
pub proof fn lemma_range_in_exact<K: Key, VV>(
    entries: Seq<Entry<K::V, VV>>,
    min: K::V,
    max: K::V,
    unique: bool,
)
    ensures
        forall|j: int|
            0 <= j < range_in::<K, VV>(entries, min, max).len() ==> given_by::<K, VV>(
                entries,
                min,
                max,
                #[trigger] range_in::<K, VV>(entries, min, max)[j],
            ),
        forall|i: int|
            0 <= i < entries.len() && in_range::<K, VV>(#[trigger] entries[i], min, max)
                ==> range_in::<K, VV>(entries, min, max).contains((entries[i].key, entries[i].val)),
        ascending::<K>(keys_of(entries), unique) ==> forall|a: int, c: int|
            0 <= a < c < range_in::<K, VV>(entries, min, max).len() ==> in_order::<K>(
                (#[trigger] range_in::<K, VV>(entries, min, max)[a]).0,
                (#[trigger] range_in::<K, VV>(entries, min, max)[c]).0,
                unique,
            ),
    decreases entries.len(),
{
    let r = range_in::<K, VV>(entries, min, max);
    if entries.len() > 0 {
        let front = entries.drop_last();
        let last = entries.last();
        let rf = range_in::<K, VV>(front, min, max);
        lemma_range_in_exact::<K, VV>(front, min, max, unique);
        assert forall|j: int| 0 <= j < r.len() implies given_by::<K, VV>(
            entries,
            min,
            max,
            #[trigger] r[j],
        ) by {
            if j < rf.len() {
                assert(r[j] == rf[j]);
                assert(given_by::<K, VV>(front, min, max, rf[j]));
                let i = choose|i: int|
                    0 <= i < front.len() && in_range::<K, VV>(#[trigger] front[i], min, max)
                        && rf[j] == (front[i].key, front[i].val);
                assert(entries[i] == front[i]);
            } else {
                assert(entries[entries.len() - 1] == last);
            }
        }
        assert forall|i: int|
            0 <= i < entries.len() && in_range::<K, VV>(
                #[trigger] entries[i],
                min,
                max,
            ) implies r.contains((entries[i].key, entries[i].val)) by {
            if i < front.len() {
                assert(front[i] == entries[i]);
                assert(rf.contains((entries[i].key, entries[i].val)));
                let j = choose|j: int| 0 <= j < rf.len() && rf[j] == (entries[i].key, entries[i].val);
                assert(r[j] == rf[j]);
            } else {
                assert(r[r.len() - 1] == (entries[i].key, entries[i].val));
            }
        }
        if ascending::<K>(keys_of(entries), unique) {
            assert forall|a: int, c: int| 0 <= a < c < keys_of(front).len() implies in_order::<K>(
                #[trigger] keys_of(front)[a],
                #[trigger] keys_of(front)[c],
                unique,
            ) by {
                assert(in_order::<K>(keys_of(entries)[a], keys_of(entries)[c], unique));
            }
            assert forall|a: int, c: int| 0 <= a < c < r.len() implies in_order::<K>(
                (#[trigger] r[a]).0,
                (#[trigger] r[c]).0,
                unique,
            ) by {
                if c < rf.len() {
                    assert(r[a] == rf[a] && r[c] == rf[c]);
                } else {
                    assert(r[a] == rf[a]);
                    assert(given_by::<K, VV>(front, min, max, rf[a]));
                    let i = choose|i: int|
                        0 <= i < front.len() && in_range::<K, VV>(#[trigger] front[i], min, max)
                            && rf[a] == (front[i].key, front[i].val);
                    assert(in_order::<K>(
                        keys_of(entries)[i],
                        keys_of(entries)[entries.len() - 1],
                        unique,
                    ));
                }
            }
        }
    }
}

/// Whether `pair` is the key and value of an entry of the first `n` leaves
/// that a range scan from `min` to `max` gives.
pub open spec fn given_upto<K: Key, VV>(
    leaves: Seq<Seq<Entry<K::V, VV>>>,
    n: int,
    min: K::V,
    max: K::V,
    pair: (K::V, VV),
) -> bool {
    exists|t: int, i: int|
        0 <= t < n && 0 <= i < leaves[t].len() && in_range::<K, VV>(
            #[trigger] leaves[t][i],
            min,
            max,
        ) && pair == (leaves[t][i].key, leaves[t][i].val)
}

/// A scan of the first `n` leaves of a model that is in order gives the
/// pair of every entry in the range, and no other pair, and the keys of
/// the pairs ascend.
pub proof fn lemma_range_upto_exact<K: Key, VV>(
    view: TreeView<K::V, VV>,
    b: nat,
    unique: bool,
    n: int,
    min: K::V,
    max: K::V,
)
    requires
        view_ok::<K, VV>(view, b, unique),
        0 <= n <= view.leaves.len(),
    ensures
        forall|j: int|
            0 <= j < range_upto::<K, VV>(view.leaves, n, min, max).len() ==> given_upto::<K, VV>(
                view.leaves,
                n,
                min,
                max,
                #[trigger] range_upto::<K, VV>(view.leaves, n, min, max)[j],
            ),
        forall|t: int, i: int|
            0 <= t < n && 0 <= i < view.leaves[t].len() && in_range::<K, VV>(
                #[trigger] view.leaves[t][i],
                min,
                max,
            ) ==> range_upto::<K, VV>(view.leaves, n, min, max).contains(
                (view.leaves[t][i].key, view.leaves[t][i].val),
            ),
        forall|a: int, c: int|
            0 <= a < c < range_upto::<K, VV>(view.leaves, n, min, max).len() ==> in_order::<K>(
                (#[trigger] range_upto::<K, VV>(view.leaves, n, min, max)[a]).0,
                (#[trigger] range_upto::<K, VV>(view.leaves, n, min, max)[c]).0,
                unique,
            ),
    decreases n,
{
    let r = range_upto::<K, VV>(view.leaves, n, min, max);
    if n > 0 {
        let leaf = view.leaves[n - 1];
        let rf = range_upto::<K, VV>(view.leaves, n - 1, min, max);
        let rl = range_in::<K, VV>(leaf, min, max);
        lemma_range_upto_exact::<K, VV>(view, b, unique, n - 1, min, max);
        lemma_range_in_exact::<K, VV>(leaf, min, max, unique);
        assert(r == rf + rl);
        assert forall|j: int| 0 <= j < r.len() implies given_upto::<K, VV>(
            view.leaves,
            n,
            min,
            max,
            #[trigger] r[j],
        ) by {
            if j < rf.len() {
                assert(r[j] == rf[j]);
                assert(given_upto::<K, VV>(view.leaves, n - 1, min, max, rf[j]));
                let (t, i) = choose|t: int, i: int|
                    0 <= t < n - 1 && 0 <= i < view.leaves[t].len() && in_range::<K, VV>(
                        #[trigger] view.leaves[t][i],
                        min,
                        max,
                    ) && rf[j] == (view.leaves[t][i].key, view.leaves[t][i].val);
                assert(in_range::<K, VV>(view.leaves[t][i], min, max));
            } else {
                assert(r[j] == rl[j - rf.len()]);
                assert(given_by::<K, VV>(leaf, min, max, rl[j - rf.len()]));
                let i = choose|i: int|
                    0 <= i < leaf.len() && in_range::<K, VV>(#[trigger] leaf[i], min, max) && rl[j
                        - rf.len()] == (leaf[i].key, leaf[i].val);
                assert(in_range::<K, VV>(view.leaves[n - 1][i], min, max));
            }
        }
        assert forall|t: int, i: int|
            0 <= t < n && 0 <= i < view.leaves[t].len() && in_range::<K, VV>(
                #[trigger] view.leaves[t][i],
                min,
                max,
            ) implies r.contains((view.leaves[t][i].key, view.leaves[t][i].val)) by {
            let pair = (view.leaves[t][i].key, view.leaves[t][i].val);
            if t < n - 1 {
                assert(rf.contains(pair));
                let j = choose|j: int| 0 <= j < rf.len() && rf[j] == pair;
                assert(r[j] == pair);
            } else {
                assert(rl.contains(pair));
                let j = choose|j: int| 0 <= j < rl.len() && rl[j] == pair;
                assert(r[rf.len() + j] == pair);
            }
        }
        assert forall|a: int, c: int| 0 <= a < c < r.len() implies in_order::<K>(
            (#[trigger] r[a]).0,
            (#[trigger] r[c]).0,
            unique,
        ) by {
            if c < rf.len() {
                assert(r[a] == rf[a] && r[c] == rf[c]);
            } else if a >= rf.len() {
                assert(r[a] == rl[a - rf.len()] && r[c] == rl[c - rf.len()]);
                assert(ascending::<K>(keys_of(leaf), unique));
            } else {
                assert(r[a] == rf[a]);
                assert(r[c] == rl[c - rf.len()]);
                assert(given_upto::<K, VV>(view.leaves, n - 1, min, max, rf[a]));
                let (t, i) = choose|t: int, i: int|
                    0 <= t < n - 1 && 0 <= i < view.leaves[t].len() && in_range::<K, VV>(
                        #[trigger] view.leaves[t][i],
                        min,
                        max,
                    ) && rf[a] == (view.leaves[t][i].key, view.leaves[t][i].val);
                assert(given_by::<K, VV>(leaf, min, max, rl[c - rf.len()]));
                let i2 = choose|i2: int|
                    0 <= i2 < leaf.len() && in_range::<K, VV>(#[trigger] leaf[i2], min, max)
                        && rl[c - rf.len()] == (leaf[i2].key, leaf[i2].val);
                lemma_leaves_in_order::<K, VV>(view, b, unique, t, i, n - 2);
                lemma_leaves_in_order::<K, VV>(view, b, unique, n - 1, i2, n - 2);
            }
        }
    }
}

/// A range scan over a model that is in order gives the key and value of
/// every entry that is no tombstone and whose key lies in the range, and of
/// no other; and the keys it gives ascend, strictly where keys are unique.
pub proof fn law_range_exact<K: Key, VV>(
    view: TreeView<K::V, VV>,
    b: nat,
    unique: bool,
    min: K::V,
    max: K::V,
)
    requires
        view_ok::<K, VV>(view, b, unique),
    ensures
        forall|j: int|
            0 <= j < range_of::<K, VV>(view, min, max).len() ==> given_upto::<K, VV>(
                view.leaves,
                view.leaves.len() as int,
                min,
                max,
                #[trigger] range_of::<K, VV>(view, min, max)[j],
            ),
        forall|t: int, i: int|
            0 <= t < view.leaves.len() && 0 <= i < view.leaves[t].len() && in_range::<K, VV>(
                #[trigger] view.leaves[t][i],
                min,
                max,
            ) ==> range_of::<K, VV>(view, min, max).contains(
                (view.leaves[t][i].key, view.leaves[t][i].val),
            ),
        forall|a: int, c: int|
            0 <= a < c < range_of::<K, VV>(view, min, max).len() ==> in_order::<K>(
                (#[trigger] range_of::<K, VV>(view, min, max)[a]).0,
                (#[trigger] range_of::<K, VV>(view, min, max)[c]).0,
                unique,
            ),
{
    lemma_range_upto_exact::<K, VV>(view, b, unique, view.leaves.len() as int, min, max);
}

/// After a delete of `key`, a range scan gives no pair of `key`.
pub proof fn law_range_after_delete<K: Key, VV>(
    view: TreeView<K::V, VV>,
    b: nat,
    unique: bool,
    key: K::V,
    min: K::V,
    max: K::V,
)
    requires
        view_ok::<K, VV>(view, b, unique),
    ensures
        forall|j: int|
            0 <= j < range_of::<K, VV>(delete_from::<K, VV>(view, key), min, max).len()
                ==> !same_key::<K>(
                (#[trigger] range_of::<K, VV>(delete_from::<K, VV>(view, key), min, max)[j]).0,
                key,
            ),
{
    let after = delete_from::<K, VV>(view, key);
    law_delete_keeps_order::<K, VV>(view, key, b, unique);
    law_range_exact::<K, VV>(after, b, unique, min, max);
    let r = range_of::<K, VV>(after, min, max);
    assert forall|j: int| 0 <= j < r.len() implies !same_key::<K>((#[trigger] r[j]).0, key) by {
        assert(given_upto::<K, VV>(after.leaves, after.leaves.len() as int, min, max, r[j]));
        let (t, i) = choose|t: int, i: int|
            0 <= t < after.leaves.len() && 0 <= i < after.leaves[t].len() && in_range::<K, VV>(
                #[trigger] after.leaves[t][i],
                min,
                max,
            ) && r[j] == (after.leaves[t][i].key, after.leaves[t][i].val);
        assert(after.leaves[t][i] == tombstoned::<K, VV>(view.leaves[t], key)[i]);
    }
}

} // verus!
