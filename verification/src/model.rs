use crate::keys::{first_after, first_at_least, key_le, key_lt, Key};
use vstd::prelude::*;

verus! {

/// One entry of a leaf: a key, its value, and whether the entry is a
/// tombstone.
pub struct Entry<KV, VV> {
    pub key: KV,
    pub val: VV,
    pub deleted: bool,
}

/// The model of the index: its leaves from left to right, each the sequence
/// of its entries, and between each leaf and the next the bound that parts
/// them. A key belongs to the first leaf whose bound does not come before
/// it, and to the last leaf where every bound does.
pub struct TreeView<KV, VV> {
    pub leaves: Seq<Seq<Entry<KV, VV>>>,
    pub bounds: Seq<KV>,
}

/// Whether two keys are one key.
pub open spec fn same_key<K: Key>(a: K::V, b: K::V) -> bool {
    K::rank(a) == K::rank(b)
}

/// Whether `a` comes before `b`: strictly where keys are unique, and
/// otherwise not after it.
pub open spec fn in_order<K: Key>(a: K::V, b: K::V, unique: bool) -> bool {
    if unique {
        key_lt::<K>(a, b)
    } else {
        key_le::<K>(a, b)
    }
}

/// Whether `keys` ascend.
pub open spec fn ascending<K: Key>(keys: Seq<K::V>, unique: bool) -> bool {
    forall|i: int, j: int|
        0 <= i < j < keys.len() ==> in_order::<K>(#[trigger] keys[i], #[trigger] keys[j], unique)
}

/// The keys of `entries`.
pub open spec fn keys_of<KV, VV>(entries: Seq<Entry<KV, VV>>) -> Seq<KV> {
    Seq::new(entries.len(), |i: int| entries[i].key)
}

/// The bound below leaf `t`, if it has one.
pub open spec fn bound_below<KV>(bounds: Seq<KV>, t: int) -> Option<KV> {
    if 0 < t <= bounds.len() {
        Some(bounds[t - 1])
    } else {
        None
    }
}

/// The bound above leaf `t`, if it has one.
pub open spec fn bound_above<KV>(bounds: Seq<KV>, t: int) -> Option<KV> {
    if 0 <= t < bounds.len() {
        Some(bounds[t])
    } else {
        None
    }
}

/// Whether `key` stands above the bound `lo`: strictly where keys are
/// unique.
pub open spec fn above<K: Key>(lo: Option<K::V>, key: K::V, unique: bool) -> bool {
    lo matches Some(l) ==> in_order::<K>(l, key, unique)
}

/// Whether `key` stands strictly above the bound `lo`.
pub open spec fn strictly_above<K: Key>(lo: Option<K::V>, key: K::V) -> bool {
    lo matches Some(l) ==> key_lt::<K>(l, key)
}

/// Whether `key` does not stand above the bound `hi`.
pub open spec fn below<K: Key>(key: K::V, hi: Option<K::V>) -> bool {
    hi matches Some(h) ==> key_le::<K>(key, h)
}

/// Whether the model is in order: one bound between each two leaves, the
/// bounds ascending, and in each leaf fewer than `b` entries whose keys
/// ascend between the bounds of the leaf.
pub open spec fn view_ok<K: Key, VV>(view: TreeView<K::V, VV>, b: nat, unique: bool) -> bool {
    &&& view.leaves.len() == view.bounds.len() + 1
    &&& ascending::<K>(view.bounds, unique)
    &&& forall|t: int|
        0 <= t < view.leaves.len() ==> {
            &&& (#[trigger] view.leaves[t]).len() < b
            &&& ascending::<K>(keys_of(view.leaves[t]), unique)
            &&& forall|i: int|
                0 <= i < view.leaves[t].len() ==> above::<K>(
                    bound_below(view.bounds, t),
                    (#[trigger] view.leaves[t][i]).key,
                    unique,
                ) && below::<K>(view.leaves[t][i].key, bound_above(view.bounds, t))
        }
}

/// The leaf that `key` belongs to.
pub open spec fn leaf_for<K: Key>(bounds: Seq<K::V>, key: K::V) -> int {
    first_at_least::<K>(bounds, key)
}

/// The place in `entries` where a new entry of `key` belongs: after the
/// last entry of `key`, which is the first place whose key comes after it.
pub open spec fn slot_for<K: Key, VV>(entries: Seq<Entry<K::V, VV>>, key: K::V) -> int {
    first_after::<K>(keys_of(entries), key)
}

/// The place in `entries` of the last entry of `key`, where there is one:
/// the place before the one where a new entry of `key` belongs.
pub open spec fn last_of<K: Key, VV>(entries: Seq<Entry<K::V, VV>>, key: K::V) -> int {
    slot_for::<K, VV>(entries, key) - 1
}

/// Whether place `i` of `entries` holds `key`.
pub open spec fn holds<K: Key, VV>(entries: Seq<Entry<K::V, VV>>, i: int, key: K::V) -> bool {
    0 <= i < entries.len() && same_key::<K>(entries[i].key, key)
}

/// What a lookup of `key` gives: the value of the last entry of `key` in
/// its leaf, where there is one and it is no tombstone.
pub open spec fn find_in<K: Key, VV>(view: TreeView<K::V, VV>, key: K::V) -> Option<VV> {
    let leaf = view.leaves[leaf_for::<K>(view.bounds, key)];
    let i = last_of::<K, VV>(leaf, key);
    if holds::<K, VV>(leaf, i, key) && !leaf[i].deleted {
        Some(leaf[i].val)
    } else {
        None
    }
}

/// The place of the last tombstone of `entries`, or -1 where there is none.
pub open spec fn last_tombstone<KV, VV>(entries: Seq<Entry<KV, VV>>) -> int
    decreases entries.len(),
{
    if entries.len() == 0 {
        -1
    } else if entries.last().deleted {
        entries.len() - 1
    } else {
        last_tombstone(entries.drop_last())
    }
}

/// `entries` without their last tombstone.
pub open spec fn compacted<KV, VV>(entries: Seq<Entry<KV, VV>>) -> Seq<Entry<KV, VV>> {
    if last_tombstone(entries) >= 0 {
        entries.remove(last_tombstone(entries))
    } else {
        entries
    }
}

/// The model with leaf `t` replaced by `entries`.
pub open spec fn with_leaf<KV, VV>(view: TreeView<KV, VV>, t: int, entries: Seq<Entry<KV, VV>>) -> TreeView<
    KV,
    VV,
> {
    TreeView { leaves: view.leaves.update(t, entries), bounds: view.bounds }
}

/// The model with leaf `t` replaced by the two halves of `entries`: the
/// left half ends with the middle entry, whose key becomes the bound between
/// the halves.
pub open spec fn with_split<KV, VV>(
    view: TreeView<KV, VV>,
    t: int,
    entries: Seq<Entry<KV, VV>>,
    b: nat,
) -> TreeView<KV, VV> {
    let s = (b / 2) as int;
    TreeView {
        leaves: view.leaves.update(t, entries.take(s + 1)).insert(t + 1, entries.skip(s + 1)),
        bounds: view.bounds.insert(t, entries[s].key),
    }
}

/// Whether an insert of `key` is refused: keys are unique, and the leaf of
/// `key` holds it in an entry that is no tombstone.
pub open spec fn is_duplicate<K: Key, VV>(view: TreeView<K::V, VV>, key: K::V, unique: bool) -> bool {
    let leaf = view.leaves[leaf_for::<K>(view.bounds, key)];
    let i = last_of::<K, VV>(leaf, key);
    unique && holds::<K, VV>(leaf, i, key) && !leaf[i].deleted
}

/// The model after an insert of `key` with `val` that is not refused.
///
/// Where keys are unique and the leaf of `key` holds it in a tombstone, that
/// entry takes `val` and is a tombstone no more. Otherwise a new entry is
/// put after the last entry of `key` in its leaf, so that the entries of
/// one key stand in the order in which they came; the last tombstone of the
/// leaf is dropped, and a leaf that then has `b` entries is split.
pub open spec fn insert_into<K: Key, VV>(
    view: TreeView<K::V, VV>,
    key: K::V,
    val: VV,
    b: nat,
    unique: bool,
) -> TreeView<K::V, VV> {
    let t = leaf_for::<K>(view.bounds, key);
    let leaf = view.leaves[t];
    let i = slot_for::<K, VV>(leaf, key);
    if unique && holds::<K, VV>(leaf, i - 1, key) {
        with_leaf(view, t, leaf.update(i - 1, Entry { key: leaf[i - 1].key, val, deleted: false }))
    } else {
        let grown = compacted(leaf.insert(i, Entry { key, val, deleted: false }));
        if grown.len() < b {
            with_leaf(view, t, grown)
        } else {
            with_split(view, t, grown, b)
        }
    }
}

/// `entries` with every entry of `key` made a tombstone.
pub open spec fn tombstoned<K: Key, VV>(entries: Seq<Entry<K::V, VV>>, key: K::V) -> Seq<
    Entry<K::V, VV>,
> {
    Seq::new(
        entries.len(),
        |i: int|
            if same_key::<K>(entries[i].key, key) {
                Entry { key: entries[i].key, val: entries[i].val, deleted: true }
            } else {
                entries[i]
            },
    )
}

/// The model after a delete of `key`: every entry of `key` is a tombstone.
pub open spec fn delete_from<K: Key, VV>(view: TreeView<K::V, VV>, key: K::V) -> TreeView<K::V, VV> {
    TreeView {
        leaves: Seq::new(view.leaves.len(), |t: int| tombstoned::<K, VV>(view.leaves[t], key)),
        bounds: view.bounds,
    }
}

/// The count of entries of `key` among `entries`, tombstones included.
pub open spec fn count_in<K: Key, VV>(entries: Seq<Entry<K::V, VV>>, key: K::V) -> nat
    decreases entries.len(),
{
    if entries.len() == 0 {
        0
    } else {
        count_in::<K, VV>(entries.drop_last(), key) + if same_key::<K>(entries.last().key, key) {
            1nat
        } else {
            0nat
        }
    }
}

/// The count of entries of `key` in the first `n` leaves.
pub open spec fn count_upto<K: Key, VV>(leaves: Seq<Seq<Entry<K::V, VV>>>, n: int, key: K::V) -> nat
    decreases n,
{
    if n <= 0 {
        0
    } else {
        count_upto::<K, VV>(leaves, n - 1, key) + count_in::<K, VV>(leaves[n - 1], key)
    }
}

/// The count of entries of `key` in the index, tombstones included.
pub open spec fn count_key<K: Key, VV>(view: TreeView<K::V, VV>, key: K::V) -> nat {
    count_upto::<K, VV>(view.leaves, view.leaves.len() as int, key)
}

/// Whether a range scan from `min` to `max` gives the entry: it is no
/// tombstone and its key lies between the two, both included.
pub open spec fn in_range<K: Key, VV>(e: Entry<K::V, VV>, min: K::V, max: K::V) -> bool {
    !e.deleted && key_le::<K>(min, e.key) && key_le::<K>(e.key, max)
}

/// The keys and values of the entries of `entries` that a range scan gives,
/// in their order.
pub open spec fn range_in<K: Key, VV>(entries: Seq<Entry<K::V, VV>>, min: K::V, max: K::V) -> Seq<
    (K::V, VV),
>
    decreases entries.len(),
{
    if entries.len() == 0 {
        Seq::empty()
    } else if in_range::<K, VV>(entries.last(), min, max) {
        range_in::<K, VV>(entries.drop_last(), min, max).push(
            (entries.last().key, entries.last().val),
        )
    } else {
        range_in::<K, VV>(entries.drop_last(), min, max)
    }
}

/// What a range scan gives of the first `n` leaves.
pub open spec fn range_upto<K: Key, VV>(
    leaves: Seq<Seq<Entry<K::V, VV>>>,
    n: int,
    min: K::V,
    max: K::V,
) -> Seq<(K::V, VV)>
    decreases n,
{
    if n <= 0 {
        Seq::empty()
    } else {
        range_upto::<K, VV>(leaves, n - 1, min, max) + range_in::<K, VV>(leaves[n - 1], min, max)
    }
}

/// What a range scan from `min` to `max` gives: the keys and values of all
/// entries that are no tombstones and whose keys lie between the two, in the
/// order of the leaves.
pub open spec fn range_of<K: Key, VV>(view: TreeView<K::V, VV>, min: K::V, max: K::V) -> Seq<
    (K::V, VV),
> {
    range_upto::<K, VV>(view.leaves, view.leaves.len() as int, min, max)
}

} // verus!
