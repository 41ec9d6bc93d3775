use crate::keys::{
    first_after, first_at_least, key_le, key_lt, lemma_first_after, lemma_first_at_least, Key, Val,
};
use crate::layout::{
    child_ok, entries_of, inv, lemma_leaf_rewritten, lemma_view_ok, link_ok, page_ok, view_of,
    Layout, Params,
};
use crate::layout::lemma_chain_short;
use crate::walk::{
    lemma_count_in_rest_none, lemma_count_in_step, lemma_count_upto_bound, lemma_count_upto_mono,
    lemma_count_upto_none,
    lemma_leaves_in_order, lemma_range_in_none, lemma_range_in_rest_none, lemma_range_in_step,
    lemma_range_upto_none, lemma_tombstoned_none,
};
use crate::model::{
    above, ascending, below, compacted, count_in, count_key, count_upto, delete_from, find_in,
    holds, in_order, in_range, insert_into, is_duplicate, keys_of, last_tombstone, leaf_for,
    range_in, range_of, range_upto, same_key, slot_for, strictly_above, tombstoned, view_ok,
    with_leaf, with_split, Entry, TreeView,
};
use crate::page::{recorded, Page, PageType, PageView};
use crate::pager::{MemPager, PageNotFoundError, Pager};
use crate::grow::{
    can_split, climb_ok, inserted, is_child, lay_raised, lay_under, left_half, lemma_climb_step,
    lemma_keys_insert, lemma_keys_remove, lemma_last_tombstone, lemma_not_over, lemma_split_root,
    lemma_split_under, next_down, pages_raised, pages_under, parent_grown, prm_more, prm_raised,
    right_half, root_over, rung_ok, settle, way, with_entries,
};
use crate::layout::lemma_leaf_replaced;
use crate::values::Duplicate;
use core::marker::PhantomData;
use vstd::pervasive::unreached;
use vstd::prelude::*;

verus! {

/// A delete found no entry of its key.
#[derive(Debug, Clone, PartialEq, Eq)]
pub struct KeyNotFoundError;

/// An insert met its key in an index of unique keys.
#[derive(Debug, Clone, PartialEq, Eq)]
pub struct DuplicateKeyError;

/// A B+Tree over a store of pages: an ordered index from keys to values
/// with tombstones for deleted entries. A page that reaches `b` keys is
/// split.
pub struct BTree<K: Key, V: Val, P: Pager<K, V> = MemPager<K, V>> {
    b: usize,
    is_unique: bool,
    depth: usize,
    root_id: u32,
    next_id: u32,
    pager: P,
    lay: Ghost<Layout<K::V>>,
    marker: PhantomData<V>,
}

impl<K: Key, V: Val, P: Pager<K, V>> BTree<K, V, P> {
    /// The settings and counters of the index.
    pub open spec fn params(&self) -> Params {
        Params {
            b: self.branching(),
            unique: self.unique(),
            depth: self.height(),
            root: self.root(),
            next: self.made(),
        }
    }

    /// Whether the index is in order.
    pub closed spec fn wf(&self) -> bool {
        &&& self.pager.wf()
        &&& inv::<K, V::V>(self.pager.pages(), self.lay@, self.params(), None)
        &&& self.next_id * self.b <= usize::MAX
    }

    /// The model of the index.
    pub closed spec fn view(&self) -> TreeView<K::V, V::V> {
        view_of(self.pager.pages(), self.lay@)
    }

    /// The count of keys at which a page is split.
    pub closed spec fn branching(&self) -> nat {
        self.b as nat
    }

    /// Whether the index refuses a key that it holds.
    pub closed spec fn unique(&self) -> bool {
        self.is_unique
    }

    /// The pages of the index, by identifier.
    pub closed spec fn pages(&self) -> Map<u32, PageView<K::V, V::V>> {
        self.pager.pages()
    }

    /// The count of pages that the index has made. Their identifiers are
    /// the numbers below it.
    pub closed spec fn made(&self) -> nat {
        self.next_id as nat
    }

    /// Whether the index can take one more insert: the identifiers that
    /// are left suffice for the pages that it may make, and the entries of
    /// that many pages can still be counted.
    pub open spec fn room(&self) -> bool {
        &&& self.made() + self.height() + 2 <= u32::MAX
        &&& (self.made() + self.height() + 2) * self.branching() <= usize::MAX
    }
}

/// Whether step `k` of a way down from the root leads on as a search for
/// `key` does: the page lies around `key`, and its child at the place of
/// `key` is the next page of the way.
pub open spec fn step_ok<K: Key, VV>(
    pages: Map<u32, PageView<K::V, VV>>,
    lay: Layout<K::V>,
    prm: Params,
    key: K::V,
    path: Seq<u32>,
    k: int,
) -> bool {
    let id = path[k];
    let slot = first_at_least::<K>(pages[id].keys, key);
    &&& pages.dom().contains(id)
    &&& lay.level[id] == prm.depth - k
    &&& strictly_above::<K>(lay.lower[id], key)
    &&& below::<K>(key, lay.upper[id])
    &&& k + 1 < path.len() ==> 0 <= slot < pages[id].children.len() && pages[id].children[slot]
        == path[k + 1]
}

/// Whether `path` is the way that a search for `key` takes from the root
/// to a leaf.
pub open spec fn on_path<K: Key, VV>(
    pages: Map<u32, PageView<K::V, VV>>,
    lay: Layout<K::V>,
    prm: Params,
    key: K::V,
    path: Seq<u32>,
) -> bool {
    &&& path.len() == prm.depth + 1
    &&& path[0] == prm.root
    &&& forall|k: int| 0 <= k < path.len() ==> #[trigger] step_ok::<K, VV>(pages, lay, prm, key, path, k)
}

/// The child that a search for `key` takes from an interior page lies
/// around `key` as the page does.
pub proof fn lemma_step_down<K: Key, VV>(
    pages: Map<u32, PageView<K::V, VV>>,
    lay: Layout<K::V>,
    prm: Params,
    over: Option<u32>,
    key: K::V,
    id: u32,
)
    requires
        pages.dom().contains(id),
        page_ok::<K, VV>(pages, lay, prm, over, id),
        lay.level[id] > 0,
        strictly_above::<K>(lay.lower[id], key),
        below::<K>(key, lay.upper[id]),
    ensures
        ({
            let slot = first_at_least::<K>(pages[id].keys, key);
            let c = pages[id].children[slot];
            &&& 0 <= slot < pages[id].children.len()
            &&& pages.dom().contains(c)
            &&& lay.level[c] + 1 == lay.level[id]
            &&& strictly_above::<K>(lay.lower[c], key)
            &&& below::<K>(key, lay.upper[c])
        }),
{
    let p = pages[id];
    let slot = first_at_least::<K>(p.keys, key);
    lemma_first_at_least::<K>(p.keys, key, 0);
    if lay.upper[id] is Some {
        if slot == p.keys.len() {
            assert(key_lt::<K>(p.keys[p.keys.len() - 1], key));
        }
    }
    assert(child_ok(pages, lay, id, slot));
    if slot > 0 {
        assert(key_lt::<K>(p.keys[slot - 1], key));
    }
}

/// The way that a search took is the way that the pages lay down.
pub proof fn lemma_way<K: Key, VV>(
    pages: Map<u32, PageView<K::V, VV>>,
    lay: Layout<K::V>,
    prm: Params,
    key: K::V,
    path: Seq<u32>,
    k: int,
)
    requires
        on_path::<K, VV>(pages, lay, prm, key, path),
        0 <= k <= prm.depth,
    ensures
        path.skip(k) == way::<K, VV>(pages, path[k], (prm.depth - k) as nat, key),
    decreases prm.depth - k,
{
    if k == prm.depth {
        assert(path.skip(k) =~= seq![path[k]]);
    } else {
        assert(step_ok::<K, VV>(pages, lay, prm, key, path, k));
        lemma_way::<K, VV>(pages, lay, prm, key, path, k + 1);
        assert(path.skip(k) =~= seq![path[k]] + path.skip(k + 1));
    }
}

/// The leaf that lies around `key` is the leaf that `key` belongs to.
pub proof fn lemma_leaf_place<K: Key, VV>(
    pages: Map<u32, PageView<K::V, VV>>,
    lay: Layout<K::V>,
    prm: Params,
    over: Option<u32>,
    key: K::V,
    id: u32,
)
    requires
        inv::<K, VV>(pages, lay, prm, over),
        pages.dom().contains(id),
        lay.level[id] == 0,
        strictly_above::<K>(lay.lower[id], key),
        below::<K>(key, lay.upper[id]),
    ensures
        0 <= leaf_for::<K>(lay.bounds, key) < lay.chain.len(),
        lay.chain[leaf_for::<K>(lay.bounds, key)] == id,
        lay.place[id] == leaf_for::<K>(lay.bounds, key),
{
    assert(page_ok::<K, VV>(pages, lay, prm, over, id));
    let t = lay.place[id];
    assert(link_ok(pages, lay, t));
    assert forall|j: int| 0 <= j < t implies key_lt::<K>(#[trigger] lay.bounds[j], key) by {
        if j < t - 1 {
            assert(in_order::<K>(lay.bounds[j], lay.bounds[t - 1], prm.unique));
        }
    }
    lemma_first_at_least::<K>(lay.bounds, key, t);
}

/// A product grows with its first factor.
proof fn lemma_product_le(a: int, c: int, b: int)
    by (nonlinear_arith)
    requires
        0 <= a <= c,
        0 <= b,
    ensures
        a * b <= c * b,
{
}

/// The keys of a page of the index do not descend.
proof fn lemma_keys_ascend<K: Key, VV>(
    pages: Map<u32, PageView<K::V, VV>>,
    lay: Layout<K::V>,
    prm: Params,
    id: u32,
)
    requires
        page_ok::<K, VV>(pages, lay, prm, None, id),
    ensures
        forall|i: int, j: int|
            0 <= i < j < pages[id].keys.len() ==> key_le::<K>(
                #[trigger] pages[id].keys[i],
                #[trigger] pages[id].keys[j],
            ),
{
    assert forall|i: int, j: int| 0 <= i < j < pages[id].keys.len() implies key_le::<K>(
        #[trigger] pages[id].keys[i],
        #[trigger] pages[id].keys[j],
    ) by {
        assert(in_order::<K>(pages[id].keys[i], pages[id].keys[j], prm.unique));
    }
}

/// Adds to `kvs` what a range scan gives of `leaf` from place `from` on.
/// Says whether the scan met a key beyond `max`.
fn scan_leaf<K: Key, V: Val>(
    leaf: &Page<K, V>,
    from: usize,
    Ghost(min): Ghost<K::V>,
    max: &K,
    kvs: &mut Vec<(K, V)>,
) -> (done: bool)
    requires
        from <= leaf.keys.len(),
        leaf.vals.len() == leaf.keys.len(),
        leaf.deleted.len() == leaf.keys.len(),
        ascending::<K>(leaf.deep_view().keys, false),
        forall|j: int|
            0 <= j < from ==> !in_range::<K, V::V>(
                #[trigger] entries_of(leaf.deep_view())[j],
                min,
                max.deep_view(),
            ),
        forall|j: int|
            from <= j < leaf.keys.len() ==> key_le::<K>(min, #[trigger] leaf.deep_view().keys[j]),
    ensures
        final(kvs).deep_view() == old(kvs).deep_view() + range_in::<K, V::V>(
            entries_of(leaf.deep_view()),
            min,
            max.deep_view(),
        ),
        done ==> exists|j: int|
            0 <= j < leaf.keys.len() && key_lt::<K>(
                max.deep_view(),
                #[trigger] leaf.deep_view().keys[j],
            ),
{
    let ghost entries = entries_of(leaf.deep_view());
    let ghost base = kvs.deep_view();
    let ghost hi = max.deep_view();
    let n: usize = leaf.keys.len();
    let mut i: usize = from;
    let mut done: bool = false;
    proof {
        assert(leaf.deep_view().keys.len() == n);
        assert forall|j: int| 0 <= j < entries.take(from as int).len() implies !in_range::<K, V::V>(
            #[trigger] entries.take(from as int)[j],
            min,
            hi,
        ) by {
            assert(entries.take(from as int)[j] == entries[j]);
        }
        lemma_range_in_none::<K, V::V>(entries.take(from as int), min, hi);
        assert(base + Seq::<(K::V, V::V)>::empty() =~= base);
    }
    while !done && i < n
        invariant
            from <= i <= n,
            n == leaf.keys.len(),
            leaf.vals.len() == n,
            leaf.deleted.len() == n,
            entries == entries_of(leaf.deep_view()),
            hi == max.deep_view(),
            forall|j: int| from <= j < n ==> key_le::<K>(min, #[trigger] leaf.deep_view().keys[j]),
            kvs.deep_view() == base + range_in::<K, V::V>(entries.take(i as int), min, hi),
            done ==> i < n && key_lt::<K>(hi, leaf.deep_view().keys[i as int]),
        decreases n - i + if done { 0int } else { 1int },
    {
        assert(leaf.deep_view().keys[i as int] == leaf.keys[i as int].deep_view());
        assert(leaf.deep_view().vals[i as int] == leaf.vals[i as int].deep_view());
        if max.less_than(&leaf.keys[i]) {
            done = true;
        } else {
            proof {
                lemma_range_in_step::<K, V::V>(entries, i as int, min, hi);
            }
            if !leaf.deleted[i] {
                let ghost before = kvs.deep_view();
                let k = leaf.keys[i].duplicate();
                let v = leaf.vals[i].duplicate();
                kvs.push((k, v));
                assert(kvs.deep_view() =~= before.push((entries[i as int].key, entries[i as int].val)));
                assert(kvs.deep_view() =~= base + range_in::<K, V::V>(
                    entries.take(i + 1),
                    min,
                    hi,
                ));
            }
            i += 1;
        }
    }
    proof {
        if done {
            assert forall|j: int| i <= j < entries.len() implies !in_range::<K, V::V>(
                #[trigger] entries[j],
                min,
                hi,
            ) by {
                if j > i {
                    assert(in_order::<K>(
                        leaf.deep_view().keys[i as int],
                        leaf.deep_view().keys[j],
                        false,
                    ));
                }
            }
            lemma_range_in_rest_none::<K, V::V>(entries, i as int, min, hi);
        } else {
            assert(entries.take(i as int) =~= entries);
        }
    }
    done
}

/// Makes every entry of `key` in `leaf` a tombstone. Gives their count,
/// and says whether the leaf holds a key beyond `key`.
fn mark_leaf<K: Key, V: Val>(leaf: &mut Page<K, V>, key: &K) -> (r: (usize, bool))
    requires
        old(leaf).vals.len() == old(leaf).keys.len(),
        old(leaf).deleted.len() == old(leaf).keys.len(),
        ascending::<K>(old(leaf).deep_view().keys, false),
    ensures
        final(leaf).id == old(leaf).id,
        final(leaf).ptype == old(leaf).ptype,
        final(leaf).sibling == old(leaf).sibling,
        final(leaf).deep_view().keys == old(leaf).deep_view().keys,
        final(leaf).deep_view().vals == old(leaf).deep_view().vals,
        final(leaf).deep_view().children == old(leaf).deep_view().children,
        final(leaf).deleted.len() == old(leaf).deleted.len(),
        entries_of(final(leaf).deep_view()) == tombstoned::<K, V::V>(
            entries_of(old(leaf).deep_view()),
            key.deep_view(),
        ),
        r.0 == count_in::<K, V::V>(entries_of(old(leaf).deep_view()), key.deep_view()),
        r.0 == 0 ==> final(leaf).deep_view() == old(leaf).deep_view(),
        r.1 ==> exists|j: int|
            0 <= j < old(leaf).keys.len() && key_lt::<K>(
                key.deep_view(),
                #[trigger] old(leaf).deep_view().keys[j],
            ),
        !r.1 ==> forall|j: int|
            0 <= j < old(leaf).keys.len() ==> key_le::<K>(
                #[trigger] old(leaf).deep_view().keys[j],
                key.deep_view(),
            ),
{
    let ghost kv = key.deep_view();
    let ghost before = leaf.deep_view();
    let ghost entries = entries_of(before);
    let idx: usize = leaf.find(key);
    let n: usize = leaf.keys.len();
    let mut i: usize = idx;
    let mut count: usize = 0;
    let mut stop: bool = false;
    proof {
        lemma_first_at_least::<K>(before.keys, kv, 0);
        assert(before.keys.len() == n);
        assert forall|j: int| 0 <= j < entries.take(idx as int).len() implies !same_key::<K>(
            (#[trigger] entries.take(idx as int)[j]).key,
            kv,
        ) by {
            assert(entries.take(idx as int)[j].key == before.keys[j]);
        }
        crate::walk::lemma_count_in_none::<K, V::V>(entries.take(idx as int), kv);
    }
    while !stop && i < n
        invariant
            idx <= i <= n,
            n == leaf.keys.len(),
            leaf.vals.len() == n,
            leaf.deleted.len() == n,
            kv == key.deep_view(),
            before == old(leaf).deep_view(),
            entries == entries_of(before),
            ascending::<K>(before.keys, false),
            leaf.id == before.id,
            leaf.ptype == before.ptype,
            leaf.sibling == before.sibling,
            leaf.deep_view().keys == before.keys,
            leaf.deep_view().vals == before.vals,
            leaf.deep_view().children == before.children,
            forall|j: int| 0 <= j < idx ==> key_lt::<K>(#[trigger] before.keys[j], kv),
            forall|j: int| idx <= j < i ==> same_key::<K>(#[trigger] before.keys[j], kv),
            idx < n ==> !key_lt::<K>(before.keys[idx as int], kv),
            forall|j: int| 0 <= j < n ==> leaf.deleted@[j] == (if idx <= j < i {
                true
            } else {
                before.deleted[j]
            }),
            count == i - idx,
            count == count_in::<K, V::V>(entries.take(i as int), kv),
            stop ==> i < n && key_lt::<K>(kv, before.keys[i as int]),
        decreases n - i + if stop { 0int } else { 1int },
    {
        assert(leaf.deep_view().keys[i as int] == leaf.keys[i as int].deep_view());
        assert(i > idx ==> in_order::<K>(before.keys[idx as int], before.keys[i as int], false));
        if key.less_than(&leaf.keys[i]) {
            stop = true;
        } else {
            proof {
                lemma_count_in_step::<K, V::V>(entries, i as int, kv);
            }
            leaf.deleted[i] = true;
            count += 1;
            i += 1;
        }
    }
    proof {
        let after = entries_of(leaf.deep_view());
        assert forall|j: int| i <= j < n implies !same_key::<K>(
            (#[trigger] entries[j]).key,
            kv,
        ) by {
            assert(in_order::<K>(before.keys[i as int], before.keys[j], false) || j == i);
        }
        lemma_count_in_rest_none::<K, V::V>(entries, i as int, kv);
        assert(after =~= tombstoned::<K, V::V>(entries, kv));
        if count == 0 {
            assert(leaf.deep_view().deleted =~= before.deleted);
        }
        if !stop {
            assert forall|j: int| 0 <= j < n implies key_le::<K>(
                #[trigger] before.keys[j],
                kv,
            ) by {
            }
        }
    }
    (count, stop)
}

impl<K: Key, V: Val, P: Pager<K, V>> BTree<K, V, P> {
    /// Whether `self` differs from `other` in nothing that the model or the
    /// layout can show.
    spec fn agrees(&self, other: &Self) -> bool {
        &&& self.b == other.b
        &&& self.is_unique == other.is_unique
        &&& self.depth == other.depth
        &&& self.root_id == other.root_id
        &&& self.next_id == other.next_id
        &&& self.lay@ == other.lay@
        &&& self.pager.pages() == other.pager.pages()
    }

    /// What agrees has the same model and settings.
    proof fn lemma_agrees(&self, other: &Self)
        requires
            self.agrees(other),
        ensures
            self.view() == other.view(),
            self.branching() == other.branching(),
            self.unique() == other.unique(),
            self.pages() == other.pages(),
            self.room() == other.room(),
            self.root() == other.root(),
            self.height() == other.height(),
            self.leaf_ids() == other.leaf_ids(),
            self.made() == other.made(),
            other.wf() && self.pager.wf() ==> self.wf(),
    {
    }

    /// The page stored under `id`, which the index holds.
    fn page(&mut self, id: u32) -> (page: &Page<K, V>)
        requires
            old(self).pager.wf(),
            old(self).pager.pages().contains_key(id),
        ensures
            final(self).pager.wf(),
            final(self).agrees(old(self)),
            page.deep_view() == old(self).pager.pages()[id],
    {
        match self.pager.read_page(id) {
            Ok(page) => page,
            Err(_) => unreached(),
        }
    }

    /// The way that a search for `key` takes: the interior pages from the
    /// root down, and the leaf that it ends at.
    fn descend(&mut self, key: &K) -> (r: (Vec<u32>, u32))
        requires
            old(self).wf(),
        ensures
            final(self).wf(),
            final(self).agrees(old(self)),
            r.0@.len() == old(self).depth,
            on_path::<K, V::V>(
                old(self).pager.pages(),
                old(self).lay@,
                old(self).params(),
                key.deep_view(),
                r.0@.push(r.1),
            ),
    {
        let ghost pages = self.pager.pages();
        let ghost lay = self.lay@;
        let ghost prm = self.params();
        let ghost kv = key.deep_view();
        let mut id: u32 = self.root_id;
        let mut visited: Vec<u32> = Vec::new();
        let mut k: usize = 0;
        while k < self.depth
            invariant
                k <= self.depth,
                self.wf(),
                self.agrees(old(self)),
                pages == self.pager.pages(),
                lay == self.lay@,
                prm == self.params(),
                kv == key.deep_view(),
                visited@.len() == k,
                k == 0 ==> id == prm.root,
                k > 0 ==> visited@[0] == prm.root,
                pages.dom().contains(id),
                lay.level[id] == prm.depth - k,
                strictly_above::<K>(lay.lower[id], kv),
                below::<K>(kv, lay.upper[id]),
                forall|j: int|
                    0 <= j < k ==> #[trigger] step_ok::<K, V::V>(
                        pages,
                        lay,
                        prm,
                        kv,
                        visited@.push(id),
                        j,
                    ),
            decreases self.depth - k,
        {
            proof {
                assert(page_ok::<K, V::V>(pages, lay, prm, None, id));
                lemma_step_down::<K, V::V>(pages, lay, prm, None, kv, id);
            }
            let ghost before = visited@.push(id);
            visited.push(id);
            let page = self.page(id);
            let idx: usize = page.find(key);
            let next: u32 = page.children[idx];
            proof {
                let after = visited@.push(next);
                assert forall|j: int| 0 <= j < k + 1 implies #[trigger] step_ok::<K, V::V>(
                    pages,
                    lay,
                    prm,
                    kv,
                    after,
                    j,
                ) by {
                    if j < k {
                        assert(step_ok::<K, V::V>(pages, lay, prm, kv, before, j));
                        assert(after[j] == before[j]);
                        assert(after[j + 1] == before[j + 1]);
                    }
                }
            }
            id = next;
            k += 1;
        }
        proof {
            let path = visited@.push(id);
            assert forall|j: int| 0 <= j < path.len() implies #[trigger] step_ok::<K, V::V>(
                pages,
                lay,
                prm,
                kv,
                path,
                j,
            ) by {
            }
        }
        (visited, id)
    }

    /// The leaf that `key` belongs to.
    fn find_leaf(&mut self, key: &K) -> (id: u32)
        requires
            old(self).wf(),
        ensures
            final(self).wf(),
            final(self).agrees(old(self)),
            old(self).pager.pages().contains_key(id),
            0 <= leaf_for::<K>(old(self).lay@.bounds, key.deep_view()) < old(self).lay@.chain.len(),
            id == old(self).lay@.chain[leaf_for::<K>(old(self).lay@.bounds, key.deep_view())],
    {
        let (visited, id) = self.descend(key);
        proof {
            let path = visited@.push(id);
            assert(step_ok::<K, V::V>(
                old(self).pager.pages(),
                old(self).lay@,
                old(self).params(),
                key.deep_view(),
                path,
                old(self).depth as int,
            ));
            lemma_leaf_place::<K, V::V>(
                old(self).pager.pages(),
                old(self).lay@,
                old(self).params(),
                None,
                key.deep_view(),
                id,
            );
        }
        id
    }

    /// The value of `key`: that of the last entry of `key` in its leaf,
    /// which is the one that came last, where it is no tombstone. Writes
    /// nothing.
    pub fn find(&mut self, key: &K) -> (r: Option<V>)
        requires
            old(self).wf(),
        ensures
            final(self).wf(),
            final(self).view() == old(self).view(),
            final(self).pages() == old(self).pages(),
            final(self).branching() == old(self).branching(),
            final(self).unique() == old(self).unique(),
            final(self).room() == old(self).room(),
            final(self).params() == old(self).params(),
            match r {
                Some(v) => find_in::<K, V::V>(old(self).view(), key.deep_view()) == Some(
                    v.deep_view(),
                ),
                None => find_in::<K, V::V>(old(self).view(), key.deep_view()) is None,
            },
    {
        let id = self.find_leaf(key);
        let ghost mid = *self;
        let ghost t = leaf_for::<K>(old(self).lay@.bounds, key.deep_view());
        let leaf = self.page(id);
        proof {
            assert(keys_of(entries_of(leaf.deep_view())) =~= leaf.deep_view().keys);
            assert(old(self).view().leaves[t] == entries_of(leaf.deep_view()));
            assert(page_ok::<K, V::V>(
                old(self).pager.pages(),
                old(self).lay@,
                old(self).params(),
                None,
                id,
            ));
            assert(link_ok(old(self).pager.pages(), old(self).lay@, t));
            lemma_first_after::<K>(leaf.deep_view().keys, key.deep_view(), 0);
        }
        proof {
            lemma_keys_ascend::<K, V::V>(
                old(self).pager.pages(),
                old(self).lay@,
                old(self).params(),
                id,
            );
        }
        let r = match leaf.search(key) {
            Ok(idx) => {
                if leaf.deleted[idx] {
                    None
                } else {
                    Some(leaf.vals[idx].duplicate())
                }
            },
            Err(_) => None,
        };
        proof {
            self.lemma_agrees(&mid);
            mid.lemma_agrees(old(self));
        }
        r
    }
}

impl<K: Key, V: Val, P: Pager<K, V>> BTree<K, V, P> {
    /// Whether `self` differs from `other` in its pages at most.
    spec fn framed(&self, other: &Self) -> bool {
        &&& self.b == other.b
        &&& self.is_unique == other.is_unique
        &&& self.depth == other.depth
        &&& self.root_id == other.root_id
        &&& self.next_id == other.next_id
        &&& self.lay@ == other.lay@
    }

    /// The entries that are no tombstones and whose keys lie from `min` to
    /// `max`, both included: their keys and values, in ascending order of
    /// the keys.
    pub fn find_range(&mut self, min: &K, max: &K) -> (kvs: Vec<(K, V)>)
        requires
            old(self).wf(),
        ensures
            final(self).wf(),
            final(self).view() == old(self).view(),
            final(self).pages() == old(self).pages(),
            final(self).branching() == old(self).branching(),
            final(self).unique() == old(self).unique(),
            final(self).room() == old(self).room(),
            final(self).params() == old(self).params(),
            kvs.deep_view() == range_of::<K, V::V>(
                old(self).view(),
                min.deep_view(),
                max.deep_view(),
            ),
    {
        let ghost view = self.view();
        let ghost pages = self.pager.pages();
        let ghost lay = self.lay@;
        let ghost prm = self.params();
        let ghost lo = min.deep_view();
        let ghost hi = max.deep_view();
        let ghost t0 = leaf_for::<K>(lay.bounds, lo);
        let ghost n = lay.chain.len() as int;
        let mut kvs: Vec<(K, V)> = Vec::new();
        let mut id: u32 = self.find_leaf(min);
        let mut first: bool = true;
        let ghost mut t: int = t0;
        proof {
            lemma_view_ok::<K, V::V>(pages, lay, prm);
            lemma_first_at_least::<K>(lay.bounds, lo, 0);
            assert forall|u: int, i: int| 0 <= u < t0 && 0 <= i < view.leaves[u].len() implies !in_range::<
                K,
                V::V,
            >(#[trigger] view.leaves[u][i], lo, hi) by {
                lemma_leaves_in_order::<K, V::V>(view, prm.b, prm.unique, u, i, t0 - 1);
                assert(key_lt::<K>(lay.bounds[t0 - 1], lo));
            }
            lemma_range_upto_none::<K, V::V>(view.leaves, 0, t0, lo, hi);
            assert(kvs.deep_view() =~= Seq::<(K::V, V::V)>::empty());
        }
        loop
            invariant_except_break
                0 <= t < n,
                id == lay.chain[t],
                first ==> t == t0,
                !first ==> t > t0,
                kvs.deep_view() == range_upto::<K, V::V>(view.leaves, t, lo, hi),
            invariant
                self.wf(),
                self.agrees(old(self)),
                view == old(self).view(),
                pages == old(self).pager.pages(),
                lay == old(self).lay@,
                prm == old(self).params(),
                lo == min.deep_view(),
                hi == max.deep_view(),
                t0 == leaf_for::<K>(lay.bounds, lo),
                0 <= t0 < n,
                n == lay.chain.len(),
                view_ok::<K, V::V>(view, prm.b, prm.unique),
            ensures
                kvs.deep_view() == range_of::<K, V::V>(view, lo, hi),
            decreases n - t,
        {
            proof {
                assert(link_ok(pages, lay, t));
                assert(page_ok::<K, V::V>(pages, lay, prm, None, id));
            }
            let leaf = self.page(id);
            let ghost entries = view.leaves[t];
            assert(entries == entries_of(leaf.deep_view()));
            proof {
                lemma_keys_ascend::<K, V::V>(pages, lay, prm, id);
            }
            let from: usize = if first {
                leaf.lower_bound(min)
            } else {
                0
            };
            proof {
                assert(keys_of(entries) =~= leaf.deep_view().keys);
                lemma_first_at_least::<K>(leaf.deep_view().keys, lo, 0);
                lemma_first_at_least::<K>(lay.bounds, lo, 0);
                assert forall|j: int| from <= j < leaf.keys.len() implies key_le::<K>(
                    lo,
                    #[trigger] leaf.deep_view().keys[j],
                ) by {
                    if first {
                        if j > from {
                            assert(in_order::<K>(
                                keys_of(entries)[from as int],
                                keys_of(entries)[j],
                                prm.unique,
                            ));
                        }
                    } else {
                        lemma_leaves_in_order::<K, V::V>(view, prm.b, prm.unique, t, j, t0);
                        assert(entries[j].key == leaf.deep_view().keys[j]);
                    }
                }
                assert forall|j: int| 0 <= j < from implies !in_range::<K, V::V>(
                    #[trigger] entries[j],
                    lo,
                    hi,
                ) by {
                    assert(entries[j].key == leaf.deep_view().keys[j]);
                }
                assert(ascending::<K>(leaf.deep_view().keys, false)) by {
                    assert forall|i: int, j: int| 0 <= i < j < leaf.deep_view().keys.len() implies in_order::<
                        K,
                    >(#[trigger] leaf.deep_view().keys[i], #[trigger] leaf.deep_view().keys[j], false) by {
                        assert(in_order::<K>(keys_of(entries)[i], keys_of(entries)[j], prm.unique));
                    }
                }
            }
            let done = scan_leaf::<K, V>(leaf, from, Ghost(lo), max, &mut kvs);
            let next = leaf.sibling;
            proof {
                if done {
                    let j = choose|j: int|
                        0 <= j < leaf.keys.len() && key_lt::<K>(
                            hi,
                            #[trigger] leaf.deep_view().keys[j],
                        );
                    assert(entries[j].key == leaf.deep_view().keys[j]);
                    assert forall|u: int, i: int|
                        t + 1 <= u < n && 0 <= i < view.leaves[u].len() implies !in_range::<K, V::V>(
                        #[trigger] view.leaves[u][i],
                        lo,
                        hi,
                    ) by {
                        lemma_leaves_in_order::<K, V::V>(view, prm.b, prm.unique, t, j, t);
                        lemma_leaves_in_order::<K, V::V>(view, prm.b, prm.unique, u, i, t);
                    }
                    lemma_range_upto_none::<K, V::V>(view.leaves, t + 1, n, lo, hi);
                }
            }
            if done {
                break;
            }
            match next {
                Some(sid) => {
                    id = sid;
                    first = false;
                    proof {
                        t = t + 1;
                    }
                },
                None => {
                    break;
                },
            }
        }
        proof {
            self.lemma_agrees(old(self));
        }
        kvs
    }

    /// Makes every entry of `key` a tombstone and gives their count, which
    /// includes the entries that were tombstones before. Fails where the
    /// index holds no entry of `key`.
    pub fn delete(&mut self, key: &K) -> (r: Result<usize, KeyNotFoundError>)
        requires
            old(self).wf(),
        ensures
            final(self).wf(),
            final(self).view() == delete_from::<K, V::V>(old(self).view(), key.deep_view()),
            final(self).branching() == old(self).branching(),
            final(self).unique() == old(self).unique(),
            final(self).room() == old(self).room(),
            final(self).params() == old(self).params(),
            final(self).leaf_ids() == old(self).leaf_ids(),
            final(self).pages().dom() == old(self).pages().dom(),
            forall|id: u32| #[trigger]
                old(self).pages().contains_key(id) ==> final(self).pages()[id] == marked::<K, V::V>(
                    old(self).pages()[id],
                    key.deep_view(),
                ),
            match r {
                Ok(n) => n > 0 && n == count_key::<K, V::V>(old(self).view(), key.deep_view()),
                Err(_) => count_key::<K, V::V>(old(self).view(), key.deep_view()) == 0,
            },
    {
        let ghost view = self.view();
        let ghost pages0 = self.pager.pages();
        let ghost lay = self.lay@;
        let ghost prm = self.params();
        let ghost kv = key.deep_view();
        let ghost t0 = leaf_for::<K>(lay.bounds, kv);
        let ghost n = lay.chain.len() as int;
        let mut n_deleted: usize = 0;
        let mut id: u32 = self.find_leaf(key);
        let ghost mut t: int = t0;
        proof {
            lemma_view_ok::<K, V::V>(pages0, lay, prm);
            lemma_first_at_least::<K>(lay.bounds, kv, 0);
            lemma_chain_short::<K, V::V>(pages0, lay, prm);
            lemma_count_upto_bound::<K, V::V>(view.leaves, n, kv, prm.b);
            assert(n * prm.b <= prm.next * prm.b) by (nonlinear_arith)
                requires
                    0 <= n <= prm.next,
                    0 <= prm.b,
            ;
            assert forall|u: int, i: int| 0 <= u < t0 && 0 <= i < view.leaves[u].len() implies !same_key::<
                K,
            >((#[trigger] view.leaves[u][i]).key, kv) by {
                lemma_leaves_in_order::<K, V::V>(view, prm.b, prm.unique, u, i, t0 - 1);
                assert(key_lt::<K>(lay.bounds[t0 - 1], kv));
            }
            lemma_count_upto_none::<K, V::V>(view.leaves, 0, t0, kv);
            assert forall|u: int| 0 <= u < t0 implies #[trigger] view.leaves[u] == tombstoned::<K, V::V>(
                view.leaves[u],
                kv,
            ) by {
                lemma_tombstoned_none::<K, V::V>(view.leaves[u], kv);
            }
        }
        loop
            invariant_except_break
                0 <= t < n,
                id == lay.chain[t],
                n_deleted == count_upto::<K, V::V>(view.leaves, t, kv),
                forall|x: u32| #[trigger]
                    pages0.contains_key(x) ==> self.pager.pages()[x] == if lay.level[x] == 0 && t0
                        <= lay.place[x] < t {
                        marked::<K, V::V>(pages0[x], kv)
                    } else {
                        pages0[x]
                    },
                forall|u: int|
                    0 <= u < t ==> #[trigger] self.view().leaves[u] == tombstoned::<K, V::V>(
                        view.leaves[u],
                        kv,
                    ),
                forall|u: int| t <= u < n ==> #[trigger] self.view().leaves[u] == view.leaves[u],
            invariant
                self.wf(),
                self.framed(old(self)),
                view == old(self).view(),
                lay == old(self).lay@,
                prm == old(self).params(),
                kv == key.deep_view(),
                t0 == leaf_for::<K>(lay.bounds, kv),
                0 <= t0 < n,
                t0 <= t,
                n == lay.chain.len(),
                view_ok::<K, V::V>(view, prm.b, prm.unique),
                count_key::<K, V::V>(view, kv) <= usize::MAX,
                self.view().leaves.len() == n,
                pages0 == old(self).pager.pages(),
                inv::<K, V::V>(pages0, lay, prm, None),
                view == view_of(pages0, lay),
                forall|u: int, i: int|
                    0 <= u < t0 && 0 <= i < view.leaves[u].len() ==> !same_key::<K>(
                        (#[trigger] view.leaves[u][i]).key,
                        kv,
                    ),
                self.pager.pages().dom() == pages0.dom(),
            ensures
                forall|x: u32| #[trigger]
                    pages0.contains_key(x) ==> self.pager.pages()[x] == marked::<K, V::V>(
                        pages0[x],
                        kv,
                    ),
                n_deleted == count_key::<K, V::V>(view, kv),
                forall|u: int|
                    0 <= u < n ==> #[trigger] self.view().leaves[u] == tombstoned::<K, V::V>(
                        view.leaves[u],
                        kv,
                    ),
            decreases n - t,
        {
            let ghost pages = self.pager.pages();
            let ghost here = *self;
            proof {
                assert(link_ok(pages, lay, t));
                assert(page_ok::<K, V::V>(pages, lay, prm, None, id));
                assert(self.view().leaves[t] == view.leaves[t]);
            }
            let mut leaf = self.page(id).duplicate();
            let ghost entries = view.leaves[t];
            proof {
                assert(entries == entries_of(leaf.deep_view()));
                assert(keys_of(entries) =~= leaf.deep_view().keys);
                assert(ascending::<K>(leaf.deep_view().keys, false)) by {
                    assert forall|i: int, j: int| 0 <= i < j < leaf.deep_view().keys.len() implies in_order::<
                        K,
                    >(#[trigger] leaf.deep_view().keys[i], #[trigger] leaf.deep_view().keys[j], false) by {
                        assert(in_order::<K>(keys_of(entries)[i], keys_of(entries)[j], prm.unique));
                    }
                }
                lemma_count_upto_mono::<K, V::V>(view.leaves, t + 1, n, kv);
            }
            let ghost before = leaf.deep_view();
            let (count, stop) = mark_leaf::<K, V>(&mut leaf, key);
            if count > 0 {
                self.pager.write_page(&leaf);
                proof {
                    lemma_leaf_rewritten::<K, V::V>(pages, lay, prm, None, id, leaf.deep_view());
                }
            }
            n_deleted += count;
            proof {
                assert forall|u: int| 0 <= u < n && u != t implies #[trigger] self.view().leaves[u]
                    == here.view().leaves[u] by {
                    assert(link_ok(pages, lay, u));
                    assert(link_ok(pages, lay, t));
                }
                assert(self.view().leaves[t] == tombstoned::<K, V::V>(view.leaves[t], kv));
            }
            let next = leaf.sibling;
            proof {
                let now = self.pager.pages();
                assert(before == pages0[id]);
                assert(leaf.deep_view().deleted =~= marked::<K, V::V>(before, kv).deleted) by {
                    assert forall|i: int| 0 <= i < before.deleted.len() implies leaf.deep_view().deleted[i]
                        == (before.deleted[i] || same_key::<K>(before.keys[i], kv)) by {
                        assert(entries_of(leaf.deep_view())[i] == tombstoned::<K, V::V>(
                            entries_of(before),
                            kv,
                        )[i]);
                    }
                }
                assert(leaf.deep_view() == marked::<K, V::V>(before, kv));
                assert forall|x: u32| #[trigger] pages0.contains_key(x) implies now[x]
                    == if lay.level[x] == 0 && t0 <= lay.place[x] < t + 1 {
                    marked::<K, V::V>(pages0[x], kv)
                } else {
                    pages0[x]
                } by {
                    assert(page_ok::<K, V::V>(pages0, lay, prm, None, x));
                    assert(pages[x] == if lay.level[x] == 0 && t0 <= lay.place[x] < t {
                        marked::<K, V::V>(pages0[x], kv)
                    } else {
                        pages0[x]
                    });
                }
                if !stop && next is None {
                    lemma_marked_rest::<K, V::V>(pages0, lay, prm, now, kv, t0, t + 1);
                }
                if stop {
                    let j = choose|j: int|
                        0 <= j < before.keys.len() && key_lt::<K>(kv, #[trigger] before.keys[j]);
                    assert(entries[j].key == before.keys[j]);
                    assert forall|u: int, i: int|
                        t + 1 <= u < n && 0 <= i < view.leaves[u].len() implies !same_key::<K>(
                        (#[trigger] view.leaves[u][i]).key,
                        kv,
                    ) by {
                        lemma_leaves_in_order::<K, V::V>(view, prm.b, prm.unique, t, j, t);
                        lemma_leaves_in_order::<K, V::V>(view, prm.b, prm.unique, u, i, t);
                    }
                    lemma_count_upto_none::<K, V::V>(view.leaves, t + 1, n, kv);
                    assert forall|u: int| t + 1 <= u < n implies #[trigger] self.view().leaves[u]
                        == tombstoned::<K, V::V>(view.leaves[u], kv) by {
                        lemma_tombstoned_none::<K, V::V>(view.leaves[u], kv);
                    }
                    lemma_marked_rest::<K, V::V>(pages0, lay, prm, now, kv, t0, t + 1);
                }
            }
            if stop {
                break;
            }
            match next {
                Some(sid) => {
                    id = sid;
                    proof {
                        t = t + 1;
                    }
                },
                None => {
                    break;
                },
            }
        }
        proof {
            assert(self.view().leaves =~= delete_from::<K, V::V>(view, kv).leaves);
        }
        if n_deleted > 0 {
            Ok(n_deleted)
        } else {
            Err(KeyNotFoundError)
        }
    }
}

/// Puts a new entry of `key` with `val` at place `idx` of the leaf `page`.
fn splice<K: Key, V: Val>(page: &mut Page<K, V>, idx: usize, key: K, val: V)
    requires
        idx <= old(page).keys.len(),
        old(page).vals.len() == old(page).keys.len(),
        old(page).deleted.len() == old(page).keys.len(),
    ensures
        final(page).id == old(page).id,
        final(page).ptype == old(page).ptype,
        final(page).sibling == old(page).sibling,
        final(page).children@ == old(page).children@,
        final(page).vals.len() == final(page).keys.len(),
        final(page).deleted.len() == final(page).keys.len(),
        final(page).deep_view().keys == old(page).deep_view().keys.insert(
            idx as int,
            key.deep_view(),
        ),
        entries_of(final(page).deep_view()) == entries_of(old(page).deep_view()).insert(
            idx as int,
            Entry { key: key.deep_view(), val: val.deep_view(), deleted: false },
        ),
{
    let ghost before = page.deep_view();
    let ghost kv = key.deep_view();
    let ghost vv = val.deep_view();
    page.keys.insert(idx, key);
    page.vals.insert(idx, val);
    page.deleted.insert(idx, false);
    proof {
        assert(page.deep_view().keys =~= before.keys.insert(idx as int, kv));
        assert(page.deep_view().vals =~= before.vals.insert(idx as int, vv));
        assert(entries_of(page.deep_view()) =~= entries_of(before).insert(
            idx as int,
            Entry { key: kv, val: vv, deleted: false },
        ));
    }
}

/// Drops the last tombstone of the leaf `page`, where it holds one.
fn compact<K: Key, V: Val>(page: &mut Page<K, V>)
    requires
        old(page).vals.len() == old(page).keys.len(),
        old(page).deleted.len() == old(page).keys.len(),
    ensures
        final(page).id == old(page).id,
        final(page).ptype == old(page).ptype,
        final(page).sibling == old(page).sibling,
        final(page).children@ == old(page).children@,
        final(page).vals.len() == final(page).keys.len(),
        final(page).deleted.len() == final(page).keys.len(),
        entries_of(final(page).deep_view()) == compacted(entries_of(old(page).deep_view())),
        final(page).deep_view().keys == if last_tombstone(entries_of(old(page).deep_view())) >= 0 {
            old(page).deep_view().keys.remove(last_tombstone(entries_of(old(page).deep_view())))
        } else {
            old(page).deep_view().keys
        },
        -1 <= last_tombstone(entries_of(old(page).deep_view())) < old(page).keys.len(),
{
    let ghost before = page.deep_view();
    let ghost entries = entries_of(before);
    let mut q: usize = page.deleted.len();
    while q > 0 && !page.deleted[q - 1]
        invariant
            q <= page.deleted.len(),
            page.deep_view() == before,
            page.vals.len() == page.keys.len(),
            page.deleted.len() == page.keys.len(),
            forall|j: int| q <= j < page.deleted.len() ==> !(#[trigger] page.deleted@[j]),
        decreases q,
    {
        q -= 1;
    }
    proof {
        assert(before.keys.len() == page.keys.len());
        assert forall|j: int| q - 1 < j < entries.len() implies !(#[trigger] entries[j]).deleted by {
            assert(!page.deleted@[j]);
        }
        lemma_last_tombstone(entries, q - 1);
    }
    if q > 0 {
        let at: usize = q - 1;
        page.deleted.remove(at);
        page.keys.remove(at);
        page.vals.remove(at);
        proof {
            assert(page.deep_view().keys =~= before.keys.remove(at as int));
            assert(page.deep_view().vals =~= before.vals.remove(at as int));
            assert(entries_of(page.deep_view()) =~= entries.remove(at as int));
        }
    }
}

/// The way that a search took down to a leaf is the way up from the leaf.
proof fn lemma_climb_start<K: Key, VV>(
    pages: Map<u32, PageView<K::V, VV>>,
    lay: Layout<K::V>,
    prm: Params,
    key: K::V,
    visited: Seq<u32>,
    id: u32,
    page: PageView<K::V, VV>,
)
    requires
        on_path::<K, VV>(pages, lay, prm, key, visited.push(id)),
    ensures
        climb_ok(pages.insert(id, page), lay, prm, visited, id),
        lay.level[id] == 0,
        visited.len() == prm.depth,
        pages.dom().contains(id),
        strictly_above::<K>(lay.lower[id], key),
        below::<K>(key, lay.upper[id]),
{
    let path = visited.push(id);
    let after = pages.insert(id, page);
    assert(step_ok::<K, VV>(pages, lay, prm, key, path, prm.depth as int));
    assert(path[prm.depth as int] == id);
    assert(step_ok::<K, VV>(pages, lay, prm, key, path, 0));
    assert forall|k: int| 0 <= k < visited.len() implies #[trigger] rung_ok(
        after,
        lay,
        prm,
        visited,
        id,
        k,
    ) by {
        assert(step_ok::<K, VV>(pages, lay, prm, key, path, k));
        let y = visited[k];
        assert(path[k] == y);
        assert(path[k + 1] == next_down(visited, id, k));
        let slot = first_at_least::<K>(pages[y].keys, key);
        assert(y != id);
        assert(is_child(after, y, slot, next_down(visited, id, k)));
    }
}

impl<K: Key, V: Val, P: Pager<K, V>> BTree<K, V, P> {
    /// Inserts `key` with `val`. An index of unique keys refuses a key that
    /// it holds in an entry that is no tombstone, and takes a key that it
    /// holds in a tombstone by giving that entry the new value. Otherwise
    /// the new entry is put after the last entry of `key` in its leaf; the
    /// leaf then drops its last tombstone, and is split where it holds `b`
    /// entries.
    pub fn insert(&mut self, key: K, val: V) -> (r: Result<(), DuplicateKeyError>)
        requires
            old(self).wf(),
            old(self).room(),
        ensures
            final(self).wf(),
            final(self).branching() == old(self).branching(),
            final(self).unique() == old(self).unique(),
            old(self).made() <= final(self).made() <= old(self).made() + old(self).height() + 2,
            old(self).height() <= final(self).height() <= old(self).height() + 1,
            (final(self).pages(), final(self).params()) == inserted::<K, V::V>(
                old(self).pages(),
                old(self).params(),
                key.deep_view(),
                val.deep_view(),
            ),
            match r {
                Ok(_) => !is_duplicate::<K, V::V>(
                    old(self).view(),
                    key.deep_view(),
                    old(self).unique(),
                ) && final(self).view() == insert_into::<K, V::V>(
                    old(self).view(),
                    key.deep_view(),
                    val.deep_view(),
                    old(self).branching(),
                    old(self).unique(),
                ),
                Err(_) => is_duplicate::<K, V::V>(
                    old(self).view(),
                    key.deep_view(),
                    old(self).unique(),
                ) && final(self).view() == old(self).view() && final(self).pages() == old(
                    self,
                ).pages() && final(self).params() == old(self).params(),
            },
    {
        let ghost kv = key.deep_view();
        let ghost vv = val.deep_view();
        let ghost view = self.view();
        let ghost pages = self.pager.pages();
        let ghost lay = self.lay@;
        let ghost prm = self.params();
        let (visited, id) = self.descend(&key);
        let ghost t = lay.place[id];
        proof {
            let path = visited@.push(id);
            lemma_way::<K, V::V>(pages, lay, prm, kv, path, 0);
            assert(path.skip(0) =~= path);
            assert(path.last() == id);
            assert(path.drop_last() =~= visited@);
            lemma_climb_start::<K, V::V>(pages, lay, prm, kv, visited@, id, pages[id]);
            lemma_leaf_place::<K, V::V>(pages, lay, prm, None, kv, id);
            assert(page_ok::<K, V::V>(pages, lay, prm, None, id));
            assert(link_ok(pages, lay, t));
        }
        let mut page = self.page(id).duplicate();
        let ghost leaf = entries_of(pages[id]);
        proof {
            assert(view.leaves[t] == leaf);
            assert(keys_of(leaf) =~= pages[id].keys);
            lemma_first_at_least::<K>(pages[id].keys, kv, 0);
        }
        proof {
            lemma_keys_ascend::<K, V::V>(pages, lay, prm, id);
        }
        proof {
            lemma_first_after::<K>(pages[id].keys, kv, 0);
        }
        let search = page.search(&key);
        let found: bool = search.is_ok();
        let idx: usize = match search {
            Ok(i) => i + 1,
            Err(i) => i,
        };
        assert(idx == slot_for::<K, V::V>(leaf, kv));
        assert(found == holds::<K, V::V>(leaf, idx - 1, kv));
        if found && self.is_unique {
            let last: usize = idx - 1;
            if page.deleted[last] {
                let ghost before = page.deep_view();
                page.vals[last] = val;
                page.deleted[last] = false;
                proof {
                    assert(page.deep_view().keys =~= before.keys);
                    assert(entries_of(page.deep_view()) =~= leaf.update(
                        last as int,
                        Entry { key: leaf[last as int].key, val: vv, deleted: false },
                    ));
                    lemma_leaf_replaced::<K, V::V>(pages, lay, prm, None, id, page.deep_view());
                    let shown = with_entries(
                        pages[id],
                        leaf.update(
                            last as int,
                            Entry { key: leaf[last as int].key, val: vv, deleted: false },
                        ),
                    );
                    assert(page.deep_view().keys =~= shown.keys);
                    assert(page.deep_view().vals =~= shown.vals);
                    assert(page.deep_view().deleted =~= shown.deleted);
                    assert(page.deep_view() == shown);
                }
                self.pager.write_page(&page);
                return Ok(());
            } else {
                return Err(DuplicateKeyError);
            }
        }
        splice::<K, V>(&mut page, idx, key, val);
        let ghost spliced = page.deep_view();
        compact::<K, V>(&mut page);
        proof {
            let s = (prm.b / 2) as int;
            lemma_keys_insert::<K>(pages[id].keys, lay.lower[id], lay.upper[id], prm.unique, s, kv);
            let q = last_tombstone(entries_of(spliced));
            if q >= 0 {
                lemma_keys_remove::<K>(spliced.keys, lay.lower[id], lay.upper[id], prm.unique, s, q);
            }
            assert(page.deep_view().children =~= Seq::empty());
            let shown = with_entries(
                pages[id],
                compacted(leaf.insert(idx as int, Entry { key: kv, val: vv, deleted: false })),
            );
            let grown = entries_of(page.deep_view());
            assert(page.deep_view().keys =~= shown.keys) by {
                assert forall|i: int| 0 <= i < grown.len() implies page.deep_view().keys[i]
                    == grown[i].key by {
                }
            }
            assert(page.deep_view().vals =~= shown.vals) by {
                assert forall|i: int| 0 <= i < grown.len() implies page.deep_view().vals[i]
                    == grown[i].val by {
                }
            }
            assert(page.deep_view().deleted =~= shown.deleted) by {
                assert forall|i: int| 0 <= i < grown.len() implies page.deep_view().deleted[i]
                    == grown[i].deleted by {
                }
            }
            assert(page.deep_view() == shown);
        }
        if page.keys.len() < self.b {
            proof {
                lemma_leaf_replaced::<K, V::V>(pages, lay, prm, None, id, page.deep_view());
            }
            self.pager.write_page(&page);
            Ok(())
        } else {
            proof {
                lemma_leaf_replaced::<K, V::V>(pages, lay, prm, Some(id), id, page.deep_view());
                lemma_climb_start::<K, V::V>(pages, lay, prm, kv, visited@, id, page.deep_view());
                let grown = entries_of(page.deep_view());
                let held = with_leaf(view, t, grown);
                assert(with_split(held, t, grown, prm.b).leaves =~= with_split(
                    view,
                    t,
                    grown,
                    prm.b,
                ).leaves);
            }
            self.propagate(page, visited);
            Ok(())
        }
    }

    /// Whether `self` differs from `other` in its counters at most.
    spec fn settled(&self, other: &Self) -> bool {
        &&& self.b == other.b
        &&& self.is_unique == other.is_unique
        &&& self.lay@ == other.lay@
        &&& self.pager == other.pager
    }

    /// Moves the upper half of `page`, the keys after the middle key and
    /// what goes with them, to a new page, and gives that page.
    fn divide_page(&mut self, page: &mut Page<K, V>) -> (r: Page<K, V>)
        requires
            old(page).keys.len() > old(self).b / 2,
            old(page).ptype == PageType::Leaf ==> old(page).vals.len() == old(page).keys.len()
                && old(page).deleted.len() == old(page).keys.len(),
            old(page).ptype == PageType::Interior ==> old(page).children.len() > old(self).b / 2,
            old(self).next_id < u32::MAX,
        ensures
            final(self).settled(old(self)),
            final(self).depth == old(self).depth,
            final(self).root_id == old(self).root_id,
            final(self).next_id == old(self).next_id + 1,
            final(page).deep_view() == left_half(
                old(page).deep_view(),
                (old(self).b / 2) as int,
                old(self).next_id,
            ),
            r.deep_view() == right_half(
                old(page).deep_view(),
                (old(self).b / 2) as int,
                old(self).next_id,
            ),
    {
        let ghost before = page.deep_view();
        let split_idx: usize = self.b / 2;
        let id: u32 = self.next_id;
        self.next_id = self.next_id + 1;
        let keys = page.keys.split_off(split_idx + 1);
        let r = match page.ptype {
            PageType::Leaf => {
                let vals = page.vals.split_off(split_idx + 1);
                let deleted = page.deleted.split_off(split_idx + 1);
                let r = Page {
                    id,
                    ptype: page.ptype,
                    deleted,
                    keys,
                    vals,
                    children: Vec::new(),
                    sibling: page.sibling,
                };
                page.sibling = Some(id);
                r
            },
            PageType::Interior => {
                let children = page.children.split_off(split_idx + 1);
                Page {
                    id,
                    ptype: page.ptype,
                    deleted: Vec::new(),
                    keys,
                    vals: Vec::new(),
                    children,
                    sibling: page.sibling,
                }
            },
        };
        proof {
            let s = split_idx as int;
            assert(page.deep_view().keys =~= before.keys.take(s + 1));
            assert(r.deep_view().keys =~= before.keys.skip(s + 1));
            if before.ptype == PageType::Leaf {
                assert(page.deep_view().vals =~= before.vals.take(s + 1));
                assert(r.deep_view().vals =~= before.vals.skip(s + 1));
                assert(page.deep_view().deleted =~= before.deleted.take(s + 1));
                assert(r.deep_view().deleted =~= before.deleted.skip(s + 1));
                assert(r.deep_view().children =~= Seq::empty());
            } else {
                assert(page.deep_view().children =~= before.children.take(s + 1));
                assert(r.deep_view().children =~= before.children.skip(s + 1));
                assert(r.deep_view().vals =~= Seq::empty());
                assert(r.deep_view().deleted =~= Seq::empty());
            }
        }
        r
    }

    /// Splits `page` and promotes its middle key into `parent`, with the
    /// new right half after `page` among the children. Gives the right
    /// half.
    fn split_page(&mut self, page: &mut Page<K, V>, parent: &mut Page<K, V>) -> (r: Page<K, V>)
        requires
            old(page).keys.len() >= old(self).b,
            old(page).keys.len() > old(self).b / 2,
            old(page).ptype == PageType::Leaf ==> old(page).vals.len() == old(page).keys.len()
                && old(page).deleted.len() == old(page).keys.len(),
            old(page).ptype == PageType::Interior ==> old(page).children.len() > old(self).b / 2,
            old(self).next_id < u32::MAX,
            ({
                let idx = first_at_least::<K>(
                    old(parent).deep_view().keys,
                    old(page).deep_view().keys[(old(self).b / 2) as int],
                );
                0 <= idx < old(parent).children.len() && old(parent).children@[idx] == old(
                    page,
                ).id
            }),
        ensures
            final(self).settled(old(self)),
            final(self).depth == old(self).depth,
            final(self).root_id == old(self).root_id,
            final(self).next_id == old(self).next_id + 1,
            final(page).deep_view() == left_half(
                old(page).deep_view(),
                (old(self).b / 2) as int,
                old(self).next_id,
            ),
            r.deep_view() == right_half(
                old(page).deep_view(),
                (old(self).b / 2) as int,
                old(self).next_id,
            ),
            final(parent).deep_view() == parent_grown(
                old(parent).deep_view(),
                first_at_least::<K>(
                    old(parent).deep_view().keys,
                    old(page).deep_view().keys[(old(self).b / 2) as int],
                ),
                old(page).deep_view().keys[(old(self).b / 2) as int],
                old(self).next_id,
            ),
    {
        let ghost before = parent.deep_view();
        let split_idx: usize = self.b / 2;
        assert(page.deep_view().keys[split_idx as int] == page.keys[split_idx as int].deep_view());
        let split_key = page.keys[split_idx].duplicate();
        let ghost k = split_key.deep_view();
        let sibling = self.divide_page(page);
        let idx: usize = parent.find(&split_key);
        proof {
            lemma_first_at_least::<K>(before.keys, k, 0);
        }
        parent.keys.insert(idx, split_key);
        parent.children.insert(idx, page.id);
        parent.children[idx + 1] = sibling.id;
        proof {
            assert(parent.deep_view().keys =~= before.keys.insert(idx as int, k));
            assert(parent.deep_view().children =~= before.children.insert(idx + 1, sibling.id));
        }
        sibling
    }

    /// Splits `page`, the root, and makes a new root above the two halves.
    /// Gives the right half and the new root.
    fn split_root(&mut self, page: &mut Page<K, V>) -> (r: (Page<K, V>, Page<K, V>))
        requires
            old(page).keys.len() > old(self).b / 2,
            old(page).ptype == PageType::Leaf ==> old(page).vals.len() == old(page).keys.len()
                && old(page).deleted.len() == old(page).keys.len(),
            old(page).ptype == PageType::Interior ==> old(page).children.len() > old(self).b / 2,
            old(self).next_id + 1 < u32::MAX,
            old(self).depth < usize::MAX,
        ensures
            final(self).settled(old(self)),
            final(self).depth == old(self).depth + 1,
            final(self).root_id == old(self).next_id + 1,
            final(self).next_id == old(self).next_id + 2,
            final(page).deep_view() == left_half(
                old(page).deep_view(),
                (old(self).b / 2) as int,
                old(self).next_id,
            ),
            r.0.deep_view() == right_half(
                old(page).deep_view(),
                (old(self).b / 2) as int,
                old(self).next_id,
            ),
            r.1.deep_view() == root_over::<K::V, V::V>(
                (old(self).next_id + 1) as u32,
                old(page).id,
                old(self).next_id,
                old(page).deep_view().keys[(old(self).b / 2) as int],
            ),
    {
        let split_idx: usize = self.b / 2;
        assert(page.deep_view().keys[split_idx as int] == page.keys[split_idx as int].deep_view());
        let split_key = page.keys[split_idx].duplicate();
        let ghost k = split_key.deep_view();
        let sibling = self.divide_page(page);
        let mut keys: Vec<K> = Vec::new();
        keys.push(split_key);
        let mut children: Vec<u32> = Vec::new();
        children.push(page.id);
        children.push(sibling.id);
        let new_root: Page<K, V> = Page {
            id: self.next_id,
            ptype: PageType::Interior,
            deleted: Vec::new(),
            keys,
            vals: Vec::new(),
            children,
            sibling: None,
        };
        self.next_id = self.next_id + 1;
        self.root_id = new_root.id;
        self.depth = self.depth + 1;
        proof {
            assert(new_root.deep_view().keys =~= seq![k]);
            assert(new_root.deep_view().children =~= seq![page.id, sibling.id]);
            assert(new_root.deep_view().vals =~= Seq::empty());
            assert(new_root.deep_view().deleted =~= Seq::empty());
        }
        (sibling, new_root)
    }

    /// Splits `leaf`, a leaf that holds `b` keys, and after it each page
    /// up the way that the split before has filled.
    fn propagate(&mut self, leaf: Page<K, V>, way: Vec<u32>)
        requires
            old(self).pager.wf(),
            can_split::<K, V::V>(
                old(self).pager.pages().insert(leaf.id, leaf.deep_view()),
                old(self).lay@,
                old(self).params(),
                leaf.id,
            ),
            old(self).lay@.level[leaf.id] == 0,
            climb_ok(
                old(self).pager.pages().insert(leaf.id, leaf.deep_view()),
                old(self).lay@,
                old(self).params(),
                way@,
                leaf.id,
            ),
            old(self).next_id + way.len() + 2 <= u32::MAX,
            (old(self).next_id + way.len() + 2) * old(self).b <= usize::MAX,
            old(self).depth < usize::MAX,
        ensures
            final(self).wf(),
            final(self).b == old(self).b,
            final(self).is_unique == old(self).is_unique,
            final(self).next_id >= old(self).next_id,
            final(self).next_id <= old(self).next_id + way.len() + 2,
            old(self).depth <= final(self).depth <= old(self).depth + 1,
            (final(self).pager.pages(), final(self).params()) == settle::<K, V::V>(
                old(self).pager.pages().insert(leaf.id, leaf.deep_view()),
                old(self).params(),
                way@,
                leaf.id,
            ),
            final(self).view() == with_split(
                view_of(
                    old(self).pager.pages().insert(leaf.id, leaf.deep_view()),
                    old(self).lay@,
                ),
                old(self).lay@.place[leaf.id],
                entries_of(leaf.deep_view()),
                old(self).b as nat,
            ),
    {
        let ghost target = with_split(
            view_of(self.pager.pages().insert(leaf.id, leaf.deep_view()), self.lay@),
            self.lay@.place[leaf.id],
            entries_of(leaf.deep_view()),
            self.b as nat,
        );
        let mut page = leaf;
        let mut visited = way;
        loop
            invariant
                self.pager.wf(),
                self.b == old(self).b,
                self.is_unique == old(self).is_unique,
                self.next_id >= old(self).next_id,
                self.next_id + visited.len() == old(self).next_id + way.len(),
                self.depth == old(self).depth,
                settle::<K, V::V>(
                    self.pager.pages().insert(page.id, page.deep_view()),
                    self.params(),
                    visited@,
                    page.id,
                ) == settle::<K, V::V>(
                    old(self).pager.pages().insert(leaf.id, leaf.deep_view()),
                    old(self).params(),
                    way@,
                    leaf.id,
                ),
                target == with_split(
                    view_of(
                        old(self).pager.pages().insert(leaf.id, leaf.deep_view()),
                        old(self).lay@,
                    ),
                    old(self).lay@.place[leaf.id],
                    entries_of(leaf.deep_view()),
                    old(self).b as nat,
                ),
                can_split::<K, V::V>(
                    self.pager.pages().insert(page.id, page.deep_view()),
                    self.lay@,
                    self.params(),
                    page.id,
                ),
                climb_ok(
                    self.pager.pages().insert(page.id, page.deep_view()),
                    self.lay@,
                    self.params(),
                    visited@,
                    page.id,
                ),
                self.next_id + visited.len() + 2 <= u32::MAX,
                (self.next_id + visited.len() + 2) * self.b <= usize::MAX,
                self.depth < usize::MAX,
                self.lay@.level[page.id] == 0 ==> target == with_split(
                    view_of(self.pager.pages().insert(page.id, page.deep_view()), self.lay@),
                    self.lay@.place[page.id],
                    entries_of(page.deep_view()),
                    self.b as nat,
                ),
                self.lay@.level[page.id] != 0 ==> target == view_of(
                    self.pager.pages().insert(page.id, page.deep_view()),
                    self.lay@,
                ),
            decreases visited.len(),
        {
            let ghost pages = self.pager.pages().insert(page.id, page.deep_view());
            let ghost lay = self.lay@;
            let ghost prm = self.params();
            let ghost x = page.id;
            let ghost seen = visited@;
            proof {
                assert(page_ok::<K, V::V>(pages, lay, prm, Some(x), x));
            }
            match visited.pop() {
                Some(par_id) => {
                    let ghost ci = choose|ci: int| #[trigger] is_child(pages, par_id, ci, x);
                    proof {
                        assert(rung_ok(pages, lay, prm, seen, x, seen.len() - 1));
                        assert(next_down(seen, x, seen.len() - 1) == x);
                        assert(is_child(pages, par_id, ci, x));
                        lemma_split_under::<K, V::V>(pages, lay, prm, x, par_id, ci);
                        lemma_climb_step::<K, V::V>(pages, lay, prm, seen, x, ci);
                        assert(visited@ =~= seen.drop_last());
                        assert(par_id != x);
                    }
                    let mut parent = self.page(par_id).duplicate();
                    proof {
                        assert(page_ok::<K, V::V>(pages, lay, prm, Some(x), par_id));
                        assert(parent.id == par_id);
                    }
                    let sibling = self.split_page(&mut page, &mut parent);
                    self.pager.write_page(&page);
                    self.pager.write_page(&sibling);
                    proof {
                        self.lay@ = lay_under(pages, lay, prm, x);
                        assert(self.pager.pages().insert(par_id, parent.deep_view()) =~= pages_under(
                            pages,
                            prm,
                            x,
                            par_id,
                            ci,
                        ));
                        assert(self.params() == prm_more(prm, 1));
                        assert(seen.last() == par_id);
                        assert(settle::<K, V::V>(pages, prm, seen, x) == settle::<K, V::V>(
                            pages_under(pages, prm, x, par_id, ci),
                            prm_more(prm, 1),
                            seen.drop_last(),
                            par_id,
                        ));
                    }
                    proof {
                        lemma_product_le(
                            self.next_id as int,
                            self.next_id + visited.len() + 2,
                            self.b as int,
                        );
                    }
                    if parent.keys.len() < self.b {
                        self.pager.write_page(&parent);
                        proof {
                            assert(self.pager.pages() =~= pages_under(pages, prm, x, par_id, ci));
                            lemma_not_over::<K, V::V>(
                                self.pager.pages(),
                                self.lay@,
                                self.params(),
                                par_id,
                            );
                        }
                        return ;
                    }
                    page = parent;
                },
                None => {
                    proof {
                        lemma_split_root::<K, V::V>(pages, lay, prm, x);
                    }
                    let (sibling, root) = self.split_root(&mut page);
                    self.pager.write_page(&page);
                    self.pager.write_page(&sibling);
                    self.pager.write_page(&root);
                    proof {
                        self.lay@ = lay_raised(
                            lay_under(pages, lay, prm, x),
                            (prm.next + 1) as u32,
                            prm.depth,
                        );
                        assert(self.pager.pages() =~= pages_raised(pages, prm, x));
                        assert(self.params() == prm_raised(prm));
                    }
                    return ;
                },
            }
        }
    }
}

/// A leaf without entries and without a sibling.
pub open spec fn empty_leaf<KV, VV>(id: u32) -> PageView<KV, VV> {
    PageView {
        id,
        ptype: PageType::Leaf,
        deleted: Seq::empty(),
        keys: Seq::empty(),
        vals: Seq::empty(),
        children: Seq::empty(),
        sibling: None,
    }
}

/// A page with the tombstone of every entry of `key` set, and as it was in
/// all else.
pub open spec fn marked<K: Key, VV>(p: PageView<K::V, VV>, key: K::V) -> PageView<K::V, VV> {
    PageView {
        id: p.id,
        ptype: p.ptype,
        deleted: Seq::new(p.deleted.len(), |i: int| p.deleted[i] || same_key::<K>(p.keys[i], key)),
        keys: p.keys,
        vals: p.vals,
        children: p.children,
        sibling: p.sibling,
    }
}

/// A page without an entry of `key` is left as it is where the tombstones
/// of `key` are set.
proof fn lemma_marked_none<K: Key, VV>(p: PageView<K::V, VV>, key: K::V)
    requires
        p.deleted.len() <= p.keys.len(),
        forall|i: int| 0 <= i < p.deleted.len() ==> !same_key::<K>(#[trigger] p.keys[i], key),
    ensures
        marked::<K, VV>(p, key) == p,
{
    assert(marked::<K, VV>(p, key).deleted =~= p.deleted);
}

/// Where the tombstones of `key` are set in the leaves from `t0` up to
/// `t1`, and no other leaf holds `key`, they are set in every page.
proof fn lemma_marked_rest<K: Key, VV>(
    pages0: Map<u32, PageView<K::V, VV>>,
    lay: Layout<K::V>,
    prm: Params,
    now: Map<u32, PageView<K::V, VV>>,
    key: K::V,
    t0: int,
    t1: int,
)
    requires
        inv::<K, VV>(pages0, lay, prm, None),
        0 <= t0 <= t1 <= lay.chain.len(),
        forall|x: u32| #[trigger]
            pages0.contains_key(x) ==> now[x] == if lay.level[x] == 0 && t0 <= lay.place[x] < t1 {
                marked::<K, VV>(pages0[x], key)
            } else {
                pages0[x]
            },
        forall|u: int, i: int|
            (0 <= u < t0 || t1 <= u < lay.chain.len()) && 0 <= i < view_of(
                pages0,
                lay,
            ).leaves[u].len() ==> !same_key::<K>(
                (#[trigger] view_of(pages0, lay).leaves[u][i]).key,
                key,
            ),
    ensures
        forall|x: u32| #[trigger]
            pages0.contains_key(x) ==> now[x] == marked::<K, VV>(pages0[x], key),
{
    let view = view_of(pages0, lay);
    assert forall|x: u32| #[trigger] pages0.contains_key(x) implies now[x] == marked::<K, VV>(
        pages0[x],
        key,
    ) by {
        assert(page_ok::<K, VV>(pages0, lay, prm, None, x));
        let p = pages0[x];
        if lay.level[x] == 0 {
            let u = lay.place[x];
            if !(t0 <= u < t1) {
                assert forall|i: int| 0 <= i < p.deleted.len() implies !same_key::<K>(
                    #[trigger] p.keys[i],
                    key,
                ) by {
                    assert(view.leaves[u][i].key == p.keys[i]);
                }
                lemma_marked_none::<K, VV>(p, key);
            }
        } else {
            lemma_marked_none::<K, VV>(p, key);
        }
    }
}

/// The children of the pages of `row`, in the order of the row.
pub open spec fn row_below<KV, VV>(pages: Map<u32, PageView<KV, VV>>, row: Seq<u32>) -> Seq<u32>
    decreases row.len(),
{
    if row.len() == 0 {
        Seq::empty()
    } else {
        row_below(pages, row.drop_last()) + pages[row.last()].children
    }
}

/// Whether every page of `row` is a page of the index at the given level.
pub open spec fn row_at<KV, VV>(
    pages: Map<u32, PageView<KV, VV>>,
    lay: Layout<KV>,
    row: Seq<u32>,
    level: int,
) -> bool {
    forall|i: int|
        0 <= i < row.len() ==> pages.dom().contains(#[trigger] row[i]) && lay.level[row[i]]
            == level
}

/// The leaf that is reached from page `id`, `depth` levels above the
/// leaves, by taking the first child of each page.
pub open spec fn leftmost<KV, VV>(pages: Map<u32, PageView<KV, VV>>, id: u32, depth: nat) -> u32
    decreases depth,
{
    if depth == 0 {
        id
    } else {
        leftmost(pages, pages[id].children[0], (depth - 1) as nat)
    }
}

/// The first children below a page without a bound below it lead to the
/// first leaf of the chain.
proof fn lemma_leftmost<K: Key, VV>(
    pages: Map<u32, PageView<K::V, VV>>,
    lay: Layout<K::V>,
    prm: Params,
    id: u32,
)
    requires
        inv::<K, VV>(pages, lay, prm, None),
        pages.dom().contains(id),
        lay.lower[id] is None,
    ensures
        leftmost(pages, id, lay.level[id]) == lay.chain[0],
    decreases lay.level[id],
{
    assert(page_ok::<K, VV>(pages, lay, prm, None, id));
    if lay.level[id] == 0 {
        let t = lay.place[id];
        assert(link_ok(pages, lay, t));
    } else {
        assert(child_ok(pages, lay, id, 0));
        lemma_leftmost::<K, VV>(pages, lay, prm, pages[id].children[0]);
    }
}

impl<K: Key, V: Val, P: Pager<K, V>> BTree<K, V, P> {
    /// The leaves of the index, from left to right.
    pub closed spec fn leaf_ids(&self) -> Seq<u32> {
        self.lay@.chain
    }

    /// The root of the index.
    pub closed spec fn root(&self) -> u32 {
        self.root_id
    }

    /// The count of interior levels above the leaves.
    pub closed spec fn height(&self) -> nat {
        self.depth as nat
    }

    /// Whether the index can take one more insert.
    pub fn has_room(&self) -> (r: bool)
        ensures
            r == self.room(),
    {
        if self.depth > 0xFFFF_FFFD {
            false
        } else {
            let levels: u32 = self.depth as u32;
            if self.next_id > 0xFFFF_FFFD - levels {
                false
            } else {
                let pages: u128 = self.next_id as u128 + levels as u128 + 2;
                assert(pages * self.b <= 0x1_0000_0000 * 0x1_0000_0000_0000_0000) by (nonlinear_arith)
                    requires
                        0 <= pages <= 0x1_0000_0000,
                        0 <= self.b <= 0x1_0000_0000_0000_0000,
                ;
                pages * (self.b as u128) <= usize::MAX as u128
            }
        }
    }

    /// A copy of the page of the index with identifier `id`.
    pub fn read_page(&mut self, id: u32) -> (r: Result<Page<K, V>, PageNotFoundError>)
        requires
            old(self).wf(),
        ensures
            final(self).wf(),
            final(self).view() == old(self).view(),
            final(self).pages() == old(self).pages(),
            final(self).branching() == old(self).branching(),
            final(self).unique() == old(self).unique(),
            final(self).room() == old(self).room(),
            final(self).params() == old(self).params(),
            final(self).root() == old(self).root(),
            final(self).height() == old(self).height(),
            final(self).leaf_ids() == old(self).leaf_ids(),
            match r {
                Ok(page) => old(self).pages().contains_key(id) && page.deep_view() == old(
                    self,
                ).pages()[id],
                Err(_) => !old(self).pages().contains_key(id),
            },
    {
        let r = match self.pager.read_page(id) {
            Ok(page) => Ok(page.duplicate()),
            Err(e) => Err(e),
        };
        proof {
            assert(self.agrees(old(self)));
            self.lemma_agrees(old(self));
        }
        r
    }

    /// The pages of the index level by level, from the root down to the
    /// leaves: each level holds the children of the pages of the level
    /// above, in their order.
    pub fn traverse(&mut self) -> (rows: Vec<Vec<u32>>)
        requires
            old(self).wf(),
        ensures
            final(self).wf(),
            final(self).view() == old(self).view(),
            final(self).pages() == old(self).pages(),
            final(self).branching() == old(self).branching(),
            final(self).unique() == old(self).unique(),
            final(self).room() == old(self).room(),
            final(self).params() == old(self).params(),
            rows.len() == old(self).height() + 1,
            rows[0]@ == seq![old(self).root()],
            forall|i: int|
                0 <= i < old(self).height() ==> (#[trigger] rows[i + 1])@ == row_below(
                    old(self).pages(),
                    rows[i]@,
                ),
    {
        let ghost pages = self.pager.pages();
        let ghost lay = self.lay@;
        let ghost prm = self.params();
        let mut rows: Vec<Vec<u32>> = Vec::new();
        let mut row: Vec<u32> = Vec::new();
        row.push(self.root_id);
        let mut level: usize = 0;
        while level < self.depth
            invariant
                level <= self.depth,
                self.wf(),
                self.agrees(old(self)),
                pages == self.pager.pages(),
                lay == self.lay@,
                prm == self.params(),
                rows.len() == level,
                row_at(pages, lay, row@, prm.depth - level),
                level == 0 ==> row@ == seq![prm.root],
                level > 0 ==> rows[0]@ == seq![prm.root],
                level > 0 ==> row@ == row_below(pages, rows[level - 1]@),
                forall|i: int|
                    0 <= i < level - 1 ==> (#[trigger] rows[i + 1])@ == row_below(pages, rows[i]@),
            decreases self.depth - level,
        {
            let mut next: Vec<u32> = Vec::new();
            let mut j: usize = 0;
            while j < row.len()
                invariant
                    j <= row.len(),
                    level < self.depth,
                    self.wf(),
                    self.agrees(old(self)),
                    pages == self.pager.pages(),
                    lay == self.lay@,
                    prm == self.params(),
                    row_at(pages, lay, row@, prm.depth - level),
                    row_at(pages, lay, next@, prm.depth - level - 1),
                    next@ == row_below(pages, row@.take(j as int)),
                decreases row.len() - j,
            {
                let id: u32 = row[j];
                proof {
                    assert(pages.dom().contains(row@[j as int]));
                    assert(page_ok::<K, V::V>(pages, lay, prm, None, id));
                }
                let page = self.page(id);
                let mut c: usize = 0;
                let ghost before = next@;
                while c < page.children.len()
                    invariant
                        c <= page.children.len(),
                        page.deep_view() == pages[id],
                        page_ok::<K, V::V>(pages, lay, prm, None, id),
                        lay.level[id] == prm.depth - level,
                        level < prm.depth,
                        row_at(pages, lay, next@, prm.depth - level - 1),
                        next@ == before + pages[id].children.take(c as int),
                    decreases page.children.len() - c,
                {
                    proof {
                        assert(child_ok(pages, lay, id, c as int));
                    }
                    let ghost so_far = next@;
                    next.push(page.children[c]);
                    proof {
                        assert(next@ =~= before + pages[id].children.take(c + 1));
                        assert forall|i: int| 0 <= i < next@.len() implies pages.dom().contains(
                            #[trigger] next@[i],
                        ) && lay.level[next@[i]] == prm.depth - level - 1 by {
                            if i < so_far.len() {
                                assert(next@[i] == so_far[i]);
                            }
                        }
                    }
                    c += 1;
                }
                proof {
                    assert(pages[id].children.take(c as int) =~= pages[id].children);
                    assert(row@.take(j + 1).drop_last() =~= row@.take(j as int));
                    assert(row@.take(j + 1).last() == id);
                }
                j += 1;
            }
            proof {
                assert(row@.take(j as int) =~= row@);
            }
            let ghost done = rows@;
            rows.push(row);
            row = next;
            level += 1;
            proof {
                assert forall|i: int| 0 <= i < level - 1 implies (#[trigger] rows[i + 1])@
                    == row_below(pages, rows[i]@) by {
                    if i + 1 < level - 1 {
                        assert(rows[i + 1] == done[i + 1]);
                        assert(rows[i] == done[i]);
                    }
                }
            }
        }
        let ghost done = rows@;
        rows.push(row);
        proof {
            assert forall|i: int| 0 <= i < self.depth implies (#[trigger] rows[i + 1])@
                == row_below(pages, rows[i]@) by {
                if i + 1 < self.depth {
                    assert(rows[i + 1] == done[i + 1]);
                }
                assert(rows[i] == done[i]);
            }
            self.lemma_agrees(old(self));
        }
        rows
    }

    /// The model of an index that is in order is in order.
    pub proof fn law_view_in_order(&self)
        requires
            self.wf(),
        ensures
            view_ok::<K, V::V>(self.view(), self.branching(), self.unique()),
            self.branching() >= 3,
            self.branching() % 2 == 1,
    {
        lemma_view_ok::<K, V::V>(self.pager.pages(), self.lay@, self.params());
    }

    /// The pages of an index that is in order are the pages that it has
    /// made: no identifier is left out, and none is used twice.
    pub proof fn law_pages_are_made(&self)
        requires
            self.wf(),
        ensures
            forall|id: u32| #[trigger] self.pages().contains_key(id) <==> id < self.made(),
            forall|id: u32| #[trigger] self.pages().contains_key(id) ==> self.pages()[id].id == id,
    {
        assert forall|id: u32| #[trigger] self.pages().contains_key(id) implies id < self.made()
            && self.pages()[id].id == id by {
            assert(page_ok::<K, V::V>(self.pager.pages(), self.lay@, self.params(), None, id));
        }
    }

    /// Every page of an index that is in order has the lengths that its
    /// kind asks for, and holds nothing but what a slot records.
    pub proof fn law_pages_recorded(&self)
        requires
            self.wf(),
        ensures
            forall|id: u32| #[trigger]
                self.pages().contains_key(id) ==> {
                    let p = self.pages()[id];
                    &&& recorded(p)
                    &&& p.ptype == PageType::Leaf ==> p.vals.len() == p.keys.len()
                        && p.deleted.len() == p.keys.len()
                    &&& p.ptype == PageType::Interior ==> p.children.len() == p.keys.len()
                        || p.children.len() == p.keys.len() + 1
                },
    {
        let pages = self.pager.pages();
        let lay = self.lay@;
        let prm = self.params();
        assert forall|id: u32| #[trigger] self.pages().contains_key(id) implies {
            let p = self.pages()[id];
            &&& recorded(p)
            &&& p.ptype == PageType::Leaf ==> p.vals.len() == p.keys.len() && p.deleted.len()
                == p.keys.len()
            &&& p.ptype == PageType::Interior ==> p.children.len() == p.keys.len()
                || p.children.len() == p.keys.len() + 1
        } by {
            let p = pages[id];
            assert(page_ok::<K, V::V>(pages, lay, prm, None, id));
            if lay.level[id] == 0 {
                let t = lay.place[id];
                assert(link_ok(pages, lay, t));
                if t + 1 < lay.chain.len() {
                    assert(link_ok(pages, lay, t + 1));
                    assert(page_ok::<K, V::V>(pages, lay, prm, None, lay.chain[t + 1]));
                }
            } else {
                let last = p.children.len() - 1;
                assert(child_ok(pages, lay, id, last));
                assert(page_ok::<K, V::V>(pages, lay, prm, None, p.children[last]));
            }
        }
    }

    /// Every page of an index that is in order holds fewer than `b` keys.
    pub proof fn law_pages_below_branching(&self)
        requires
            self.wf(),
        ensures
            forall|id: u32| #[trigger]
                self.pages().contains_key(id) ==> self.pages()[id].keys.len() < self.branching(),
    {
        assert forall|id: u32| #[trigger] self.pages().contains_key(id) implies self.pages()[id].keys.len()
            < self.branching() by {
            assert(page_ok::<K, V::V>(self.pager.pages(), self.lay@, self.params(), None, id));
        }
    }

    /// The leaves of an index that is in order form one chain: it starts at
    /// the leaf that the first children lead to from the root, each leaf
    /// names the next as its sibling and the last names none, every leaf of
    /// the index is in it, and the entries of its leaves are the leaves of
    /// the model.
    pub proof fn law_leaf_chain(&self)
        requires
            self.wf(),
        ensures
            self.leaf_ids().len() == self.view().leaves.len(),
            self.leaf_ids().len() >= 1,
            self.leaf_ids()[0] == leftmost(self.pages(), self.root(), self.height()),
            forall|t: int|
                0 <= t < self.leaf_ids().len() ==> {
                    let id = #[trigger] self.leaf_ids()[t];
                    &&& self.pages().contains_key(id)
                    &&& self.pages()[id].ptype == PageType::Leaf
                    &&& self.view().leaves[t] == entries_of(self.pages()[id])
                    &&& self.pages()[id].sibling == if t + 1 < self.leaf_ids().len() {
                        Some(self.leaf_ids()[t + 1])
                    } else {
                        None
                    }
                },
            forall|id: u32| #[trigger]
                self.pages().contains_key(id) && self.pages()[id].ptype == PageType::Leaf
                    ==> self.leaf_ids().contains(id),
    {
        let pages = self.pager.pages();
        let lay = self.lay@;
        let prm = self.params();
        lemma_leftmost::<K, V::V>(pages, lay, prm, self.root_id);
        assert forall|t: int| 0 <= t < self.leaf_ids().len() implies {
            let id = #[trigger] self.leaf_ids()[t];
            &&& self.pages().contains_key(id)
            &&& self.pages()[id].ptype == PageType::Leaf
            &&& self.view().leaves[t] == entries_of(self.pages()[id])
            &&& self.pages()[id].sibling == if t + 1 < self.leaf_ids().len() {
                Some(self.leaf_ids()[t + 1])
            } else {
                None
            }
        } by {
            assert(link_ok(pages, lay, t));
            assert(page_ok::<K, V::V>(pages, lay, prm, None, lay.chain[t]));
        }
        assert forall|id: u32| #[trigger]
            self.pages().contains_key(id) && self.pages()[id].ptype
                == PageType::Leaf implies self.leaf_ids().contains(id) by {
            assert(page_ok::<K, V::V>(pages, lay, prm, None, id));
            assert(lay.chain[lay.place[id]] == id);
        }
    }
}

impl<K: Key, V: Val, P: Pager<K, V>> BTree<K, V, P> {
    /// An empty index over the empty store `pager`: one leaf without
    /// entries.
    pub fn with_pager(b: usize, is_unique: bool, pager: P) -> (r: Self)
        requires
            b % 2 == 1,
            b > 2,
            pager.wf(),
            pager.pages() == Map::<u32, PageView<K::V, V::V>>::empty(),
        ensures
            r.wf(),
            3 * b <= usize::MAX ==> r.room(),
            r.branching() == b,
            r.unique() == is_unique,
            r.height() == 0,
            r.root() == 0,
            r.made() == 1,
            r.pages() == Map::<u32, PageView<K::V, V::V>>::empty().insert(0u32, empty_leaf(0u32)),
            r.view() == (TreeView::<K::V, V::V> { leaves: seq![Seq::empty()], bounds: Seq::empty() }),
    {
        let mut pager = pager;
        let root: Page<K, V> = Page {
            id: 0,
            keys: Vec::new(),
            vals: Vec::new(),
            children: Vec::new(),
            deleted: Vec::new(),
            ptype: PageType::Leaf,
            sibling: None,
        };
        pager.write_page(&root);
        let ghost lay = Layout::<K::V> {
            level: Map::empty().insert(0u32, 0nat),
            lower: Map::empty().insert(0u32, None),
            upper: Map::empty().insert(0u32, None),
            place: Map::empty().insert(0u32, 0int),
            chain: seq![0u32],
            bounds: Seq::empty(),
        };
        let r = BTree {
            b,
            is_unique,
            depth: 0,
            root_id: 0,
            next_id: 1,
            pager,
            lay: Ghost(lay),
            marker: PhantomData,
        };
        proof {
            let pages = r.pager.pages();
            assert(pages.dom() =~= set![0u32]);
            assert(root.deep_view().keys =~= Seq::empty());
            assert(root.deep_view().vals =~= Seq::empty());
            assert(root.deep_view() == empty_leaf::<K::V, V::V>(0u32));
            assert(page_ok::<K, V::V>(pages, lay, r.params(), None, 0u32));
            assert(link_ok(pages, lay, 0));
            assert(r.view().leaves[0] =~= Seq::<Entry<K::V, V::V>>::empty());
            assert(r.view().leaves =~= seq![Seq::<Entry<K::V, V::V>>::empty()]);
        }
        r
    }
}

impl<K: Key, V: Val> BTree<K, V, MemPager<K, V>> {
    /// An empty index over a store in memory: one leaf without entries.
    pub fn new(b: usize, is_unique: bool) -> (r: Self)
        requires
            b % 2 == 1,
            b > 2,
        ensures
            r.wf(),
            3 * b <= usize::MAX ==> r.room(),
            r.branching() == b,
            r.unique() == is_unique,
            r.height() == 0,
            r.root() == 0,
            r.made() == 1,
            r.pages() == Map::<u32, PageView<K::V, V::V>>::empty().insert(0u32, empty_leaf(0u32)),
            r.view() == (TreeView::<K::V, V::V> { leaves: seq![Seq::empty()], bounds: Seq::empty() }),
    {
        BTree::with_pager(b, is_unique, MemPager::new())
    }
}

} // verus!
