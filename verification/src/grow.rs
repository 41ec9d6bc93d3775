use crate::keys::{
    first_after, first_at_least, key_le, key_lt, lemma_first_after, lemma_first_at_least, Key,
};
use crate::layout::{
    child_ok, entries_of, inv, keys_ok, link_ok, one_parent, page_ok, view_of, Layout, Params,
};
use crate::model::{
    above, ascending, below, compacted, holds, in_order, last_tombstone, same_key, strictly_above,
    with_split, Entry,
};
use crate::page::{PageType, PageView};
use vstd::prelude::*;

verus! {

/// Keys that are in order stay in order with one more key after the last
/// of its kind, where the new key lies between the bounds and, with unique
/// keys, is not among them.
pub proof fn lemma_keys_insert<K: Key>(
    keys: Seq<K::V>,
    lo: Option<K::V>,
    hi: Option<K::V>,
    unique: bool,
    s: int,
    key: K::V,
)
    requires
        keys_ok::<K>(keys, lo, hi, unique, s),
        strictly_above::<K>(lo, key),
        below::<K>(key, hi),
        s >= 1,
        unique ==> !(first_after::<K>(keys, key) > 0 && same_key::<K>(
            keys[first_after::<K>(keys, key) - 1],
            key,
        )),
    ensures
        keys_ok::<K>(keys.insert(first_after::<K>(keys, key), key), lo, hi, unique, s),
{
    let i = first_after::<K>(keys, key);
    lemma_first_after::<K>(keys, key, 0);
    let after = keys.insert(i, key);
    assert forall|a: int| 0 <= a < i implies key_lt::<K>(#[trigger] keys[a], key) || (!unique
        && key_le::<K>(keys[a], key)) by {
        assert(key_le::<K>(keys[a], key));
        if unique && a < i - 1 {
            assert(in_order::<K>(keys[a], keys[i - 1], unique));
        }
    }
    assert forall|a: int, b: int| 0 <= a < b < after.len() implies in_order::<K>(
        #[trigger] after[a],
        #[trigger] after[b],
        unique,
    ) by {
        if a < i && b > i {
            assert(in_order::<K>(keys[a], keys[b - 1], unique));
        } else if a < i && b < i {
            assert(in_order::<K>(keys[a], keys[b], unique));
        } else if a < i {
            assert(key_lt::<K>(keys[a], key) || (!unique && key_le::<K>(keys[a], key)));
        } else if a == i {
            assert(key_lt::<K>(key, keys[i]));
            if b - 1 > i {
                assert(in_order::<K>(keys[i], keys[b - 1], unique));
            }
        } else {
            assert(in_order::<K>(keys[a - 1], keys[b - 1], unique));
        }
    }
    assert forall|a: int| 0 <= a < after.len() implies above::<K>(lo, #[trigger] after[a], unique)
        && below::<K>(after[a], hi) by {
        if a < i {
            assert(after[a] == keys[a]);
        } else if a > i {
            assert(after[a] == keys[a - 1]);
        }
    }
    if after.len() > s {
        if i > s {
            assert(after[s] == keys[s]);
        } else if i == s {
        } else {
            assert(after[s] == keys[s - 1]);
            assert(key_lt::<K>(key, keys[i]));
            if s - 1 > i {
                assert(in_order::<K>(keys[i], keys[s - 1], unique));
            }
        }
    }
}

/// The keys of a parent stay in order with the middle key of a child at the
/// first place whose key does not come before it, where that key lies
/// between the bounds and, with unique keys, is not among them.
pub proof fn lemma_keys_promote<K: Key>(
    keys: Seq<K::V>,
    lo: Option<K::V>,
    hi: Option<K::V>,
    unique: bool,
    s: int,
    key: K::V,
)
    requires
        keys_ok::<K>(keys, lo, hi, unique, s),
        strictly_above::<K>(lo, key),
        below::<K>(key, hi),
        s >= 1,
        unique ==> !(first_at_least::<K>(keys, key) < keys.len() && same_key::<K>(
            keys[first_at_least::<K>(keys, key)],
            key,
        )),
    ensures
        keys_ok::<K>(keys.insert(first_at_least::<K>(keys, key), key), lo, hi, unique, s),
{
    let i = first_at_least::<K>(keys, key);
    lemma_first_at_least::<K>(keys, key, 0);
    let after = keys.insert(i, key);
    assert forall|a: int, b: int| 0 <= a < b < after.len() implies in_order::<K>(
        #[trigger] after[a],
        #[trigger] after[b],
        unique,
    ) by {
        if a < i && b > i {
            assert(key_lt::<K>(keys[a], key));
            assert(in_order::<K>(keys[a], keys[b - 1], unique));
        } else if a < i && b < i {
            assert(in_order::<K>(keys[a], keys[b], unique));
        } else if a < i {
            assert(key_lt::<K>(keys[a], key));
        } else if a == i {
            assert(!key_lt::<K>(keys[i], key));
            if b - 1 > i {
                assert(in_order::<K>(keys[i], keys[b - 1], unique));
            }
        } else {
            assert(in_order::<K>(keys[a - 1], keys[b - 1], unique));
        }
    }
    assert forall|a: int| 0 <= a < after.len() implies above::<K>(lo, #[trigger] after[a], unique)
        && below::<K>(after[a], hi) by {
        if a < i {
            assert(after[a] == keys[a]);
        } else if a > i {
            assert(after[a] == keys[a - 1]);
        }
    }
    if after.len() > s {
        if i > s {
            assert(after[s] == keys[s]);
        } else if i == s {
        } else {
            assert(after[s] == keys[s - 1]);
            assert(!key_lt::<K>(keys[i], key));
            if s - 1 > i {
                assert(in_order::<K>(keys[i], keys[s - 1], unique));
            }
        }
    }
}

/// Keys that are in order stay in order without one of them.
pub proof fn lemma_keys_remove<K: Key>(
    keys: Seq<K::V>,
    lo: Option<K::V>,
    hi: Option<K::V>,
    unique: bool,
    s: int,
    q: int,
)
    requires
        keys_ok::<K>(keys, lo, hi, unique, s),
        0 <= q < keys.len(),
        s >= 0,
    ensures
        keys_ok::<K>(keys.remove(q), lo, hi, unique, s),
{
    let after = keys.remove(q);
    assert forall|a: int, b: int| 0 <= a < b < after.len() implies in_order::<K>(
        #[trigger] after[a],
        #[trigger] after[b],
        unique,
    ) by {
        let a0 = if a < q { a } else { a + 1 };
        let b0 = if b < q { b } else { b + 1 };
        assert(in_order::<K>(keys[a0], keys[b0], unique));
    }
    assert forall|a: int| 0 <= a < after.len() implies above::<K>(lo, #[trigger] after[a], unique)
        && below::<K>(after[a], hi) by {
        let a0 = if a < q { a } else { a + 1 };
        assert(after[a] == keys[a0]);
    }
    if after.len() > s {
        if q > s {
            assert(after[s] == keys[s]);
        } else {
            assert(after[s] == keys[s + 1]);
            assert(in_order::<K>(keys[s], keys[s + 1], unique));
        }
    }
}

/// The two halves of `b` keys that are in order are in order: the left
/// half below the middle key, the right half above it.
pub proof fn lemma_keys_halves<K: Key>(
    keys: Seq<K::V>,
    lo: Option<K::V>,
    hi: Option<K::V>,
    unique: bool,
    b: int,
)
    requires
        b >= 3,
        b % 2 == 1,
        keys.len() == b,
        keys_ok::<K>(keys, lo, hi, unique, b / 2),
    ensures
        keys_ok::<K>(keys.take(b / 2 + 1), lo, Some(keys[b / 2]), unique, b / 2),
        keys_ok::<K>(keys.skip(b / 2 + 1), Some(keys[b / 2]), hi, unique, b / 2),
        above::<K>(lo, keys[b / 2], unique),
        strictly_above::<K>(lo, keys[b / 2]),
        below::<K>(keys[b / 2], hi),
        hi matches Some(h) ==> in_order::<K>(keys[b / 2], h, unique),
{
    let s = b / 2;
    let left = keys.take(s + 1);
    let right = keys.skip(s + 1);
    assert forall|i: int, j: int| 0 <= i < j < left.len() implies in_order::<K>(
        #[trigger] left[i],
        #[trigger] left[j],
        unique,
    ) by {
        assert(in_order::<K>(keys[i], keys[j], unique));
    }
    assert forall|i: int| 0 <= i < left.len() implies above::<K>(lo, #[trigger] left[i], unique)
        && below::<K>(left[i], Some(keys[s])) by {
        assert(left[i] == keys[i]);
        if i < s {
            assert(in_order::<K>(keys[i], keys[s], unique));
        }
    }
    assert(left[s] == keys[s]);
    assert forall|i: int, j: int| 0 <= i < j < right.len() implies in_order::<K>(
        #[trigger] right[i],
        #[trigger] right[j],
        unique,
    ) by {
        assert(in_order::<K>(keys[s + 1 + i], keys[s + 1 + j], unique));
    }
    assert forall|i: int| 0 <= i < right.len() implies above::<K>(
        Some(keys[s]),
        #[trigger] right[i],
        unique,
    ) && below::<K>(right[i], hi) by {
        assert(right[i] == keys[s + 1 + i]);
        assert(in_order::<K>(keys[s], keys[s + 1 + i], unique));
    }
    assert(above::<K>(lo, keys[s], unique));
    assert(below::<K>(keys[s], hi));
    assert(in_order::<K>(keys[s], keys[b - 1], unique));
    assert(below::<K>(keys[b - 1], hi));
}

/// What fixes the place of the last tombstone.
pub proof fn lemma_last_tombstone<KV, VV>(entries: Seq<Entry<KV, VV>>, i: int)
    requires
        -1 <= i < entries.len(),
        i >= 0 ==> entries[i].deleted,
        forall|j: int| i < j < entries.len() ==> !(#[trigger] entries[j]).deleted,
    ensures
        last_tombstone(entries) == i,
    decreases entries.len(),
{
    if entries.len() > 0 {
        if !entries.last().deleted {
            let front = entries.drop_last();
            assert forall|j: int| i < j < front.len() implies !(#[trigger] front[j]).deleted by {
                assert(front[j] == entries[j]);
            }
            lemma_last_tombstone(front, i);
        } else {
            assert(!(i < entries.len() - 1));
        }
    }
}

/// The left half of a page that is split: it keeps the keys up to the
/// middle key, and what goes with them. A leaf names the right half as its
/// sibling.
pub open spec fn left_half<KV, VV>(p: PageView<KV, VV>, s: int, sid: u32) -> PageView<KV, VV> {
    if p.ptype == PageType::Leaf {
        PageView {
            id: p.id,
            ptype: p.ptype,
            deleted: p.deleted.take(s + 1),
            keys: p.keys.take(s + 1),
            vals: p.vals.take(s + 1),
            children: p.children,
            sibling: Some(sid),
        }
    } else {
        PageView {
            id: p.id,
            ptype: p.ptype,
            deleted: p.deleted,
            keys: p.keys.take(s + 1),
            vals: p.vals,
            children: p.children.take(s + 1),
            sibling: p.sibling,
        }
    }
}

/// The right half of a page that is split: a new page with the keys after
/// the middle key, and what goes with them. It takes over the sibling.
pub open spec fn right_half<KV, VV>(p: PageView<KV, VV>, s: int, sid: u32) -> PageView<KV, VV> {
    if p.ptype == PageType::Leaf {
        PageView {
            id: sid,
            ptype: p.ptype,
            deleted: p.deleted.skip(s + 1),
            keys: p.keys.skip(s + 1),
            vals: p.vals.skip(s + 1),
            children: Seq::empty(),
            sibling: p.sibling,
        }
    } else {
        PageView {
            id: sid,
            ptype: p.ptype,
            deleted: Seq::empty(),
            keys: p.keys.skip(s + 1),
            vals: Seq::empty(),
            children: p.children.skip(s + 1),
            sibling: p.sibling,
        }
    }
}

/// A parent after its child at place `ci` was split: the middle key of the
/// child stands at `ci`, and the right half follows the child.
pub open spec fn parent_grown<KV, VV>(y: PageView<KV, VV>, ci: int, k: KV, sid: u32) -> PageView<
    KV,
    VV,
> {
    PageView {
        id: y.id,
        ptype: y.ptype,
        deleted: y.deleted,
        keys: y.keys.insert(ci, k),
        vals: y.vals,
        children: y.children.insert(ci + 1, sid),
        sibling: y.sibling,
    }
}

/// The root that is made when the root is split.
pub open spec fn root_over<KV, VV>(rid: u32, x: u32, sid: u32, k: KV) -> PageView<KV, VV> {
    PageView {
        id: rid,
        ptype: PageType::Interior,
        deleted: Seq::empty(),
        keys: seq![k],
        vals: Seq::empty(),
        children: seq![x, sid],
        sibling: None,
    }
}

/// The layout after page `x` was split at key `k` into itself and `sid`.
pub open spec fn lay_split<KV>(lay: Layout<KV>, x: u32, sid: u32, k: KV) -> Layout<KV> {
    let t = lay.place[x];
    if lay.level[x] == 0 {
        Layout {
            level: lay.level.insert(sid, lay.level[x]),
            lower: lay.lower.insert(sid, Some(k)),
            upper: lay.upper.insert(sid, lay.upper[x]).insert(x, Some(k)),
            place: Map::new(
                |id: u32| true,
                |id: u32|
                    if id == sid {
                        t + 1
                    } else if lay.place[id] > t {
                        lay.place[id] + 1
                    } else {
                        lay.place[id]
                    },
            ),
            chain: lay.chain.insert(t + 1, sid),
            bounds: lay.bounds.insert(t, k),
        }
    } else {
        Layout {
            level: lay.level.insert(sid, lay.level[x]),
            lower: lay.lower.insert(sid, Some(k)),
            upper: lay.upper.insert(sid, lay.upper[x]).insert(x, Some(k)),
            place: lay.place,
            chain: lay.chain,
            bounds: lay.bounds,
        }
    }
}

/// The layout with a new root `rid` one level above the old one.
pub open spec fn lay_raised<KV>(lay: Layout<KV>, rid: u32, depth: nat) -> Layout<KV> {
    Layout {
        level: lay.level.insert(rid, depth + 1),
        lower: lay.lower.insert(rid, None),
        upper: lay.upper.insert(rid, None),
        place: lay.place,
        chain: lay.chain,
        bounds: lay.bounds,
    }
}

/// The counters after `n` pages were made.
pub open spec fn prm_more(prm: Params, n: nat) -> Params {
    Params { b: prm.b, unique: prm.unique, depth: prm.depth, root: prm.root, next: prm.next + n }
}

/// Whether page `x` is to be split: the index is in order but for `x`, which
/// holds `b` keys, and an identifier is left for its right half.
pub open spec fn can_split<K: Key, VV>(
    pages: Map<u32, PageView<K::V, VV>>,
    lay: Layout<K::V>,
    prm: Params,
    x: u32,
) -> bool {
    &&& inv::<K, VV>(pages, lay, prm, Some(x))
    &&& pages.dom().contains(x)
    &&& pages[x].keys.len() == prm.b
    &&& prm.next < u32::MAX
}

/// Whether `x` is child `ci` of `y`.
pub open spec fn is_child<KV, VV>(pages: Map<u32, PageView<KV, VV>>, y: u32, ci: int, x: u32) -> bool {
    &&& pages.dom().contains(y)
    &&& 0 <= ci < pages[y].children.len()
    &&& pages[y].children[ci] == x
}

/// The middle key of page `x`.
pub open spec fn mid_key<KV, VV>(pages: Map<u32, PageView<KV, VV>>, prm: Params, x: u32) -> KV {
    pages[x].keys[(prm.b / 2) as int]
}

/// The pages after `x`, child `ci` of `y`, was split.
pub open spec fn pages_under<KV, VV>(
    pages: Map<u32, PageView<KV, VV>>,
    prm: Params,
    x: u32,
    y: u32,
    ci: int,
) -> Map<u32, PageView<KV, VV>> {
    let s = (prm.b / 2) as int;
    let sid = prm.next as u32;
    pages.insert(x, left_half(pages[x], s, sid)).insert(sid, right_half(pages[x], s, sid)).insert(
        y,
        parent_grown(pages[y], ci, mid_key(pages, prm, x), sid),
    )
}

/// The layout after `x` was split.
pub open spec fn lay_under<KV, VV>(
    pages: Map<u32, PageView<KV, VV>>,
    lay: Layout<KV>,
    prm: Params,
    x: u32,
) -> Layout<KV> {
    lay_split(lay, x, prm.next as u32, mid_key(pages, prm, x))
}

/// What is known of a page that is to be split and of its parent.
pub proof fn lemma_under_basics<K: Key, VV>(
    pages: Map<u32, PageView<K::V, VV>>,
    lay: Layout<K::V>,
    prm: Params,
    x: u32,
    y: u32,
    ci: int,
)
    requires
        can_split::<K, VV>(pages, lay, prm, x),
        is_child(pages, y, ci, x),
    ensures
        !pages.dom().contains(prm.next as u32),
        x != y,
        x != prm.root,
        lay.level[y] == lay.level[x] + 1,
        page_ok::<K, VV>(pages, lay, prm, Some(x), x),
        page_ok::<K, VV>(pages, lay, prm, Some(x), y),
        pages[y].keys.len() < prm.b,
        child_ok(pages, lay, y, ci),
        first_at_least::<K>(pages[y].keys, mid_key(pages, prm, x)) == ci,
        forall|i: int| 0 <= i < pages[x].children.len() ==> #[trigger] pages[x].children[i] != x && pages[x].children[i] != y,
{
    let sid = prm.next as u32;
    if pages.dom().contains(sid) {
        assert(page_ok::<K, VV>(pages, lay, prm, Some(x), sid));
    }
    assert(page_ok::<K, VV>(pages, lay, prm, Some(x), x));
    assert(page_ok::<K, VV>(pages, lay, prm, Some(x), y));
    assert(lay.level[y] != 0) by {
        if lay.level[y] == 0 {
            assert(pages[y].children.len() == 0);
        }
    }
    assert(child_ok(pages, lay, y, ci));
    assert(page_ok::<K, VV>(pages, lay, prm, Some(x), prm.root));
    let k = mid_key(pages, prm, x);
    let ykeys = pages[y].keys;
    let s = (prm.b / 2) as int;
    lemma_keys_halves::<K>(pages[x].keys, lay.lower[x], lay.upper[x], prm.unique, prm.b as int);
    assert forall|j: int| 0 <= j < ci implies key_lt::<K>(#[trigger] ykeys[j], k) by {
        assert(lay.lower[x] == Some(ykeys[ci - 1]));
        if j < ci - 1 {
            assert(in_order::<K>(ykeys[j], ykeys[ci - 1], prm.unique));
        }
    }
    if ci < ykeys.len() {
        assert(lay.upper[x] == Some(ykeys[ci]));
    }
    lemma_first_at_least::<K>(ykeys, k, ci);
    assert forall|i: int| 0 <= i < pages[x].children.len() implies #[trigger] pages[x].children[i]
        != x && pages[x].children[i] != y by {
        if lay.level[x] != 0 {
            assert(child_ok(pages, lay, x, i));
        }
    }
}

/// Whether two layouts say the same of the pages of `pages` and of `sid`,
/// and of the chain of leaves.
pub open spec fn lay_agrees<KV, VV>(
    pages: Map<u32, PageView<KV, VV>>,
    one: Layout<KV>,
    two: Layout<KV>,
    sid: u32,
) -> bool {
    &&& forall|id: u32|
        #[trigger] pages.dom().contains(id) ==> one.level[id] == two.level[id] && one.lower[id]
            == two.lower[id] && one.upper[id] == two.upper[id]
    &&& one.level[sid] == two.level[sid]
    &&& one.lower[sid] == two.lower[sid]
    &&& one.upper[sid] == two.upper[sid]
    &&& one.place == two.place
    &&& one.chain == two.chain
    &&& one.bounds == two.bounds
}

/// The left half of a split page is in order.
pub proof fn lemma_left_ok<K: Key, VV>(
    pages: Map<u32, PageView<K::V, VV>>,
    lay: Layout<K::V>,
    prm: Params,
    x: u32,
    pages2: Map<u32, PageView<K::V, VV>>,
    lay2: Layout<K::V>,
    prm2: Params,
    over2: Option<u32>,
)
    requires
        can_split::<K, VV>(pages, lay, prm, x),
        x != prm.next as u32,
        lay_agrees(pages, lay2, lay_under(pages, lay, prm, x), prm.next as u32),
        pages2[x] == left_half(pages[x], (prm.b / 2) as int, prm.next as u32),
        forall|i: int| 0 <= i < pages[x].children.len() ==> pages2.dom().contains(#[trigger] pages[x].children[i]),
        prm2.b == prm.b,
        prm2.unique == prm.unique,
        prm2.depth >= prm.depth,
        prm2.next > prm.next,
    ensures
        page_ok::<K, VV>(pages2, lay2, prm2, over2, x),
{
    let s = (prm.b / 2) as int;
    let sid = prm.next as u32;
    let p = pages[x];
    let k = p.keys[s];
    assert(page_ok::<K, VV>(pages, lay, prm, Some(x), x));
    lemma_keys_halves::<K>(p.keys, lay.lower[x], lay.upper[x], prm.unique, prm.b as int);
    if lay.level[x] == 0 {
        let t = lay.place[x];
        assert(lay2.place[x] == t);
        assert(lay2.chain[t] == x);
    } else {
        let q = pages2[x];
        assert forall|i: int| 0 <= i < q.children.len() implies #[trigger] child_ok(pages2, lay2, x, i) by {
            assert(child_ok(pages, lay, x, i));
            let c = p.children[i];
            assert(q.children[i] == c);
            assert(c != sid) by {
                assert(page_ok::<K, VV>(pages, lay, prm, Some(x), c));
            }
            assert(c != x);
            assert(q.keys[i] == p.keys[i]);
            if i > 0 {
                assert(q.keys[i - 1] == p.keys[i - 1]);
            }
        }
        assert(q.keys[q.keys.len() - 1] == k);
    }
}

/// The right half of a split page is in order.
pub proof fn lemma_right_ok<K: Key, VV>(
    pages: Map<u32, PageView<K::V, VV>>,
    lay: Layout<K::V>,
    prm: Params,
    x: u32,
    pages2: Map<u32, PageView<K::V, VV>>,
    lay2: Layout<K::V>,
    prm2: Params,
    over2: Option<u32>,
)
    requires
        can_split::<K, VV>(pages, lay, prm, x),
        x != prm.next as u32,
        lay_agrees(pages, lay2, lay_under(pages, lay, prm, x), prm.next as u32),
        pages2[prm.next as u32] == right_half(pages[x], (prm.b / 2) as int, prm.next as u32),
        forall|i: int| 0 <= i < pages[x].children.len() ==> pages2.dom().contains(#[trigger] pages[x].children[i]),
        prm2.b == prm.b,
        prm2.unique == prm.unique,
        prm2.depth >= prm.depth,
        prm2.next > prm.next,
    ensures
        page_ok::<K, VV>(pages2, lay2, prm2, over2, prm.next as u32),
{
    let s = (prm.b / 2) as int;
    let sid = prm.next as u32;
    let p = pages[x];
    let k = p.keys[s];
    let q = pages2[sid];
    assert(page_ok::<K, VV>(pages, lay, prm, Some(x), x));
    lemma_keys_halves::<K>(p.keys, lay.lower[x], lay.upper[x], prm.unique, prm.b as int);
    assert(q.keys.len() == s);
    if lay.level[x] == 0 {
        let t = lay.place[x];
        assert(lay2.place[sid] == t + 1);
        assert(lay2.chain[t + 1] == sid);
    } else {
        assert forall|i: int| 0 <= i < q.children.len() implies #[trigger] child_ok(pages2, lay2, sid, i) by {
            assert(child_ok(pages, lay, x, s + 1 + i));
            let c = p.children[s + 1 + i];
            assert(q.children[i] == c);
            assert(c != sid) by {
                assert(page_ok::<K, VV>(pages, lay, prm, Some(x), c));
            }
            assert(c != x);
            if i < q.keys.len() {
                assert(q.keys[i] == p.keys[s + 1 + i]);
            }
            if i > 0 {
                assert(q.keys[i - 1] == p.keys[s + i]);
            }
        }
        if lay.upper[x] is Some {
            assert(q.keys[q.keys.len() - 1] == p.keys[p.keys.len() - 1]);
        }
    }
}

/// The parent of a split page is in order, but that it may now hold `b`
/// keys.
pub proof fn lemma_parent_ok<K: Key, VV>(
    pages: Map<u32, PageView<K::V, VV>>,
    lay: Layout<K::V>,
    prm: Params,
    x: u32,
    y: u32,
    ci: int,
)
    requires
        can_split::<K, VV>(pages, lay, prm, x),
        is_child(pages, y, ci, x),
    ensures
        page_ok::<K, VV>(
            pages_under(pages, prm, x, y, ci),
            lay_under(pages, lay, prm, x),
            prm_more(prm, 1),
            Some(y),
            y,
        ),
{
    lemma_under_basics::<K, VV>(pages, lay, prm, x, y, ci);
    let s = (prm.b / 2) as int;
    let sid = prm.next as u32;
    let k = mid_key(pages, prm, x);
    let pages2 = pages_under(pages, prm, x, y, ci);
    let lay2 = lay_under(pages, lay, prm, x);
    let p = pages[y];
    let q = pages2[y];
    assert(q == parent_grown(p, ci, k, sid));
    lemma_keys_halves::<K>(pages[x].keys, lay.lower[x], lay.upper[x], prm.unique, prm.b as int);
    assert(strictly_above::<K>(lay.lower[y], k)) by {
        if ci > 0 {
            assert(above::<K>(lay.lower[y], p.keys[ci - 1], prm.unique));
        }
    }
    assert(below::<K>(k, lay.upper[y])) by {
        if lay.upper[y] is Some {
            assert(below::<K>(p.keys[ci], lay.upper[y]));
        }
    }
    lemma_keys_promote::<K>(p.keys, lay.lower[y], lay.upper[y], prm.unique, s, k);
    assert(lay2.level[y] == lay.level[y]);
    assert(lay2.lower[y] == lay.lower[y]);
    assert(lay2.upper[y] == lay.upper[y]);
    assert(pages2.dom() =~= pages.dom().insert(sid));
    assert forall|i: int| 0 <= i < q.children.len() implies #[trigger] child_ok(pages2, lay2, y, i) by {
        let c = q.children[i];
        if i <= ci {
            assert(child_ok(pages, lay, y, i));
            assert(c == p.children[i]);
            if i < ci {
                assert(c != x) by {
                    assert(one_parent(pages));
                }
                assert(q.keys[i] == p.keys[i]);
            } else {
                assert(q.keys[i] == k);
            }
            if i > 0 {
                assert(q.keys[i - 1] == p.keys[i - 1]);
            }
        } else if i == ci + 1 {
            assert(child_ok(pages, lay, y, ci));
            assert(c == sid);
            assert(q.keys[ci] == k);
            if ci + 1 < q.keys.len() {
                assert(q.keys[ci + 1] == p.keys[ci]);
            }
        } else {
            assert(child_ok(pages, lay, y, i - 1));
            assert(c == p.children[i - 1]);
            assert(c != x) by {
                assert(one_parent(pages));
            }
            assert(q.keys[i - 1] == p.keys[i - 2]);
            if i < q.keys.len() {
                assert(q.keys[i] == p.keys[i - 1]);
            }
        }
    }
    if lay.upper[y] is Some {
        assert(q.keys[q.keys.len() - 1] == p.keys[p.keys.len() - 1]);
    }
}

/// A page that a split does not touch stays in order.
pub proof fn lemma_other_ok<K: Key, VV>(
    pages: Map<u32, PageView<K::V, VV>>,
    lay: Layout<K::V>,
    prm: Params,
    x: u32,
    pages2: Map<u32, PageView<K::V, VV>>,
    lay2: Layout<K::V>,
    prm2: Params,
    over2: Option<u32>,
    z: u32,
)
    requires
        can_split::<K, VV>(pages, lay, prm, x),
        pages.dom().contains(z),
        z != x,
        pages2[z] == pages[z],
        forall|i: int| 0 <= i < pages[z].children.len() ==> #[trigger] pages[z].children[i] != x,
        forall|id: u32| #[trigger] pages.dom().contains(id) ==> pages2.dom().contains(id),
        lay_agrees(pages, lay2, lay_under(pages, lay, prm, x), prm.next as u32),
        prm2.b == prm.b,
        prm2.unique == prm.unique,
        prm2.depth >= prm.depth,
        prm2.next > prm.next,
    ensures
        page_ok::<K, VV>(pages2, lay2, prm2, over2, z),
{
    let sid = prm.next as u32;
    let p = pages[z];
    assert(page_ok::<K, VV>(pages, lay, prm, Some(x), z));
    assert(z != sid);
    if lay.level[z] == 0 {
        if lay.level[x] == 0 {
            let t = lay.place[x];
            let u = lay.place[z];
            assert(page_ok::<K, VV>(pages, lay, prm, Some(x), x));
            assert(lay.chain[t] == x);
            assert(u != t);
            if u > t {
                assert(lay2.chain[u + 1] == lay.chain[u]);
            } else {
                assert(lay2.chain[u] == lay.chain[u]);
            }
        }
    } else {
        assert forall|i: int| 0 <= i < p.children.len() implies #[trigger] child_ok(pages2, lay2, z, i) by {
            assert(child_ok(pages, lay, z, i));
            let c = p.children[i];
            assert(c != sid) by {
                assert(page_ok::<K, VV>(pages, lay, prm, Some(x), c));
            }
        }
    }
}

/// After a split below a parent, no page is the child of two pages.
pub proof fn lemma_under_one_parent<K: Key, VV>(
    pages: Map<u32, PageView<K::V, VV>>,
    lay: Layout<K::V>,
    prm: Params,
    x: u32,
    y: u32,
    ci: int,
)
    requires
        can_split::<K, VV>(pages, lay, prm, x),
        is_child(pages, y, ci, x),
    ensures
        one_parent(pages_under(pages, prm, x, y, ci)),
{
    lemma_under_basics::<K, VV>(pages, lay, prm, x, y, ci);
    let s = (prm.b / 2) as int;
    let sid = prm.next as u32;
    let pages2 = pages_under(pages, prm, x, y, ci);
    assert(pages2.dom() =~= pages.dom().insert(sid));
    let leaf = pages[x].ptype == PageType::Leaf;
    assert(leaf ==> pages[x].children.len() == 0);
    assert forall|a: u32, i: int| pages.dom().contains(a) && 0 <= i < pages[a].children.len() implies #[trigger] pages[a].children[i] != sid by {
        assert(page_ok::<K, VV>(pages, lay, prm, Some(x), a));
        if lay.level[a] != 0 {
            assert(child_ok(pages, lay, a, i));
        }
    }
    assert forall|a: u32, i: int, b: u32, j: int|
        pages2.dom().contains(a) && pages2.dom().contains(b) && 0 <= i < pages2[a].children.len()
            && 0 <= j < pages2[b].children.len() && #[trigger] pages2[a].children[i]
            == #[trigger] pages2[b].children[j] implies a == b && i == j by {
        let oa = if a == sid { x } else { a };
        let oi = if a == sid { s + 1 + i } else if a == y && i > ci + 1 { i - 1 } else { i };
        let ob = if b == sid { x } else { b };
        let oj = if b == sid { s + 1 + j } else if b == y && j > ci + 1 { j - 1 } else { j };
        let fa = a == y && i == ci + 1;
        let fb = b == y && j == ci + 1;
        if !fa {
            assert(pages2[a].children[i] == pages[oa].children[oi]);
        }
        if !fb {
            assert(pages2[b].children[j] == pages[ob].children[oj]);
        }
        if fa && !fb {
            assert(pages[ob].children[oj] != sid);
        }
        if fb && !fa {
            assert(pages[oa].children[oi] != sid);
        }
        if !fa && !fb {
            assert(oa == ob && oi == oj);
        }
    }
}

/// After a split, the chain of leaves is linked and bounded as before.
pub proof fn lemma_split_links<K: Key, VV>(
    pages: Map<u32, PageView<K::V, VV>>,
    lay: Layout<K::V>,
    prm: Params,
    x: u32,
    pages2: Map<u32, PageView<K::V, VV>>,
    lay2: Layout<K::V>,
)
    requires
        can_split::<K, VV>(pages, lay, prm, x),
        pages2[x] == left_half(pages[x], (prm.b / 2) as int, prm.next as u32),
        pages2[prm.next as u32] == right_half(pages[x], (prm.b / 2) as int, prm.next as u32),
        pages2.dom().contains(prm.next as u32),
        forall|z: u32|
            #[trigger] pages.dom().contains(z) && lay.level[z] == 0 && z != x ==> pages2[z]
                == pages[z],
        forall|id: u32| #[trigger] pages.dom().contains(id) ==> pages2.dom().contains(id),
        lay_agrees(pages, lay2, lay_under(pages, lay, prm, x), prm.next as u32),
    ensures
        lay2.chain.len() == lay2.bounds.len() + 1,
        ascending::<K>(lay2.bounds, prm.unique),
        forall|t: int| 0 <= t < lay2.chain.len() ==> #[trigger] link_ok(pages2, lay2, t),
{
    let s = (prm.b / 2) as int;
    let sid = prm.next as u32;
    let k = mid_key(pages, prm, x);
    assert(page_ok::<K, VV>(pages, lay, prm, Some(x), x));
    if pages.dom().contains(sid) {
        assert(page_ok::<K, VV>(pages, lay, prm, Some(x), sid));
    }
    lemma_keys_halves::<K>(pages[x].keys, lay.lower[x], lay.upper[x], prm.unique, prm.b as int);
    if lay.level[x] == 0 {
        let t0 = lay.place[x];
        assert(link_ok(pages, lay, t0));
        assert forall|i: int, j: int| 0 <= i < j < lay2.bounds.len() implies in_order::<K>(
            #[trigger] lay2.bounds[i],
            #[trigger] lay2.bounds[j],
            prm.unique,
        ) by {
            if i < t0 && j > t0 {
                assert(in_order::<K>(lay.bounds[i], lay.bounds[j - 1], prm.unique));
            } else if i < t0 && j < t0 {
                assert(in_order::<K>(lay.bounds[i], lay.bounds[j], prm.unique));
            } else if i < t0 {
                if i < t0 - 1 {
                    assert(in_order::<K>(lay.bounds[i], lay.bounds[t0 - 1], prm.unique));
                }
            } else if i == t0 {
                if j - 1 > t0 {
                    assert(in_order::<K>(lay.bounds[t0], lay.bounds[j - 1], prm.unique));
                }
            } else {
                assert(in_order::<K>(lay.bounds[i - 1], lay.bounds[j - 1], prm.unique));
            }
        }
        assert forall|t: int| 0 <= t < lay2.chain.len() implies #[trigger] link_ok(pages2, lay2, t) by {
            if t < t0 {
                assert(link_ok(pages, lay, t));
                assert(lay2.chain[t] == lay.chain[t]);
                assert(lay2.chain[t + 1] == lay.chain[t + 1]);
            } else if t == t0 {
                assert(lay2.chain[t] == x);
                assert(lay2.chain[t + 1] == sid);
            } else if t == t0 + 1 {
                assert(lay2.chain[t] == sid);
                if t + 1 < lay2.chain.len() {
                    assert(lay2.chain[t + 1] == lay.chain[t0 + 1]);
                }
            } else {
                assert(link_ok(pages, lay, t - 1));
                assert(lay2.chain[t] == lay.chain[t - 1]);
                if t + 1 < lay2.chain.len() {
                    assert(lay2.chain[t + 1] == lay.chain[t]);
                }
            }
        }
    } else {
        assert forall|t: int| 0 <= t < lay2.chain.len() implies #[trigger] link_ok(pages2, lay2, t) by {
            assert(link_ok(pages, lay, t));
        }
    }
}

/// The model after a split: where a leaf was split, the model with that
/// leaf split; and otherwise the model as it was.
pub proof fn lemma_split_view<K: Key, VV>(
    pages: Map<u32, PageView<K::V, VV>>,
    lay: Layout<K::V>,
    prm: Params,
    x: u32,
    pages2: Map<u32, PageView<K::V, VV>>,
    lay2: Layout<K::V>,
)
    requires
        can_split::<K, VV>(pages, lay, prm, x),
        pages2[x] == left_half(pages[x], (prm.b / 2) as int, prm.next as u32),
        pages2[prm.next as u32] == right_half(pages[x], (prm.b / 2) as int, prm.next as u32),
        forall|z: u32|
            #[trigger] pages.dom().contains(z) && lay.level[z] == 0 && z != x ==> pages2[z]
                == pages[z],
        lay2.chain == lay_under(pages, lay, prm, x).chain,
        lay2.bounds == lay_under(pages, lay, prm, x).bounds,
    ensures
        view_of(pages2, lay2) == if lay.level[x] == 0 {
            with_split(view_of(pages, lay), lay.place[x], entries_of(pages[x]), prm.b)
        } else {
            view_of(pages, lay)
        },
{
    let s = (prm.b / 2) as int;
    let sid = prm.next as u32;
    let before = view_of(pages, lay);
    let after = view_of(pages2, lay2);
    assert(page_ok::<K, VV>(pages, lay, prm, Some(x), x));
    if lay.level[x] == 0 {
        let t0 = lay.place[x];
        let all = entries_of(pages[x]);
        let goal = with_split(before, t0, all, prm.b);
        assert(entries_of(pages2[x]) =~= all.take(s + 1));
        assert(entries_of(pages2[sid]) =~= all.skip(s + 1));
        assert forall|t: int| 0 <= t < after.leaves.len() implies #[trigger] after.leaves[t]
            == goal.leaves[t] by {
            if t < t0 {
                assert(link_ok(pages, lay, t));
                assert(lay2.chain[t] == lay.chain[t]);
            } else if t > t0 + 1 {
                assert(link_ok(pages, lay, t - 1));
                assert(lay2.chain[t] == lay.chain[t - 1]);
            }
        }
        assert(after.leaves =~= goal.leaves);
    } else {
        assert forall|t: int| 0 <= t < after.leaves.len() implies #[trigger] after.leaves[t]
            == before.leaves[t] by {
            assert(link_ok(pages, lay, t));
        }
        assert(after.leaves =~= before.leaves);
    }
}

/// A split below a parent leaves the index in order, but that the parent
/// may now hold `b` keys; and the model is the model with the leaf split,
/// where the page was a leaf, and else the model as it was.
pub proof fn lemma_split_under<K: Key, VV>(
    pages: Map<u32, PageView<K::V, VV>>,
    lay: Layout<K::V>,
    prm: Params,
    x: u32,
    y: u32,
    ci: int,
)
    requires
        can_split::<K, VV>(pages, lay, prm, x),
        is_child(pages, y, ci, x),
    ensures
        inv::<K, VV>(
            pages_under(pages, prm, x, y, ci),
            lay_under(pages, lay, prm, x),
            prm_more(prm, 1),
            Some(y),
        ),
        first_at_least::<K>(pages[y].keys, mid_key(pages, prm, x)) == ci,
        view_of(pages_under(pages, prm, x, y, ci), lay_under(pages, lay, prm, x)) == if lay.level[x]
            == 0 {
            with_split(view_of(pages, lay), lay.place[x], entries_of(pages[x]), prm.b)
        } else {
            view_of(pages, lay)
        },
{
    lemma_under_basics::<K, VV>(pages, lay, prm, x, y, ci);
    let sid = prm.next as u32;
    let pages2 = pages_under(pages, prm, x, y, ci);
    let lay2 = lay_under(pages, lay, prm, x);
    let prm2 = prm_more(prm, 1);
    assert(pages2.dom() =~= pages.dom().insert(sid));
    assert(page_ok::<K, VV>(pages, lay, prm, Some(x), prm.root));
    assert forall|i: int| 0 <= i < pages[x].children.len() implies pages2.dom().contains(
        #[trigger] pages[x].children[i],
    ) by {
        if lay.level[x] != 0 {
            assert(child_ok(pages, lay, x, i));
        }
    }
    lemma_split_links::<K, VV>(pages, lay, prm, x, pages2, lay2);
    lemma_split_view::<K, VV>(pages, lay, prm, x, pages2, lay2);
    lemma_under_one_parent::<K, VV>(pages, lay, prm, x, y, ci);
    assert forall|id: u32| pages2.dom().contains(id) implies #[trigger] page_ok::<K, VV>(
        pages2,
        lay2,
        prm2,
        Some(y),
        id,
    ) by {
        if id == x {
            lemma_left_ok::<K, VV>(pages, lay, prm, x, pages2, lay2, prm2, Some(y));
        } else if id == sid {
            lemma_right_ok::<K, VV>(pages, lay, prm, x, pages2, lay2, prm2, Some(y));
        } else if id == y {
            lemma_parent_ok::<K, VV>(pages, lay, prm, x, y, ci);
        } else {
            assert forall|i: int| 0 <= i < pages[id].children.len() implies #[trigger] pages[id].children[i]
                != x by {
                assert(one_parent(pages));
            }
            lemma_other_ok::<K, VV>(pages, lay, prm, x, pages2, lay2, prm2, Some(y), id);
        }
    }
}

/// The pages after the root `x` was split.
pub open spec fn pages_raised<KV, VV>(
    pages: Map<u32, PageView<KV, VV>>,
    prm: Params,
    x: u32,
) -> Map<u32, PageView<KV, VV>> {
    let s = (prm.b / 2) as int;
    let sid = prm.next as u32;
    let rid = (prm.next + 1) as u32;
    pages.insert(x, left_half(pages[x], s, sid)).insert(sid, right_half(pages[x], s, sid)).insert(
        rid,
        root_over(rid, x, sid, mid_key(pages, prm, x)),
    )
}

/// The counters after the root was split.
pub open spec fn prm_raised(prm: Params) -> Params {
    Params {
        b: prm.b,
        unique: prm.unique,
        depth: prm.depth + 1,
        root: (prm.next + 1) as u32,
        next: prm.next + 2,
    }
}

/// A split of the root leaves the index in order, one level deeper; and
/// the model is the model with the leaf split, where the root was a leaf,
/// and else the model as it was.
pub proof fn lemma_split_root<K: Key, VV>(
    pages: Map<u32, PageView<K::V, VV>>,
    lay: Layout<K::V>,
    prm: Params,
    x: u32,
)
    requires
        can_split::<K, VV>(pages, lay, prm, x),
        x == prm.root,
        prm.next + 1 < u32::MAX,
    ensures
        inv::<K, VV>(
            pages_raised(pages, prm, x),
            lay_raised(lay_under(pages, lay, prm, x), (prm.next + 1) as u32, prm.depth),
            prm_raised(prm),
            None,
        ),
        view_of(
            pages_raised(pages, prm, x),
            lay_raised(lay_under(pages, lay, prm, x), (prm.next + 1) as u32, prm.depth),
        ) == if lay.level[x] == 0 {
            with_split(view_of(pages, lay), lay.place[x], entries_of(pages[x]), prm.b)
        } else {
            view_of(pages, lay)
        },
{
    let s = (prm.b / 2) as int;
    let sid = prm.next as u32;
    let rid = (prm.next + 1) as u32;
    let k = mid_key(pages, prm, x);
    let pages2 = pages_raised(pages, prm, x);
    let lay2 = lay_raised(lay_under(pages, lay, prm, x), rid, prm.depth);
    let prm2 = prm_raised(prm);
    assert(page_ok::<K, VV>(pages, lay, prm, Some(x), x));
    assert(!pages.dom().contains(sid)) by {
        if pages.dom().contains(sid) {
            assert(page_ok::<K, VV>(pages, lay, prm, Some(x), sid));
        }
    }
    assert(!pages.dom().contains(rid)) by {
        if pages.dom().contains(rid) {
            assert(page_ok::<K, VV>(pages, lay, prm, Some(x), rid));
        }
    }
    assert(pages2.dom() =~= pages.dom().insert(sid).insert(rid));
    assert forall|a: u32, i: int| pages.dom().contains(a) && 0 <= i < pages[a].children.len() implies #[trigger] pages[a].children[i]
        != x && pages[a].children[i] != sid && pages[a].children[i] != rid by {
        assert(page_ok::<K, VV>(pages, lay, prm, Some(x), a));
        if lay.level[a] != 0 {
            assert(child_ok(pages, lay, a, i));
        }
    }
    lemma_keys_halves::<K>(pages[x].keys, lay.lower[x], lay.upper[x], prm.unique, prm.b as int);
    assert forall|i: int| 0 <= i < pages[x].children.len() implies pages2.dom().contains(
        #[trigger] pages[x].children[i],
    ) by {
        if lay.level[x] != 0 {
            assert(child_ok(pages, lay, x, i));
        }
    }
    assert(lay_agrees(pages, lay2, lay_under(pages, lay, prm, x), sid));
    lemma_split_links::<K, VV>(pages, lay, prm, x, pages2, lay2);
    lemma_split_view::<K, VV>(pages, lay, prm, x, pages2, lay2);
    assert forall|id: u32| pages2.dom().contains(id) implies #[trigger] page_ok::<K, VV>(
        pages2,
        lay2,
        prm2,
        None,
        id,
    ) by {
        if id == x {
            lemma_left_ok::<K, VV>(pages, lay, prm, x, pages2, lay2, prm2, None);
        } else if id == sid {
            lemma_right_ok::<K, VV>(pages, lay, prm, x, pages2, lay2, prm2, None);
        } else if id == rid {
            let q = pages2[rid];
            assert(q.keys[0] == k);
            assert(child_ok(pages2, lay2, rid, 0));
            assert(child_ok(pages2, lay2, rid, 1));
        } else {
            lemma_other_ok::<K, VV>(pages, lay, prm, x, pages2, lay2, prm2, None, id);
        }
    }
    assert(one_parent(pages2)) by {
        assert forall|a: u32, i: int, b: u32, j: int|
            pages2.dom().contains(a) && pages2.dom().contains(b) && 0 <= i
                < pages2[a].children.len() && 0 <= j < pages2[b].children.len()
                && #[trigger] pages2[a].children[i] == #[trigger] pages2[b].children[j] implies a
                == b && i == j by {
            let oa = if a == sid { x } else { a };
            let oi = if a == sid { s + 1 + i } else { i };
            let ob = if b == sid { x } else { b };
            let oj = if b == sid { s + 1 + j } else { j };
            if a != rid {
                assert(pages2[a].children[i] == pages[oa].children[oi]);
            }
            if b != rid {
                assert(pages2[b].children[j] == pages[ob].children[oj]);
            }
            if a != rid && b != rid {
                assert(one_parent(pages));
                assert(oa == ob && oi == oj);
            }
        }
    }
}

/// A page that may hold `b` keys and holds fewer is as any other.
pub proof fn lemma_not_over<K: Key, VV>(
    pages: Map<u32, PageView<K::V, VV>>,
    lay: Layout<K::V>,
    prm: Params,
    y: u32,
)
    requires
        inv::<K, VV>(pages, lay, prm, Some(y)),
        pages[y].keys.len() < prm.b,
    ensures
        inv::<K, VV>(pages, lay, prm, None),
{
    assert forall|id: u32| pages.dom().contains(id) implies #[trigger] page_ok::<K, VV>(
        pages,
        lay,
        prm,
        None,
        id,
    ) by {
        assert(page_ok::<K, VV>(pages, lay, prm, Some(y), id));
    }
}

/// The page that follows step `k` on the way down to `x`.
pub open spec fn next_down(visited: Seq<u32>, x: u32, k: int) -> u32 {
    if k + 1 < visited.len() {
        visited[k + 1]
    } else {
        x
    }
}

/// Whether step `k` of the way up from page `x` is in order: the page of
/// the step stands at its height, and the next page down the way is a
/// child of it.
pub open spec fn rung_ok<KV, VV>(
    pages: Map<u32, PageView<KV, VV>>,
    lay: Layout<KV>,
    prm: Params,
    visited: Seq<u32>,
    x: u32,
    k: int,
) -> bool {
    let y = visited[k];
    &&& pages.dom().contains(y)
    &&& lay.level[y] == prm.depth - k
    &&& exists|ci: int| #[trigger] is_child(pages, y, ci, next_down(visited, x, k))
}

/// Whether `visited` is the way from the root down to the parent of `x`.
pub open spec fn climb_ok<KV, VV>(
    pages: Map<u32, PageView<KV, VV>>,
    lay: Layout<KV>,
    prm: Params,
    visited: Seq<u32>,
    x: u32,
) -> bool {
    &&& lay.level[x] + visited.len() == prm.depth
    &&& visited.len() == 0 ==> x == prm.root
    &&& visited.len() > 0 ==> visited[0] == prm.root
    &&& forall|k: int| 0 <= k < visited.len() ==> #[trigger] rung_ok(pages, lay, prm, visited, x, k)
}

/// After a split of `x` below its parent, the way up from the parent is
/// the way up from `x` without its last step.
pub proof fn lemma_climb_step<K: Key, VV>(
    pages: Map<u32, PageView<K::V, VV>>,
    lay: Layout<K::V>,
    prm: Params,
    visited: Seq<u32>,
    x: u32,
    ci: int,
)
    requires
        can_split::<K, VV>(pages, lay, prm, x),
        climb_ok(pages, lay, prm, visited, x),
        visited.len() > 0,
        is_child(pages, visited.last(), ci, x),
    ensures
        climb_ok(
            pages_under(pages, prm, x, visited.last(), ci),
            lay_under(pages, lay, prm, x),
            prm_more(prm, 1),
            visited.drop_last(),
            visited.last(),
        ),
{
    let y = visited.last();
    let sid = prm.next as u32;
    let pages2 = pages_under(pages, prm, x, y, ci);
    let lay2 = lay_under(pages, lay, prm, x);
    let prm2 = prm_more(prm, 1);
    let rest = visited.drop_last();
    lemma_under_basics::<K, VV>(pages, lay, prm, x, y, ci);
    assert(rung_ok(pages, lay, prm, visited, x, visited.len() - 1));
    assert(pages2.dom() =~= pages.dom().insert(sid));
    if rest.len() > 0 {
        assert(rest[0] == visited[0]);
    }
    assert forall|k: int| 0 <= k < rest.len() implies #[trigger] rung_ok(
        pages2,
        lay2,
        prm2,
        rest,
        y,
        k,
    ) by {
        assert(rung_ok(pages, lay, prm, visited, x, k));
        let yk = visited[k];
        assert(rest[k] == yk);
        let c = next_down(visited, x, k);
        let cc = choose|cc: int| #[trigger] is_child(pages, yk, cc, c);
        assert(is_child(pages, yk, cc, c));
        assert(lay.level[yk] == prm.depth - k);
        assert(lay.level[y] == prm.depth - (visited.len() - 1));
        assert(yk != y);
        assert(yk != x);
        assert(yk != sid);
        assert(pages2[yk] == pages[yk]);
        assert(pages2.dom().contains(yk));
        assert(lay2.level[yk] == lay.level[yk]);
        assert(is_child(pages2, yk, cc, c));
        assert(next_down(rest, y, k) == c);
        assert(is_child(pages2, rest[k], cc, next_down(rest, y, k)));
    }
}

/// The way that a search for `key` takes from page `id`, `levels` levels
/// above the leaves, down to a leaf: at each page the child at the first
/// place whose key does not come before `key`.
pub open spec fn way<K: Key, VV>(
    pages: Map<u32, PageView<K::V, VV>>,
    id: u32,
    levels: nat,
    key: K::V,
) -> Seq<u32>
    decreases levels,
{
    if levels == 0 {
        seq![id]
    } else {
        seq![id] + way::<K, VV>(
            pages,
            pages[id].children[first_at_least::<K>(pages[id].keys, key)],
            (levels - 1) as nat,
            key,
        )
    }
}

/// The leaf `p` with `entries` for its entries.
pub open spec fn with_entries<KV, VV>(p: PageView<KV, VV>, entries: Seq<Entry<KV, VV>>) -> PageView<
    KV,
    VV,
> {
    PageView {
        id: p.id,
        ptype: p.ptype,
        deleted: Seq::new(entries.len(), |i: int| entries[i].deleted),
        keys: Seq::new(entries.len(), |i: int| entries[i].key),
        vals: Seq::new(entries.len(), |i: int| entries[i].val),
        children: p.children,
        sibling: p.sibling,
    }
}

/// The pages and counters after page `x` and the pages up the way `ups`
/// were split as far as they hold `b` keys: a page below a parent is split
/// into itself and a new page with the next identifier, and its middle key
/// goes to the parent; the root is split below a new root.
pub open spec fn settle<K: Key, VV>(
    pages: Map<u32, PageView<K::V, VV>>,
    prm: Params,
    ups: Seq<u32>,
    x: u32,
) -> (Map<u32, PageView<K::V, VV>>, Params)
    decreases ups.len(),
{
    if pages[x].keys.len() < prm.b {
        (pages, prm)
    } else if ups.len() == 0 {
        (pages_raised(pages, prm, x), prm_raised(prm))
    } else {
        let y = ups.last();
        let ci = first_at_least::<K>(pages[y].keys, mid_key(pages, prm, x));
        settle::<K, VV>(pages_under(pages, prm, x, y, ci), prm_more(prm, 1), ups.drop_last(), y)
    }
}

/// The pages and counters after an insert of `key` with `val`. The leaf at
/// the end of the way of `key` takes the entry as the model says; a refused
/// insert changes nothing; and pages that hold `b` keys are split.
pub open spec fn inserted<K: Key, VV>(
    pages: Map<u32, PageView<K::V, VV>>,
    prm: Params,
    key: K::V,
    val: VV,
) -> (Map<u32, PageView<K::V, VV>>, Params) {
    let down = way::<K, VV>(pages, prm.root, prm.depth, key);
    let x = down.last();
    let leaf = entries_of(pages[x]);
    let i = first_after::<K>(pages[x].keys, key);
    if prm.unique && holds::<K, VV>(leaf, i - 1, key) {
        if leaf[i - 1].deleted {
            (
                pages.insert(
                    x,
                    with_entries(
                        pages[x],
                        leaf.update(i - 1, Entry { key: leaf[i - 1].key, val, deleted: false }),
                    ),
                ),
                prm,
            )
        } else {
            (pages, prm)
        }
    } else {
        settle::<K, VV>(
            pages.insert(
                x,
                with_entries(
                    pages[x],
                    compacted(leaf.insert(i, Entry { key, val, deleted: false })),
                ),
            ),
            prm,
            down.drop_last(),
            x,
        )
    }
}

} // verus!
