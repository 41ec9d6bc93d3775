use crate::keys::Key;
use crate::model::{
    above, ascending, below, bound_above, bound_below, keys_of, strictly_above, view_ok,
    with_leaf, Entry, TreeView,
};
use crate::page::{PageType, PageView};
use vstd::prelude::*;

verus! {

/// What the index knows of its pages beyond what they hold: for each page
/// its height above the leaves and the bounds between which its keys lie,
/// and the leaves in their order with the bounds between them.
pub struct Layout<KV> {
    pub level: Map<u32, nat>,
    pub lower: Map<u32, Option<KV>>,
    pub upper: Map<u32, Option<KV>>,
    pub place: Map<u32, int>,
    pub chain: Seq<u32>,
    pub bounds: Seq<KV>,
}

/// The settings and counters of the index.
pub struct Params {
    pub b: nat,
    pub unique: bool,
    pub depth: nat,
    pub root: u32,
    pub next: nat,
}

/// The entries of a leaf.
pub open spec fn entries_of<KV, VV>(p: PageView<KV, VV>) -> Seq<Entry<KV, VV>> {
    Seq::new(p.keys.len(), |i: int| Entry { key: p.keys[i], val: p.vals[i], deleted: p.deleted[i] })
}

/// The model that the pages and the layout stand for.
pub open spec fn view_of<KV, VV>(pages: Map<u32, PageView<KV, VV>>, lay: Layout<KV>) -> TreeView<
    KV,
    VV,
> {
    TreeView {
        leaves: Seq::new(lay.chain.len(), |t: int| entries_of(pages[lay.chain[t]])),
        bounds: lay.bounds,
    }
}

/// Whether `keys` ascend between `lo` and `hi`, and the key in the middle
/// place, if there are that many, stands strictly above `lo`.
pub open spec fn keys_ok<K: Key>(
    keys: Seq<K::V>,
    lo: Option<K::V>,
    hi: Option<K::V>,
    unique: bool,
    s: int,
) -> bool {
    &&& ascending::<K>(keys, unique)
    &&& forall|i: int|
        0 <= i < keys.len() ==> above::<K>(lo, #[trigger] keys[i], unique) && below::<K>(
            keys[i],
            hi,
        )
    &&& keys.len() > s ==> strictly_above::<K>(lo, keys[s])
}

/// The bound below child `i` of a page with `keys` and lower bound `lo`.
pub open spec fn child_lower<KV>(keys: Seq<KV>, lo: Option<KV>, i: int) -> Option<KV> {
    if i == 0 {
        lo
    } else {
        Some(keys[i - 1])
    }
}

/// The bound above child `i` of a page with `keys`.
pub open spec fn child_upper<KV>(keys: Seq<KV>, i: int) -> Option<KV> {
    if i < keys.len() {
        Some(keys[i])
    } else {
        None
    }
}

/// Whether child `i` of page `id` is a page one level below it, between
/// the bounds that the keys of `id` give it.
pub open spec fn child_ok<KV, VV>(
    pages: Map<u32, PageView<KV, VV>>,
    lay: Layout<KV>,
    id: u32,
    i: int,
) -> bool {
    let p = pages[id];
    let c = p.children[i];
    &&& pages.dom().contains(c)
    &&& lay.level[c] + 1 == lay.level[id]
    &&& lay.lower[c] == child_lower(p.keys, lay.lower[id], i)
    &&& lay.upper[c] == child_upper(p.keys, i)
}

/// Whether page `id` is as the index keeps its pages. The page named by
/// `over`, if any, may hold one key more than the others.
pub open spec fn page_ok<K: Key, VV>(
    pages: Map<u32, PageView<K::V, VV>>,
    lay: Layout<K::V>,
    prm: Params,
    over: Option<u32>,
    id: u32,
) -> bool {
    let p = pages[id];
    &&& p.id == id
    &&& id < prm.next
    &&& lay.level[id] <= prm.depth
    &&& p.keys.len() < prm.b || (over == Some(id) && p.keys.len() == prm.b)
    &&& keys_ok::<K>(p.keys, lay.lower[id], lay.upper[id], prm.unique, (prm.b / 2) as int)
    &&& if lay.level[id] == 0 {
        &&& p.ptype == PageType::Leaf
        &&& p.vals.len() == p.keys.len()
        &&& p.deleted.len() == p.keys.len()
        &&& p.children.len() == 0
        &&& 0 <= lay.place[id] < lay.chain.len()
        &&& lay.chain[lay.place[id]] == id
    } else {
        &&& p.ptype == PageType::Interior
        &&& p.vals.len() == 0
        &&& p.deleted.len() == 0
        &&& p.sibling is None
        &&& p.keys.len() >= 1
        &&& p.children.len() == p.keys.len() + if lay.upper[id] is None {
            1int
        } else {
            0int
        }
        &&& lay.upper[id] matches Some(h) ==> p.keys[p.keys.len() - 1] == h
        &&& forall|i: int| 0 <= i < p.children.len() ==> #[trigger] child_ok(pages, lay, id, i)
    }
}

/// Whether leaf `t` of the chain is a leaf between the bounds of its place
/// that names the next leaf as its sibling.
pub open spec fn link_ok<KV, VV>(pages: Map<u32, PageView<KV, VV>>, lay: Layout<KV>, t: int) -> bool {
    let x = lay.chain[t];
    &&& pages.dom().contains(x)
    &&& lay.level[x] == 0
    &&& lay.place[x] == t
    &&& lay.lower[x] == bound_below(lay.bounds, t)
    &&& lay.upper[x] == bound_above(lay.bounds, t)
    &&& pages[x].sibling == if t + 1 < lay.chain.len() {
        Some(lay.chain[t + 1])
    } else {
        None
    }
}

/// Whether no page is the child of two pages, or twice the child of one.
pub open spec fn one_parent<KV, VV>(pages: Map<u32, PageView<KV, VV>>) -> bool {
    forall|a: u32, i: int, b: u32, j: int|
        pages.dom().contains(a) && pages.dom().contains(b) && 0 <= i < pages[a].children.len() && 0
            <= j < pages[b].children.len() && #[trigger] pages[a].children[i]
            == #[trigger] pages[b].children[j] ==> a == b && i == j
}

/// Whether the pages form an index as the layout describes it.
pub open spec fn inv<K: Key, VV>(
    pages: Map<u32, PageView<K::V, VV>>,
    lay: Layout<K::V>,
    prm: Params,
    over: Option<u32>,
) -> bool {
    &&& prm.b >= 3
    &&& prm.b % 2 == 1
    &&& pages.dom().contains(prm.root)
    &&& lay.level[prm.root] == prm.depth
    &&& lay.lower[prm.root] is None
    &&& lay.upper[prm.root] is None
    &&& forall|id: u32| pages.dom().contains(id) ==> #[trigger] page_ok::<K, VV>(pages, lay, prm, over, id)
    &&& forall|id: u32| id < prm.next ==> #[trigger] pages.dom().contains(id)
    &&& one_parent(pages)
    &&& lay.chain.len() == lay.bounds.len() + 1
    &&& ascending::<K>(lay.bounds, prm.unique)
    &&& forall|t: int| 0 <= t < lay.chain.len() ==> #[trigger] link_ok(pages, lay, t)
}

/// Different numbers below `n` are no more than `n`.
pub proof fn lemma_distinct_below(s: Seq<u32>, n: nat)
    requires
        forall|i: int| 0 <= i < s.len() ==> (#[trigger] s[i]) < n,
        forall|i: int, j: int| 0 <= i < j < s.len() ==> #[trigger] s[i] != #[trigger] s[j],
    ensures
        s.len() <= n,
    decreases n,
{
    if s.len() > 0 {
        assert(s[0] < n);
        let top = (n - 1) as nat;
        if exists|i: int| 0 <= i < s.len() && #[trigger] s[i] == top {
            let at = choose|i: int| 0 <= i < s.len() && #[trigger] s[i] == top;
            let rest = s.remove(at);
            assert forall|i: int| 0 <= i < rest.len() implies (#[trigger] rest[i]) < top by {
                let i0 = if i < at {
                    i
                } else {
                    i + 1
                };
                assert(rest[i] == s[i0]);
                assert(s[i0] < n);
                if i0 < at {
                    assert(s[i0] != s[at]);
                } else {
                    assert(s[at] != s[i0]);
                }
            }
            assert forall|i: int, j: int| 0 <= i < j < rest.len() implies #[trigger] rest[i]
                != #[trigger] rest[j] by {
                let i0 = if i < at {
                    i
                } else {
                    i + 1
                };
                let j0 = if j < at {
                    j
                } else {
                    j + 1
                };
                assert(s[i0] != s[j0]);
            }
            lemma_distinct_below(rest, top);
        } else {
            assert forall|i: int| 0 <= i < s.len() implies (#[trigger] s[i]) < top by {
                assert(s[i] < n);
            }
            lemma_distinct_below(s, top);
        }
    }
}

/// The chain of an index that is in order has no more leaves than the
/// index has made pages.
pub proof fn lemma_chain_short<K: Key, VV>(
    pages: Map<u32, PageView<K::V, VV>>,
    lay: Layout<K::V>,
    prm: Params,
)
    requires
        inv::<K, VV>(pages, lay, prm, None),
    ensures
        lay.chain.len() <= prm.next,
{
    assert forall|i: int| 0 <= i < lay.chain.len() implies (#[trigger] lay.chain[i]) < prm.next by {
        assert(link_ok(pages, lay, i));
        assert(page_ok::<K, VV>(pages, lay, prm, None, lay.chain[i]));
    }
    assert forall|i: int, j: int| 0 <= i < j < lay.chain.len() implies #[trigger] lay.chain[i]
        != #[trigger] lay.chain[j] by {
        assert(link_ok(pages, lay, i));
        assert(link_ok(pages, lay, j));
    }
    lemma_distinct_below(lay.chain, prm.next);
}

/// The model of an index that is in order is in order.
pub proof fn lemma_view_ok<K: Key, VV>(
    pages: Map<u32, PageView<K::V, VV>>,
    lay: Layout<K::V>,
    prm: Params,
)
    requires
        inv::<K, VV>(pages, lay, prm, None),
    ensures
        view_ok::<K, VV>(view_of(pages, lay), prm.b, prm.unique),
{
    let view = view_of(pages, lay);
    assert forall|t: int| 0 <= t < view.leaves.len() implies {
        &&& (#[trigger] view.leaves[t]).len() < prm.b
        &&& ascending::<K>(keys_of(view.leaves[t]), prm.unique)
        &&& forall|i: int|
            0 <= i < view.leaves[t].len() ==> above::<K>(
                bound_below(view.bounds, t),
                (#[trigger] view.leaves[t][i]).key,
                prm.unique,
            ) && below::<K>(view.leaves[t][i].key, bound_above(view.bounds, t))
    } by {
        let x = lay.chain[t];
        assert(link_ok(pages, lay, t));
        assert(page_ok::<K, VV>(pages, lay, prm, None, x));
        let p = pages[x];
        assert(keys_of(view.leaves[t]) =~= p.keys);
        assert forall|i: int| 0 <= i < view.leaves[t].len() implies above::<K>(
            bound_below(view.bounds, t),
            (#[trigger] view.leaves[t][i]).key,
            prm.unique,
        ) && below::<K>(view.leaves[t][i].key, bound_above(view.bounds, t)) by {
            assert(view.leaves[t][i].key == p.keys[i]);
        }
    }
}

/// A leaf may change its values and tombstones, and its sibling where the
/// chain agrees, and the index stays in order.
pub proof fn lemma_leaf_rewritten<K: Key, VV>(
    pages: Map<u32, PageView<K::V, VV>>,
    lay: Layout<K::V>,
    prm: Params,
    over: Option<u32>,
    id: u32,
    page: PageView<K::V, VV>,
)
    requires
        inv::<K, VV>(pages, lay, prm, over),
        pages.dom().contains(id),
        lay.level[id] == 0,
        page.id == id,
        page.ptype == pages[id].ptype,
        page.keys == pages[id].keys,
        page.children == pages[id].children,
        page.sibling == pages[id].sibling,
        page.vals.len() == page.keys.len(),
        page.deleted.len() == page.keys.len(),
    ensures
        inv::<K, VV>(pages.insert(id, page), lay, prm, over),
{
    let after = pages.insert(id, page);
    assert(after.dom() =~= pages.dom());
    assert forall|x: u32| after.dom().contains(x) implies #[trigger] page_ok::<K, VV>(
        after,
        lay,
        prm,
        over,
        x,
    ) by {
        assert(page_ok::<K, VV>(pages, lay, prm, over, x));
        if x != id && lay.level[x] != 0 {
            assert forall|i: int| 0 <= i < after[x].children.len() implies #[trigger] child_ok(
                after,
                lay,
                x,
                i,
            ) by {
                assert(child_ok(pages, lay, x, i));
            }
        }
    }
    assert forall|t: int| 0 <= t < lay.chain.len() implies #[trigger] link_ok(after, lay, t) by {
        assert(link_ok(pages, lay, t));
    }
    assert(one_parent(after)) by {
        assert forall|a: u32, i: int, b: u32, j: int|
            after.dom().contains(a) && after.dom().contains(b) && 0 <= i
                < after[a].children.len() && 0 <= j < after[b].children.len()
                && #[trigger] after[a].children[i] == #[trigger] after[b].children[j] implies a
                == b && i == j by {
            assert(after[a].children == pages[a].children);
            assert(after[b].children == pages[b].children);
            assert(pages[a].children[i] == pages[b].children[j]);
        }
    }
}

/// A leaf may be replaced by a leaf with other entries whose keys are in
/// order between its bounds, and the index stays in order; the model is the
/// model with the entries of that leaf replaced.
pub proof fn lemma_leaf_replaced<K: Key, VV>(
    pages: Map<u32, PageView<K::V, VV>>,
    lay: Layout<K::V>,
    prm: Params,
    over: Option<u32>,
    id: u32,
    page: PageView<K::V, VV>,
)
    requires
        inv::<K, VV>(pages, lay, prm, None),
        pages.dom().contains(id),
        lay.level[id] == 0,
        page.id == id,
        page.ptype == PageType::Leaf,
        page.children.len() == 0,
        page.sibling == pages[id].sibling,
        page.vals.len() == page.keys.len(),
        page.deleted.len() == page.keys.len(),
        page.keys.len() < prm.b || (over == Some(id) && page.keys.len() == prm.b),
        keys_ok::<K>(page.keys, lay.lower[id], lay.upper[id], prm.unique, (prm.b / 2) as int),
    ensures
        inv::<K, VV>(pages.insert(id, page), lay, prm, over),
        view_of(pages.insert(id, page), lay) == with_leaf(
            view_of(pages, lay),
            lay.place[id],
            entries_of(page),
        ),
{
    let after = pages.insert(id, page);
    assert(after.dom() =~= pages.dom());
    assert forall|x: u32| after.dom().contains(x) implies #[trigger] page_ok::<K, VV>(
        after,
        lay,
        prm,
        over,
        x,
    ) by {
        assert(page_ok::<K, VV>(pages, lay, prm, None, x));
        if x != id && lay.level[x] != 0 {
            assert forall|i: int| 0 <= i < after[x].children.len() implies #[trigger] child_ok(
                after,
                lay,
                x,
                i,
            ) by {
                assert(child_ok(pages, lay, x, i));
            }
        }
    }
    assert forall|t: int| 0 <= t < lay.chain.len() implies #[trigger] link_ok(after, lay, t) by {
        assert(link_ok(pages, lay, t));
    }
    assert(one_parent(after)) by {
        assert(page_ok::<K, VV>(pages, lay, prm, None, id));
        assert forall|a: u32, i: int, b: u32, j: int|
            after.dom().contains(a) && after.dom().contains(b) && 0 <= i
                < after[a].children.len() && 0 <= j < after[b].children.len()
                && #[trigger] after[a].children[i] == #[trigger] after[b].children[j] implies a
                == b && i == j by {
            assert(after[a].children == pages[a].children);
            assert(after[b].children == pages[b].children);
            assert(pages[a].children[i] == pages[b].children[j]);
        }
    }
    let t0 = lay.place[id];
    let goal = with_leaf(view_of(pages, lay), t0, entries_of(page));
    let got = view_of(after, lay);
    assert(page_ok::<K, VV>(pages, lay, prm, None, id));
    assert forall|t: int| 0 <= t < got.leaves.len() implies #[trigger] got.leaves[t]
        == goal.leaves[t] by {
        assert(link_ok(pages, lay, t));
    }
    assert(got.leaves =~= goal.leaves);
}

} // verus!
