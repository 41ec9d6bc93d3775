use crate::keys::{Key, Val};
use crate::page::{Page, PageView};
use crate::values::Duplicate;
use vstd::prelude::*;

verus! {

/// No page is stored under the identifier that was asked for.
#[derive(Debug, Clone, PartialEq, Eq)]
pub struct PageNotFoundError;

/// A store of pages by identifier.
///
/// Its model is the map from each identifier that was written to the page
/// last written under it.
pub trait Pager<K: Key, V: Val> {
    /// Whether the store is in order.
    open spec fn wf(&self) -> bool {
        arbitrary()
    }

    /// The pages in the store, by identifier.
    open spec fn pages(&self) -> Map<u32, PageView<K::V, V::V>> {
        arbitrary()
    }

    /// The page last written under `id`. Leaves the stored pages as they
    /// are.
    fn read_page(&mut self, id: u32) -> (r: Result<&Page<K, V>, PageNotFoundError>)
        requires
            old(self).wf(),
        ensures
            final(self).wf(),
            final(self).pages() == old(self).pages(),
            match r {
                Ok(page) => old(self).pages().contains_key(id) && page.deep_view() == old(
                    self,
                ).pages()[id],
                Err(_) => !old(self).pages().contains_key(id),
            },
    ;

    /// Stores `page` under its identifier, in place of what was there.
    fn write_page(&mut self, page: &Page<K, V>)
        requires
            old(self).wf(),
        ensures
            final(self).wf(),
            final(self).pages() == old(self).pages().insert(page.id, page.deep_view()),
    ;

    /// Makes what was written durable, where the store is. Leaves the
    /// stored pages as they are.
    fn commit(&mut self)
        requires
            old(self).wf(),
        ensures
            final(self).wf(),
            final(self).pages() == old(self).pages(),
    ;
}

/// A store of pages in memory, kept in the order of their identifiers.
#[derive(Debug)]
pub struct MemPager<K: Key, V: Val> {
    pages: Vec<Page<K, V>>,
}

impl<K: Key, V: Val> MemPager<K, V> {
    /// The place of the page with identifier `id`, where there is one.
    pub closed spec fn place(&self, id: u32) -> int {
        choose|i: int| 0 <= i < self.pages@.len() && self.pages@[i].id == id
    }

    /// A store without pages.
    pub fn new() -> (r: Self)
        ensures
            r.wf(),
            r.pages() == Map::<u32, PageView<K::V, V::V>>::empty(),
    {
        let r = MemPager { pages: Vec::new() };
        assert(r.pages() =~= Map::<u32, PageView<K::V, V::V>>::empty());
        r
    }

    /// The place of the page with identifier `id`, or the place where a
    /// page with that identifier belongs.
    fn locate(&self, id: u32) -> (r: Result<usize, usize>)
        requires
            self.wf(),
        ensures
            match r {
                Ok(i) => i < self.pages@.len() && self.pages@[i as int].id == id,
                Err(i) => i <= self.pages@.len() && (forall|j: int|
                    0 <= j < i ==> (#[trigger] self.pages@[j]).id < id) && (forall|j: int|
                    i <= j < self.pages@.len() ==> (#[trigger] self.pages@[j]).id > id),
            },
    {
        let mut lo: usize = 0;
        let mut hi: usize = self.pages.len();
        while lo < hi
            invariant
                self.wf(),
                lo <= hi <= self.pages@.len(),
                forall|j: int| 0 <= j < lo ==> (#[trigger] self.pages@[j]).id < id,
                forall|j: int| hi <= j < self.pages@.len() ==> (#[trigger] self.pages@[j]).id > id,
            decreases hi - lo,
        {
            let mid: usize = lo + (hi - lo) / 2;
            let at: u32 = self.pages[mid].id;
            if at == id {
                return Ok(mid);
            } else if at < id {
                lo = mid + 1;
            } else {
                hi = mid;
            }
        }
        Err(lo)
    }

    /// The count of pages in the store.
    pub fn len(&self) -> (n: usize)
        requires
            self.wf(),
        ensures
            n == self.pages().dom().len(),
            self.pages().dom().finite(),
    {
        proof {
            self.lemma_dom_len(self.pages@.len() as int);
            assert(self.dom_upto(self.pages@.len() as int) =~= self.pages().dom());
        }
        self.pages.len()
    }

    /// The identifiers of the first `n` pages of the store.
    spec fn dom_upto(&self, n: int) -> Set<u32> {
        Set::new(|id: u32| exists|i: int| 0 <= i < n && i < self.pages@.len() && self.pages@[i].id == id)
    }

    /// The first `n` pages of the store have `n` identifiers.
    proof fn lemma_dom_len(&self, n: int)
        requires
            self.wf(),
            0 <= n <= self.pages@.len(),
        ensures
            self.dom_upto(n).finite(),
            self.dom_upto(n).len() == n,
        decreases n,
    {
        if n == 0 {
            assert(self.dom_upto(0) =~= Set::<u32>::empty());
        } else {
            self.lemma_dom_len(n - 1);
            let last = self.pages@[n - 1].id;
            assert(!self.dom_upto(n - 1).contains(last)) by {
                if self.dom_upto(n - 1).contains(last) {
                    let i = choose|i: int| 0 <= i < n - 1 && i < self.pages@.len() && self.pages@[i].id == last;
                    assert(self.pages@[i].id < self.pages@[n - 1].id);
                }
            }
            assert(self.dom_upto(n) =~= self.dom_upto(n - 1).insert(last));
        }
    }

    /// Whether a page is stored under `id`.
    pub fn contains(&self, id: u32) -> (r: bool)
        requires
            self.wf(),
        ensures
            r == self.pages().contains_key(id),
    {
        match self.locate(id) {
            Ok(idx) => {
                proof {
                    self.lemma_pages_at(idx as int);
                }
                true
            },
            Err(_) => false,
        }
    }

    /// Empties the store and gives its pages, in the order of their
    /// identifiers.
    pub fn take_pages(&mut self) -> (taken: Vec<Page<K, V>>)
        requires
            old(self).wf(),
        ensures
            final(self).wf(),
            final(self).pages() == Map::<u32, PageView<K::V, V::V>>::empty(),
            forall|i: int, j: int|
                0 <= i < j < taken.len() ==> (#[trigger] taken[i]).id < (#[trigger] taken[j]).id,
            forall|i: int|
                0 <= i < taken.len() ==> old(self).pages().contains_key((#[trigger] taken[i]).id)
                    && old(self).pages()[taken[i].id] == taken[i].deep_view(),
            forall|id: u32| #[trigger]
                old(self).pages().contains_key(id) ==> exists|i: int|
                    0 <= i < taken.len() && (#[trigger] taken[i]).id == id,
    {
        let ghost before = *self;
        let mut taken: Vec<Page<K, V>> = Vec::new();
        core::mem::swap(&mut self.pages, &mut taken);
        proof {
            assert(self.pages() =~= Map::<u32, PageView<K::V, V::V>>::empty());
            assert forall|i: int| 0 <= i < taken.len() implies before.pages().contains_key(
                (#[trigger] taken[i]).id,
            ) && before.pages()[taken[i].id] == taken[i].deep_view() by {
                before.lemma_pages_at(i);
            }
        }
        taken
    }

    /// A page is in the model under its own identifier.
    proof fn lemma_pages_at(&self, i: int)
        requires
            self.wf(),
            0 <= i < self.pages@.len(),
        ensures
            self.pages().contains_key(self.pages@[i].id),
            self.pages()[self.pages@[i].id] == self.pages@[i].deep_view(),
    {
        let id = self.pages@[i].id;
        let j = self.place(id);
        assert(0 <= j < self.pages@.len() && self.pages@[j].id == id);
        if j < i {
            assert(self.pages@[j].id < self.pages@[i].id);
        } else if i < j {
            assert(self.pages@[i].id < self.pages@[j].id);
        }
    }
}

impl<K: Key, V: Val> Pager<K, V> for MemPager<K, V> {
    closed spec fn wf(&self) -> bool {
        forall|i: int, j: int|
            0 <= i < j < self.pages@.len() ==> (#[trigger] self.pages@[i]).id < (
            #[trigger] self.pages@[j]).id
    }

    closed spec fn pages(&self) -> Map<u32, PageView<K::V, V::V>> {
        Map::new(
            |id: u32| exists|i: int| 0 <= i < self.pages@.len() && self.pages@[i].id == id,
            |id: u32| self.pages@[self.place(id)].deep_view(),
        )
    }

    fn read_page(&mut self, id: u32) -> (r: Result<&Page<K, V>, PageNotFoundError>) {
        match self.locate(id) {
            Ok(idx) => {
                proof {
                    self.lemma_pages_at(idx as int);
                }
                Ok(&self.pages[idx])
            },
            Err(_) => Err(PageNotFoundError),
        }
    }

    fn write_page(&mut self, page: &Page<K, V>) {
        let ghost before = *self;
        let copy = page.duplicate();
        match self.locate(page.id) {
            Ok(idx) => {
                self.pages[idx] = copy;
                proof {
                    assert forall|i: int, j: int| 0 <= i < j < self.pages@.len() implies (
                    #[trigger] self.pages@[i]).id < (#[trigger] self.pages@[j]).id by {
                        assert(before.pages@[i].id < before.pages@[j].id);
                    }
                    let goal = before.pages().insert(page.id, page.deep_view());
                    assert forall|id: u32| #[trigger] self.pages().contains_key(id) implies goal.contains_key(id) by {
                        let i = choose|i: int| 0 <= i < self.pages@.len() && self.pages@[i].id == id;
                        assert(before.pages@[i].id == id);
                    }
                    assert forall|id: u32| #[trigger] goal.contains_key(id) implies self.pages().contains_key(id) && self.pages()[id] == goal[id] by {
                        if id == page.id {
                            self.lemma_pages_at(idx as int);
                        } else {
                            let i = choose|i: int| 0 <= i < before.pages@.len() && before.pages@[i].id == id;
                            assert(self.pages@[i] == before.pages@[i]);
                            self.lemma_pages_at(i);
                            before.lemma_pages_at(i);
                        }
                    }
                    assert(self.pages() =~= goal);
                }
            },
            Err(idx) => {
                self.pages.insert(idx, copy);
                proof {
                    assert forall|i: int, j: int| 0 <= i < j < self.pages@.len() implies (
                    #[trigger] self.pages@[i]).id < (#[trigger] self.pages@[j]).id by {
                        if i < idx as int && j > idx as int {
                            assert(before.pages@[i].id < page.id);
                            assert(before.pages@[j - 1].id > page.id);
                        } else if i < idx as int && j < idx as int {
                            assert(before.pages@[i].id < before.pages@[j].id);
                        } else if i < idx as int {
                            assert(before.pages@[i].id < page.id);
                        } else if i == idx as int {
                            assert(before.pages@[j - 1].id > page.id);
                        } else {
                            assert(before.pages@[i - 1].id < before.pages@[j - 1].id);
                        }
                    }
                    let goal = before.pages().insert(page.id, page.deep_view());
                    assert forall|id: u32| #[trigger] self.pages().contains_key(id) implies goal.contains_key(id) by {
                        let i = choose|i: int| 0 <= i < self.pages@.len() && self.pages@[i].id == id;
                        if i < idx as int {
                            assert(before.pages@[i].id == id);
                        } else if i > idx as int {
                            assert(before.pages@[i - 1].id == id);
                        }
                    }
                    assert forall|id: u32| #[trigger] goal.contains_key(id) implies self.pages().contains_key(id) && self.pages()[id] == goal[id] by {
                        if id == page.id {
                            self.lemma_pages_at(idx as int);
                        } else {
                            let i = choose|i: int| 0 <= i < before.pages@.len() && before.pages@[i].id == id;
                            before.lemma_pages_at(i);
                            if i < idx as int {
                                assert(self.pages@[i] == before.pages@[i]);
                                self.lemma_pages_at(i);
                            } else {
                                assert(self.pages@[i + 1] == before.pages@[i]);
                                self.lemma_pages_at(i + 1);
                            }
                        }
                    }
                    assert(self.pages() =~= goal);
                }
            },
        }
    }

    fn commit(&mut self) {
    }
}

} // verus!
