use crate::keys::{Key, Val};
use crate::page::{Page, PageView, PAGE_SIZE};
use crate::pager::{MemPager, PageNotFoundError, Pager};
use crate::values::Duplicate;
use vstd::prelude::*;

verus! {

/// Where a page is to be had from.
#[derive(Debug, Clone, Copy, PartialEq, Eq)]
pub enum Place {
    /// In the write buffer.
    Buffer,
    /// In the read cache.
    Cache,
    /// In the file, in the block that starts at this byte.
    Disk(u64),
    /// Nowhere: no page was written under the identifier.
    Nowhere,
}

/// The books of a store of pages in a file: the pages that wait in the
/// write buffer, the pages that the read cache holds, and for each page in
/// the file the byte at which its block starts. The books decide where a
/// page is read from and where it is written to; the file itself is read
/// and written by their keeper.
pub struct PageBook<K: Key, V: Val> {
    buffer: MemPager<K, V>,
    buffer_max: usize,
    offsets: Vec<(u32, u64)>,
    next_offset: u64,
    cache: MemPager<K, V>,
}

impl<K: Key, V: Val> PageBook<K, V> {
    /// The place in the table of the page with identifier `id`.
    spec fn slot(&self, id: u32) -> int {
        choose|i: int| 0 <= i < self.offsets@.len() && self.offsets@[i].0 == id
    }

    /// The pages in the write buffer.
    pub closed spec fn buffered(&self) -> Map<u32, PageView<K::V, V::V>> {
        self.buffer.pages()
    }

    /// The pages in the read cache.
    pub closed spec fn cached(&self) -> Map<u32, PageView<K::V, V::V>> {
        self.cache.pages()
    }

    /// For each page in the file, the byte at which its block starts.
    pub closed spec fn stored(&self) -> Map<u32, u64> {
        Map::new(
            |id: u32| exists|i: int| 0 <= i < self.offsets@.len() && self.offsets@[i].0 == id,
            |id: u32| self.offsets@[self.slot(id)].1,
        )
    }

    /// The byte after the last block of the file.
    pub closed spec fn end(&self) -> u64 {
        self.next_offset
    }

    /// The count of pages that the write buffer holds at most between two
    /// flushes.
    pub closed spec fn bound(&self) -> usize {
        self.buffer_max
    }

    /// The pages that can be read without the file: those of the cache,
    /// and over them those of the buffer.
    pub open spec fn known(&self) -> Map<u32, PageView<K::V, V::V>> {
        self.cached().union_prefer_right(self.buffered())
    }

    /// Whether the books are in order: the table is kept in the order of
    /// the identifiers, and every block lies before the end of the file.
    pub closed spec fn wf(&self) -> bool {
        &&& self.buffer.wf()
        &&& self.cache.wf()
        &&& forall|i: int, j: int|
            0 <= i < j < self.offsets@.len() ==> (#[trigger] self.offsets@[i]).0 < (
            #[trigger] self.offsets@[j]).0
        &&& forall|i: int|
            0 <= i < self.offsets@.len() ==> (#[trigger] self.offsets@[i]).1 + PAGE_SIZE
                <= self.next_offset
        &&& forall|i: int, j: int|
            0 <= i < self.offsets@.len() && 0 <= j < self.offsets@.len() && i != j ==> apart(
                (#[trigger] self.offsets@[i]).1,
                (#[trigger] self.offsets@[j]).1,
            )
    }

    /// In books that are in order, the blocks of two pages do not overlap,
    /// and no block reaches beyond the end of the file.
    pub proof fn law_blocks_apart(&self, one: u32, two: u32)
        requires
            self.wf(),
            self.stored().contains_key(one),
            self.stored().contains_key(two),
            one != two,
        ensures
            apart(self.stored()[one], self.stored()[two]),
            self.stored()[one] + PAGE_SIZE <= self.end(),
    {
        let i = self.slot(one);
        let j = self.slot(two);
        assert(0 <= i < self.offsets@.len() && self.offsets@[i].0 == one);
        assert(0 <= j < self.offsets@.len() && self.offsets@[j].0 == two);
        self.lemma_stored_at(i);
        self.lemma_stored_at(j);
    }

    /// An entry of the table is in the model under its identifier.
    proof fn lemma_stored_at(&self, i: int)
        requires
            self.wf(),
            0 <= i < self.offsets@.len(),
        ensures
            self.stored().contains_key(self.offsets@[i].0),
            self.stored()[self.offsets@[i].0] == self.offsets@[i].1,
    {
        let id = self.offsets@[i].0;
        let j = self.slot(id);
        assert(0 <= j < self.offsets@.len() && self.offsets@[j].0 == id);
        if j < i {
            assert(self.offsets@[j].0 < self.offsets@[i].0);
        } else if i < j {
            assert(self.offsets@[i].0 < self.offsets@[j].0);
        }
    }

    /// Empty books over an empty file.
    pub fn new(buffer_max: usize) -> (r: Self)
        ensures
            r.wf(),
            r.bound() == buffer_max,
            r.end() == 0,
            r.buffered() == Map::<u32, PageView<K::V, V::V>>::empty(),
            r.cached() == Map::<u32, PageView<K::V, V::V>>::empty(),
            r.stored() == Map::<u32, u64>::empty(),
    {
        let r = PageBook {
            buffer: MemPager::new(),
            buffer_max,
            offsets: Vec::new(),
            next_offset: 0,
            cache: MemPager::new(),
        };
        assert(r.stored() =~= Map::<u32, u64>::empty());
        r
    }

    /// The place in the table of the page with identifier `id`, or the
    /// place where it belongs.
    fn locate(&self, id: u32) -> (r: Result<usize, usize>)
        requires
            self.wf(),
        ensures
            match r {
                Ok(i) => i < self.offsets@.len() && self.offsets@[i as int].0 == id,
                Err(i) => i <= self.offsets@.len() && (forall|j: int|
                    0 <= j < i ==> (#[trigger] self.offsets@[j]).0 < id) && (forall|j: int|
                    i <= j < self.offsets@.len() ==> (#[trigger] self.offsets@[j]).0 > id),
            },
    {
        let mut lo: usize = 0;
        let mut hi: usize = self.offsets.len();
        while lo < hi
            invariant
                self.wf(),
                lo <= hi <= self.offsets@.len(),
                forall|j: int| 0 <= j < lo ==> (#[trigger] self.offsets@[j]).0 < id,
                forall|j: int| hi <= j < self.offsets@.len() ==> (#[trigger] self.offsets@[j]).0 > id,
            decreases hi - lo,
        {
            let mid: usize = lo + (hi - lo) / 2;
            let at: u32 = self.offsets[mid].0;
            if at == id {
                return Ok(mid);
            } else if at < id {
                lo = mid + 1;
            } else {
                hi = mid;
            }
        }
        Err(lo)
    }

    /// Where the page with identifier `id` is to be read from: the write
    /// buffer first, then the read cache, then the file.
    pub fn place_of(&self, id: u32) -> (r: Place)
        requires
            self.wf(),
        ensures
            match r {
                Place::Buffer => self.buffered().contains_key(id),
                Place::Cache => !self.buffered().contains_key(id) && self.cached().contains_key(id),
                Place::Disk(offset) => !self.known().contains_key(id) && self.stored().contains_key(
                    id,
                ) && self.stored()[id] == offset && offset + PAGE_SIZE <= self.end(),
                Place::Nowhere => !self.known().contains_key(id) && !self.stored().contains_key(id),
            },
    {
        if self.buffer.contains(id) {
            Place::Buffer
        } else if self.cache.contains(id) {
            Place::Cache
        } else {
            match self.locate(id) {
                Ok(i) => {
                    proof {
                        self.lemma_stored_at(i as int);
                    }
                    Place::Disk(self.offsets[i].1)
                },
                Err(_) => Place::Nowhere,
            }
        }
    }

    /// The page with identifier `id`, where it can be read without the
    /// file.
    pub fn read_known(&mut self, id: u32) -> (r: Result<&Page<K, V>, PageNotFoundError>)
        requires
            old(self).wf(),
        ensures
            final(self).wf(),
            final(self).buffered() == old(self).buffered(),
            final(self).cached() == old(self).cached(),
            final(self).stored() == old(self).stored(),
            final(self).end() == old(self).end(),
            final(self).bound() == old(self).bound(),
            match r {
                Ok(page) => old(self).known().contains_key(id) && page.deep_view() == old(
                    self,
                ).known()[id],
                Err(_) => !old(self).known().contains_key(id),
            },
    {
        if self.buffer.contains(id) {
            self.buffer.read_page(id)
        } else {
            self.cache.read_page(id)
        }
    }

    /// Takes a page that was read from the file into the read cache.
    pub fn cache_page(&mut self, page: &Page<K, V>)
        requires
            old(self).wf(),
        ensures
            final(self).wf(),
            final(self).buffered() == old(self).buffered(),
            final(self).cached() == old(self).cached().insert(page.id, page.deep_view()),
            final(self).stored() == old(self).stored(),
            final(self).end() == old(self).end(),
            final(self).bound() == old(self).bound(),
    {
        self.cache.write_page(page);
    }

    /// Puts `page` into the write buffer, in place of the page of its
    /// identifier that waits there. Says whether the buffer now holds more
    /// pages than its bound, so that it is to be flushed.
    pub fn write_page(&mut self, page: &Page<K, V>) -> (full: bool)
        requires
            old(self).wf(),
        ensures
            final(self).wf(),
            final(self).buffered() == old(self).buffered().insert(page.id, page.deep_view()),
            final(self).cached() == old(self).cached(),
            final(self).stored() == old(self).stored(),
            final(self).end() == old(self).end(),
            final(self).bound() == old(self).bound(),
            final(self).known() == old(self).known().insert(page.id, page.deep_view()),
            full == (final(self).buffered().dom().len() > final(self).bound()),
    {
        self.buffer.write_page(page);
        assert(self.known() =~= old(self).known().insert(page.id, page.deep_view()));
        self.buffer.len() > self.buffer_max
    }

    /// Gives `id` a block in the file, where it has none: the block at the
    /// end of the file. Gives the byte at which the block of `id` starts.
    fn assign(&mut self, id: u32) -> (offset: u64)
        requires
            old(self).wf(),
            old(self).next_offset + PAGE_SIZE <= u64::MAX,
        ensures
            final(self).wf(),
            final(self).buffer == old(self).buffer,
            final(self).cache == old(self).cache,
            final(self).buffer_max == old(self).buffer_max,
            old(self).stored().contains_key(id) ==> final(self).stored() == old(self).stored()
                && final(self).next_offset == old(self).next_offset,
            !old(self).stored().contains_key(id) ==> final(self).stored() == old(
                self,
            ).stored().insert(id, old(self).next_offset) && final(self).next_offset == old(
                self,
            ).next_offset + PAGE_SIZE,
            final(self).stored().contains_key(id),
            final(self).stored()[id] == offset,
            offset + PAGE_SIZE <= final(self).next_offset,
            offset == if old(self).stored().contains_key(id) {
                old(self).stored()[id]
            } else {
                old(self).next_offset
            },
    {
        let ghost before = *self;
        match self.locate(id) {
            Ok(i) => {
                proof {
                    self.lemma_stored_at(i as int);
                }
                self.offsets[i].1
            },
            Err(i) => {
                let offset: u64 = self.next_offset;
                self.offsets.insert(i, (id, offset));
                self.next_offset = offset + PAGE_SIZE as u64;
                proof {
                    assert forall|a: int, c: int| 0 <= a < c < self.offsets@.len() implies (
                    #[trigger] self.offsets@[a]).0 < (#[trigger] self.offsets@[c]).0 by {
                        if a < i as int && c > i as int {
                            assert(before.offsets@[a].0 < id);
                            assert(before.offsets@[c - 1].0 > id);
                        } else if a < i as int && c < i as int {
                            assert(before.offsets@[a].0 < before.offsets@[c].0);
                        } else if a < i as int {
                            assert(before.offsets@[a].0 < id);
                        } else if a == i as int {
                            assert(before.offsets@[c - 1].0 > id);
                        } else {
                            assert(before.offsets@[a - 1].0 < before.offsets@[c - 1].0);
                        }
                    }
                    assert forall|a: int| 0 <= a < self.offsets@.len() implies (
                    #[trigger] self.offsets@[a]).1 + PAGE_SIZE <= self.next_offset by {
                        if a < i as int {
                            assert(before.offsets@[a].1 + PAGE_SIZE <= before.next_offset);
                        } else if a > i as int {
                            assert(before.offsets@[a - 1].1 + PAGE_SIZE <= before.next_offset);
                        }
                    }
                    assert forall|a: int, c: int|
                        0 <= a < self.offsets@.len() && 0 <= c < self.offsets@.len() && a
                            != c implies apart(
                        (#[trigger] self.offsets@[a]).1,
                        (#[trigger] self.offsets@[c]).1,
                    ) by {
                        let a0 = if a > i as int {
                            a - 1
                        } else {
                            a
                        };
                        let c0 = if c > i as int {
                            c - 1
                        } else {
                            c
                        };
                        if a != i as int && c != i as int {
                            assert(apart(before.offsets@[a0].1, before.offsets@[c0].1));
                        } else if a == i as int {
                            assert(before.offsets@[c0].1 + PAGE_SIZE <= before.next_offset);
                        } else {
                            assert(before.offsets@[a0].1 + PAGE_SIZE <= before.next_offset);
                        }
                    }
                    let goal = before.stored().insert(id, offset);
                    assert forall|x: u32| #[trigger] self.stored().contains_key(x) implies goal.contains_key(x) by {
                        let a = choose|a: int| 0 <= a < self.offsets@.len() && self.offsets@[a].0 == x;
                        if a < i as int {
                            assert(before.offsets@[a].0 == x);
                        } else if a > i as int {
                            assert(before.offsets@[a - 1].0 == x);
                        }
                    }
                    assert forall|x: u32| #[trigger] goal.contains_key(x) implies self.stored().contains_key(x)
                        && self.stored()[x] == goal[x] by {
                        if x == id {
                            self.lemma_stored_at(i as int);
                        } else {
                            let a = choose|a: int| 0 <= a < before.offsets@.len() && before.offsets@[a].0 == x;
                            before.lemma_stored_at(a);
                            if a < i as int {
                                assert(self.offsets@[a] == before.offsets@[a]);
                                self.lemma_stored_at(a);
                            } else {
                                assert(self.offsets@[a + 1] == before.offsets@[a]);
                                self.lemma_stored_at(a + 1);
                            }
                        }
                    }
                    assert(self.stored() =~= goal);
                    assert(!before.stored().contains_key(id)) by {
                        if before.stored().contains_key(id) {
                            let a = choose|a: int| 0 <= a < before.offsets@.len() && before.offsets@[a].0 == id;
                            assert(before.offsets@[a].0 == id);
                        }
                    }
                }
                offset
            },
        }
    }

    /// Empties the write buffer. Gives each page that waited there with the
    /// byte at which its block starts, in the order of the identifiers: a
    /// page that the file holds keeps its block, and each other page takes
    /// the block at the end of the file. The pages pass into the read
    /// cache. Gives nothing, and leaves the books as they are, where the
    /// file would grow beyond what a 64-bit offset can address.
    pub fn flush(&mut self) -> (r: Option<Vec<(u64, Page<K, V>)>>)
        requires
            old(self).wf(),
        ensures
            final(self).wf(),
            final(self).bound() == old(self).bound(),
            final(self).known() == old(self).known(),
            match r {
                Some(writes) => {
                    &&& final(self).buffered() == Map::<u32, PageView<K::V, V::V>>::empty()
                    &&& final(self).end() >= old(self).end()
                    &&& forall|id: u32| #[trigger]
                        old(self).stored().contains_key(id) ==> final(self).stored().contains_key(
                            id,
                        ) && final(self).stored()[id] == old(self).stored()[id]
                    &&& forall|i: int|
                        0 <= i < writes.len() ==> {
                            let id = (#[trigger] writes[i]).1.id;
                            &&& old(self).buffered().contains_key(id)
                            &&& old(self).buffered()[id] == writes[i].1.deep_view()
                            &&& final(self).stored().contains_key(id)
                            &&& final(self).stored()[id] == writes[i].0
                            &&& writes[i].0 + PAGE_SIZE <= final(self).end()
                        }
                    &&& forall|id: u32| #[trigger]
                        old(self).buffered().contains_key(id) ==> exists|i: int|
                            0 <= i < writes.len() && (#[trigger] writes[i]).1.id == id
                    &&& forall|i: int, j: int|
                        0 <= i < j < writes.len() ==> (#[trigger] writes[i]).1.id < (
                        #[trigger] writes[j]).1.id
                    &&& forall|i: int|
                        0 <= i < writes.len() ==> (#[trigger] writes[i]).0 == if old(
                            self,
                        ).stored().contains_key(writes[i].1.id) {
                            old(self).stored()[writes[i].1.id] as int
                        } else {
                            old(self).end() + PAGE_SIZE * fresh_count(
                                written(writes@),
                                old(self).stored(),
                                i,
                            )
                        }
                    &&& final(self).end() == old(self).end() + PAGE_SIZE * fresh_count(
                        written(writes@),
                        old(self).stored(),
                        writes.len() as int,
                    )
                    &&& forall|id: u32|
                        final(self).stored().contains_key(id) <==> old(self).stored().contains_key(
                            id,
                        ) || old(self).buffered().contains_key(id)
                },
                None => {
                    &&& final(self).buffered() == old(self).buffered()
                    &&& final(self).cached() == old(self).cached()
                    &&& final(self).stored() == old(self).stored()
                    &&& final(self).end() == old(self).end()
                    &&& old(self).end() + old(self).buffered().dom().len() * PAGE_SIZE > u64::MAX
                },
            },
    {
        let count: usize = self.buffer.len();
        let room: u64 = (u64::MAX - self.next_offset) / (PAGE_SIZE as u64);
        if count as u64 > room {
            assert(self.next_offset + count * PAGE_SIZE > u64::MAX) by (nonlinear_arith)
                requires
                    count > (u64::MAX - self.next_offset) / 65536,
                    PAGE_SIZE == 65536,
            ;
            return None;
        }
        assert(self.next_offset + count * PAGE_SIZE <= u64::MAX) by (nonlinear_arith)
            requires
                count <= (u64::MAX - self.next_offset) / 65536,
                PAGE_SIZE == 65536,
        ;
        let ghost before = *self;
        let mut taken = self.buffer.take_pages();
        let ghost all = taken@;
        proof {
            assert(taken.len() <= count) by {
                lemma_taken_count::<K, V>(all, before.buffered());
            }
            assert forall|id: u32| before.buffered().contains_key(id) <==> among(
                all,
                all.len() as int,
                id,
            ) by {
                if before.buffered().contains_key(id) {
                    let j = choose|j: int| 0 <= j < all.len() && (#[trigger] all[j]).id == id;
                    assert(all[j].id == id);
                }
                if among(all, all.len() as int, id) {
                    let j = choose|j: int| 0 <= j < all.len() && (#[trigger] all[j]).id == id;
                    assert(before.buffered().contains_key(all[j].id));
                }
            }
        }
        let mut writes: Vec<(u64, Page<K, V>)> = Vec::new();
        let mut i: usize = 0;
        while i < taken.len()
            invariant
                i <= taken.len(),
                taken@ == all,
                self.wf(),
                self.buffer_max == before.buffer_max,
                self.buffered() == Map::<u32, PageView<K::V, V::V>>::empty(),
                self.next_offset + (taken.len() - i) * PAGE_SIZE <= u64::MAX,
                self.next_offset >= before.next_offset,
                writes.len() == i,
                forall|id: u32| #[trigger]
                    before.stored().contains_key(id) ==> self.stored().contains_key(id)
                        && self.stored()[id] == before.stored()[id],
                forall|j: int|
                    0 <= j < i ==> {
                        let id = (#[trigger] writes[j]).1.id;
                        &&& id == all[j].id
                        &&& writes[j].1.deep_view() == all[j].deep_view()
                        &&& self.stored().contains_key(id)
                        &&& self.stored()[id] == writes[j].0
                        &&& writes[j].0 + PAGE_SIZE <= self.next_offset
                    },
                forall|id: u32| #[trigger]
                    self.cached().contains_key(id) <==> before.cached().contains_key(id) || among(
                        all,
                        i as int,
                        id,
                    ),
                forall|j: int|
                    0 <= j < i ==> self.cached()[(#[trigger] all[j]).id] == all[j].deep_view(),
                forall|id: u32| #[trigger]
                    before.cached().contains_key(id) && !among(all, i as int, id)
                        ==> self.cached()[id] == before.cached()[id],
                forall|a: int, c: int|
                    0 <= a < c < all.len() ==> (#[trigger] all[a]).id < (#[trigger] all[c]).id,
                forall|id: u32| #[trigger]
                    self.stored().contains_key(id) <==> before.stored().contains_key(id) || among(
                        all,
                        i as int,
                        id,
                    ),
                self.next_offset == before.next_offset + PAGE_SIZE * fresh_count(
                    all,
                    before.stored(),
                    i as int,
                ),
                forall|j: int|
                    0 <= j < i ==> (#[trigger] writes[j]).0 == if before.stored().contains_key(
                        all[j].id,
                    ) {
                        before.stored()[all[j].id] as int
                    } else {
                        before.next_offset + PAGE_SIZE * fresh_count(all, before.stored(), j)
                    },
            decreases taken.len() - i,
        {
            let ghost here = *self;
            let ghost done = writes@;
            let id: u32 = taken[i].id;
            let offset: u64 = self.assign(id);
            let ghost mid = *self;
            self.cache.write_page(&taken[i]);
            let copy = taken[i].duplicate();
            writes.push((offset, copy));
            proof {
                assert(self.stored() =~= mid.stored());
                assert(self.buffered() == mid.buffered());
                assert forall|x: u32| #[trigger] before.stored().contains_key(x) implies self.stored().contains_key(x)
                    && self.stored()[x] == before.stored()[x] by {
                    assert(here.stored().contains_key(x));
                }
                assert forall|j: int| 0 <= j < i + 1 implies {
                    let wid = (#[trigger] writes[j]).1.id;
                    &&& wid == all[j].id
                    &&& writes[j].1.deep_view() == all[j].deep_view()
                    &&& self.stored().contains_key(wid)
                    &&& self.stored()[wid] == writes[j].0
                    &&& writes[j].0 + PAGE_SIZE <= self.next_offset
                } by {
                    if j < i {
                        assert(writes[j] == done[j]);
                        assert(all[j].id != id);
                    }
                }
                assert forall|x: u32| among(all, i + 1, x) <==> among(all, i as int, x) || x
                    == id by {
                    if among(all, i + 1, x) {
                        let j = choose|j: int| 0 <= j < i + 1 && (#[trigger] all[j]).id == x;
                        if j < i {
                            assert(all[j].id == x);
                        }
                    }
                    if among(all, i as int, x) {
                        let j = choose|j: int| 0 <= j < i && (#[trigger] all[j]).id == x;
                        assert(all[j].id == x);
                    }
                    if x == id {
                        assert(all[i as int].id == x);
                    }
                }
                assert(self.cached() == here.cached().insert(id, all[i as int].deep_view()));
                assert(!among(all, i as int, id)) by {
                    if among(all, i as int, id) {
                        let j = choose|j: int| 0 <= j < i && j < all.len() && (#[trigger] all[j]).id == id;
                        assert(all[j].id < all[i as int].id);
                    }
                }
                assert(here.stored().contains_key(id) == before.stored().contains_key(id));
                assert(PAGE_SIZE * (fresh_count(all, before.stored(), i as int) + 1) == PAGE_SIZE
                    * fresh_count(all, before.stored(), i as int) + PAGE_SIZE) by (nonlinear_arith);
                assert forall|j: int| 0 <= j < i + 1 implies (#[trigger] writes[j]).0
                    == if before.stored().contains_key(all[j].id) {
                    before.stored()[all[j].id] as int
                } else {
                    before.next_offset + PAGE_SIZE * fresh_count(all, before.stored(), j)
                } by {
                    if j < i {
                        assert(writes[j] == done[j]);
                    }
                }
                assert forall|j: int| 0 <= j < i + 1 implies self.cached()[(#[trigger] all[j]).id]
                    == all[j].deep_view() by {
                    if j < i {
                        assert(all[j].id != id);
                    }
                }
                assert((taken.len() - i) * PAGE_SIZE == (taken.len() - (i + 1)) * PAGE_SIZE
                    + PAGE_SIZE) by (nonlinear_arith);
            }
            i += 1;
        }
        proof {
            assert(i == all.len());
            assert forall|x: u32| #[trigger] before.buffered().contains_key(x) implies exists|j: int|
                0 <= j < writes.len() && (#[trigger] writes[j]).1.id == x by {
                assert(among(all, all.len() as int, x));
                let j = choose|j: int| 0 <= j < all.len() && (#[trigger] all[j]).id == x;
                assert(writes[j].1.id == x);
            }
            lemma_fresh_same::<K, V>(
                written(writes@),
                all,
                before.stored(),
                writes.len() as int,
            );
            assert forall|j: int| 0 <= j < writes.len() implies (#[trigger] writes[j]).0
                == if before.stored().contains_key(writes[j].1.id) {
                before.stored()[writes[j].1.id] as int
            } else {
                before.next_offset + PAGE_SIZE * fresh_count(
                    written(writes@),
                    before.stored(),
                    j,
                )
            } by {
                lemma_fresh_same::<K, V>(written(writes@), all, before.stored(), j);
            }
            assert forall|a: int, c: int| 0 <= a < c < writes.len() implies (
            #[trigger] writes[a]).1.id < (#[trigger] writes[c]).1.id by {
                assert(all[a].id < all[c].id);
            }
            let now = self.known();
            let then = before.known();
            assert forall|x: u32| now.contains_key(x) <==> then.contains_key(x) by {
                assert(now.contains_key(x) == self.cached().contains_key(x));
                assert(then.contains_key(x) == (before.cached().contains_key(x)
                    || before.buffered().contains_key(x)));
                assert(before.buffered().contains_key(x) <==> among(all, all.len() as int, x));
            }
            assert forall|x: u32| now.contains_key(x) implies #[trigger] now[x] == then[x] by {
                assert(now[x] == self.cached()[x]);
                if before.buffered().contains_key(x) {
                    assert(among(all, all.len() as int, x));
                    let j = choose|j: int| 0 <= j < all.len() && (#[trigger] all[j]).id == x;
                    assert(self.cached()[all[j].id] == all[j].deep_view());
                    assert(before.buffered()[all[j].id] == all[j].deep_view());
                    assert(then[x] == before.buffered()[x]);
                } else {
                    assert(!among(all, all.len() as int, x));
                    assert(then[x] == before.cached()[x]);
                }
            }
            assert(now =~= then);
        }
        Some(writes)
    }
}

/// The count of the first `n` pages of `all` that have no block yet.
pub open spec fn fresh_count<K: Key, V: Val>(
    all: Seq<Page<K, V>>,
    stored: Map<u32, u64>,
    n: int,
) -> nat
    decreases n,
{
    if n <= 0 {
        0
    } else {
        fresh_count(all, stored, n - 1) + if stored.contains_key(all[n - 1].id) {
            0nat
        } else {
            1nat
        }
    }
}

/// The pages of a row of writes.
pub open spec fn written<K: Key, V: Val>(writes: Seq<(u64, Page<K, V>)>) -> Seq<Page<K, V>> {
    Seq::new(writes.len(), |i: int| writes[i].1)
}

/// The count of fresh pages depends on the identifiers only.
proof fn lemma_fresh_same<K: Key, V: Val>(
    one: Seq<Page<K, V>>,
    two: Seq<Page<K, V>>,
    stored: Map<u32, u64>,
    n: int,
)
    requires
        n <= one.len(),
        n <= two.len(),
        forall|j: int| 0 <= j < n ==> (#[trigger] one[j]).id == two[j].id,
    ensures
        fresh_count(one, stored, n) == fresh_count(two, stored, n),
    decreases n,
{
    if n > 0 {
        lemma_fresh_same(one, two, stored, n - 1);
        assert(one[n - 1].id == two[n - 1].id);
    }
}

/// Whether the blocks that start at the bytes `a` and `b` do not overlap.
pub open spec fn apart(a: u64, b: u64) -> bool {
    a + PAGE_SIZE <= b || b + PAGE_SIZE <= a
}

/// Whether one of the first `n` pages of `all` has the identifier `id`.
pub open spec fn among<K: Key, V: Val>(all: Seq<Page<K, V>>, n: int, id: u32) -> bool {
    exists|j: int| 0 <= j < n && j < all.len() && (#[trigger] all[j]).id == id
}

/// Pages with ascending identifiers that all lie in a map are no more than
/// the map holds.
proof fn lemma_taken_count<K: Key, V: Val>(
    taken: Seq<Page<K, V>>,
    pages: Map<u32, PageView<K::V, V::V>>,
)
    requires
        pages.dom().finite(),
        forall|i: int, j: int|
            0 <= i < j < taken.len() ==> (#[trigger] taken[i]).id < (#[trigger] taken[j]).id,
        forall|i: int| 0 <= i < taken.len() ==> pages.contains_key((#[trigger] taken[i]).id),
    ensures
        taken.len() <= pages.dom().len(),
    decreases taken.len(),
{
    if taken.len() > 0 {
        let last = taken.last();
        let front = taken.drop_last();
        let rest = pages.remove(last.id);
        assert(pages.contains_key(taken[taken.len() - 1].id));
        assert forall|i: int| 0 <= i < front.len() implies rest.contains_key(
            (#[trigger] front[i]).id,
        ) by {
            assert(front[i] == taken[i]);
            assert(taken[i].id < taken[taken.len() - 1].id);
        }
        assert forall|i: int, j: int| 0 <= i < j < front.len() implies (#[trigger] front[i]).id < (
        #[trigger] front[j]).id by {
            assert(front[i] == taken[i] && front[j] == taken[j]);
        }
        lemma_taken_count::<K, V>(front, rest);
    }
}

} // verus!
