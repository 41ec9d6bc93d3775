use crate::bits::{lemma_unpack_pack, pack_bits, packed, unpack_bits, unpacked};
use crate::bytes::{get_u32, lemma_u32_le_inverse, put_u32, u32_le, u32_of_le};
use crate::keys::{
    first_after, first_at_least, key_le, key_lt, lemma_first_after, lemma_first_at_least, Key, Val,
};
use crate::series::{
    all_canonical, all_encodable, can_encode_all, decode_all, encode_all, get_all, lemma_decode_all_bound,
    lemma_decode_all_encode_all, put_all,
};
use crate::values::{duplicate_all, Duplicate, Serializable, SerializeError};
use vstd::prelude::*;
use vstd::slice::*;

verus! {

/// The size in bytes of the slot that holds one page.
pub const PAGE_SIZE: usize = 65536;

/// The word that stands where no page is named: for a leaf without a right
/// sibling, and in the last child slot of an interior page that has no child
/// after its last key.
pub const NO_PAGE: u32 = 0xFFFF_FFFF;

/// The two kinds of page.
#[derive(Debug, Clone, Copy, Eq, PartialEq, Structural)]
pub enum PageType {
    Leaf,
    Interior,
}

/// A page of the index. A leaf holds keys with their values and tombstones
/// and names its right sibling; an interior page holds keys and the pages
/// below it.
#[derive(Debug)]
pub struct Page<K: Key, V: Val> {
    pub id: u32,
    pub ptype: PageType,
    pub deleted: Vec<bool>,
    pub keys: Vec<K>,
    pub vals: Vec<V>,
    pub children: Vec<u32>,
    pub sibling: Option<u32>,
}

/// The model of a page: its fields, over the models of its keys and values.
pub struct PageView<KV, VV> {
    pub id: u32,
    pub ptype: PageType,
    pub deleted: Seq<bool>,
    pub keys: Seq<KV>,
    pub vals: Seq<VV>,
    pub children: Seq<u32>,
    pub sibling: Option<u32>,
}

impl<K: Key, V: Val> DeepView for Page<K, V> {
    type V = PageView<K::V, V::V>;

    open spec fn deep_view(&self) -> PageView<K::V, V::V> {
        PageView {
            id: self.id,
            ptype: self.ptype,
            deleted: self.deleted@,
            keys: self.keys.deep_view(),
            vals: self.vals.deep_view(),
            children: self.children@,
            sibling: self.sibling,
        }
    }
}

/// The byte that stands for a kind of page.
pub open spec fn kind_byte(t: PageType) -> u8 {
    match t {
        PageType::Leaf => 0,
        PageType::Interior => 1,
    }
}

/// The kind of page that a byte stands for.
pub open spec fn byte_kind(b: u8) -> PageType {
    if b == 1 {
        PageType::Interior
    } else {
        PageType::Leaf
    }
}

/// The word that stands for a right sibling.
pub open spec fn sibling_word(s: Option<u32>) -> u32 {
    match s {
        Some(id) => id,
        None => NO_PAGE,
    }
}

/// The right sibling that a word stands for.
pub open spec fn word_sibling(w: u32) -> Option<u32> {
    if w == NO_PAGE {
        None
    } else {
        Some(w)
    }
}

/// The child slots of an interior page with `n` keys: always `n + 1` of
/// them, the last holding `NO_PAGE` where the page has only `n` children.
pub open spec fn child_slots(children: Seq<u32>, n: nat) -> Seq<u32> {
    if children.len() == n + 1 {
        children
    } else {
        children.push(NO_PAGE)
    }
}

/// The children that a row of child slots stands for.
pub open spec fn slots_children(slots: Seq<u32>) -> Seq<u32> {
    if slots.len() > 0 && slots.last() == NO_PAGE {
        slots.drop_last()
    } else {
        slots
    }
}

/// The first thirteen bytes of a page: identifier, kind, width of a key,
/// count of keys.
pub open spec fn page_header<K: Key>(id: u32, t: PageType, n: nat) -> Seq<u8> {
    u32_le(id) + seq![kind_byte(t)] + u32_le(K::width()) + u32_le(n as u32)
}

/// What follows the keys of a page. Interior: the child slots. Leaf: the
/// right sibling, the packed tombstones, the values.
pub open spec fn page_tail<K: Key, V: Val>(p: PageView<K::V, V::V>) -> Seq<u8> {
    match p.ptype {
        PageType::Interior => encode_all::<u32>(child_slots(p.children, p.keys.len())),
        PageType::Leaf => u32_le(sibling_word(p.sibling)) + packed(p.deleted) + encode_all::<V>(
            p.vals,
        ),
    }
}

/// The bytes that a page fills of its slot: header, keys, tail.
pub open spec fn page_content<K: Key, V: Val>(p: PageView<K::V, V::V>) -> Seq<u8> {
    page_header::<K>(p.id, p.ptype, p.keys.len()) + encode_all::<K>(p.keys) + page_tail::<K, V>(p)
}

/// The slot of a page: its bytes, then zeros up to `PAGE_SIZE`.
pub open spec fn page_image<K: Key, V: Val>(p: PageView<K::V, V::V>) -> Seq<u8> {
    Seq::new(
        PAGE_SIZE as nat,
        |i: int|
            if i < page_content::<K, V>(p).len() {
                page_content::<K, V>(p)[i]
            } else {
                0u8
            },
    )
}

/// Whether a page has bytes: its keys and values have byte forms, and its
/// sequences have the lengths that its kind asks for.
pub open spec fn framed<K: Key, V: Val>(p: PageView<K::V, V::V>) -> bool {
    &&& p.keys.len() <= u32::MAX
    &&& all_encodable::<K>(p.keys)
    &&& match p.ptype {
        PageType::Leaf => p.vals.len() == p.keys.len() && p.deleted.len() == p.keys.len()
            && all_encodable::<V>(p.vals),
        PageType::Interior => p.children.len() == p.keys.len() || p.children.len() == p.keys.len()
            + 1,
    }
}

/// Whether a page can be written to a slot: it has bytes, and they fit.
pub open spec fn storable<K: Key, V: Val>(p: PageView<K::V, V::V>) -> bool {
    &&& framed::<K, V>(p)
    &&& page_content::<K, V>(p).len() <= PAGE_SIZE
}

/// Whether a page holds nothing but what its slot records: a leaf no
/// children, an interior page no values, tombstones or sibling, and no page
/// is named by the word `NO_PAGE`.
pub open spec fn recorded<KV, VV>(p: PageView<KV, VV>) -> bool {
    match p.ptype {
        PageType::Leaf => p.children.len() == 0 && p.sibling != Some(NO_PAGE),
        PageType::Interior => p.vals.len() == 0 && p.deleted.len() == 0 && p.sibling is None && (
        p.children.len() > 0 ==> p.children.last() != NO_PAGE),
    }
}

/// What a decoder makes of the tail of an interior page that starts at byte
/// `at`.
pub open spec fn decode_interior<K: Key, V: Val>(
    bs: Seq<u8>,
    at: nat,
    id: u32,
    keys: Seq<K::V>,
) -> Result<(nat, PageView<K::V, V::V>), SerializeError> {
    match decode_all::<u32>(bs.skip(at as int), keys.len() + 1, None) {
        Err(e) => Err(e),
        Ok((m, slots)) => Ok(
            (
                at + m,
                PageView {
                    id,
                    ptype: PageType::Interior,
                    deleted: Seq::empty(),
                    keys,
                    vals: Seq::empty(),
                    children: slots_children(slots),
                    sibling: None,
                },
            ),
        ),
    }
}

/// The count of bytes that hold `n` packed flags.
pub open spec fn packed_len(n: nat) -> nat {
    ((n + 7) / 8) as nat
}

/// What a decoder makes of the tail of a leaf that starts at byte `at`.
pub open spec fn decode_leaf<K: Key, V: Val>(
    bs: Seq<u8>,
    at: nat,
    id: u32,
    keys: Seq<K::V>,
) -> Result<(nat, PageView<K::V, V::V>), SerializeError> {
    let n = keys.len();
    let vals_at = at + 4 + packed_len(n);
    if bs.len() < vals_at {
        Err(SerializeError::InvalidByteLen)
    } else {
        match decode_all::<V>(bs.skip(vals_at as int), n, None) {
            Err(e) => Err(e),
            Ok((m, vals)) => Ok(
                (
                    vals_at + m,
                    PageView {
                        id,
                        ptype: PageType::Leaf,
                        deleted: unpacked(n, bs.subrange(at as int + 4, vals_at as int)),
                        keys,
                        vals,
                        children: Seq::empty(),
                        sibling: word_sibling(u32_of_le(bs.skip(at as int))),
                    },
                ),
            ),
        }
    }
}

/// What a decoder makes of the front of `bs`: the bytes consumed and the
/// page, or the reason for rejecting the input. Each key is read from a
/// window as wide as the header says a key is.
pub open spec fn page_decode<K: Key, V: Val>(bs: Seq<u8>) -> Result<
    (nat, PageView<K::V, V::V>),
    SerializeError,
> {
    if bs.len() < 13 {
        Err(SerializeError::InvalidByteLen)
    } else {
        let id = u32_of_le(bs);
        let key_size = u32_of_le(bs.skip(5)) as nat;
        let n = u32_of_le(bs.skip(9)) as nat;
        match decode_all::<K>(bs.skip(13), n, Some(key_size)) {
            Err(e) => Err(e),
            Ok((m, keys)) => match byte_kind(bs[4]) {
                PageType::Interior => decode_interior::<K, V>(bs, 13 + m, id, keys),
                PageType::Leaf => decode_leaf::<K, V>(bs, 13 + m, id, keys),
            },
        }
    }
}

impl<K: Key, V: Val> Duplicate for Page<K, V> {
    fn duplicate(&self) -> (r: Self) {
        let r = Page {
            id: self.id,
            ptype: self.ptype,
            deleted: duplicate_flags(&self.deleted),
            keys: duplicate_all(&self.keys),
            vals: duplicate_all(&self.vals),
            children: duplicate_all(&self.children),
            sibling: self.sibling,
        };
        assert(r.children@ =~= r.children.deep_view());
        assert(self.children@ =~= self.children.deep_view());
        r
    }
}

/// A copy of `flags`.
fn duplicate_flags(flags: &Vec<bool>) -> (r: Vec<bool>)
    ensures
        r@ == flags@,
{
    let mut r: Vec<bool> = Vec::new();
    let mut i: usize = 0;
    while i < flags.len()
        invariant
            i <= flags.len(),
            r@ == flags@.take(i as int),
        decreases flags.len() - i,
    {
        r.push(flags[i]);
        assert(r@ =~= flags@.take(i + 1));
        i += 1;
    }
    assert(flags@.take(i as int) =~= flags@);
    r
}

impl<K: Key, V: Val> Page<K, V> {
    /// The first place whose key does not come before `key`, or the count of
    /// keys where every key comes before it.
    pub fn find(&self, key: &K) -> (i: usize)
        ensures
            i == first_at_least::<K>(self.keys.deep_view(), key.deep_view()),
    {
        let ghost keys = self.keys.deep_view();
        let mut i: usize = 0;
        while i < self.keys.len()
            invariant
                i <= self.keys.len(),
                keys == self.keys.deep_view(),
                forall|j: int| 0 <= j < i ==> key_lt::<K>(#[trigger] keys[j], key.deep_view()),
            decreases self.keys.len() - i,
        {
            assert(keys[i as int] == self.keys[i as int].deep_view());
            if self.keys[i].less_than(key) {
                i += 1;
            } else {
                proof {
                    lemma_first_at_least::<K>(keys, key.deep_view(), i as int);
                }
                return i;
            }
        }
        proof {
            lemma_first_at_least::<K>(keys, key.deep_view(), i as int);
        }
        i
    }

    /// The first place whose key does not come before `key`, among keys
    /// that ascend, by binary search.
    pub fn lower_bound(&self, key: &K) -> (r: usize)
        requires
            forall|i: int, j: int|
                0 <= i < j < self.keys.len() ==> key_le::<K>(
                    #[trigger] self.keys.deep_view()[i],
                    #[trigger] self.keys.deep_view()[j],
                ),
        ensures
            r == first_at_least::<K>(self.keys.deep_view(), key.deep_view()),
    {
        let ghost keys = self.keys.deep_view();
        let ghost kv = key.deep_view();
        let mut lo: usize = 0;
        let mut hi: usize = self.keys.len();
        assert(keys.len() == self.keys.len());
        while lo < hi
            invariant
                lo <= hi <= self.keys.len(),
                keys == self.keys.deep_view(),
                kv == key.deep_view(),
                forall|i: int, j: int|
                    0 <= i < j < keys.len() ==> key_le::<K>(#[trigger] keys[i], #[trigger] keys[j]),
                forall|j: int| 0 <= j < lo ==> key_lt::<K>(#[trigger] keys[j], kv),
                forall|j: int| hi <= j < keys.len() ==> !key_lt::<K>(#[trigger] keys[j], kv),
            decreases hi - lo,
        {
            let mid: usize = lo + (hi - lo) / 2;
            assert(keys[mid as int] == self.keys[mid as int].deep_view());
            if self.keys[mid].less_than(key) {
                assert forall|j: int| 0 <= j < mid + 1 implies key_lt::<K>(#[trigger] keys[j], kv) by {
                    if j < mid {
                        assert(key_le::<K>(keys[j], keys[mid as int]));
                    }
                }
                lo = mid + 1;
            } else {
                assert forall|j: int| mid <= j < keys.len() implies !key_lt::<K>(
                    #[trigger] keys[j],
                    kv,
                ) by {
                    if j > mid {
                        assert(key_le::<K>(keys[mid as int], keys[j]));
                    }
                }
                hi = mid;
            }
        }
        proof {
            lemma_first_at_least::<K>(keys, kv, lo as int);
        }
        lo
    }

    /// The first place whose key comes after `key`, among keys that ascend,
    /// by binary search.
    pub fn upper_bound(&self, key: &K) -> (r: usize)
        requires
            forall|i: int, j: int|
                0 <= i < j < self.keys.len() ==> key_le::<K>(
                    #[trigger] self.keys.deep_view()[i],
                    #[trigger] self.keys.deep_view()[j],
                ),
        ensures
            r == first_after::<K>(self.keys.deep_view(), key.deep_view()),
    {
        let ghost keys = self.keys.deep_view();
        let ghost kv = key.deep_view();
        let mut lo: usize = 0;
        let mut hi: usize = self.keys.len();
        assert(keys.len() == self.keys.len());
        while lo < hi
            invariant
                lo <= hi <= self.keys.len(),
                keys == self.keys.deep_view(),
                kv == key.deep_view(),
                forall|i: int, j: int|
                    0 <= i < j < keys.len() ==> key_le::<K>(#[trigger] keys[i], #[trigger] keys[j]),
                forall|j: int| 0 <= j < lo ==> key_le::<K>(#[trigger] keys[j], kv),
                forall|j: int| hi <= j < keys.len() ==> key_lt::<K>(kv, #[trigger] keys[j]),
            decreases hi - lo,
        {
            let mid: usize = lo + (hi - lo) / 2;
            assert(keys[mid as int] == self.keys[mid as int].deep_view());
            if key.less_than(&self.keys[mid]) {
                assert forall|j: int| mid <= j < keys.len() implies key_lt::<K>(
                    kv,
                    #[trigger] keys[j],
                ) by {
                    if j > mid {
                        assert(key_le::<K>(keys[mid as int], keys[j]));
                    }
                }
                hi = mid;
            } else {
                assert forall|j: int| 0 <= j < mid + 1 implies key_le::<K>(#[trigger] keys[j], kv) by {
                    if j < mid {
                        assert(key_le::<K>(keys[j], keys[mid as int]));
                    }
                }
                lo = mid + 1;
            }
        }
        proof {
            lemma_first_after::<K>(keys, kv, lo as int);
        }
        lo
    }

    /// The place of `key` among keys that ascend, by binary search: the
    /// place of the last entry of `key`, as found, where there is one; and
    /// else the place where `key` belongs, which is the first whose key
    /// comes after it.
    pub fn search(&self, key: &K) -> (r: Result<usize, usize>)
        requires
            forall|i: int, j: int|
                0 <= i < j < self.keys.len() ==> key_le::<K>(
                    #[trigger] self.keys.deep_view()[i],
                    #[trigger] self.keys.deep_view()[j],
                ),
        ensures
            match r {
                Ok(i) => i + 1 == first_after::<K>(self.keys.deep_view(), key.deep_view())
                    && K::rank(self.keys.deep_view()[i as int]) == K::rank(key.deep_view()),
                Err(i) => i == first_after::<K>(self.keys.deep_view(), key.deep_view()) && (i > 0
                    ==> K::rank(self.keys.deep_view()[i - 1]) != K::rank(key.deep_view())),
            },
    {
        let after: usize = self.upper_bound(key);
        proof {
            lemma_first_after::<K>(self.keys.deep_view(), key.deep_view(), 0);
        }
        if after > 0 {
            assert(self.keys.deep_view()[after - 1] == self.keys[after - 1].deep_view());
            if self.keys[after - 1].less_than(key) {
                Err(after)
            } else {
                Ok(after - 1)
            }
        } else {
            Err(after)
        }
    }

    /// The bytes that the page fills of its slot: header, keys and tail.
    fn content(&self) -> (out: Vec<u8>)
        requires
            framed::<K, V>(self.deep_view()),
        ensures
            out@ == page_content::<K, V>(self.deep_view()),
    {
        let ghost p = self.deep_view();
        let mut out: Vec<u8> = Vec::new();
        put_u32(&mut out, self.id);
        out.push(
            match self.ptype {
                PageType::Leaf => 0u8,
                PageType::Interior => 1u8,
            },
        );
        put_u32(&mut out, K::key_width());
        assert(self.keys.deep_view().len() == self.keys.len());
        put_u32(&mut out, self.keys.len() as u32);
        assert(out@ =~= page_header::<K>(p.id, p.ptype, p.keys.len()));
        put_all::<K>(&mut out, &self.keys);
        match self.ptype {
            PageType::Interior => {
                let mut slots: Vec<u32> = duplicate_all(&self.children);
                assert(slots@ =~= slots.deep_view());
                assert(self.children@ =~= self.children.deep_view());
                if self.children.len() == self.keys.len() {
                    slots.push(NO_PAGE);
                }
                assert(slots@ =~= slots.deep_view());
                assert(slots@ =~= child_slots(p.children, p.keys.len()));
                put_all::<u32>(&mut out, &slots);
            },
            PageType::Leaf => {
                let sib: u32 = match self.sibling {
                    Some(id) => id,
                    None => NO_PAGE,
                };
                put_u32(&mut out, sib);
                let mut del_bytes = pack_bits(&self.deleted);
                out.append(&mut del_bytes);
                put_all::<V>(&mut out, &self.vals);
            },
        }
        assert(out@ =~= page_content::<K, V>(p));
        out
    }

    /// The slot that holds `out` and zeros after it.
    fn slot_of(out: &Vec<u8>) -> (bytes: [u8; PAGE_SIZE])
        requires
            out.len() <= PAGE_SIZE,
        ensures
            bytes@.len() == PAGE_SIZE,
            forall|j: int| 0 <= j < out.len() ==> bytes@[j] == out@[j],
            forall|j: int| out.len() <= j < PAGE_SIZE ==> bytes@[j] == 0u8,
    {
        let mut bytes: [u8; PAGE_SIZE] = [0u8; PAGE_SIZE];
        let mut i: usize = 0;
        while i < out.len()
            invariant
                i <= out.len() <= PAGE_SIZE,
                forall|j: int| 0 <= j < i ==> bytes@[j] == out@[j],
                forall|j: int| i <= j < PAGE_SIZE ==> bytes@[j] == 0u8,
            decreases out.len() - i,
        {
            bytes[i] = out[i];
            i += 1;
        }
        bytes
    }

    /// The slot of the page: header, keys and tail, then zeros.
    pub fn to_bytes(&self) -> (bytes: [u8; PAGE_SIZE])
        requires
            storable::<K, V>(self.deep_view()),
        ensures
            bytes@ == page_image::<K, V>(self.deep_view()),
    {
        let out = self.content();
        let bytes = Self::slot_of(&out);
        assert(bytes@ =~= page_image::<K, V>(self.deep_view()));
        bytes
    }

    /// The slot of the page, where the page can be written to one.
    pub fn try_to_bytes(&self) -> (r: Option<[u8; PAGE_SIZE]>)
        ensures
            match r {
                Some(bytes) => storable::<K, V>(self.deep_view()) && bytes@ == page_image::<K, V>(
                    self.deep_view(),
                ),
                None => !storable::<K, V>(self.deep_view()),
            },
    {
        assert(self.keys.deep_view().len() == self.keys.len());
        assert(self.vals.deep_view().len() == self.vals.len());
        if self.keys.len() > 0xFFFF_FFFF || !can_encode_all::<K>(&self.keys) {
            return None;
        }
        let shaped: bool = match self.ptype {
            PageType::Leaf => self.vals.len() == self.keys.len() && self.deleted.len()
                == self.keys.len() && can_encode_all::<V>(&self.vals),
            PageType::Interior => self.children.len() == self.keys.len() || (
            self.children.len() > 0 && self.children.len() - 1 == self.keys.len()),
        };
        if !shaped {
            return None;
        }
        let out = self.content();
        if out.len() > PAGE_SIZE {
            return None;
        }
        let bytes = Self::slot_of(&out);
        assert(bytes@ =~= page_image::<K, V>(self.deep_view()));
        Some(bytes)
    }

    /// The page at the front of `bs`, and the count of bytes it fills.
    pub fn from_bytes(bs: &[u8]) -> (r: Result<(usize, Self), SerializeError>)
        ensures
            match r {
                Ok((n, page)) => page_decode::<K, V>(bs@) == Ok::<
                    (nat, PageView<K::V, V::V>),
                    SerializeError,
                >((n as nat, page.deep_view())),
                Err(e) => page_decode::<K, V>(bs@) == Err::<
                    (nat, PageView<K::V, V::V>),
                    SerializeError,
                >(e),
            },
    {
        if bs.len() < 13 {
            return Err(SerializeError::InvalidByteLen);
        }
        let id: u32 = get_u32(bs, 0);
        let ptype = if bs[4] == 1 {
            PageType::Interior
        } else {
            PageType::Leaf
        };
        let key_size: u32 = get_u32(bs, 5);
        let keys_len: u32 = get_u32(bs, 9);
        assert(bs@.subrange(0, 4) =~= bs@.take(4));
        assert(bs@.subrange(5, 9) =~= bs@.skip(5).take(4));
        assert(bs@.subrange(9, 13) =~= bs@.skip(9).take(4));
        let count: usize = keys_len as usize;
        proof {
            lemma_decode_all_bound::<K>(bs@.skip(13), count as nat, Some(key_size as nat));
        }
        let (i, keys) = match get_all::<K>(bs, 13, count, Some(key_size as usize)) {
            Ok(found) => found,
            Err(e) => {
                return Err(e);
            },
        };
        assert(keys.deep_view().len() == count);
        match ptype {
            PageType::Interior => {
                proof {
                    lemma_decode_all_bound::<u32>(bs@.skip(i as int), (count + 1) as nat, None);
                    lemma_words_short(bs@.skip(i as int), (count + 1) as nat);
                }
                if (bs.len() - i) / 4 <= count {
                    return Err(SerializeError::InvalidByteLen);
                }
                let (end, mut children) = match get_all::<u32>(bs, i, count + 1, None) {
                    Ok(found) => found,
                    Err(e) => {
                        return Err(e);
                    },
                };
                assert(children@ =~= children.deep_view());
                if children[count] == NO_PAGE {
                    children.pop();
                }
                let page = Page {
                    id,
                    ptype,
                    keys,
                    children,
                    vals: Vec::new(),
                    deleted: Vec::new(),
                    sibling: None,
                };
                assert(page.vals.deep_view() =~= Seq::empty());
                assert(page.deep_view().children =~= slots_children(
                    decode_all::<u32>(bs@.skip(i as int), (count + 1) as nat, None)->Ok_0.1,
                ));
                Ok((end, page))
            },
            PageType::Leaf => {
                let del_len: usize = if count % 8 == 0 {
                    count / 8
                } else {
                    count / 8 + 1
                };
                assert(del_len == packed_len(count as nat));
                if bs.len() - i < 4 || bs.len() - i - 4 < del_len {
                    return Err(SerializeError::InvalidByteLen);
                }
                let sib_id: u32 = get_u32(bs, i);
                assert(bs@.subrange(i as int, i + 4) =~= bs@.skip(i as int).take(4));
                let sibling = if sib_id == NO_PAGE {
                    None
                } else {
                    Some(sib_id)
                };
                let vals_at: usize = i + 4 + del_len;
                let deleted = unpack_bits(count, slice_subrange(bs, i + 4, vals_at));
                let (end, vals) = match get_all::<V>(bs, vals_at, count, None) {
                    Ok(found) => found,
                    Err(e) => {
                        return Err(e);
                    },
                };
                let page = Page { id, ptype, keys, deleted, sibling, vals, children: Vec::new() };
                Ok((end, page))
            },
        }
    }
}

/// A row of `count` words cannot be read from fewer than four bytes each.
pub proof fn lemma_words_short(bs: Seq<u8>, count: nat)
    ensures
        bs.len() < 4 * count ==> decode_all::<u32>(bs, count, None) == Err::<
            (nat, Seq<u32>),
            SerializeError,
        >(SerializeError::InvalidByteLen),
    decreases count,
{
    if count > 0 && bs.len() >= 4 {
        lemma_words_short(bs.skip(4), (count - 1) as nat);
    }
}

/// What the header of a page says is read back from bytes that start with
/// it, and after it stand the bytes that followed.
proof fn lemma_header_fields<K: Key>(id: u32, t: PageType, n: nat, more: Seq<u8>)
    requires
        n <= u32::MAX,
    ensures
        ({
            let bs = page_header::<K>(id, t, n) + more;
            &&& bs.len() == 13 + more.len()
            &&& u32_of_le(bs) == id
            &&& byte_kind(bs[4]) == t
            &&& u32_of_le(bs.skip(5)) == K::width()
            &&& u32_of_le(bs.skip(9)) == n
            &&& bs.skip(13) == more
        }),
{
    let a = u32_le(id);
    let b = seq![kind_byte(t)];
    let c = u32_le(K::width());
    let d = u32_le(n as u32);
    let bs = page_header::<K>(id, t, n) + more;
    assert(a.len() == 4 && b.len() == 1 && c.len() == 4 && d.len() == 4);
    lemma_u32_le_inverse(id, b + c + d + more);
    assert(bs =~= a + (b + c + d + more));
    lemma_u32_le_inverse(K::width(), d + more);
    assert(bs.skip(5) =~= c + (d + more));
    lemma_u32_le_inverse(n as u32, more);
    assert(bs.skip(9) =~= d + more);
    assert(bs[4] == b[0]);
    assert(bs.skip(13) =~= more);
}

/// The tail of an interior page is read back from bytes that hold it at
/// byte `at`.
proof fn lemma_interior_tail<K: Key, V: Val>(p: PageView<K::V, V::V>, bs: Seq<u8>, at: nat, rest: Seq<u8>)
    requires
        storable::<K, V>(p),
        recorded(p),
        p.ptype == PageType::Interior,
        at <= bs.len(),
        bs.skip(at as int) == page_tail::<K, V>(p) + rest,
    ensures
        decode_interior::<K, V>(bs, at, p.id, p.keys) == Ok::<
            (nat, PageView<K::V, V::V>),
            SerializeError,
        >((at + page_tail::<K, V>(p).len(), p)),
{
    let slots = child_slots(p.children, p.keys.len());
    lemma_decode_all_encode_all::<u32>(slots, rest, None);
    assert(slots_children(slots) =~= p.children);
    assert(p.vals =~= Seq::empty());
    assert(p.deleted =~= Seq::empty());
}

/// The tail of a leaf is read back from bytes that hold it at byte `at`.
proof fn lemma_leaf_tail<K: Key, V: Val>(p: PageView<K::V, V::V>, bs: Seq<u8>, at: nat, rest: Seq<u8>)
    requires
        storable::<K, V>(p),
        recorded(p),
        all_canonical::<V>(p.vals),
        p.ptype == PageType::Leaf,
        at <= bs.len(),
        bs.skip(at as int) == page_tail::<K, V>(p) + rest,
    ensures
        decode_leaf::<K, V>(bs, at, p.id, p.keys) == Ok::<
            (nat, PageView<K::V, V::V>),
            SerializeError,
        >((at + page_tail::<K, V>(p).len(), p)),
{
    let n = p.keys.len();
    let word = u32_le(sibling_word(p.sibling));
    let flags = packed(p.deleted);
    let val_bytes = encode_all::<V>(p.vals);
    let tail = page_tail::<K, V>(p);
    let from = bs.skip(at as int);
    assert(word.len() == 4);
    assert(flags.len() == packed_len(n));
    assert(from =~= word + (flags + val_bytes + rest));
    lemma_u32_le_inverse(sibling_word(p.sibling), flags + val_bytes + rest);
    let vals_at = at + 4 + packed_len(n);
    assert(from.len() == bs.len() - at);
    assert(bs.subrange(at as int + 4, vals_at as int) =~= from.subrange(4, 4 + flags.len() as int));
    assert(from.subrange(4, 4 + flags.len() as int) =~= flags);
    lemma_unpack_pack(p.deleted);
    assert(bs.skip(vals_at as int) =~= from.skip(4 + flags.len() as int));
    assert(from.skip(4 + flags.len() as int) =~= val_bytes + rest);
    lemma_decode_all_encode_all::<V>(p.vals, rest, None);
    assert(p.children =~= Seq::empty());
}

/// What a decoder makes of bytes whose header and keys are known: what it
/// makes of the tail.
proof fn lemma_decode_by_parts<K: Key, V: Val>(
    bs: Seq<u8>,
    id: u32,
    t: PageType,
    keys: Seq<K::V>,
    m: nat,
    r: Result<(nat, PageView<K::V, V::V>), SerializeError>,
)
    requires
        bs.len() >= 13,
        u32_of_le(bs) == id,
        byte_kind(bs[4]) == t,
        decode_all::<K>(
            bs.skip(13),
            u32_of_le(bs.skip(9)) as nat,
            Some(u32_of_le(bs.skip(5)) as nat),
        ) == Ok::<(nat, Seq<K::V>), SerializeError>((m, keys)),
        t == PageType::Interior ==> decode_interior::<K, V>(bs, 13 + m, id, keys) == r,
        t == PageType::Leaf ==> decode_leaf::<K, V>(bs, 13 + m, id, keys) == r,
    ensures
        page_decode::<K, V>(bs) == r,
{
}

/// The keys of a page are read back from bytes that hold them after the
/// header.
proof fn lemma_keys_part<K: Key, V: Val>(p: PageView<K::V, V::V>, more: Seq<u8>)
    requires
        all_encodable::<K>(p.keys),
        all_canonical::<K>(p.keys),
    ensures
        decode_all::<K>(
            encode_all::<K>(p.keys) + more,
            p.keys.len(),
            Some(K::width() as nat),
        ) == Ok::<(nat, Seq<K::V>), SerializeError>((encode_all::<K>(p.keys).len(), p.keys)),
{
    assert forall|i: int| 0 <= i < p.keys.len() implies (#[trigger] K::encode(p.keys[i])).len()
        == K::width() as nat by {
        K::lemma_width(p.keys[i]);
    }
    lemma_decode_all_encode_all::<K>(p.keys, more, Some(K::width() as nat));
}

/// Decoding the bytes of a page gives the page back and consumes exactly
/// its bytes, whatever follows them: for a page that can be written and
/// holds nothing but what a slot records.
#[verifier::rlimit(40)]
pub proof fn lemma_page_decode_content<K: Key, V: Val>(p: PageView<K::V, V::V>, rest: Seq<u8>)
    requires
        storable::<K, V>(p),
        recorded(p),
        all_canonical::<K>(p.keys),
        all_canonical::<V>(p.vals),
    ensures
        page_decode::<K, V>(page_content::<K, V>(p) + rest) == Ok::<
            (nat, PageView<K::V, V::V>),
            SerializeError,
        >((page_content::<K, V>(p).len(), p)),
{
    let n = p.keys.len();
    let head = page_header::<K>(p.id, p.ptype, n);
    let key_bytes = encode_all::<K>(p.keys);
    let tail = page_tail::<K, V>(p);
    let content = page_content::<K, V>(p);
    let bs = content + rest;
    let more = key_bytes + (tail + rest);
    let at = (13 + key_bytes.len()) as nat;
    let goal = Ok::<(nat, PageView<K::V, V::V>), SerializeError>((content.len(), p));
    assert(content == head + key_bytes + tail);
    assert(bs =~= head + more);
    lemma_header_fields::<K>(p.id, p.ptype, n, more);
    lemma_keys_part::<K, V>(p, tail + rest);
    assert(head.len() == 13);
    assert(bs.skip(at as int) =~= tail + rest);
    assert(content.len() == at + tail.len());
    if p.ptype == PageType::Interior {
        lemma_interior_tail::<K, V>(p, bs, at, rest);
    } else {
        lemma_leaf_tail::<K, V>(p, bs, at, rest);
    }
    lemma_decode_by_parts::<K, V>(bs, p.id, p.ptype, p.keys, key_bytes.len(), goal);
}

/// Decoding the slot of a page gives the page back: for a page that can be
/// written and holds nothing but what a slot records.
pub proof fn lemma_page_round_trip<K: Key, V: Val>(p: PageView<K::V, V::V>)
    requires
        storable::<K, V>(p),
        recorded(p),
        all_canonical::<K>(p.keys),
        all_canonical::<V>(p.vals),
    ensures
        page_decode::<K, V>(page_image::<K, V>(p)) == Ok::<
            (nat, PageView<K::V, V::V>),
            SerializeError,
        >((page_content::<K, V>(p).len(), p)),
{
    let content = page_content::<K, V>(p);
    let zeros = Seq::new((PAGE_SIZE - content.len()) as nat, |i: int| 0u8);
    assert(page_image::<K, V>(p) =~= content + zeros);
    lemma_page_decode_content::<K, V>(p, zeros);
}

} // verus!
