use crate::values::{Duplicate, Serializable};
use vstd::prelude::*;

verus! {

/// A key of the index: a value with a total order and a byte form of one
/// fixed width.
///
/// The order is given by `rank`: one key comes before another where its rank
/// is the smaller number, and two keys of one rank are one key.
pub trait Key: Duplicate + Serializable {
    /// The place of `v` in the order of keys.
    spec fn rank(v: Self::V) -> int;

    /// The width in bytes of the byte form of every key.
    spec fn width() -> u32;

    /// The width in bytes of the byte form of every key.
    fn key_width() -> (w: u32)
        ensures
            w == Self::width(),
    ;

    /// Whether `self` comes before `other`.
    fn less_than(&self, other: &Self) -> (b: bool)
        ensures
            b == (Self::rank(self.deep_view()) < Self::rank(other.deep_view())),
    ;

    /// Two keys of one rank are one key.
    proof fn lemma_rank_unique(a: Self::V, b: Self::V)
        requires
            Self::rank(a) == Self::rank(b),
        ensures
            a == b,
    ;

    /// The byte form of a key has the fixed width.
    proof fn lemma_width(v: Self::V)
        requires
            Self::encodable(v),
        ensures
            Self::encode(v).len() == Self::width(),
    ;
}

/// A value of the index: it can be copied and has a byte form.
pub trait Val: Duplicate + Serializable {

}

impl<T: Duplicate + Serializable> Val for T {

}

impl Key for i32 {
    open spec fn rank(v: i32) -> int {
        v as int
    }

    open spec fn width() -> u32 {
        4
    }

    fn key_width() -> (w: u32) {
        4
    }

    fn less_than(&self, other: &Self) -> (b: bool) {
        *self < *other
    }

    proof fn lemma_rank_unique(a: i32, b: i32) {
    }

    proof fn lemma_width(v: i32) {
    }
}

/// Whether `a` comes before `b`.
pub open spec fn key_lt<K: Key>(a: K::V, b: K::V) -> bool {
    K::rank(a) < K::rank(b)
}

/// Whether `a` does not come after `b`.
pub open spec fn key_le<K: Key>(a: K::V, b: K::V) -> bool {
    K::rank(a) <= K::rank(b)
}

/// The first place in `keys` whose key does not come before `key`, or the
/// length of `keys` where every key comes before it.
pub open spec fn first_at_least<K: Key>(keys: Seq<K::V>, key: K::V) -> int
    decreases keys.len(),
{
    if keys.len() == 0 || !key_lt::<K>(keys[0], key) {
        0
    } else {
        1 + first_at_least::<K>(keys.drop_first(), key)
    }
}

/// What fixes the result of `first_at_least`: every key before it comes
/// before `key`, and the key at it, if there is one, does not.
pub proof fn lemma_first_at_least<K: Key>(keys: Seq<K::V>, key: K::V, i: int)
    ensures
        0 <= first_at_least::<K>(keys, key) <= keys.len(),
        forall|j: int|
            0 <= j < first_at_least::<K>(keys, key) ==> key_lt::<K>(#[trigger] keys[j], key),
        first_at_least::<K>(keys, key) < keys.len() ==> !key_lt::<K>(
            keys[first_at_least::<K>(keys, key)],
            key,
        ),
        (0 <= i <= keys.len() && (forall|j: int| 0 <= j < i ==> key_lt::<K>(#[trigger] keys[j], key))
            && (i < keys.len() ==> !key_lt::<K>(keys[i], key))) ==> first_at_least::<K>(keys, key)
            == i,
    decreases keys.len(),
{
    if keys.len() == 0 || !key_lt::<K>(keys[0], key) {
        if 0 < i <= keys.len() && (forall|j: int|
            0 <= j < i ==> key_lt::<K>(#[trigger] keys[j], key)) {
            assert(key_lt::<K>(keys[0], key));
        }
    } else {
        let tail = keys.drop_first();
        lemma_first_at_least::<K>(tail, key, i - 1);
        let f = first_at_least::<K>(tail, key);
        assert forall|j: int| 0 <= j < f + 1 implies key_lt::<K>(#[trigger] keys[j], key) by {
            if j > 0 {
                assert(keys[j] == tail[j - 1]);
            }
        }
        if f + 1 < keys.len() {
            assert(keys[f + 1] == tail[f]);
        }
        if 0 <= i <= keys.len() && (forall|j: int|
            0 <= j < i ==> key_lt::<K>(#[trigger] keys[j], key)) && (i < keys.len()
            ==> !key_lt::<K>(keys[i], key)) {
            assert(i > 0);
            assert forall|j: int| 0 <= j < i - 1 implies key_lt::<K>(#[trigger] tail[j], key) by {
                assert(tail[j] == keys[j + 1]);
            }
            if i - 1 < tail.len() {
                assert(tail[i - 1] == keys[i]);
            }
        }
    }
}

/// The first place in `keys` whose key comes after `key`, or the length of
/// `keys` where no key comes after it.
pub open spec fn first_after<K: Key>(keys: Seq<K::V>, key: K::V) -> int
    decreases keys.len(),
{
    if keys.len() == 0 || key_lt::<K>(key, keys[0]) {
        0
    } else {
        1 + first_after::<K>(keys.drop_first(), key)
    }
}

/// What fixes the result of `first_after`: no key before it comes after
/// `key`, and the key at it, if there is one, does.
pub proof fn lemma_first_after<K: Key>(keys: Seq<K::V>, key: K::V, i: int)
    ensures
        0 <= first_after::<K>(keys, key) <= keys.len(),
        forall|j: int| 0 <= j < first_after::<K>(keys, key) ==> key_le::<K>(#[trigger] keys[j], key),
        first_after::<K>(keys, key) < keys.len() ==> key_lt::<K>(
            key,
            keys[first_after::<K>(keys, key)],
        ),
        (0 <= i <= keys.len() && (forall|j: int| 0 <= j < i ==> key_le::<K>(#[trigger] keys[j], key))
            && (i < keys.len() ==> key_lt::<K>(key, keys[i]))) ==> first_after::<K>(keys, key)
            == i,
    decreases keys.len(),
{
    if keys.len() == 0 || key_lt::<K>(key, keys[0]) {
        if 0 < i <= keys.len() && (forall|j: int|
            0 <= j < i ==> key_le::<K>(#[trigger] keys[j], key)) {
            assert(key_le::<K>(keys[0], key));
        }
    } else {
        let tail = keys.drop_first();
        lemma_first_after::<K>(tail, key, i - 1);
        let f = first_after::<K>(tail, key);
        assert forall|j: int| 0 <= j < f + 1 implies key_le::<K>(#[trigger] keys[j], key) by {
            if j > 0 {
                assert(keys[j] == tail[j - 1]);
            }
        }
        if f + 1 < keys.len() {
            assert(keys[f + 1] == tail[f]);
        }
        if 0 <= i <= keys.len() && (forall|j: int|
            0 <= j < i ==> key_le::<K>(#[trigger] keys[j], key)) && (i < keys.len()
            ==> key_lt::<K>(key, keys[i])) {
            assert(i > 0);
            assert forall|j: int| 0 <= j < i - 1 implies key_le::<K>(#[trigger] tail[j], key) by {
                assert(tail[j] == keys[j + 1]);
            }
            if i - 1 < tail.len() {
                assert(tail[i - 1] == keys[i]);
            }
        }
    }
}

} // verus!
