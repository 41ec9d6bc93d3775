use crate::values::{Serializable, SerializeError};
use vstd::prelude::*;
use vstd::slice::*;

verus! {

/// Whether every value of `vs` has a byte form.
pub open spec fn all_encodable<T: Serializable>(vs: Seq<T::V>) -> bool {
    forall|i: int| 0 <= i < vs.len() ==> T::encodable(#[trigger] vs[i])
}

/// Whether every value of `vs` is what its own byte form is read as.
pub open spec fn all_canonical<T: Serializable>(vs: Seq<T::V>) -> bool {
    forall|i: int| 0 <= i < vs.len() ==> T::canonical(#[trigger] vs[i])
}

/// The byte forms of the values of `vs`, one after the other.
pub open spec fn encode_all<T: Serializable>(vs: Seq<T::V>) -> Seq<u8>
    decreases vs.len(),
{
    if vs.len() == 0 {
        Seq::empty()
    } else {
        encode_all::<T>(vs.drop_last()) + T::encode(vs.last())
    }
}

/// The bytes that a decoder is shown of `bs`: all of them, or the first
/// `window` where a window is set.
pub open spec fn shown(bs: Seq<u8>, window: Option<nat>) -> Seq<u8> {
    match window {
        Some(w) => bs.take(w as int),
        None => bs,
    }
}

/// What follows after a first result: the count of bytes and the values of
/// both, or the error of the second.
pub open spec fn after<A>(
    taken: nat,
    first: Seq<A>,
    then: Result<(nat, Seq<A>), SerializeError>,
) -> Result<(nat, Seq<A>), SerializeError> {
    match then {
        Ok((n, vs)) => Ok((taken + n, first + vs)),
        Err(e) => Err(e),
    }
}

/// What a decoder makes of `count` values that follow one another from the
/// front of `bs`: the bytes consumed and the values, or the first error.
/// Where a window is set, each value is read from a window of that many
/// bytes, and the input is too short if no such window is left.
pub open spec fn decode_all<T: Serializable>(
    bs: Seq<u8>,
    count: nat,
    window: Option<nat>,
) -> Result<(nat, Seq<T::V>), SerializeError>
    decreases count,
{
    if count == 0 {
        Ok((0, Seq::empty()))
    } else if window matches Some(w) && bs.len() < w {
        Err(SerializeError::InvalidByteLen)
    } else {
        match T::decode(shown(bs, window)) {
            Err(e) => Err(e),
            Ok((n, v)) => after(n, seq![v], decode_all::<T>(bs.skip(n as int), (count - 1) as nat, window)),
        }
    }
}

/// The byte forms of a series with one more value at its end.
pub proof fn lemma_encode_all_push<T: Serializable>(vs: Seq<T::V>, v: T::V)
    ensures
        encode_all::<T>(vs.push(v)) == encode_all::<T>(vs) + T::encode(v),
{
    assert(vs.push(v).drop_last() =~= vs);
}

/// The byte forms of a series that starts with `v`.
pub proof fn lemma_encode_all_first<T: Serializable>(v: T::V, vs: Seq<T::V>)
    ensures
        encode_all::<T>(seq![v] + vs) == T::encode(v) + encode_all::<T>(vs),
    decreases vs.len(),
{
    if vs.len() == 0 {
        assert(seq![v] + vs =~= seq![v]);
        assert(seq![v].drop_last() =~= Seq::<T::V>::empty());
        assert(encode_all::<T>(Seq::<T::V>::empty()) =~= Seq::<u8>::empty());
        assert(seq![v].last() == v);
        assert(encode_all::<T>(seq![v]) =~= T::encode(v));
        assert(T::encode(v) + encode_all::<T>(vs) =~= T::encode(v));
    } else {
        lemma_encode_all_first::<T>(v, vs.drop_last());
        assert((seq![v] + vs).drop_last() =~= seq![v] + vs.drop_last());
        assert((seq![v] + vs).last() == vs.last());
        assert(encode_all::<T>(seq![v] + vs) =~= T::encode(v) + encode_all::<T>(vs));
    }
}

/// Decoding the byte forms of a series gives the series back and consumes
/// exactly its bytes, whatever follows them. With a window, this holds where
/// each byte form fills the window.
pub proof fn lemma_decode_all_encode_all<T: Serializable>(
    vs: Seq<T::V>,
    rest: Seq<u8>,
    window: Option<nat>,
)
    requires
        all_encodable::<T>(vs),
        all_canonical::<T>(vs),
        window matches Some(w) ==> forall|i: int|
            0 <= i < vs.len() ==> (#[trigger] T::encode(vs[i])).len() == w,
    ensures
        decode_all::<T>(encode_all::<T>(vs) + rest, vs.len(), window) == Ok::<
            (nat, Seq<T::V>),
            SerializeError,
        >((encode_all::<T>(vs).len(), vs)),
    decreases vs.len(),
{
    if vs.len() == 0 {
        assert(vs =~= Seq::<T::V>::empty());
    } else {
        let v = vs[0];
        let tail = vs.drop_first();
        let bs = encode_all::<T>(vs) + rest;
        assert(vs =~= seq![v] + tail);
        lemma_encode_all_first::<T>(v, tail);
        let tail_bytes = encode_all::<T>(tail);
        assert(bs =~= T::encode(v) + (tail_bytes + rest));
        assert(T::encodable(vs[0]));
        assert(T::canonical(vs[0]));
        match window {
            Some(w) => {
                assert(T::encode(vs[0]).len() == w);
                assert(shown(bs, window) =~= T::encode(v) + Seq::<u8>::empty());
                T::lemma_decode_encode(v, Seq::<u8>::empty());
            },
            None => {
                T::lemma_decode_encode(v, tail_bytes + rest);
            },
        }
        assert(bs.skip(T::encode(v).len() as int) =~= tail_bytes + rest);
        assert forall|i: int| 0 <= i < tail.len() implies T::encodable(#[trigger] tail[i]) by {
            assert(tail[i] == vs[i + 1]);
        }
        assert forall|i: int| 0 <= i < tail.len() implies T::canonical(#[trigger] tail[i]) by {
            assert(tail[i] == vs[i + 1]);
        }
        assert(window matches Some(w) ==> forall|i: int|
            0 <= i < tail.len() ==> (#[trigger] T::encode(tail[i])).len() == w) by {
            if window is Some {
                assert forall|i: int| 0 <= i < tail.len() implies (#[trigger] T::encode(
                    tail[i],
                )).len() == window->0 by {
                    assert(tail[i] == vs[i + 1]);
                }
            }
        }
        lemma_decode_all_encode_all::<T>(tail, rest, window);
        assert(seq![v] + tail =~= vs);
    }
}

/// A series decoder consumes no more than it was given, and gives as many
/// values as were asked for.
pub proof fn lemma_decode_all_bound<T: Serializable>(bs: Seq<u8>, count: nat, window: Option<nat>)
    ensures
        decode_all::<T>(bs, count, window) matches Ok((n, vs)) ==> n <= bs.len() && vs.len()
            == count,
    decreases count,
{
    if count > 0 && !(window matches Some(w) && bs.len() < w) {
        T::lemma_decode_bound(shown(bs, window));
        if let Ok((n, v)) = T::decode(shown(bs, window)) {
            lemma_decode_all_bound::<T>(bs.skip(n as int), (count - 1) as nat, window);
        }
    }
}

/// Whether every value of `items` has a byte form.
pub fn can_encode_all<T: Serializable>(items: &Vec<T>) -> (r: bool)
    ensures
        r == all_encodable::<T>(items.deep_view()),
{
    let ghost vs = items.deep_view();
    let mut i: usize = 0;
    while i < items.len()
        invariant
            i <= items.len(),
            vs == items.deep_view(),
            forall|j: int| 0 <= j < i ==> T::encodable(#[trigger] vs[j]),
        decreases items.len() - i,
    {
        assert(vs[i as int] == items[i as int].deep_view());
        if !items[i].can_encode() {
            return false;
        }
        i += 1;
    }
    true
}

/// Appends the byte forms of `items`, in order, to `out`.
pub fn put_all<T: Serializable>(out: &mut Vec<u8>, items: &Vec<T>)
    requires
        all_encodable::<T>(items.deep_view()),
    ensures
        final(out)@ == old(out)@ + encode_all::<T>(items.deep_view()),
{
    let ghost vs = items.deep_view();
    let mut i: usize = 0;
    assert(vs.take(0) =~= Seq::<T::V>::empty());
    while i < items.len()
        invariant
            i <= items.len(),
            vs == items.deep_view(),
            all_encodable::<T>(vs),
            out@ == old(out)@ + encode_all::<T>(vs.take(i as int)),
        decreases items.len() - i,
    {
        assert(vs[i as int] == items[i as int].deep_view());
        let mut one = items[i].to_bytes();
        proof {
            lemma_encode_all_push::<T>(vs.take(i as int), vs[i as int]);
            assert(vs.take(i as int).push(vs[i as int]) =~= vs.take(i + 1));
        }
        out.append(&mut one);
        i += 1;
    }
    assert(vs.take(i as int) =~= vs);
}

/// Reads `count` values that follow one another in `bs` from byte `at` on.
/// Gives the place after the last one, and the values.
pub fn get_all<T: Serializable>(bs: &[u8], at: usize, count: usize, window: Option<usize>) -> (r:
    Result<(usize, Vec<T>), SerializeError>)
    requires
        at <= bs.len(),
    ensures
        match r {
            Ok((end, items)) => at <= end <= bs.len() && decode_all::<T>(
                bs@.skip(at as int),
                count as nat,
                to_nat(window),
            ) == Ok::<(nat, Seq<T::V>), SerializeError>(((end - at) as nat, items.deep_view())),
            Err(e) => decode_all::<T>(bs@.skip(at as int), count as nat, to_nat(window)) == Err::<
                (nat, Seq<T::V>),
                SerializeError,
            >(e),
        },
{
    let ghost goal = decode_all::<T>(bs@.skip(at as int), count as nat, to_nat(window));
    let mut items: Vec<T> = Vec::new();
    let mut i: usize = at;
    let mut k: usize = 0;
    assert(items.deep_view() =~= Seq::<T::V>::empty());
    while k < count
        invariant
            k <= count,
            at <= i <= bs.len(),
            goal == decode_all::<T>(bs@.skip(at as int), count as nat, to_nat(window)),
            goal == after(
                (i - at) as nat,
                items.deep_view(),
                decode_all::<T>(bs@.skip(i as int), (count - k) as nat, to_nat(window)),
            ),
        decreases count - k,
    {
        let ghost left = bs@.skip(i as int);
        let end: usize = match window {
            Some(w) => {
                if bs.len() - i < w {
                    return Err(SerializeError::InvalidByteLen);
                }
                i + w
            },
            None => bs.len(),
        };
        let piece = slice_subrange(bs, i, end);
        assert(piece@ =~= shown(left, to_nat(window)));
        proof {
            T::lemma_decode_bound(piece@);
        }
        match T::from_bytes(piece) {
            Err(e) => {
                return Err(e);
            },
            Ok((n, v)) => {
                let ghost before = items.deep_view();
                items.push(v);
                proof {
                    assert(items.deep_view() =~= before + seq![v.deep_view()]);
                    assert(left.skip(n as int) =~= bs@.skip(i + n));
                    let next = decode_all::<T>(
                        bs@.skip(i + n),
                        (count - k - 1) as nat,
                        to_nat(window),
                    );
                    if let Ok((m, vs)) = next {
                        assert(before + (seq![v.deep_view()] + vs) =~= items.deep_view() + vs);
                    }
                }
                i += n;
                k += 1;
            },
        }
    }
    proof {
        assert(items.deep_view() + Seq::<T::V>::empty() =~= items.deep_view());
    }
    Ok((i, items))
}

/// A window's width as a number of the model.
pub open spec fn to_nat(window: Option<usize>) -> Option<nat> {
    match window {
        Some(w) => Some(w as nat),
        None => None,
    }
}

} // verus!
