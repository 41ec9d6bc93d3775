use crate::bytes::{
    bits_to_i32, get_u32, i32_bits, i32_le, i32_of_le, i32_to_bits, lemma_i32_bits_inverse,
    lemma_u32_le_inverse, put_u32, u32_le, u32_of_le,
};
use crate::outside::text_of_utf8;
use crate::series::{
    all_canonical, all_encodable, can_encode_all, decode_all, encode_all, get_all, lemma_decode_all_bound,
    lemma_decode_all_encode_all, put_all,
};
use vstd::arithmetic::div_mod::{lemma_fundamental_div_mod, lemma_fundamental_div_mod_converse};
use vstd::prelude::*;
use vstd::slice::*;
use vstd::string::*;
use vstd::utf8::*;

verus! {

/// Why a byte string could not be decoded.
#[derive(Debug, Clone, PartialEq, Eq)]
pub enum SerializeError {
    /// A text payload is not valid UTF-8.
    InvalidUtf8,
    /// The input ends before the value does.
    InvalidByteLen,
    /// The kind discriminant names no kind of value.
    InvalidType,
}

/// A value that can be copied, the copy having the same model.
pub trait Duplicate: DeepView + Sized {
    /// A copy of the value.
    fn duplicate(&self) -> (r: Self)
        ensures
            r.deep_view() == self.deep_view(),
    ;
}

/// A value with a self-delimiting byte form.
///
/// The byte form is stated over the value's model (its deep view): `encode`
/// gives the bytes of a model value, `decode` reads a model value from the
/// front of a byte string and says how many bytes it took.
pub trait Serializable: DeepView + Sized {
    /// Whether `v` has a byte form: its lengths and packed fields fit.
    spec fn encodable(v: Self::V) -> bool;

    /// Whether `v` is what its own byte form is read as: the parts that the
    /// byte form does not hold have the values that a decoder gives them.
    spec fn canonical(v: Self::V) -> bool;

    /// The byte form of `v`.
    spec fn encode(v: Self::V) -> Seq<u8>;

    /// What a decoder makes of the front of `bs`: the bytes consumed and the
    /// value, or the reason for rejecting the input.
    spec fn decode(bs: Seq<u8>) -> Result<(nat, Self::V), SerializeError>;

    /// Whether the value has a byte form.
    fn can_encode(&self) -> (r: bool)
        ensures
            r == Self::encodable(self.deep_view()),
    ;

    /// The byte form of the value.
    fn to_bytes(&self) -> (bs: Vec<u8>)
        requires
            Self::encodable(self.deep_view()),
        ensures
            bs@ == Self::encode(self.deep_view()),
    ;

    /// The value at the front of `bs`, and the count of bytes it fills.
    fn from_bytes(bs: &[u8]) -> (r: Result<(usize, Self), SerializeError>)
        ensures
            match r {
                Ok((n, v)) => Self::decode(bs@) == Ok::<(nat, Self::V), SerializeError>(
                    (n as nat, v.deep_view()),
                ),
                Err(e) => Self::decode(bs@) == Err::<(nat, Self::V), SerializeError>(e),
            },
    ;

    /// Decoding the byte form of a value gives the value back and consumes
    /// exactly its bytes, whatever follows them.
    proof fn lemma_decode_encode(v: Self::V, rest: Seq<u8>)
        requires
            Self::encodable(v),
            Self::canonical(v),
        ensures
            Self::decode(Self::encode(v) + rest) == Ok::<(nat, Self::V), SerializeError>(
                (Self::encode(v).len(), v),
            ),
    ;

    /// A decoder consumes no more than it was given.
    proof fn lemma_decode_bound(bs: Seq<u8>)
        ensures
            Self::decode(bs) matches Ok((n, _)) ==> n <= bs.len(),
    ;

    /// The number that `size` reports for `v`.
    spec fn size_of(v: Self::V) -> nat;

    /// The size of the value in bytes: that of what it holds, without a
    /// discriminant before it.
    fn size(&self) -> (n: usize)
        requires
            Self::encodable(self.deep_view()),
            Self::size_of(self.deep_view()) <= usize::MAX,
        ensures
            n == Self::size_of(self.deep_view()),
    ;
}

/// Copies of the values of `items`, in order.
pub fn duplicate_all<T: Duplicate>(items: &Vec<T>) -> (r: Vec<T>)
    ensures
        r.deep_view() == items.deep_view(),
{
    let mut r: Vec<T> = Vec::new();
    let mut i: usize = 0;
    while i < items.len()
        invariant
            i <= items.len(),
            r.deep_view() == items.deep_view().take(i as int),
        decreases items.len() - i,
    {
        let ghost before = r.deep_view();
        r.push(items[i].duplicate());
        assert(r.deep_view() =~= before.push(items[i as int].deep_view()));
        assert(before.push(items[i as int].deep_view()) =~= items.deep_view().take(i + 1));
        i += 1;
    }
    assert(items.deep_view().take(i as int) =~= items.deep_view());
    r
}

impl Duplicate for u32 {
    fn duplicate(&self) -> (r: Self) {
        *self
    }
}

/// A page identifier: four bytes, least significant first.
impl Serializable for u32 {
    open spec fn encodable(v: u32) -> bool {
        true
    }

    open spec fn canonical(v: u32) -> bool {
        true
    }

    open spec fn encode(v: u32) -> Seq<u8> {
        u32_le(v)
    }

    open spec fn decode(bs: Seq<u8>) -> Result<(nat, u32), SerializeError> {
        if bs.len() < 4 {
            Err(SerializeError::InvalidByteLen)
        } else {
            Ok((4, u32_of_le(bs)))
        }
    }

    fn can_encode(&self) -> (r: bool) {
        true
    }

    fn to_bytes(&self) -> (bs: Vec<u8>) {
        let mut bs: Vec<u8> = Vec::new();
        put_u32(&mut bs, *self);
        bs
    }

    fn from_bytes(bs: &[u8]) -> (r: Result<(usize, Self), SerializeError>) {
        if bs.len() < 4 {
            Err(SerializeError::InvalidByteLen)
        } else {
            let val: u32 = get_u32(bs, 0);
            assert(bs@.subrange(0, 4) =~= bs@.take(4));
            Ok((4, val))
        }
    }

    proof fn lemma_decode_encode(v: u32, rest: Seq<u8>) {
        lemma_u32_le_inverse(v, rest);
    }

    proof fn lemma_decode_bound(bs: Seq<u8>) {
    }

    open spec fn size_of(v: u32) -> nat {
        4
    }

    fn size(&self) -> (n: usize) {
        4
    }
}

impl Duplicate for i32 {
    fn duplicate(&self) -> (r: Self) {
        *self
    }
}

impl Serializable for i32 {
    open spec fn encodable(v: i32) -> bool {
        true
    }

    open spec fn canonical(v: i32) -> bool {
        true
    }

    open spec fn encode(v: i32) -> Seq<u8> {
        i32_le(v)
    }

    open spec fn decode(bs: Seq<u8>) -> Result<(nat, i32), SerializeError> {
        if bs.len() < 4 {
            Err(SerializeError::InvalidByteLen)
        } else {
            Ok((4, i32_of_le(bs)))
        }
    }

    fn can_encode(&self) -> (r: bool) {
        true
    }

    fn to_bytes(&self) -> (bs: Vec<u8>) {
        let mut bs: Vec<u8> = Vec::new();
        put_u32(&mut bs, i32_to_bits(*self));
        bs
    }

    fn from_bytes(bs: &[u8]) -> (r: Result<(usize, Self), SerializeError>) {
        if bs.len() < 4 {
            Err(SerializeError::InvalidByteLen)
        } else {
            let val: i32 = bits_to_i32(get_u32(bs, 0));
            assert(bs@.subrange(0, 4)[0] == bs@[0] && bs@.subrange(0, 4)[1] == bs@[1]
                && bs@.subrange(0, 4)[2] == bs@[2] && bs@.subrange(0, 4)[3] == bs@[3]);
            Ok((4, val))
        }
    }

    proof fn lemma_decode_encode(v: i32, rest: Seq<u8>) {
        lemma_u32_le_inverse(i32_bits(v), rest);
        lemma_i32_bits_inverse(v, 0);
    }

    proof fn lemma_decode_bound(bs: Seq<u8>) {
    }

    open spec fn size_of(v: i32) -> nat {
        4
    }

    fn size(&self) -> (n: usize) {
        4
    }
}

/// The kind of a column.
#[derive(Debug, PartialEq, Eq, Clone, Copy, Structural)]
pub enum Type {
    Int,
    VarChar,
    DateTime,
}

impl Type {
    /// The discriminant that stands for this kind in a byte form.
    pub open spec fn spec_tag(self) -> u8 {
        match self {
            Type::Int => 0,
            Type::VarChar => 1,
            Type::DateTime => 2,
        }
    }

    /// The discriminant that stands for this kind in a byte form.
    pub fn tag(self) -> (t: u8)
        ensures
            t == self.spec_tag(),
    {
        match self {
            Type::Int => 0,
            Type::VarChar => 1,
            Type::DateTime => 2,
        }
    }

    /// The kind that `value` stands for, if it stands for one.
    pub fn from_tag(value: usize) -> (r: Option<Type>)
        ensures
            match r {
                Some(t) => t.spec_tag() == value,
                None => value > 2,
            },
    {
        if value == 0 {
            Some(Type::Int)
        } else if value == 1 {
            Some(Type::VarChar)
        } else if value == 2 {
            Some(Type::DateTime)
        } else {
            None
        }
    }
}

/// A date and a time of day, each held by its parts.
#[derive(Debug, Eq, PartialEq, Clone, Copy)]
pub struct DateTime {
    pub year: u32,
    pub month: u32,
    pub day: u32,
    pub hour: u32,
    pub minute: u32,
    pub second: u32,
}

impl DateTime {
    /// The date as one number: year, month and day in decimal positions.
    pub open spec fn packed_date(&self) -> nat {
        (10000 * self.year + 100 * self.month + self.day) as nat
    }

    /// The time of day as one number: hour, minute and second in decimal
    /// positions.
    pub open spec fn packed_time(&self) -> nat {
        (10000 * self.hour + 100 * self.minute + self.second) as nat
    }

    /// Each part but the leading one stays inside its two decimal positions.
    pub open spec fn is_normal(&self) -> bool {
        self.month < 100 && self.day < 100 && self.minute < 100 && self.second < 100
    }

    /// The date and time that pack to `date` and `time`.
    pub open spec fn unpacked(date: u32, time: u32) -> DateTime {
        DateTime {
            year: date / 10000,
            month: date % 10000 / 100,
            day: date % 10000 % 100,
            hour: time / 10000,
            minute: time % 10000 / 100,
            second: time % 10000 % 100,
        }
    }

    /// A normal value is what its two packed numbers unpack to.
    pub proof fn lemma_unpacked_packed(d: DateTime)
        requires
            d.is_normal(),
            d.packed_date() <= u32::MAX,
            d.packed_time() <= u32::MAX,
        ensures
            DateTime::unpacked(d.packed_date() as u32, d.packed_time() as u32) == d,
    {
        lemma_pack_parts(d.year as int, d.month as int, d.day as int);
        lemma_pack_parts(d.hour as int, d.minute as int, d.second as int);
    }

    /// What unpacks from two numbers is normal and packs to them again.
    pub proof fn lemma_packed_unpacked(date: u32, time: u32)
        ensures
            DateTime::unpacked(date, time).is_normal(),
            DateTime::unpacked(date, time).packed_date() == date,
            DateTime::unpacked(date, time).packed_time() == time,
    {
        lemma_parts_pack(date as int);
        lemma_parts_pack(time as int);
    }
}

/// Three decimal fields, the lower two of two digits each, are recovered from
/// their packed number by division and remainder.
proof fn lemma_pack_parts(a: int, b: int, c: int)
    requires
        0 <= a,
        0 <= b < 100,
        0 <= c < 100,
    ensures
        (10000 * a + 100 * b + c) / 10000 == a,
        (10000 * a + 100 * b + c) % 10000 / 100 == b,
        (10000 * a + 100 * b + c) % 10000 % 100 == c,
{
    let e = 10000 * a + 100 * b + c;
    lemma_fundamental_div_mod_converse(e, 10000, a, 100 * b + c);
    lemma_fundamental_div_mod_converse(100 * b + c, 100, b, c);
}

/// The fields that division and remainder take out of a number pack to it.
proof fn lemma_parts_pack(e: int)
    requires
        0 <= e,
    ensures
        0 <= e / 10000,
        0 <= e % 10000 / 100 < 100,
        0 <= e % 10000 % 100 < 100,
        10000 * (e / 10000) + 100 * (e % 10000 / 100) + e % 10000 % 100 == e,
{
    lemma_fundamental_div_mod(e, 10000);
    lemma_fundamental_div_mod(e % 10000, 100);
}

/// The model of a date/time: its six parts.
impl DeepView for DateTime {
    type V = DateTime;

    open spec fn deep_view(&self) -> DateTime {
        *self
    }
}

impl Duplicate for DateTime {
    fn duplicate(&self) -> (r: Self) {
        *self
    }
}

/// A date/time as two words: its packed date, then its packed time. What
/// is read back has normal parts.
impl Serializable for DateTime {
    open spec fn encodable(v: DateTime) -> bool {
        v.packed_date() <= u32::MAX && v.packed_time() <= u32::MAX
    }

    open spec fn canonical(v: DateTime) -> bool {
        v.is_normal()
    }

    open spec fn encode(v: DateTime) -> Seq<u8> {
        u32_le(v.packed_date() as u32) + u32_le(v.packed_time() as u32)
    }

    open spec fn decode(bs: Seq<u8>) -> Result<(nat, DateTime), SerializeError> {
        if bs.len() < 8 {
            Err(SerializeError::InvalidByteLen)
        } else {
            Ok((8, DateTime::unpacked(u32_of_le(bs), u32_of_le(bs.skip(4)))))
        }
    }

    fn can_encode(&self) -> (r: bool) {
        let date: u64 = 10000 * (self.year as u64) + 100 * (self.month as u64) + self.day as u64;
        let time: u64 = 10000 * (self.hour as u64) + 100 * (self.minute as u64)
            + self.second as u64;
        date <= 0xFFFF_FFFF && time <= 0xFFFF_FFFF
    }

    fn to_bytes(&self) -> (bs: Vec<u8>) {
        let date_enc: u32 = 10000 * self.year + 100 * self.month + self.day;
        let time_enc: u32 = self.hour * 10000 + self.minute * 100 + self.second;
        let mut bs: Vec<u8> = Vec::new();
        put_u32(&mut bs, date_enc);
        put_u32(&mut bs, time_enc);
        bs
    }

    fn from_bytes(bs: &[u8]) -> (r: Result<(usize, Self), SerializeError>) {
        if bs.len() < 8 {
            Err(SerializeError::InvalidByteLen)
        } else {
            let date: u32 = get_u32(bs, 0);
            let time: u32 = get_u32(bs, 4);
            assert(bs@.subrange(0, 4) =~= bs@.take(4));
            assert(bs@.subrange(4, 8) =~= bs@.skip(4).take(4));
            let rem: u32 = date % 10000;
            let trem: u32 = time % 10000;
            proof {
                DateTime::lemma_packed_unpacked(date, time);
            }
            let d = DateTime {
                year: date / 10000,
                month: rem / 100,
                day: rem % 100,
                hour: time / 10000,
                minute: trem / 100,
                second: trem % 100,
            };
            Ok((8, d))
        }
    }

    proof fn lemma_decode_encode(v: DateTime, rest: Seq<u8>) {
        let a = u32_le(v.packed_date() as u32);
        let b = u32_le(v.packed_time() as u32);
        lemma_u32_le_inverse(v.packed_date() as u32, b + rest);
        lemma_u32_le_inverse(v.packed_time() as u32, rest);
        assert(a + b + rest =~= a + (b + rest));
        assert((a + b + rest).skip(4) =~= b + rest);
        DateTime::lemma_unpacked_packed(v);
    }

    proof fn lemma_decode_bound(bs: Seq<u8>) {
    }

    open spec fn size_of(v: DateTime) -> nat {
        8
    }

    fn size(&self) -> (n: usize) {
        8
    }
}

/// The longest text, in bytes, that a text column is declared to hold.
pub const VARCHAR_MAX_LEN: u32 = 8192;

/// A text of variable length.
#[derive(Debug, Eq, PartialEq, Clone)]
pub struct VarChar {
    pub val: String,
    pub max_len: u32,
}

/// The model of a text: its characters, and the length it is declared to
/// hold at most.
pub struct VarCharView {
    pub val: Seq<char>,
    pub max_len: u32,
}

impl DeepView for VarChar {
    type V = VarCharView;

    open spec fn deep_view(&self) -> VarCharView {
        VarCharView { val: self.val@, max_len: self.max_len }
    }
}

impl VarChar {
    /// The text `s`, declared to hold `VARCHAR_MAX_LEN` bytes at most.
    pub fn new(s: &str) -> (r: Self)
        ensures
            r.deep_view() == (VarCharView { val: s@, max_len: VARCHAR_MAX_LEN }),
            r.max_len == VARCHAR_MAX_LEN,
    {
        VarChar { val: s.to_owned(), max_len: VARCHAR_MAX_LEN }
    }
}

impl Duplicate for VarChar {
    fn duplicate(&self) -> (r: Self) {
        VarChar { val: self.val.clone(), max_len: self.max_len }
    }
}

/// A text as the count of its bytes in UTF-8, then the bytes. What is read
/// back is declared to hold `VARCHAR_MAX_LEN` bytes at most.
impl Serializable for VarChar {
    open spec fn encodable(v: VarCharView) -> bool {
        encode_utf8(v.val).len() <= u32::MAX
    }

    open spec fn canonical(v: VarCharView) -> bool {
        v.max_len == VARCHAR_MAX_LEN
    }

    open spec fn encode(v: VarCharView) -> Seq<u8> {
        u32_le(encode_utf8(v.val).len() as u32) + encode_utf8(v.val)
    }

    open spec fn decode(bs: Seq<u8>) -> Result<(nat, VarCharView), SerializeError> {
        if bs.len() < 4 || bs.len() - 4 < u32_of_le(bs) {
            Err(SerializeError::InvalidByteLen)
        } else if !valid_utf8(bs.subrange(4, 4 + u32_of_le(bs))) {
            Err(SerializeError::InvalidUtf8)
        } else {
            Ok(
                (
                    (4 + u32_of_le(bs)) as nat,
                    VarCharView {
                        val: decode_utf8(bs.subrange(4, 4 + u32_of_le(bs))),
                        max_len: VARCHAR_MAX_LEN,
                    },
                ),
            )
        }
    }

    fn can_encode(&self) -> (r: bool) {
        self.val.as_str().as_bytes().len() <= 0xFFFF_FFFF
    }

    fn to_bytes(&self) -> (bs: Vec<u8>) {
        let text = self.val.as_str().as_bytes();
        let mut bs: Vec<u8> = Vec::new();
        put_u32(&mut bs, text.len() as u32);
        bs.extend_from_slice(text);
        bs
    }

    fn from_bytes(bs: &[u8]) -> (r: Result<(usize, Self), SerializeError>) {
        if bs.len() < 4 {
            return Err(SerializeError::InvalidByteLen);
        }
        let len: u32 = get_u32(bs, 0);
        assert(bs@.subrange(0, 4) =~= bs@.take(4));
        if bs.len() - 4 < len as usize {
            return Err(SerializeError::InvalidByteLen);
        }
        let size: usize = 4 + len as usize;
        let payload = slice_to_vec(slice_subrange(bs, 4, size));
        match text_of_utf8(payload) {
            Some(val) => Ok((size, VarChar { val, max_len: VARCHAR_MAX_LEN })),
            None => Err(SerializeError::InvalidUtf8),
        }
    }

    proof fn lemma_decode_encode(v: VarCharView, rest: Seq<u8>) {
        let text = encode_utf8(v.val);
        let bs = Self::encode(v) + rest;
        lemma_u32_le_inverse(text.len() as u32, text + rest);
        assert(bs =~= u32_le(text.len() as u32) + (text + rest));
        assert(bs.subrange(4, 4 + text.len() as int) =~= text);
        encode_utf8_valid_utf8(v.val);
        encode_utf8_decode_utf8(v.val);
    }

    proof fn lemma_decode_bound(bs: Seq<u8>) {
    }

    open spec fn size_of(v: VarCharView) -> nat {
        encode_utf8(v.val).len() + 4
    }

    fn size(&self) -> (n: usize) {
        self.val.as_str().len() + 4
    }
}

/// A column value of one of the three kinds.
#[derive(Debug, Eq, PartialEq, Clone)]
pub enum Value {
    Int(i32),
    VarChar(VarChar),
    DateTime(DateTime),
}

/// The model of a column value: the model of what it holds.
pub enum ValueView {
    Int(i32),
    VarChar(VarCharView),
    DateTime(DateTime),
}

impl ValueView {
    /// The kind of the value.
    pub open spec fn vtype(self) -> Type {
        match self {
            ValueView::Int(_) => Type::Int,
            ValueView::VarChar(_) => Type::VarChar,
            ValueView::DateTime(_) => Type::DateTime,
        }
    }

    /// The byte form of what the value holds, without its discriminant.
    pub open spec fn payload(self) -> Seq<u8> {
        match self {
            ValueView::Int(n) => i32::encode(n),
            ValueView::VarChar(s) => VarChar::encode(s),
            ValueView::DateTime(d) => DateTime::encode(d),
        }
    }
}

impl DeepView for Value {
    type V = ValueView;

    open spec fn deep_view(&self) -> ValueView {
        match self {
            Value::Int(n) => ValueView::Int(*n),
            Value::VarChar(vc) => ValueView::VarChar(vc.deep_view()),
            Value::DateTime(dt) => ValueView::DateTime(dt.deep_view()),
        }
    }
}

impl Value {
    /// The kind of the value.
    pub fn vtype(&self) -> (t: Type)
        ensures
            t == self.deep_view().vtype(),
    {
        match self {
            Value::Int(_) => Type::Int,
            Value::DateTime(_) => Type::DateTime,
            Value::VarChar(_) => Type::VarChar,
        }
    }
}

impl Duplicate for Value {
    fn duplicate(&self) -> (r: Self) {
        match self {
            Value::Int(n) => Value::Int(*n),
            Value::VarChar(vc) => Value::VarChar(vc.duplicate()),
            Value::DateTime(dt) => Value::DateTime(*dt),
        }
    }
}

/// A payload's result as the result for the value around it: one byte more
/// was consumed, for the discriminant.
pub open spec fn tagged<A>(
    r: Result<(nat, A), SerializeError>,
    wrap: spec_fn(A) -> ValueView,
) -> Result<(nat, ValueView), SerializeError> {
    match r {
        Ok((n, a)) => Ok((n + 1, wrap(a))),
        Err(e) => Err(e),
    }
}

impl Serializable for Value {
    open spec fn encodable(v: ValueView) -> bool {
        match v {
            ValueView::Int(n) => i32::encodable(n),
            ValueView::VarChar(s) => VarChar::encodable(s),
            ValueView::DateTime(d) => DateTime::encodable(d),
        }
    }

    open spec fn canonical(v: ValueView) -> bool {
        match v {
            ValueView::Int(n) => i32::canonical(n),
            ValueView::VarChar(s) => VarChar::canonical(s),
            ValueView::DateTime(d) => DateTime::canonical(d),
        }
    }

    open spec fn encode(v: ValueView) -> Seq<u8> {
        seq![v.vtype().spec_tag()] + v.payload()
    }

    open spec fn decode(bs: Seq<u8>) -> Result<(nat, ValueView), SerializeError> {
        if bs.len() == 0 {
            Err(SerializeError::InvalidByteLen)
        } else if bs[0] == 0 {
            tagged(i32::decode(bs.skip(1)), |n: i32| ValueView::Int(n))
        } else if bs[0] == 1 {
            tagged(VarChar::decode(bs.skip(1)), |s: VarCharView| ValueView::VarChar(s))
        } else if bs[0] == 2 {
            tagged(DateTime::decode(bs.skip(1)), |d: DateTime| ValueView::DateTime(d))
        } else {
            Err(SerializeError::InvalidType)
        }
    }

    fn can_encode(&self) -> (r: bool) {
        match self {
            Value::Int(n) => n.can_encode(),
            Value::VarChar(vc) => vc.can_encode(),
            Value::DateTime(dt) => dt.can_encode(),
        }
    }

    fn to_bytes(&self) -> (bs: Vec<u8>) {
        let mut bs: Vec<u8> = Vec::new();
        bs.push(self.vtype().tag());
        let mut inner = match self {
            Value::Int(n) => n.to_bytes(),
            Value::DateTime(dt) => dt.to_bytes(),
            Value::VarChar(vc) => vc.to_bytes(),
        };
        bs.append(&mut inner);
        assert(bs@ =~= Self::encode(self.deep_view()));
        bs
    }

    fn from_bytes(bs: &[u8]) -> (r: Result<(usize, Self), SerializeError>) {
        if bs.len() == 0 {
            return Err(SerializeError::InvalidByteLen);
        }
        let vtype = match Type::from_tag(bs[0] as usize) {
            Some(t) => t,
            None => {
                return Err(SerializeError::InvalidType);
            },
        };
        let inner = slice_subrange(bs, 1, bs.len());
        assert(inner@ =~= bs@.skip(1));
        match vtype {
            Type::Int => {
                proof {
                    i32::lemma_decode_bound(inner@);
                }
                match i32::from_bytes(inner) {
                    Ok((size, n)) => Ok((size + 1, Value::Int(n))),
                    Err(e) => Err(e),
                }
            },
            Type::VarChar => {
                proof {
                    VarChar::lemma_decode_bound(inner@);
                }
                match VarChar::from_bytes(inner) {
                    Ok((size, vc)) => Ok((size + 1, Value::VarChar(vc))),
                    Err(e) => Err(e),
                }
            },
            Type::DateTime => {
                proof {
                    DateTime::lemma_decode_bound(inner@);
                }
                match DateTime::from_bytes(inner) {
                    Ok((size, dt)) => Ok((size + 1, Value::DateTime(dt))),
                    Err(e) => Err(e),
                }
            },
        }
    }

    proof fn lemma_decode_encode(v: ValueView, rest: Seq<u8>) {
        let bs = Self::encode(v) + rest;
        assert(bs.skip(1) =~= v.payload() + rest);
        assert(bs[0] == v.vtype().spec_tag());
        match v {
            ValueView::Int(n) => {
                i32::lemma_decode_encode(n, rest);
            },
            ValueView::VarChar(s) => {
                VarChar::lemma_decode_encode(s, rest);
            },
            ValueView::DateTime(d) => {
                DateTime::lemma_decode_encode(d, rest);
            },
        }
    }

    proof fn lemma_decode_bound(bs: Seq<u8>) {
        if bs.len() > 0 {
            i32::lemma_decode_bound(bs.skip(1));
            VarChar::lemma_decode_bound(bs.skip(1));
            DateTime::lemma_decode_bound(bs.skip(1));
        }
    }

    open spec fn size_of(v: ValueView) -> nat {
        match v {
            ValueView::Int(n) => i32::size_of(n),
            ValueView::VarChar(s) => VarChar::size_of(s),
            ValueView::DateTime(d) => DateTime::size_of(d),
        }
    }

    fn size(&self) -> (n: usize) {
        match self {
            Value::Int(n) => n.size(),
            Value::VarChar(vc) => vc.size(),
            Value::DateTime(dt) => dt.size(),
        }
    }
}

impl Duplicate for Vec<Value> {
    fn duplicate(&self) -> (r: Self) {
        duplicate_all(self)
    }
}

/// A row: its count of values as four bytes, then the values.
impl Serializable for Vec<Value> {
    open spec fn encodable(v: Seq<ValueView>) -> bool {
        v.len() <= u32::MAX && all_encodable::<Value>(v)
    }

    open spec fn canonical(v: Seq<ValueView>) -> bool {
        all_canonical::<Value>(v)
    }

    open spec fn encode(v: Seq<ValueView>) -> Seq<u8> {
        u32_le(v.len() as u32) + encode_all::<Value>(v)
    }

    open spec fn decode(bs: Seq<u8>) -> Result<(nat, Seq<ValueView>), SerializeError> {
        if bs.len() < 4 {
            Err(SerializeError::InvalidByteLen)
        } else {
            match decode_all::<Value>(bs.skip(4), u32_of_le(bs) as nat, None) {
                Ok((n, vs)) => Ok((n + 4, vs)),
                Err(e) => Err(e),
            }
        }
    }

    fn can_encode(&self) -> (r: bool) {
        assert(self.deep_view().len() == self.len());
        self.len() <= 0xFFFF_FFFF && can_encode_all::<Value>(self)
    }

    fn to_bytes(&self) -> (bs: Vec<u8>) {
        let mut bs: Vec<u8> = Vec::new();
        assert(self.deep_view().len() == self.len());
        put_u32(&mut bs, self.len() as u32);
        put_all::<Value>(&mut bs, self);
        bs
    }

    fn from_bytes(bs: &[u8]) -> (r: Result<(usize, Self), SerializeError>) {
        if bs.len() < 4 {
            return Err(SerializeError::InvalidByteLen);
        }
        let len: usize = get_u32(bs, 0) as usize;
        assert(bs@.subrange(0, 4) =~= bs@.take(4));
        get_all::<Value>(bs, 4, len, None)
    }

    proof fn lemma_decode_encode(v: Seq<ValueView>, rest: Seq<u8>) {
        let bs = Self::encode(v) + rest;
        let body = encode_all::<Value>(v);
        lemma_u32_le_inverse(v.len() as u32, body + rest);
        assert(bs =~= u32_le(v.len() as u32) + (body + rest));
        assert(bs.skip(4) =~= body + rest);
        lemma_decode_all_encode_all::<Value>(v, rest, None);
    }

    proof fn lemma_decode_bound(bs: Seq<u8>) {
        if bs.len() >= 4 {
            lemma_decode_all_bound::<Value>(bs.skip(4), u32_of_le(bs) as nat, None);
        }
    }

    open spec fn size_of(v: Seq<ValueView>) -> nat {
        Self::encode(v).len()
    }

    fn size(&self) -> (n: usize) {
        self.to_bytes().len()
    }
}

} // verus!
