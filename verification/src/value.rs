//! The typed value the store keeps, its mathematical model, and the
//! exact-match conversions out of it.

use vstd::prelude::*;

use crate::error::ValueError;

verus! {

/// The bit pattern Rust uses for `f64::NAN`; every NaN is modelled as this one.
pub const CANONICAL_NAN_64: u64 = 0x7ff8_0000_0000_0000;

/// The bit pattern Rust uses for `f32::NAN`; every NaN is modelled as this one.
pub const CANONICAL_NAN_32: u32 = 0x7fc0_0000;

/// Is this `f64` bit pattern a NaN (all exponent bits set, non-zero mantissa)?
pub open spec fn is_nan_64(bits: u64) -> bool {
    (bits / 0x10_0000_0000_0000) % 0x800 == 0x7ff && bits % 0x10_0000_0000_0000 != 0
}

/// Is this `f32` bit pattern a NaN (all exponent bits set, non-zero mantissa)?
pub open spec fn is_nan_32(bits: u32) -> bool {
    (bits / 0x80_0000) % 0x100 == 0xff && bits % 0x80_0000 != 0
}

/// Two floats are the same value unless they differ; every NaN is the same value.
pub open spec fn canon_64(bits: u64) -> u64 {
    if is_nan_64(bits) { CANONICAL_NAN_64 } else { bits }
}

pub open spec fn canon_32(bits: u32) -> u32 {
    if is_nan_32(bits) { CANONICAL_NAN_32 } else { bits }
}

/// The mathematical model of a [`Value`]: the same shape, with sequences in
/// place of vectors and strings, and every NaN identified with every other.
pub enum ValueModel {
    I64(i64),
    I32(i32),
    I8(i8),
    UInt64(u64),
    UInt32(u32),
    UInt8(u8),
    F64(u64),
    F32(u32),
    Char(char),
    Text(Seq<char>),
    Bytes(Seq<u8>),
    List(Seq<ValueModel>),
    Pair(Seq<ValueModel>, Seq<ValueModel>),
    Multi(Seq<ValueModel>),
}

/// The closed set of types the store keeps, so a stored value is
/// self-describing rather than an opaque blob.
///
/// Floating-point numbers are held by their IEEE-754 bit patterns
/// (`f64::to_bits` / `f32::to_bits`), so they round-trip exactly.
/// Conversions out of a `Value` are exact-match, with no widening.
#[derive(Debug, PartialEq)]
#[non_exhaustive]
pub enum Value {
    /// A signed 64-bit integer.
    I64(i64),
    /// A signed 32-bit integer.
    I32(i32),
    /// A signed 8-bit integer.
    I8(i8),
    /// An unsigned 64-bit integer.
    UInt64(u64),
    /// An unsigned 32-bit integer.
    UInt32(u32),
    /// An unsigned 8-bit integer.
    UInt8(u8),
    /// A 64-bit float, by its bit pattern.
    F64(u64),
    /// A 32-bit float, by its bit pattern.
    F32(u32),
    /// A single Unicode scalar value.
    Char(char),
    /// A UTF-8 string.
    Text(String),
    /// An arbitrary byte string.
    Bytes(Vec<u8>),
    /// A list of values; a list can hold another list, or a pair.
    List(Vec<Value>),
    /// Two lists paired together.
    Pair(Vec<Value>, Vec<Value>),
    /// The accumulator built by repeated `put`s of one key. Kept apart from
    /// `List` so that accumulating can never splice into a caller's own list.
    Multi(Vec<Value>),
}

impl View for Value {
    type V = ValueModel;

    open spec fn view(&self) -> ValueModel
        decreases self,
    {
        match self {
            Value::I64(x) => ValueModel::I64(*x),
            Value::I32(x) => ValueModel::I32(*x),
            Value::I8(x) => ValueModel::I8(*x),
            Value::UInt64(x) => ValueModel::UInt64(*x),
            Value::UInt32(x) => ValueModel::UInt32(*x),
            Value::UInt8(x) => ValueModel::UInt8(*x),
            Value::F64(b) => ValueModel::F64(canon_64(*b)),
            Value::F32(b) => ValueModel::F32(canon_32(*b)),
            Value::Char(c) => ValueModel::Char(*c),
            Value::Text(t) => ValueModel::Text(t@),
            Value::Bytes(b) => ValueModel::Bytes(b@),
            Value::List(v) => ValueModel::List(views(v@)),
            Value::Pair(l, r) => ValueModel::Pair(views(l@), views(r@)),
            Value::Multi(v) => ValueModel::Multi(views(v@)),
        }
    }
}

/// The models of a sequence of values, element by element.
pub open spec fn views(s: Seq<Value>) -> Seq<ValueModel>
    decreases s,
{
    if s.len() == 0 {
        Seq::empty()
    } else {
        views(s.drop_last()).push(s.last()@)
    }
}

pub proof fn lemma_views(s: Seq<Value>)
    ensures
        views(s).len() == s.len(),
        forall|i: int| 0 <= i < s.len() ==> #[trigger] views(s)[i] == s[i]@,
    decreases s.len(),
{
    if s.len() > 0 {
        lemma_views(s.drop_last());
        assert(views(s) == views(s.drop_last()).push(s.last()@));
        assert forall|i: int| 0 <= i < s.len() implies #[trigger] views(s)[i] == s[i]@ by {
            if i < s.len() - 1 {
                assert(s.drop_last()[i] == s[i]);
            }
        }
    }
}

/// The models of a run of values are that run of the models.
pub proof fn lemma_views_subrange(s: Seq<Value>, a: int, b: int)
    requires
        0 <= a <= b <= s.len(),
    ensures
        views(s.subrange(a, b)) == views(s).subrange(a, b),
{
    lemma_views(s);
    lemma_views(s.subrange(a, b));
    assert(views(s.subrange(a, b)) =~= views(s).subrange(a, b));
}

/// Inserting a value inserts its model.
pub proof fn lemma_views_insert(s: Seq<Value>, i: int, v: Value)
    requires
        0 <= i <= s.len(),
    ensures
        views(s.insert(i, v)) == views(s).insert(i, v@),
{
    lemma_views(s);
    lemma_views(s.insert(i, v));
    assert(views(s.insert(i, v)) =~= views(s).insert(i, v@));
}

/// Removing a value removes its model.
pub proof fn lemma_views_remove(s: Seq<Value>, i: int)
    requires
        0 <= i < s.len(),
    ensures
        views(s.remove(i)) == views(s).remove(i),
{
    lemma_views(s);
    lemma_views(s.remove(i));
    assert(views(s.remove(i)) =~= views(s).remove(i));
}

/// Replacing a value replaces its model.
pub proof fn lemma_views_update(s: Seq<Value>, i: int, v: Value)
    requires
        0 <= i < s.len(),
    ensures
        views(s.update(i, v)) == views(s).update(i, v@),
{
    lemma_views(s);
    lemma_views(s.update(i, v));
    assert(views(s.update(i, v)) =~= views(s).update(i, v@));
}

/// The models of two runs joined are the two runs of models joined.
pub proof fn lemma_views_concat(a: Seq<Value>, b: Seq<Value>)
    ensures
        views(a + b) == views(a) + views(b),
{
    lemma_views(a);
    lemma_views(b);
    lemma_views(a + b);
    assert(views(a + b) =~= views(a) + views(b));
}

/// Two sequences of values with element-wise equal models have equal models.
pub proof fn lemma_views_ext(a: Seq<Value>, b: Seq<Value>)
    requires
        a.len() == b.len(),
        forall|i: int| 0 <= i < a.len() ==> #[trigger] a[i]@ == b[i]@,
    ensures
        views(a) == views(b),
{
    lemma_views(a);
    lemma_views(b);
    assert(views(a) =~= views(b));
}

/// The model of `old` after `value` is folded into it by [`Value::accumulate`].
pub open spec fn accumulated(old: ValueModel, value: ValueModel) -> ValueModel {
    match old {
        ValueModel::Multi(values) => ValueModel::Multi(values.push(value)),
        _ => ValueModel::Multi(seq![old, value]),
    }
}

/// Copies a sequence of values one by one, each by [`Value::deep_clone`].
fn clone_values(v: &Vec<Value>, Ghost(whole): Ghost<Value>) -> (out: Vec<Value>)
    requires
        forall|i: int| 0 <= i < v@.len() ==> decreases_to!(whole => #[trigger] v@[i]),
    ensures
        views(out@) == views(v@),
    decreases whole, 1nat,
{
    let mut out: Vec<Value> = Vec::new();
    let mut i: usize = 0;
    while i < v.len()
        invariant
            i <= v.len(),
            out@.len() == i,
            forall|j: int| 0 <= j < v@.len() ==> decreases_to!(whole => #[trigger] v@[j]),
            forall|j: int| 0 <= j < i ==> #[trigger] out@[j]@ == v@[j]@,
        decreases v.len() - i,
    {
        let c = v[i].deep_clone_inner(Ghost(whole));
        out.push(c);
        i += 1;
    }
    proof {
        lemma_views_ext(out@, v@);
    }
    out
}

impl Value {
    fn deep_clone_inner(&self, Ghost(whole): Ghost<Value>) -> (r: Value)
        requires
            decreases_to!(whole => *self),
        ensures
            r@ == self@,
        decreases whole, 0nat,
    {
        proof {
            broadcast use vstd::std_specs::vec::axiom_vec_index_decreases;
        }
        self.deep_clone()
    }

    /// A copy of this value, element by element.
    pub fn deep_clone(&self) -> (r: Value)
        ensures
            r@ == self@,
        decreases *self, 2nat,
    {
        proof {
            broadcast use vstd::std_specs::vec::axiom_vec_index_decreases;
        }
        match self {
            Value::I64(x) => Value::I64(*x),
            Value::I32(x) => Value::I32(*x),
            Value::I8(x) => Value::I8(*x),
            Value::UInt64(x) => Value::UInt64(*x),
            Value::UInt32(x) => Value::UInt32(*x),
            Value::UInt8(x) => Value::UInt8(*x),
            Value::F64(b) => Value::F64(*b),
            Value::F32(b) => Value::F32(*b),
            Value::Char(c) => Value::Char(*c),
            Value::Text(t) => Value::Text(t.clone()),
            Value::Bytes(b) => Value::Bytes(b.clone()),
            Value::List(v) => {
                proof {
                    assert forall|i: int| 0 <= i < v@.len() implies decreases_to!(*self => #[trigger] v@[i]) by {
                        assert(decreases_to!(*self => self->List_0));
                        assert(decreases_to!(*v => v[i]));
                    }
                }
                Value::List(clone_values(v, Ghost(*self)))
            },
            Value::Multi(v) => {
                proof {
                    assert forall|i: int| 0 <= i < v@.len() implies decreases_to!(*self => #[trigger] v@[i]) by {
                        assert(decreases_to!(*self => self->Multi_0));
                        assert(decreases_to!(*v => v[i]));
                    }
                }
                Value::Multi(clone_values(v, Ghost(*self)))
            },
            Value::Pair(l, r) => {
                proof {
                    assert forall|i: int| 0 <= i < l@.len() implies decreases_to!(*self => #[trigger] l@[i]) by {
                        assert(decreases_to!(*self => self->Pair_0));
                        assert(decreases_to!(*l => l[i]));
                    }
                    assert forall|i: int| 0 <= i < r@.len() implies decreases_to!(*self => #[trigger] r@[i]) by {
                        assert(decreases_to!(*self => self->Pair_1));
                        assert(decreases_to!(*r => r[i]));
                    }
                }
                Value::Pair(clone_values(l, Ghost(*self)), clone_values(r, Ghost(*self)))
            },
        }
    }

    /// Folds `value` into `self`, building or extending a [`Value::Multi`].
    ///
    /// The first call on a non-`Multi` value wraps the existing value and the
    /// new one into `Multi([old, new])`; later calls push onto that list.
    pub fn accumulate(&mut self, value: Value)
        ensures
            final(self)@ == accumulated(old(self)@, value@),
    {
        if let Value::Multi(values) = self {
            let ghost before = values@;
            values.push(value);
            proof {
                lemma_views(before);
                lemma_views(values@);
                assert(views(values@) =~= views(before).push(value@));
            }
            return;
        }
        let mut first = Value::Multi(Vec::new());
        std::mem::swap(self, &mut first);
        let mut pair: Vec<Value> = Vec::new();
        pair.push(first);
        pair.push(value);
        proof {
            lemma_views(pair@);
            assert(views(pair@) =~= seq![first@, value@]);
        }
        *self = Value::Multi(pair);
    }

    /// Returns `true` if this value is a [`Value::Multi`] accumulator.
    pub fn is_multi(&self) -> (r: bool)
        ensures
            r == (self@ is Multi),
    {
        match self {
            Value::Multi(_) => true,
            _ => false,
        }
    }
}

impl Clone for Value {
    fn clone(&self) -> (r: Self)
        ensures
            r@ == self@,
    {
        self.deep_clone()
    }
}

impl From<i64> for Value {
    fn from(v: i64) -> (r: Value) {
        Value::I64(v)
    }
}

impl vstd::std_specs::convert::FromSpecImpl<i64> for Value {
    open spec fn obeys_from_spec() -> bool {
        true
    }

    open spec fn from_spec(v: i64) -> Value {
        Value::I64(v)
    }
}

impl From<i32> for Value {
    fn from(v: i32) -> (r: Value) {
        Value::I32(v)
    }
}

impl vstd::std_specs::convert::FromSpecImpl<i32> for Value {
    open spec fn obeys_from_spec() -> bool {
        true
    }

    open spec fn from_spec(v: i32) -> Value {
        Value::I32(v)
    }
}

impl From<i8> for Value {
    fn from(v: i8) -> (r: Value) {
        Value::I8(v)
    }
}

impl vstd::std_specs::convert::FromSpecImpl<i8> for Value {
    open spec fn obeys_from_spec() -> bool {
        true
    }

    open spec fn from_spec(v: i8) -> Value {
        Value::I8(v)
    }
}

impl From<u64> for Value {
    fn from(v: u64) -> (r: Value) {
        Value::UInt64(v)
    }
}

impl vstd::std_specs::convert::FromSpecImpl<u64> for Value {
    open spec fn obeys_from_spec() -> bool {
        true
    }

    open spec fn from_spec(v: u64) -> Value {
        Value::UInt64(v)
    }
}

impl From<u32> for Value {
    fn from(v: u32) -> (r: Value) {
        Value::UInt32(v)
    }
}

impl vstd::std_specs::convert::FromSpecImpl<u32> for Value {
    open spec fn obeys_from_spec() -> bool {
        true
    }

    open spec fn from_spec(v: u32) -> Value {
        Value::UInt32(v)
    }
}

impl From<u8> for Value {
    fn from(v: u8) -> (r: Value) {
        Value::UInt8(v)
    }
}

impl vstd::std_specs::convert::FromSpecImpl<u8> for Value {
    open spec fn obeys_from_spec() -> bool {
        true
    }

    open spec fn from_spec(v: u8) -> Value {
        Value::UInt8(v)
    }
}

impl From<char> for Value {
    fn from(v: char) -> (r: Value) {
        Value::Char(v)
    }
}

impl vstd::std_specs::convert::FromSpecImpl<char> for Value {
    open spec fn obeys_from_spec() -> bool {
        true
    }

    open spec fn from_spec(v: char) -> Value {
        Value::Char(v)
    }
}

impl From<String> for Value {
    fn from(v: String) -> (r: Value) {
        Value::Text(v)
    }
}

impl vstd::std_specs::convert::FromSpecImpl<String> for Value {
    open spec fn obeys_from_spec() -> bool {
        true
    }

    open spec fn from_spec(v: String) -> Value {
        Value::Text(v)
    }
}

impl From<Vec<u8>> for Value {
    fn from(v: Vec<u8>) -> (r: Value) {
        Value::Bytes(v)
    }
}

impl vstd::std_specs::convert::FromSpecImpl<Vec<u8>> for Value {
    open spec fn obeys_from_spec() -> bool {
        true
    }

    open spec fn from_spec(v: Vec<u8>) -> Value {
        Value::Bytes(v)
    }
}

impl From<Vec<Value>> for Value {
    fn from(v: Vec<Value>) -> (r: Value) {
        Value::List(v)
    }
}

impl vstd::std_specs::convert::FromSpecImpl<Vec<Value>> for Value {
    open spec fn obeys_from_spec() -> bool {
        true
    }

    open spec fn from_spec(v: Vec<Value>) -> Value {
        Value::List(v)
    }
}

impl From<(Vec<Value>, Vec<Value>)> for Value {
    fn from(v: (Vec<Value>, Vec<Value>)) -> (r: Value) {
        Value::Pair(v.0, v.1)
    }
}

impl vstd::std_specs::convert::FromSpecImpl<(Vec<Value>, Vec<Value>)> for Value {
    open spec fn obeys_from_spec() -> bool {
        true
    }

    open spec fn from_spec(v: (Vec<Value>, Vec<Value>)) -> Value {
        Value::Pair(v.0, v.1)
    }
}

/// A Rust type that a stored [`Value`] can be read back as.
///
/// Every conversion is exact-match: a value converts only if it is the one
/// variant that stands for the type, and is otherwise a
/// [`ValueError::TypeMismatch`].
pub trait TryFromValue: Sized {
    /// Does a value with this model convert to `Self`?
    spec fn accepts(m: ValueModel) -> bool;

    /// Is `self` what a value with model `m` converts to?
    spec fn represents(&self, m: ValueModel) -> bool;

    fn try_from_value(value: Value) -> (r: Result<Self, ValueError>)
        ensures
            match r {
                Ok(x) => Self::accepts(value@) && x.represents(value@),
                Err(e) => !Self::accepts(value@) && e == ValueError::TypeMismatch,
            },
    ;
}

/// Converting a stored value out is exact-match: each type takes only the
/// variant that holds it, with no widening or narrowing between integer
/// widths, and gets back exactly what that variant holds. A `Vec<Value>`
/// takes a list, or the values an accumulated key gathered.
pub proof fn lemma_exact_match(m: ValueModel)
    ensures
        <i64 as TryFromValue>::accepts(m) <==> m is I64,
        <i32 as TryFromValue>::accepts(m) <==> m is I32,
        <i8 as TryFromValue>::accepts(m) <==> m is I8,
        <u64 as TryFromValue>::accepts(m) <==> m is UInt64,
        <u32 as TryFromValue>::accepts(m) <==> m is UInt32,
        <u8 as TryFromValue>::accepts(m) <==> m is UInt8,
        <char as TryFromValue>::accepts(m) <==> m is Char,
        <String as TryFromValue>::accepts(m) <==> m is Text,
        <Vec<u8> as TryFromValue>::accepts(m) <==> m is Bytes,
        <Vec<Value> as TryFromValue>::accepts(m) <==> m is List || m is Multi,
        <(Vec<Value>, Vec<Value>) as TryFromValue>::accepts(m) <==> m is Pair,
        forall|x: i64| #[trigger] x.represents(m) <==> m == ValueModel::I64(x),
        forall|x: i32| #[trigger] x.represents(m) <==> m == ValueModel::I32(x),
        forall|x: i8| #[trigger] x.represents(m) <==> m == ValueModel::I8(x),
        forall|x: u64| #[trigger] x.represents(m) <==> m == ValueModel::UInt64(x),
        forall|x: u32| #[trigger] x.represents(m) <==> m == ValueModel::UInt32(x),
        forall|x: u8| #[trigger] x.represents(m) <==> m == ValueModel::UInt8(x),
        forall|x: char| #[trigger] x.represents(m) <==> m == ValueModel::Char(x),
{
}

impl TryFromValue for i64 {
    open spec fn accepts(m: ValueModel) -> bool {
        m is I64
    }

    open spec fn represents(&self, m: ValueModel) -> bool {
        m == ValueModel::I64(*self)
    }

    fn try_from_value(value: Value) -> (r: Result<Self, ValueError>) {
        match value {
            Value::I64(v) => Ok(v),
            _ => Err(ValueError::TypeMismatch),
        }
    }
}

impl TryFromValue for i32 {
    open spec fn accepts(m: ValueModel) -> bool {
        m is I32
    }

    open spec fn represents(&self, m: ValueModel) -> bool {
        m == ValueModel::I32(*self)
    }

    fn try_from_value(value: Value) -> (r: Result<Self, ValueError>) {
        match value {
            Value::I32(v) => Ok(v),
            _ => Err(ValueError::TypeMismatch),
        }
    }
}

impl TryFromValue for i8 {
    open spec fn accepts(m: ValueModel) -> bool {
        m is I8
    }

    open spec fn represents(&self, m: ValueModel) -> bool {
        m == ValueModel::I8(*self)
    }

    fn try_from_value(value: Value) -> (r: Result<Self, ValueError>) {
        match value {
            Value::I8(v) => Ok(v),
            _ => Err(ValueError::TypeMismatch),
        }
    }
}

impl TryFromValue for u64 {
    open spec fn accepts(m: ValueModel) -> bool {
        m is UInt64
    }

    open spec fn represents(&self, m: ValueModel) -> bool {
        m == ValueModel::UInt64(*self)
    }

    fn try_from_value(value: Value) -> (r: Result<Self, ValueError>) {
        match value {
            Value::UInt64(v) => Ok(v),
            _ => Err(ValueError::TypeMismatch),
        }
    }
}

impl TryFromValue for u32 {
    open spec fn accepts(m: ValueModel) -> bool {
        m is UInt32
    }

    open spec fn represents(&self, m: ValueModel) -> bool {
        m == ValueModel::UInt32(*self)
    }

    fn try_from_value(value: Value) -> (r: Result<Self, ValueError>) {
        match value {
            Value::UInt32(v) => Ok(v),
            _ => Err(ValueError::TypeMismatch),
        }
    }
}

impl TryFromValue for u8 {
    open spec fn accepts(m: ValueModel) -> bool {
        m is UInt8
    }

    open spec fn represents(&self, m: ValueModel) -> bool {
        m == ValueModel::UInt8(*self)
    }

    fn try_from_value(value: Value) -> (r: Result<Self, ValueError>) {
        match value {
            Value::UInt8(v) => Ok(v),
            _ => Err(ValueError::TypeMismatch),
        }
    }
}

impl TryFromValue for char {
    open spec fn accepts(m: ValueModel) -> bool {
        m is Char
    }

    open spec fn represents(&self, m: ValueModel) -> bool {
        m == ValueModel::Char(*self)
    }

    fn try_from_value(value: Value) -> (r: Result<Self, ValueError>) {
        match value {
            Value::Char(v) => Ok(v),
            _ => Err(ValueError::TypeMismatch),
        }
    }
}

impl TryFromValue for String {
    open spec fn accepts(m: ValueModel) -> bool {
        m is Text
    }

    open spec fn represents(&self, m: ValueModel) -> bool {
        m == ValueModel::Text(self@)
    }

    fn try_from_value(value: Value) -> (r: Result<Self, ValueError>) {
        match value {
            Value::Text(v) => Ok(v),
            _ => Err(ValueError::TypeMismatch),
        }
    }
}

impl TryFromValue for Vec<u8> {
    open spec fn accepts(m: ValueModel) -> bool {
        m is Bytes
    }

    open spec fn represents(&self, m: ValueModel) -> bool {
        m == ValueModel::Bytes(self@)
    }

    fn try_from_value(value: Value) -> (r: Result<Self, ValueError>) {
        match value {
            Value::Bytes(v) => Ok(v),
            _ => Err(ValueError::TypeMismatch),
        }
    }
}

/// A list reads back as its elements; so does the accumulator of repeated
/// `put`s, which is how every value stored under one key is read at once.
impl TryFromValue for Vec<Value> {
    open spec fn accepts(m: ValueModel) -> bool {
        m is List || m is Multi
    }

    open spec fn represents(&self, m: ValueModel) -> bool {
        m == ValueModel::List(views(self@)) || m == ValueModel::Multi(views(self@))
    }

    fn try_from_value(value: Value) -> (r: Result<Self, ValueError>) {
        match value {
            Value::List(v) => Ok(v),
            Value::Multi(v) => Ok(v),
            _ => Err(ValueError::TypeMismatch),
        }
    }
}

impl TryFromValue for (Vec<Value>, Vec<Value>) {
    open spec fn accepts(m: ValueModel) -> bool {
        m is Pair
    }

    open spec fn represents(&self, m: ValueModel) -> bool {
        m == ValueModel::Pair(views(self.0@), views(self.1@))
    }

    fn try_from_value(value: Value) -> (r: Result<Self, ValueError>) {
        match value {
            Value::Pair(l, r) => Ok((l, r)),
            _ => Err(ValueError::TypeMismatch),
        }
    }
}

/// The value itself, unconverted: the one way to read back a float, by its bits.
impl TryFromValue for Value {
    open spec fn accepts(m: ValueModel) -> bool {
        true
    }

    open spec fn represents(&self, m: ValueModel) -> bool {
        self@ == m
    }

    fn try_from_value(value: Value) -> (r: Result<Self, ValueError>) {
        Ok(value)
    }
}

} // verus!
