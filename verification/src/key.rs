//! The key types the tree can order, and how a key is written into a page.
//!
//! Keys ride inside a page as byte strings produced by `bincode`, whose
//! default configuration writes an integer as its fixed-width little-endian
//! bytes and reads one back from the front of a byte string, ignoring any
//! bytes after it.

use vstd::prelude::*;

verus! {

/// The little-endian bytes of a 32-bit integer.
pub open spec fn le_bytes_32(x: u32) -> Seq<u8> {
    seq![
        (x & 0xff) as u8,
        ((x >> 8u32) & 0xff) as u8,
        ((x >> 16u32) & 0xff) as u8,
        ((x >> 24u32) & 0xff) as u8,
    ]
}

/// The 32-bit integer whose little-endian bytes begin `b`.
pub open spec fn le_value_32(b: Seq<u8>) -> u32
    recommends
        b.len() >= 4,
{
    (b[0] as u32) | ((b[1] as u32) << 8u32) | ((b[2] as u32) << 16u32) | ((b[3] as u32) << 24u32)
}

/// The little-endian bytes of a 64-bit integer.
pub open spec fn le_bytes_64(x: u64) -> Seq<u8> {
    seq![
        (x & 0xff) as u8,
        ((x >> 8u64) & 0xff) as u8,
        ((x >> 16u64) & 0xff) as u8,
        ((x >> 24u64) & 0xff) as u8,
        ((x >> 32u64) & 0xff) as u8,
        ((x >> 40u64) & 0xff) as u8,
        ((x >> 48u64) & 0xff) as u8,
        ((x >> 56u64) & 0xff) as u8,
    ]
}

/// The 64-bit integer whose little-endian bytes begin `b`.
pub open spec fn le_value_64(b: Seq<u8>) -> u64
    recommends
        b.len() >= 8,
{
    (b[0] as u64) | ((b[1] as u64) << 8u64) | ((b[2] as u64) << 16u64) | ((b[3] as u64) << 24u64)
        | ((b[4] as u64) << 32u64) | ((b[5] as u64) << 40u64) | ((b[6] as u64) << 48u64) | ((b[7]
        as u64) << 56u64)
}

pub proof fn lemma_le_32(x: u32)
    ensures
        le_bytes_32(x).len() == 4,
        le_value_32(le_bytes_32(x)) == x,
{
    let b = le_bytes_32(x);
    let b0 = b[0];
    let b1 = b[1];
    let b2 = b[2];
    let b3 = b[3];
    assert(((b0 as u32) | ((b1 as u32) << 8u32) | ((b2 as u32) << 16u32) | ((b3 as u32) << 24u32))
        == x) by (bit_vector)
        requires
            b0 == (x & 0xff) as u8,
            b1 == ((x >> 8u32) & 0xff) as u8,
            b2 == ((x >> 16u32) & 0xff) as u8,
            b3 == ((x >> 24u32) & 0xff) as u8,
    ;
}

pub proof fn lemma_le_64(x: u64)
    ensures
        le_bytes_64(x).len() == 8,
        le_value_64(le_bytes_64(x)) == x,
{
    let b = le_bytes_64(x);
    let b0 = b[0];
    let b1 = b[1];
    let b2 = b[2];
    let b3 = b[3];
    let b4 = b[4];
    let b5 = b[5];
    let b6 = b[6];
    let b7 = b[7];
    assert(((b0 as u64) | ((b1 as u64) << 8u64) | ((b2 as u64) << 16u64) | ((b3 as u64) << 24u64)
        | ((b4 as u64) << 32u64) | ((b5 as u64) << 40u64) | ((b6 as u64) << 48u64) | ((b7 as u64)
        << 56u64)) == x) by (bit_vector)
        requires
            b0 == (x & 0xff) as u8,
            b1 == ((x >> 8u64) & 0xff) as u8,
            b2 == ((x >> 16u64) & 0xff) as u8,
            b3 == ((x >> 24u64) & 0xff) as u8,
            b4 == ((x >> 32u64) & 0xff) as u8,
            b5 == ((x >> 40u64) & 0xff) as u8,
            b6 == ((x >> 48u64) & 0xff) as u8,
            b7 == ((x >> 56u64) & 0xff) as u8,
    ;
}

/// A key the tree can store: totally ordered by an integer rank, and
/// written into a page as a byte string.
pub trait Key: Sized {
    /// The key's position in the key order; distinct keys have distinct ranks.
    spec fn rank(&self) -> int;

    /// The bytes a page holds for this key.
    spec fn spec_encoded(&self) -> Seq<u8>;

    /// The key that a page's bytes stand for, if they stand for one.
    spec fn spec_decoded(bytes: Seq<u8>) -> Option<Self>;

    proof fn lemma_rank_injective(a: Self, b: Self)
        requires
            a.rank() == b.rank(),
        ensures
            a == b,
    ;

    proof fn lemma_decode_encode(k: Self)
        ensures
            Self::spec_decoded(k.spec_encoded()) == Some(k),
    ;

    fn less_than(&self, other: &Self) -> (r: bool)
        ensures
            r == (self.rank() < other.rank()),
    ;

    fn same_as(&self, other: &Self) -> (r: bool)
        ensures
            r == (self.rank() == other.rank()),
    ;

    fn duplicate(&self) -> (r: Self)
        ensures
            r == *self,
    ;

    /// Encoding a key never fails.
    fn encode_key(&self) -> (r: Result<Vec<u8>, String>)
        ensures
            r is Ok,
            r matches Ok(b) ==> b@ == self.spec_encoded(),
    ;

    fn decode_key(bytes: &[u8]) -> (r: Result<Self, String>)
        ensures
            match r {
                Ok(k) => Self::spec_decoded(bytes@) == Some(k),
                Err(_) => Self::spec_decoded(bytes@) is None,
            },
    ;
}

/// `bincode::serialize` of an `i32`: its 4 little-endian bytes; it cannot fail.
#[verifier::external_body]
fn bincode_serialize_i32(k: i32) -> (r: Result<Vec<u8>, String>)
    ensures
        r is Ok,
        r->Ok_0@ == le_bytes_32(k as u32),
{
    match bincode::serialize(&k) {
        Ok(bytes) => Ok(bytes),
        Err(e) => Err(e.to_string()),
    }
}

/// `bincode::deserialize::<i32>`: the integer in the first 4 bytes, little
/// endian; an error when fewer than 4 bytes are given.
#[verifier::external_body]
fn bincode_deserialize_i32(bytes: &[u8]) -> (r: Result<i32, String>)
    ensures
        r is Ok <==> bytes@.len() >= 4,
        r is Ok ==> r->Ok_0 == le_value_32(bytes@) as i32,
{
    match bincode::deserialize::<i32>(bytes) {
        Ok(k) => Ok(k),
        Err(e) => Err(e.to_string()),
    }
}

/// `bincode::serialize` of an `i64`: its 8 little-endian bytes; it cannot fail.
#[verifier::external_body]
fn bincode_serialize_i64(k: i64) -> (r: Result<Vec<u8>, String>)
    ensures
        r is Ok,
        r->Ok_0@ == le_bytes_64(k as u64),
{
    match bincode::serialize(&k) {
        Ok(bytes) => Ok(bytes),
        Err(e) => Err(e.to_string()),
    }
}

/// `bincode::deserialize::<i64>`: the integer in the first 8 bytes, little
/// endian; an error when fewer than 8 bytes are given.
#[verifier::external_body]
fn bincode_deserialize_i64(bytes: &[u8]) -> (r: Result<i64, String>)
    ensures
        r is Ok <==> bytes@.len() >= 8,
        r is Ok ==> r->Ok_0 == le_value_64(bytes@) as i64,
{
    match bincode::deserialize::<i64>(bytes) {
        Ok(k) => Ok(k),
        Err(e) => Err(e.to_string()),
    }
}

/// `bincode::serialize` of a `u32`: its 4 little-endian bytes; it cannot fail.
#[verifier::external_body]
fn bincode_serialize_u32(k: u32) -> (r: Result<Vec<u8>, String>)
    ensures
        r is Ok,
        r->Ok_0@ == le_bytes_32(k),
{
    match bincode::serialize(&k) {
        Ok(bytes) => Ok(bytes),
        Err(e) => Err(e.to_string()),
    }
}

/// `bincode::deserialize::<u32>`: the integer in the first 4 bytes, little
/// endian; an error when fewer than 4 bytes are given.
#[verifier::external_body]
fn bincode_deserialize_u32(bytes: &[u8]) -> (r: Result<u32, String>)
    ensures
        r is Ok <==> bytes@.len() >= 4,
        r is Ok ==> r->Ok_0 == le_value_32(bytes@),
{
    match bincode::deserialize::<u32>(bytes) {
        Ok(k) => Ok(k),
        Err(e) => Err(e.to_string()),
    }
}

/// `bincode::serialize` of a `u64`: its 8 little-endian bytes; it cannot fail.
#[verifier::external_body]
fn bincode_serialize_u64(k: u64) -> (r: Result<Vec<u8>, String>)
    ensures
        r is Ok,
        r->Ok_0@ == le_bytes_64(k),
{
    match bincode::serialize(&k) {
        Ok(bytes) => Ok(bytes),
        Err(e) => Err(e.to_string()),
    }
}

/// `bincode::deserialize::<u64>`: the integer in the first 8 bytes, little
/// endian; an error when fewer than 8 bytes are given.
#[verifier::external_body]
fn bincode_deserialize_u64(bytes: &[u8]) -> (r: Result<u64, String>)
    ensures
        r is Ok <==> bytes@.len() >= 8,
        r is Ok ==> r->Ok_0 == le_value_64(bytes@),
{
    match bincode::deserialize::<u64>(bytes) {
        Ok(k) => Ok(k),
        Err(e) => Err(e.to_string()),
    }
}

impl Key for i32 {
    open spec fn rank(&self) -> int {
        *self as int
    }

    open spec fn spec_encoded(&self) -> Seq<u8> {
        le_bytes_32(*self as u32)
    }

    open spec fn spec_decoded(bytes: Seq<u8>) -> Option<Self> {
        if bytes.len() >= 4 {
            Some(le_value_32(bytes) as i32)
        } else {
            None
        }
    }

    proof fn lemma_rank_injective(a: Self, b: Self) {
    }

    proof fn lemma_decode_encode(k: Self) {
        lemma_le_32(k as u32);
        assert((k as u32) as i32 == k) by (bit_vector);
    }

    fn less_than(&self, other: &Self) -> (r: bool) {
        *self < *other
    }

    fn same_as(&self, other: &Self) -> (r: bool) {
        *self == *other
    }

    fn duplicate(&self) -> (r: Self) {
        *self
    }

    fn encode_key(&self) -> (r: Result<Vec<u8>, String>)
        ensures
            r is Ok,
    {
        bincode_serialize_i32(*self)
    }

    fn decode_key(bytes: &[u8]) -> (r: Result<Self, String>) {
        bincode_deserialize_i32(bytes)
    }
}

impl Key for i64 {
    open spec fn rank(&self) -> int {
        *self as int
    }

    open spec fn spec_encoded(&self) -> Seq<u8> {
        le_bytes_64(*self as u64)
    }

    open spec fn spec_decoded(bytes: Seq<u8>) -> Option<Self> {
        if bytes.len() >= 8 {
            Some(le_value_64(bytes) as i64)
        } else {
            None
        }
    }

    proof fn lemma_rank_injective(a: Self, b: Self) {
    }

    proof fn lemma_decode_encode(k: Self) {
        lemma_le_64(k as u64);
        assert((k as u64) as i64 == k) by (bit_vector);
    }

    fn less_than(&self, other: &Self) -> (r: bool) {
        *self < *other
    }

    fn same_as(&self, other: &Self) -> (r: bool) {
        *self == *other
    }

    fn duplicate(&self) -> (r: Self) {
        *self
    }

    fn encode_key(&self) -> (r: Result<Vec<u8>, String>)
        ensures
            r is Ok,
    {
        bincode_serialize_i64(*self)
    }

    fn decode_key(bytes: &[u8]) -> (r: Result<Self, String>) {
        bincode_deserialize_i64(bytes)
    }
}

impl Key for u32 {
    open spec fn rank(&self) -> int {
        *self as int
    }

    open spec fn spec_encoded(&self) -> Seq<u8> {
        le_bytes_32(*self)
    }

    open spec fn spec_decoded(bytes: Seq<u8>) -> Option<Self> {
        if bytes.len() >= 4 {
            Some(le_value_32(bytes))
        } else {
            None
        }
    }

    proof fn lemma_rank_injective(a: Self, b: Self) {
    }

    proof fn lemma_decode_encode(k: Self) {
        lemma_le_32(k);
    }

    fn less_than(&self, other: &Self) -> (r: bool) {
        *self < *other
    }

    fn same_as(&self, other: &Self) -> (r: bool) {
        *self == *other
    }

    fn duplicate(&self) -> (r: Self) {
        *self
    }

    fn encode_key(&self) -> (r: Result<Vec<u8>, String>)
        ensures
            r is Ok,
    {
        bincode_serialize_u32(*self)
    }

    fn decode_key(bytes: &[u8]) -> (r: Result<Self, String>) {
        bincode_deserialize_u32(bytes)
    }
}

impl Key for u64 {
    open spec fn rank(&self) -> int {
        *self as int
    }

    open spec fn spec_encoded(&self) -> Seq<u8> {
        le_bytes_64(*self)
    }

    open spec fn spec_decoded(bytes: Seq<u8>) -> Option<Self> {
        if bytes.len() >= 8 {
            Some(le_value_64(bytes))
        } else {
            None
        }
    }

    proof fn lemma_rank_injective(a: Self, b: Self) {
    }

    proof fn lemma_decode_encode(k: Self) {
        lemma_le_64(k);
    }

    fn less_than(&self, other: &Self) -> (r: bool) {
        *self < *other
    }

    fn same_as(&self, other: &Self) -> (r: bool) {
        *self == *other
    }

    fn duplicate(&self) -> (r: Self) {
        *self
    }

    fn encode_key(&self) -> (r: Result<Vec<u8>, String>)
        ensures
            r is Ok,
    {
        bincode_serialize_u64(*self)
    }

    fn decode_key(bytes: &[u8]) -> (r: Result<Self, String>) {
        bincode_deserialize_u64(bytes)
    }
}

/// Integer keys are ordered as the integers they are: one key comes before
/// another exactly when it is the smaller number, and two keys are one key
/// exactly when they are the same number.
pub proof fn lemma_integer_key_order()
    ensures
        forall|a: i32, b: i32| #![trigger a.rank(), b.rank()] (a < b) == (a.rank() < b.rank()) && (a == b) == (a.rank() == b.rank()),
        forall|a: i64, b: i64| #![trigger a.rank(), b.rank()] (a < b) == (a.rank() < b.rank()) && (a == b) == (a.rank() == b.rank()),
        forall|a: u32, b: u32| #![trigger a.rank(), b.rank()] (a < b) == (a.rank() < b.rank()) && (a == b) == (a.rank() == b.rank()),
        forall|a: u64, b: u64| #![trigger a.rank(), b.rank()] (a < b) == (a.rank() < b.rank()) && (a == b) == (a.rank() == b.rank()),
{
}

} // verus!
