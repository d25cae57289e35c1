//! The tagged JSON layout of a value, as the `json` wire format writes it.
//!
//! Every value is an object with exactly one key, its tag, e.g. `{"i64":42}`
//! or `{"text":"hi"}`, rather than JSON's own untagged numbers and strings:
//! JSON alone cannot tell an `i32` from an `i64`, a `char` from a string, or
//! a list from the accumulator of repeated `put`s. Floats that JSON has no
//! literal for are written as the strings `"nan"`, `"inf"` and `"-inf"`,
//! and bytes as a lowercase hex string.
//!
//! Turning the [`Json`] tree into text and back is left to whoever owns the
//! JSON library; this module is the tagging itself.

use vstd::prelude::*;
use vstd::string::StrSliceExecFns;
use vstd::string::StringExecFns;

use crate::error::ValueError;
use crate::value::{canon_32, canon_64, is_nan_32, is_nan_64, Value, ValueModel, CANONICAL_NAN_32, CANONICAL_NAN_64};

verus! {

/// The format's name, as it appears in a [`ValueError::Decode`].
pub const NAME: &'static str = "json";

/// The bits of `f64::INFINITY`.
pub const INF_64: u64 = 0x7ff0_0000_0000_0000;

/// The bits of `f64::NEG_INFINITY`.
pub const NEG_INF_64: u64 = 0xfff0_0000_0000_0000;

/// The bits of `f32::INFINITY`.
pub const INF_32: u32 = 0x7f80_0000;

/// The bits of `f32::NEG_INFINITY`.
pub const NEG_INF_32: u32 = 0xff80_0000;

/// A number read from a JSON document, by the readings the tags ask of it.
#[derive(Debug, Clone, Copy, PartialEq, Eq, Structural)]
pub struct JsonNumber {
    /// The number as an `i64`, if it is an integer that fits.
    pub as_i64: Option<i64>,
    /// The number as a `u64`, if it is an integer that fits.
    pub as_u64: Option<u64>,
    /// The number as an `f64`, by its bits.
    pub as_f64: u64,
    /// That `f64` narrowed to the nearest `f32`, by its bits.
    pub as_f32: u32,
}

/// A JSON document. The number leaves the tagging writes are kept apart
/// from those read from a document: a written float is finite, and a
/// written `f32` stands for the `f64` it widens to.
#[derive(Debug)]
pub enum Json {
    Null,
    Bool(bool),
    /// A signed integer, as the tagging writes one.
    Int(i64),
    /// An unsigned integer, as the tagging writes one.
    UInt(u64),
    /// A finite `f64`, by its bits, as the tagging writes one.
    F64(u64),
    /// A finite `f32`, by its bits, as the tagging writes one.
    F32(u32),
    /// A number read from a document.
    Number(JsonNumber),
    Str(String),
    Array(Vec<Json>),
    /// An object's entries, in order.
    Object(Vec<(String, Json)>),
}

/// The mathematical model of a [`Json`] document.
pub enum JsonModel {
    Null,
    Bool(bool),
    Int(i64),
    UInt(u64),
    F64(u64),
    F32(u32),
    Number(JsonNumber),
    Str(Seq<char>),
    Array(Seq<JsonModel>),
    Object(Seq<(Seq<char>, JsonModel)>),
}

impl View for Json {
    type V = JsonModel;

    open spec fn view(&self) -> JsonModel
        decreases self,
    {
        match self {
            Json::Null => JsonModel::Null,
            Json::Bool(b) => JsonModel::Bool(*b),
            Json::Int(n) => JsonModel::Int(*n),
            Json::UInt(n) => JsonModel::UInt(*n),
            Json::F64(b) => JsonModel::F64(*b),
            Json::F32(b) => JsonModel::F32(*b),
            Json::Number(x) => JsonModel::Number(*x),
            Json::Str(s) => JsonModel::Str(s@),
            Json::Array(v) => JsonModel::Array(json_views(v@)),
            Json::Object(v) => JsonModel::Object(entry_views(v@)),
        }
    }
}

/// The models of a sequence of documents.
pub open spec fn json_views(s: Seq<Json>) -> Seq<JsonModel>
    decreases s,
{
    if s.len() == 0 {
        Seq::empty()
    } else {
        json_views(s.drop_last()).push(s.last()@)
    }
}

/// The models of a sequence of object entries.
pub open spec fn entry_views(s: Seq<(String, Json)>) -> Seq<(Seq<char>, JsonModel)>
    decreases s,
{
    if s.len() == 0 {
        Seq::empty()
    } else {
        entry_views(s.drop_last()).push((s.last().0@, s.last().1@))
    }
}

pub proof fn lemma_json_views(s: Seq<Json>)
    ensures
        json_views(s).len() == s.len(),
        forall|i: int| 0 <= i < s.len() ==> #[trigger] json_views(s)[i] == s[i]@,
    decreases s.len(),
{
    if s.len() > 0 {
        lemma_json_views(s.drop_last());
        assert(json_views(s) == json_views(s.drop_last()).push(s.last()@));
        assert forall|i: int| 0 <= i < s.len() implies #[trigger] json_views(s)[i] == s[i]@ by {
            if i < s.len() - 1 {
                assert(s.drop_last()[i] == s[i]);
            }
        }
    }
}

pub proof fn lemma_entry_views(s: Seq<(String, Json)>)
    ensures
        entry_views(s).len() == s.len(),
        forall|i: int| 0 <= i < s.len() ==> #[trigger] entry_views(s)[i] == (s[i].0@, s[i].1@),
    decreases s.len(),
{
    if s.len() > 0 {
        lemma_entry_views(s.drop_last());
        assert(entry_views(s) == entry_views(s.drop_last()).push((s.last().0@, s.last().1@)));
        assert forall|i: int| 0 <= i < s.len() implies #[trigger] entry_views(s)[i] == (s[i].0@, s[i].1@) by {
            if i < s.len() - 1 {
                assert(s.drop_last()[i] == s[i]);
            }
        }
    }
}

// ---------------------------------------------------------------------------
// Hex
// ---------------------------------------------------------------------------

/// The lowercase hex digit for `n`, which is below 16.
pub open spec fn hex_char(n: int) -> char {
    if n < 10 {
        (48 + n) as char
    } else {
        (87 + n) as char
    }
}

/// The lowercase hex spelling of a byte string, two digits per byte.
pub open spec fn hex_of(bytes: Seq<u8>) -> Seq<char>
    decreases bytes.len(),
{
    if bytes.len() == 0 {
        Seq::empty()
    } else {
        let b = bytes.last();
        hex_of(bytes.drop_last()) + seq![hex_char(b as int / 16), hex_char(b as int % 16)]
    }
}

/// The value of a hex digit of either case.
pub open spec fn hex_value(c: char) -> Option<u8> {
    let n = c as u32;
    if 48 <= n <= 57 {
        Some((n - 48) as u8)
    } else if 97 <= n <= 102 {
        Some((n - 87) as u8)
    } else if 65 <= n <= 70 {
        Some((n - 55) as u8)
    } else {
        None
    }
}

/// The byte two characters spell, as `u8::from_str_radix(_, 16)` reads
/// them: two hex digits, or a `+` sign and one.
pub open spec fn hex_pair(a: char, b: char) -> Option<u8> {
    if a == '+' {
        hex_value(b)
    } else {
        match (hex_value(a), hex_value(b)) {
            (Some(x), Some(y)) => Some((x * 16 + y) as u8),
            _ => None,
        }
    }
}

/// The bytes an even-length run of characters spells, pair by pair.
pub open spec fn hex_pairs(s: Seq<char>) -> Option<Seq<u8>>
    decreases s.len(),
{
    if s.len() < 2 {
        Some(Seq::empty())
    } else {
        let n = s.len() as int;
        match (hex_pairs(s.subrange(0, n - 2)), hex_pair(s[n - 2], s[n - 1])) {
            (Some(p), Some(x)) => Some(p.push(x)),
            _ => None,
        }
    }
}

/// What a hex string decodes to: `None` unless it is ASCII, of even
/// length, and every pair of characters is a byte.
pub open spec fn from_hex_spec(s: Seq<char>) -> Option<Seq<u8>> {
    if !vstd::utf8::is_ascii_chars(s) || s.len() % 2 == 1 {
        None
    } else {
        hex_pairs(s)
    }
}

/// A run that fails to spell bytes at some even prefix fails as a whole.
proof fn lemma_hex_pairs_prefix(s: Seq<char>, k: int)
    requires
        0 <= k <= s.len(),
        k % 2 == 0,
        s.len() % 2 == 0,
        hex_pairs(s.subrange(0, k)) is None,
    ensures
        hex_pairs(s) is None,
    decreases s.len(),
{
    if k == s.len() {
        assert(s.subrange(0, k) == s);
    } else {
        let n = s.len() as int;
        let t = s.subrange(0, n - 2);
        assert(t.subrange(0, k) == s.subrange(0, k));
        lemma_hex_pairs_prefix(t, k);
    }
}

/// The one-character string of hex digit `n`.
fn hex_digit(n: u8) -> (r: &'static str)
    requires
        n < 16,
    ensures
        r@ == seq![hex_char(n as int)],
{
    proof {
        reveal_strlit("0");
        reveal_strlit("1");
        reveal_strlit("2");
        reveal_strlit("3");
        reveal_strlit("4");
        reveal_strlit("5");
        reveal_strlit("6");
        reveal_strlit("7");
        reveal_strlit("8");
        reveal_strlit("9");
        reveal_strlit("a");
        reveal_strlit("b");
        reveal_strlit("c");
        reveal_strlit("d");
        reveal_strlit("e");
        reveal_strlit("f");
    }
    match n {
        0 => "0",
        1 => "1",
        2 => "2",
        3 => "3",
        4 => "4",
        5 => "5",
        6 => "6",
        7 => "7",
        8 => "8",
        9 => "9",
        10 => "a",
        11 => "b",
        12 => "c",
        13 => "d",
        14 => "e",
        _ => "f",
    }
}

/// Spells `bytes` as lowercase hex, two digits per byte.
pub fn to_hex(bytes: &[u8]) -> (r: String)
    ensures
        r@ == hex_of(bytes@),
{
    let mut hex = String::new();
    let mut i: usize = 0;
    while i < bytes.len()
        invariant
            i <= bytes.len(),
            hex@ == hex_of(bytes@.subrange(0, i as int)),
        decreases bytes.len() - i,
    {
        let b = bytes[i];
        hex.append(hex_digit(b / 16));
        hex.append(hex_digit(b % 16));
        proof {
            let s = bytes@.subrange(0, i + 1);
            assert(s.drop_last() == bytes@.subrange(0, i as int));
            assert(s.last() == b);
        }
        i += 1;
    }
    proof {
        assert(bytes@.subrange(0, bytes@.len() as int) == bytes@);
    }
    hex
}

/// The value of the hex digit with ASCII code `c`.
fn hex_value_of(c: u8) -> (r: Option<u8>)
    ensures
        r == hex_value(c as char),
{
    if 48 <= c && c <= 57 {
        Some(c - 48)
    } else if 97 <= c && c <= 102 {
        Some(c - 87)
    } else if 65 <= c && c <= 70 {
        Some(c - 55)
    } else {
        None
    }
}

/// The byte the ASCII characters with codes `a` and `b` spell.
fn hex_pair_of(a: u8, b: u8) -> (r: Option<u8>)
    ensures
        r == hex_pair(a as char, b as char),
{
    if a == 43 {
        return hex_value_of(b);
    }
    match (hex_value_of(a), hex_value_of(b)) {
        (Some(x), Some(y)) => Some(x * 16 + y),
        _ => None,
    }
}

/// Reads a hex string back into bytes: a [`ValueError::Decode`] if it is
/// not ASCII, has odd length, or holds a pair that is not a byte.
pub fn from_hex(hex: &str) -> (r: Result<Vec<u8>, ValueError>)
    ensures
        match r {
            Ok(v) => from_hex_spec(hex@) == Some(v@),
            Err(e) => from_hex_spec(hex@) is None && e is Decode && e->codec == NAME,
        },
{
    if !hex.is_ascii() {
        return Err(err("hex string is not ASCII".to_string()));
    }
    let n = hex.unicode_len();
    if n % 2 == 1 {
        return Err(err("hex string has odd length".to_string()));
    }
    let mut out: Vec<u8> = Vec::new();
    let mut i: usize = 0;
    while i < n
        invariant
            n == hex@.len(),
            n % 2 == 0,
            i % 2 == 0,
            i <= n,
            hex.is_ascii(),
            hex_pairs(hex@.subrange(0, i as int)) == Some(out@),
        decreases n - i,
    {
        let a = hex.get_ascii(i);
        let b = hex.get_ascii(i + 1);
        proof {
            assert(hex@[i as int] as u8 as char == hex@[i as int]);
            assert(hex@[i + 1] as u8 as char == hex@[i + 1]);
            let s = hex@.subrange(0, i + 2);
            assert(s.subrange(0, i as int) == hex@.subrange(0, i as int));
            assert(s[i as int] == hex@[i as int]);
            assert(s[i + 1] == hex@[i + 1]);
        }
        match hex_pair_of(a, b) {
            Some(x) => out.push(x),
            None => {
                proof {
                    lemma_hex_pairs_prefix(hex@, i + 2);
                }
                return Err(err("hex string holds a pair that is not a byte".to_string()));
            },
        }
        i += 2;
    }
    proof {
        assert(hex@.subrange(0, n as int) == hex@);
    }
    Ok(out)
}

// ---------------------------------------------------------------------------
// Tagging
// ---------------------------------------------------------------------------

/// The one-entry object `{tag: body}`.
pub open spec fn tagged(tag: Seq<char>, body: JsonModel) -> JsonModel {
    JsonModel::Object(seq![(tag, body)])
}

/// How an `f64` is written: a number if it is finite, else the string
/// `"nan"`, `"inf"` or `"-inf"`.
pub open spec fn float_64(bits: u64) -> JsonModel {
    if is_nan_64(bits) {
        JsonModel::Str("nan"@)
    } else if bits == INF_64 {
        JsonModel::Str("inf"@)
    } else if bits == NEG_INF_64 {
        JsonModel::Str("-inf"@)
    } else {
        JsonModel::F64(bits)
    }
}

/// How an `f32` is written: as the `f64` it widens to, which is a NaN or
/// an infinity exactly when the `f32` is.
pub open spec fn float_32(bits: u32) -> JsonModel {
    if is_nan_32(bits) {
        JsonModel::Str("nan"@)
    } else if bits == INF_32 {
        JsonModel::Str("inf"@)
    } else if bits == NEG_INF_32 {
        JsonModel::Str("-inf"@)
    } else {
        JsonModel::F32(bits)
    }
}

/// The tagged document a value is written as.
pub open spec fn encoded(v: ValueModel) -> JsonModel
    decreases v,
{
    match v {
        ValueModel::I64(n) => tagged("i64"@, JsonModel::Int(n)),
        ValueModel::I32(n) => tagged("i32"@, JsonModel::Int(n as i64)),
        ValueModel::I8(n) => tagged("i8"@, JsonModel::Int(n as i64)),
        ValueModel::UInt64(n) => tagged("u64"@, JsonModel::UInt(n)),
        ValueModel::UInt32(n) => tagged("u32"@, JsonModel::UInt(n as u64)),
        ValueModel::UInt8(n) => tagged("u8"@, JsonModel::UInt(n as u64)),
        ValueModel::F64(b) => tagged("f64"@, float_64(b)),
        ValueModel::F32(b) => tagged("f32"@, float_32(b)),
        ValueModel::Char(c) => tagged("char"@, JsonModel::Str(seq![c])),
        ValueModel::Text(t) => tagged("text"@, JsonModel::Str(t)),
        ValueModel::Bytes(b) => tagged("bytes"@, JsonModel::Str(hex_of(b))),
        ValueModel::List(s) => tagged("list"@, JsonModel::Array(encoded_all(s))),
        ValueModel::Pair(l, r) => tagged(
            "pair"@,
            JsonModel::Array(seq![JsonModel::Array(encoded_all(l)), JsonModel::Array(encoded_all(r))]),
        ),
        ValueModel::Multi(s) => tagged("multi"@, JsonModel::Array(encoded_all(s))),
    }
}

/// The tagged documents of a sequence of values, element by element.
pub open spec fn encoded_all(s: Seq<ValueModel>) -> Seq<JsonModel>
    decreases s,
{
    if s.len() == 0 {
        Seq::empty()
    } else {
        encoded_all(s.drop_last()).push(encoded(s.last()))
    }
}

pub proof fn lemma_encoded_all(s: Seq<ValueModel>)
    ensures
        encoded_all(s).len() == s.len(),
        forall|i: int| 0 <= i < s.len() ==> #[trigger] encoded_all(s)[i] == encoded(s[i]),
    decreases s.len(),
{
    if s.len() > 0 {
        lemma_encoded_all(s.drop_last());
        assert(encoded_all(s) == encoded_all(s.drop_last()).push(encoded(s.last())));
        assert forall|i: int| 0 <= i < s.len() implies #[trigger] encoded_all(s)[i] == encoded(s[i]) by {
            if i < s.len() - 1 {
                assert(s.drop_last()[i] == s[i]);
            }
        }
    }
}

/// The string `s` as a document.
fn json_str(s: &str) -> (r: Json)
    ensures
        r@ == JsonModel::Str(s@),
{
    Json::Str(s.to_string())
}

/// The one-entry object `{tag: body}`.
fn tag_with(tag: &str, body: Json) -> (r: Json)
    ensures
        r@ == tagged(tag@, body@),
{
    let mut entries: Vec<(String, Json)> = Vec::new();
    let ghost b = body@;
    entries.push((tag.to_string(), body));
    proof {
        lemma_entry_views(entries@);
        assert(entry_views(entries@) =~= seq![(tag@, b)]);
    }
    Json::Object(entries)
}

/// Writes an `f64`: a number if finite, else `"nan"`, `"inf"` or `"-inf"`.
fn float_64_of(bits: u64) -> (r: Json)
    ensures
        r@ == float_64(bits),
{
    if (bits >> 52u64) & 0x7ff == 0x7ff && bits & 0xf_ffff_ffff_ffff != 0 {
        proof {
            lemma_nan_64(bits);
        }
        json_str("nan")
    } else {
        proof {
            lemma_nan_64(bits);
        }
        if bits == INF_64 {
            json_str("inf")
        } else if bits == NEG_INF_64 {
            json_str("-inf")
        } else {
            Json::F64(bits)
        }
    }
}

/// Writes an `f32`: a number if finite, else `"nan"`, `"inf"` or `"-inf"`.
fn float_32_of(bits: u32) -> (r: Json)
    ensures
        r@ == float_32(bits),
{
    if (bits >> 23u32) & 0xff == 0xff && bits & 0x7f_ffff != 0 {
        proof {
            lemma_nan_32(bits);
        }
        json_str("nan")
    } else {
        proof {
            lemma_nan_32(bits);
        }
        if bits == INF_32 {
            json_str("inf")
        } else if bits == NEG_INF_32 {
            json_str("-inf")
        } else {
            Json::F32(bits)
        }
    }
}

/// The NaN test on an `f64`'s bits, by shifts and masks.
proof fn lemma_nan_64(bits: u64)
    ensures
        is_nan_64(bits) <==> ((bits >> 52u64) & 0x7ff == 0x7ff && bits & 0xf_ffff_ffff_ffff != 0),
{
    assert((bits >> 52u64) & 0x7ff == (bits / 0x10_0000_0000_0000) % 0x800) by (bit_vector);
    assert(bits & 0xf_ffff_ffff_ffff == bits % 0x10_0000_0000_0000) by (bit_vector);
}

/// The NaN test on an `f32`'s bits, by shifts and masks.
proof fn lemma_nan_32(bits: u32)
    ensures
        is_nan_32(bits) <==> ((bits >> 23u32) & 0xff == 0xff && bits & 0x7f_ffff != 0),
{
    assert((bits >> 23u32) & 0xff == (bits / 0x80_0000) % 0x100) by (bit_vector);
    assert(bits & 0x7f_ffff == bits % 0x80_0000) by (bit_vector);
}

/// A one-character string.
#[verifier::external_body]
fn char_string(c: char) -> (r: String)
    ensures
        r@ == seq![c],
{
    String::from(c)
}

/// Writes `value` as its tagged document.
pub fn encode(value: &Value) -> (r: Json)
    ensures
        r@ == encoded(value@),
    decreases value, 2nat,
{
    proof {
        broadcast use vstd::std_specs::vec::axiom_vec_index_decreases;
    }
    match value {
        Value::I64(n) => tag_with("i64", Json::Int(*n)),
        Value::I32(n) => tag_with("i32", Json::Int(*n as i64)),
        Value::I8(n) => tag_with("i8", Json::Int(*n as i64)),
        Value::UInt64(n) => tag_with("u64", Json::UInt(*n)),
        Value::UInt32(n) => tag_with("u32", Json::UInt(*n as u64)),
        Value::UInt8(n) => tag_with("u8", Json::UInt(*n as u64)),
        Value::F64(b) => {
            proof {
                lemma_canon_64(*b);
            }
            tag_with("f64", float_64_of(*b))
        },
        Value::F32(b) => {
            proof {
                lemma_canon_32(*b);
            }
            tag_with("f32", float_32_of(*b))
        },
        Value::Char(c) => tag_with("char", Json::Str(char_string(*c))),
        Value::Text(t) => tag_with("text", Json::Str(t.clone())),
        Value::Bytes(b) => tag_with("bytes", Json::Str(to_hex(b.as_slice()))),
        Value::List(v) => {
            proof {
                assert forall|i: int| 0 <= i < v@.len() implies decreases_to!(*value => #[trigger] v@[i]) by {
                    assert(decreases_to!(*value => value->List_0));
                    assert(decreases_to!(*v => v[i]));
                }
            }
            tag_with("list", Json::Array(encode_all(v, Ghost(*value))))
        },
        Value::Multi(v) => {
            proof {
                assert forall|i: int| 0 <= i < v@.len() implies decreases_to!(*value => #[trigger] v@[i]) by {
                    assert(decreases_to!(*value => value->Multi_0));
                    assert(decreases_to!(*v => v[i]));
                }
            }
            tag_with("multi", Json::Array(encode_all(v, Ghost(*value))))
        },
        Value::Pair(l, r) => {
            proof {
                assert forall|i: int| 0 <= i < l@.len() implies decreases_to!(*value => #[trigger] l@[i]) by {
                    assert(decreases_to!(*value => value->Pair_0));
                    assert(decreases_to!(*l => l[i]));
                }
                assert forall|i: int| 0 <= i < r@.len() implies decreases_to!(*value => #[trigger] r@[i]) by {
                    assert(decreases_to!(*value => value->Pair_1));
                    assert(decreases_to!(*r => r[i]));
                }
            }
            let left = Json::Array(encode_all(l, Ghost(*value)));
            let right = Json::Array(encode_all(r, Ghost(*value)));
            let mut both: Vec<Json> = Vec::new();
            let ghost lm = left@;
            let ghost rm = right@;
            both.push(left);
            both.push(right);
            proof {
                lemma_json_views(both@);
                assert(json_views(both@) =~= seq![lm, rm]);
            }
            tag_with("pair", Json::Array(both))
        },
    }
}

fn encode_inner(value: &Value, Ghost(whole): Ghost<Value>) -> (r: Json)
    requires
        decreases_to!(whole => *value),
    ensures
        r@ == encoded(value@),
    decreases whole, 0nat,
{
    encode(value)
}

/// Writes each value of `v` as its tagged document.
fn encode_all(v: &Vec<Value>, Ghost(whole): Ghost<Value>) -> (out: Vec<Json>)
    requires
        forall|i: int| 0 <= i < v@.len() ==> decreases_to!(whole => #[trigger] v@[i]),
    ensures
        json_views(out@) == encoded_all(crate::value::views(v@)),
    decreases whole, 1nat,
{
    let mut out: Vec<Json> = Vec::new();
    let mut i: usize = 0;
    while i < v.len()
        invariant
            i <= v.len(),
            out@.len() == i,
            forall|j: int| 0 <= j < v@.len() ==> decreases_to!(whole => #[trigger] v@[j]),
            forall|j: int| 0 <= j < i ==> #[trigger] out@[j]@ == encoded(v@[j]@),
        decreases v.len() - i,
    {
        let e = encode_inner(&v[i], Ghost(whole));
        out.push(e);
        i += 1;
    }
    proof {
        crate::value::lemma_views(v@);
        lemma_json_views(out@);
        lemma_encoded_all(crate::value::views(v@));
        assert(json_views(out@) =~= encoded_all(crate::value::views(v@)));
    }
    out
}

/// An `f64`'s model is a NaN exactly when its bits are, and is its bits otherwise.
proof fn lemma_canon_64(bits: u64)
    ensures
        is_nan_64(canon_64(bits)) == is_nan_64(bits),
        !is_nan_64(bits) ==> canon_64(bits) == bits,
{
}

/// An `f32`'s model is a NaN exactly when its bits are, and is its bits otherwise.
proof fn lemma_canon_32(bits: u32)
    ensures
        is_nan_32(canon_32(bits)) == is_nan_32(bits),
        !is_nan_32(bits) ==> canon_32(bits) == bits,
{
}

// ---------------------------------------------------------------------------
// Untagging
// ---------------------------------------------------------------------------

/// A document read as an `i64`, if it is an integer that fits.
pub open spec fn read_i64(body: JsonModel) -> Option<i64> {
    match body {
        JsonModel::Int(n) => Some(n),
        JsonModel::UInt(n) => if n <= i64::MAX {
            Some(n as i64)
        } else {
            None
        },
        JsonModel::Number(x) => x.as_i64,
        _ => None,
    }
}

/// A document read as a `u64`, if it is an integer that fits.
pub open spec fn read_u64(body: JsonModel) -> Option<u64> {
    match body {
        JsonModel::UInt(n) => Some(n),
        JsonModel::Int(n) => if n >= 0 {
            Some(n as u64)
        } else {
            None
        },
        JsonModel::Number(x) => x.as_u64,
        _ => None,
    }
}

/// A document read as an `f64`, by its bits: a number, or one of the
/// strings `"nan"`, `"inf"` and `"-inf"`.
pub open spec fn read_f64(body: JsonModel) -> Option<u64> {
    match body {
        JsonModel::F64(b) => Some(b),
        JsonModel::Number(x) => Some(x.as_f64),
        JsonModel::Str(s) => if s == "nan"@ {
            Some(CANONICAL_NAN_64)
        } else if s == "inf"@ {
            Some(INF_64)
        } else if s == "-inf"@ {
            Some(NEG_INF_64)
        } else {
            None
        },
        _ => None,
    }
}

/// A document read as an `f32`, by its bits: a number narrowed to `f32`,
/// or one of the strings `"nan"`, `"inf"` and `"-inf"`.
pub open spec fn read_f32(body: JsonModel) -> Option<u32> {
    match body {
        JsonModel::F32(b) => Some(b),
        JsonModel::Number(x) => Some(x.as_f32),
        JsonModel::Str(s) => if s == "nan"@ {
            Some(CANONICAL_NAN_32)
        } else if s == "inf"@ {
            Some(INF_32)
        } else if s == "-inf"@ {
            Some(NEG_INF_32)
        } else {
            None
        },
        _ => None,
    }
}

/// A document read as a `char`: a string of exactly one character.
pub open spec fn read_char(body: JsonModel) -> Option<char> {
    match body {
        JsonModel::Str(s) => if s.len() == 1 {
            Some(s[0])
        } else {
            None
        },
        _ => None,
    }
}

/// The value a tagged document stands for, or `None` if it is not one.
pub open spec fn decoded(j: JsonModel) -> Option<ValueModel>
    decreases j,
{
    match j {
        JsonModel::Object(entries) => if entries.len() == 1 {
            let tag = entries[0].0;
            let body = entries[0].1;
            if tag == "i64"@ {
                match read_i64(body) {
                    Some(n) => Some(ValueModel::I64(n)),
                    None => None,
                }
            } else if tag == "i32"@ {
                match read_i64(body) {
                    Some(n) => if i32::MIN <= n <= i32::MAX {
                        Some(ValueModel::I32(n as i32))
                    } else {
                        None
                    },
                    None => None,
                }
            } else if tag == "i8"@ {
                match read_i64(body) {
                    Some(n) => if i8::MIN <= n <= i8::MAX {
                        Some(ValueModel::I8(n as i8))
                    } else {
                        None
                    },
                    None => None,
                }
            } else if tag == "u64"@ {
                match read_u64(body) {
                    Some(n) => Some(ValueModel::UInt64(n)),
                    None => None,
                }
            } else if tag == "u32"@ {
                match read_u64(body) {
                    Some(n) => if n <= u32::MAX {
                        Some(ValueModel::UInt32(n as u32))
                    } else {
                        None
                    },
                    None => None,
                }
            } else if tag == "u8"@ {
                match read_u64(body) {
                    Some(n) => if n <= u8::MAX {
                        Some(ValueModel::UInt8(n as u8))
                    } else {
                        None
                    },
                    None => None,
                }
            } else if tag == "f64"@ {
                match read_f64(body) {
                    Some(b) => Some(ValueModel::F64(canon_64(b))),
                    None => None,
                }
            } else if tag == "f32"@ {
                match read_f32(body) {
                    Some(b) => Some(ValueModel::F32(canon_32(b))),
                    None => None,
                }
            } else if tag == "char"@ {
                match read_char(body) {
                    Some(c) => Some(ValueModel::Char(c)),
                    None => None,
                }
            } else if tag == "text"@ {
                match body {
                    JsonModel::Str(t) => Some(ValueModel::Text(t)),
                    _ => None,
                }
            } else if tag == "bytes"@ {
                match body {
                    JsonModel::Str(t) => match from_hex_spec(t) {
                        Some(b) => Some(ValueModel::Bytes(b)),
                        None => None,
                    },
                    _ => None,
                }
            } else if tag == "list"@ {
                match body {
                    JsonModel::Array(items) => match decoded_all(items) {
                        Some(s) => Some(ValueModel::List(s)),
                        None => None,
                    },
                    _ => None,
                }
            } else if tag == "multi"@ {
                match body {
                    JsonModel::Array(items) => match decoded_all(items) {
                        Some(s) => Some(ValueModel::Multi(s)),
                        None => None,
                    },
                    _ => None,
                }
            } else if tag == "pair"@ {
                match body {
                    JsonModel::Array(two) => if two.len() == 2 {
                        match (two[0], two[1]) {
                            (JsonModel::Array(l), JsonModel::Array(r)) => match (
                                decoded_all(l),
                                decoded_all(r),
                            ) {
                                (Some(a), Some(b)) => Some(ValueModel::Pair(a, b)),
                                _ => None,
                            },
                            _ => None,
                        }
                    } else {
                        None
                    },
                    _ => None,
                }
            } else {
                None
            }
        } else {
            None
        },
        _ => None,
    }
}

/// The values a sequence of tagged documents stands for, or `None` if one
/// of them is not a tagged document.
pub open spec fn decoded_all(s: Seq<JsonModel>) -> Option<Seq<ValueModel>>
    decreases s,
{
    if s.len() == 0 {
        Some(Seq::empty())
    } else {
        match (decoded_all(s.drop_last()), decoded(s.last())) {
            (Some(p), Some(v)) => Some(p.push(v)),
            _ => None,
        }
    }
}

/// The value holding `c`.
fn char_value(c: char) -> (r: Value)
    ensures
        r@ == ValueModel::Char(c),
{
    Value::Char(c)
}

/// Is `s` the string `lit`?
fn is_str(s: &String, lit: &str) -> (r: bool)
    ensures
        r == (s@ == lit@),
{
    *s == lit.to_string()
}

fn read_i64_of(body: &Json) -> (r: Option<i64>)
    ensures
        r == read_i64(body@),
{
    match body {
        Json::Int(n) => Some(*n),
        Json::UInt(n) => if *n <= i64::MAX as u64 {
            Some(*n as i64)
        } else {
            None
        },
        Json::Number(x) => x.as_i64,
        _ => None,
    }
}

fn read_u64_of(body: &Json) -> (r: Option<u64>)
    ensures
        r == read_u64(body@),
{
    match body {
        Json::UInt(n) => Some(*n),
        Json::Int(n) => if *n >= 0 {
            Some(*n as u64)
        } else {
            None
        },
        Json::Number(x) => x.as_u64,
        _ => None,
    }
}

fn read_f64_of(body: &Json) -> (r: Option<u64>)
    ensures
        r == read_f64(body@),
{
    match body {
        Json::F64(b) => Some(*b),
        Json::Number(x) => Some(x.as_f64),
        Json::Str(s) => if is_str(s, "nan") {
            Some(CANONICAL_NAN_64)
        } else if is_str(s, "inf") {
            Some(INF_64)
        } else if is_str(s, "-inf") {
            Some(NEG_INF_64)
        } else {
            None
        },
        _ => None,
    }
}

fn read_f32_of(body: &Json) -> (r: Option<u32>)
    ensures
        r == read_f32(body@),
{
    match body {
        Json::F32(b) => Some(*b),
        Json::Number(x) => Some(x.as_f32),
        Json::Str(s) => if is_str(s, "nan") {
            Some(CANONICAL_NAN_32)
        } else if is_str(s, "inf") {
            Some(INF_32)
        } else if is_str(s, "-inf") {
            Some(NEG_INF_32)
        } else {
            None
        },
        _ => None,
    }
}

fn read_char_of(body: &Json) -> (r: Option<char>)
    ensures
        r == read_char(body@),
{
    match body {
        Json::Str(s) => {
            let t = s.as_str();
            if t.unicode_len() == 1 {
                Some(t.get_char(0))
            } else {
                None
            }
        },
        _ => None,
    }
}

/// Narrowing an integer into a smaller type, as `TryFrom` does it.
pub trait NarrowFrom<N>: Sized {
    /// The narrowed integer, if `n` fits.
    spec fn spec_narrow(n: N) -> Option<Self>;

    fn narrow_from(n: N) -> (r: Option<Self>)
        ensures
            r == Self::spec_narrow(n),
    ;
}

impl NarrowFrom<i64> for i32 {
    open spec fn spec_narrow(n: i64) -> Option<i32> {
        if i32::MIN <= n <= i32::MAX {
            Some(n as i32)
        } else {
            None
        }
    }

    fn narrow_from(n: i64) -> (r: Option<i32>) {
        if i32::MIN as i64 <= n && n <= i32::MAX as i64 {
            Some(n as i32)
        } else {
            None
        }
    }
}

impl NarrowFrom<i64> for i8 {
    open spec fn spec_narrow(n: i64) -> Option<i8> {
        if i8::MIN <= n <= i8::MAX {
            Some(n as i8)
        } else {
            None
        }
    }

    fn narrow_from(n: i64) -> (r: Option<i8>) {
        if i8::MIN as i64 <= n && n <= i8::MAX as i64 {
            Some(n as i8)
        } else {
            None
        }
    }
}

impl NarrowFrom<u64> for u32 {
    open spec fn spec_narrow(n: u64) -> Option<u32> {
        if n <= u32::MAX {
            Some(n as u32)
        } else {
            None
        }
    }

    fn narrow_from(n: u64) -> (r: Option<u32>) {
        if n <= u32::MAX as u64 {
            Some(n as u32)
        } else {
            None
        }
    }
}

impl NarrowFrom<u64> for u8 {
    open spec fn spec_narrow(n: u64) -> Option<u8> {
        if n <= u8::MAX {
            Some(n as u8)
        } else {
            None
        }
    }

    fn narrow_from(n: u64) -> (r: Option<u8>) {
        if n <= u8::MAX as u64 {
            Some(n as u8)
        } else {
            None
        }
    }
}

/// Narrows an integer read under tag `tag`: the narrowed integer if it
/// fits, else a [`ValueError::Decode`] naming the tag.
pub fn narrow<W: NarrowFrom<N>, N>(number: N, tag: &str) -> (r: Result<W, ValueError>)
    ensures
        match r {
            Ok(w) => W::spec_narrow(number) == Some(w),
            Err(e) => W::spec_narrow(number) is None && e is Decode && e->codec == NAME,
        },
{
    match W::narrow_from(number) {
        Some(w) => Ok(w),
        None => Err(err(String::from_str("integer does not fit in ").concat(tag))),
    }
}

/// A failed decoding of the prefix of a run fails the whole run.
proof fn lemma_decoded_all_prefix(s: Seq<JsonModel>, k: int)
    requires
        0 <= k <= s.len(),
        decoded_all(s.subrange(0, k)) is None,
    ensures
        decoded_all(s) is None,
    decreases s.len(),
{
    if k == s.len() {
        assert(s.subrange(0, k) == s);
    } else {
        let t = s.drop_last();
        assert(t.subrange(0, k) == s.subrange(0, k));
        lemma_decoded_all_prefix(t, k);
    }
}

/// Reads a tagged document back into the value it stands for: a
/// [`ValueError::Decode`] if it is not an object with one known tag over a
/// body of the right shape.
pub fn decode(json: &Json) -> (r: Result<Value, ValueError>)
    ensures
        match r {
            Ok(v) => decoded(json@) == Some(v@),
            Err(e) => decoded(json@) is None && e is Decode && e->codec == NAME,
        },
    decreases json, 2nat,
{
    let entries = match json {
        Json::Object(entries) => entries,
        _ => {
            return Err(err("expected a single-key tag object".to_string()));
        },
    };
    proof {
        lemma_entry_views(entries@);
    }
    if entries.len() != 1 {
        return Err(err(String::from_str("expected exactly one tag, got ").concat(entries.len().to_string().as_str())));
    }
    proof {
        lemma_literals();
    }
    let tag = &entries[0].0;
    let body = &entries[0].1;
    assert(json@ == JsonModel::Object(entry_views(entries@)));
    assert(entry_views(entries@)[0] == (tag@, body@));
    if is_str(tag, "i64") {
        match read_i64_of(body) {
            Some(n) => Ok(Value::I64(n)),
            None => Err(err("expected a signed integer".to_string())),
        }
    } else if is_str(tag, "i32") {
        match read_i64_of(body) {
            Some(n) => match narrow::<i32, i64>(n, "i32") {
                Ok(m) => Ok(Value::I32(m)),
                Err(e) => Err(e),
            },
            None => Err(err("expected a signed integer".to_string())),
        }
    } else if is_str(tag, "i8") {
        match read_i64_of(body) {
            Some(n) => match narrow::<i8, i64>(n, "i8") {
                Ok(m) => Ok(Value::I8(m)),
                Err(e) => Err(e),
            },
            None => Err(err("expected a signed integer".to_string())),
        }
    } else if is_str(tag, "u64") {
        match read_u64_of(body) {
            Some(n) => Ok(Value::UInt64(n)),
            None => Err(err("expected an unsigned integer".to_string())),
        }
    } else if is_str(tag, "u32") {
        match read_u64_of(body) {
            Some(n) => match narrow::<u32, u64>(n, "u32") {
                Ok(m) => Ok(Value::UInt32(m)),
                Err(e) => Err(e),
            },
            None => Err(err("expected an unsigned integer".to_string())),
        }
    } else if is_str(tag, "u8") {
        match read_u64_of(body) {
            Some(n) => match narrow::<u8, u64>(n, "u8") {
                Ok(m) => Ok(Value::UInt8(m)),
                Err(e) => Err(e),
            },
            None => Err(err("expected an unsigned integer".to_string())),
        }
    } else if is_str(tag, "f64") {
        match read_f64_of(body) {
            Some(b) => Ok(Value::F64(b)),
            None => Err(err("expected a float".to_string())),
        }
    } else if is_str(tag, "f32") {
        match read_f32_of(body) {
            Some(b) => Ok(Value::F32(b)),
            None => Err(err("expected a float".to_string())),
        }
    } else if is_str(tag, "char") {
        match read_char_of(body) {
            Some(c) => Ok(char_value(c)),
            None => Err(err("expected exactly one character".to_string())),
        }
    } else if is_str(tag, "text") {
        match body {
            Json::Str(t) => Ok(Value::Text(t.clone())),
            _ => Err(err("expected a string".to_string())),
        }
    } else if is_str(tag, "bytes") {
        match body {
            Json::Str(t) => match from_hex(t.as_str()) {
                Ok(b) => Ok(Value::Bytes(b)),
                Err(e) => Err(e),
            },
            _ => Err(err("expected a string".to_string())),
        }
    } else if is_str(tag, "list") || is_str(tag, "multi") {
        let multi = is_str(tag, "multi");
        match body {
            Json::Array(items) => {
                proof {
                    assert forall|i: int| 0 <= i < items@.len() implies decreases_to!(*json => #[trigger] items@[i]) by {
                        assert(decreases_to!(*json => json->Object_0));
                        assert(decreases_to!(*entries => entries[0]));
                        assert(decreases_to!(entries[0] => entries[0].1));
                        assert(decreases_to!(*body => body->Array_0));
                        assert(decreases_to!(*items => items[i]));
                    }
                }
                match decode_all(items, Ghost(*json)) {
                    Ok(v) => if multi {
                        Ok(Value::Multi(v))
                    } else {
                        Ok(Value::List(v))
                    },
                    Err(e) => Err(e),
                }
            },
            _ => Err(err("expected an array".to_string())),
        }
    } else if is_str(tag, "pair") {
        match body {
            Json::Array(two) => {
                proof {
                    lemma_json_views(two@);
                }
                if two.len() != 2 {
                    return Err(err(String::from_str("expected two arrays, got ").concat(two.len().to_string().as_str())));
                }
                match (&two[0], &two[1]) {
                    (Json::Array(l), Json::Array(r)) => {
                        proof {
                            assert forall|i: int| 0 <= i < l@.len() implies decreases_to!(*json => #[trigger] l@[i]) by {
                                assert(decreases_to!(*json => json->Object_0));
                                assert(decreases_to!(*entries => entries[0]));
                                assert(decreases_to!(entries[0] => entries[0].1));
                                assert(decreases_to!(*body => body->Array_0));
                                assert(decreases_to!(*two => two[0]));
                                assert(decreases_to!(two[0] => two[0]->Array_0));
                                assert(decreases_to!(*l => l[i]));
                            }
                            assert forall|i: int| 0 <= i < r@.len() implies decreases_to!(*json => #[trigger] r@[i]) by {
                                assert(decreases_to!(*json => json->Object_0));
                                assert(decreases_to!(*entries => entries[0]));
                                assert(decreases_to!(entries[0] => entries[0].1));
                                assert(decreases_to!(*body => body->Array_0));
                                assert(decreases_to!(*two => two[1]));
                                assert(decreases_to!(two[1] => two[1]->Array_0));
                                assert(decreases_to!(*r => r[i]));
                            }
                        }
                        let a = match decode_all(l, Ghost(*json)) {
                            Ok(a) => a,
                            Err(e) => {
                                return Err(e);
                            },
                        };
                        match decode_all(r, Ghost(*json)) {
                            Ok(b) => Ok(Value::Pair(a, b)),
                            Err(e) => Err(e),
                        }
                    },
                    _ => Err(err("expected two arrays".to_string())),
                }
            },
            _ => Err(err("expected an array".to_string())),
        }
    } else {
        Err(err(String::from_str("unknown value tag ").concat(tag.as_str())))
    }
}

fn decode_inner(json: &Json, Ghost(whole): Ghost<Json>) -> (r: Result<Value, ValueError>)
    requires
        decreases_to!(whole => *json),
    ensures
        match r {
            Ok(v) => decoded(json@) == Some(v@),
            Err(e) => decoded(json@) is None && e is Decode && e->codec == NAME,
        },
    decreases whole, 0nat,
{
    decode(json)
}

/// Reads each document of `items` back into its value, stopping at the
/// first that is not a tagged document.
fn decode_all(items: &Vec<Json>, Ghost(whole): Ghost<Json>) -> (r: Result<Vec<Value>, ValueError>)
    requires
        forall|i: int| 0 <= i < items@.len() ==> decreases_to!(whole => #[trigger] items@[i]),
    ensures
        match r {
            Ok(v) => decoded_all(json_views(items@)) == Some(crate::value::views(v@)),
            Err(e) => decoded_all(json_views(items@)) is None && e is Decode && e->codec == NAME,
        },
    decreases whole, 1nat,
{
    let mut out: Vec<Value> = Vec::new();
    let mut i: usize = 0;
    proof {
        lemma_json_views(items@);
        crate::value::lemma_views(out@);
        assert(json_views(items@).subrange(0, 0) =~= Seq::<JsonModel>::empty());
        assert(crate::value::views(out@) =~= Seq::<ValueModel>::empty());
    }
    while i < items.len()
        invariant
            i <= items.len(),
            forall|j: int| 0 <= j < items@.len() ==> decreases_to!(whole => #[trigger] items@[j]),
            json_views(items@).len() == items@.len(),
            forall|j: int| 0 <= j < items@.len() ==> #[trigger] json_views(items@)[j] == items@[j]@,
            decoded_all(json_views(items@).subrange(0, i as int)) == Some(crate::value::views(out@)),
        decreases items.len() - i,
    {
        let ghost pre = json_views(items@).subrange(0, i as int);
        let ghost next = json_views(items@).subrange(0, i + 1);
        assert(next.drop_last() == pre);
        assert(next.last() == items@[i as int]@);
        match decode_inner(&items[i], Ghost(whole)) {
            Ok(v) => {
                let ghost before = out@;
                out.push(v);
                proof {
                    crate::value::lemma_views(before);
                    crate::value::lemma_views(out@);
                    assert(crate::value::views(out@) =~= crate::value::views(before).push(v@));
                }
            },
            Err(e) => {
                proof {
                    lemma_decoded_all_prefix(json_views(items@), i + 1);
                }
                return Err(e);
            },
        }
        i += 1;
    }
    proof {
        assert(json_views(items@).subrange(0, items@.len() as int) == json_views(items@));
    }
    Ok(out)
}

// ---------------------------------------------------------------------------
// The round trip
// ---------------------------------------------------------------------------

/// Every NaN in the model is the canonical one, as in the model of any value.
pub open spec fn canonical(m: ValueModel) -> bool
    decreases m,
{
    match m {
        ValueModel::F64(b) => canon_64(b) == b,
        ValueModel::F32(b) => canon_32(b) == b,
        ValueModel::List(s) => canonical_all(s),
        ValueModel::Multi(s) => canonical_all(s),
        ValueModel::Pair(l, r) => canonical_all(l) && canonical_all(r),
        _ => true,
    }
}

/// Every model of the sequence is canonical.
pub open spec fn canonical_all(s: Seq<ValueModel>) -> bool
    decreases s,
{
    s.len() == 0 || (canonical_all(s.drop_last()) && canonical(s.last()))
}

/// The model of a value is canonical.
pub proof fn lemma_canonical(v: Value)
    ensures
        canonical(v@),
    decreases v,
{
    match v {
        Value::F64(b) => {
            assert(is_nan_64(CANONICAL_NAN_64));
        },
        Value::F32(b) => {
            assert(is_nan_32(CANONICAL_NAN_32));
        },
        Value::List(vs) => {
            assert(decreases_to!(v => vs));
            lemma_canonical_values(vs@);
        },
        Value::Multi(vs) => {
            assert(decreases_to!(v => vs));
            lemma_canonical_values(vs@);
        },
        Value::Pair(l, r) => {
            assert(decreases_to!(v => l));
            assert(decreases_to!(v => r));
            lemma_canonical_values(l@);
            lemma_canonical_values(r@);
        },
        _ => {},
    }
}

/// The models of a sequence of values are canonical.
pub proof fn lemma_canonical_values(s: Seq<Value>)
    ensures
        canonical_all(crate::value::views(s)),
    decreases s,
{
    if s.len() > 0 {
        lemma_canonical_values(s.drop_last());
        lemma_canonical(s.last());
        let w = crate::value::views(s);
        assert(w.drop_last() == crate::value::views(s.drop_last()));
        assert(w.last() == s.last()@);
    }
}

/// The tag of a one-entry object, if the document is one.
pub open spec fn doc_tag(j: JsonModel) -> Option<Seq<char>> {
    match j {
        JsonModel::Object(entries) => if entries.len() == 1 {
            Some(entries[0].0)
        } else {
            None
        },
        _ => None,
    }
}

/// The body of a one-entry object, if the document is one.
pub open spec fn doc_body(j: JsonModel) -> Option<JsonModel> {
    match j {
        JsonModel::Object(entries) => if entries.len() == 1 {
            Some(entries[0].1)
        } else {
            None
        },
        _ => None,
    }
}

/// The integer a JSON number stands for, if it is an integer.
pub open spec fn integer_value(j: JsonModel) -> Option<int> {
    match j {
        JsonModel::Int(n) => Some(n as int),
        JsonModel::UInt(n) => Some(n as int),
        JsonModel::Number(x) => match x.as_u64 {
            Some(u) => Some(u as int),
            None => match x.as_i64 {
                Some(i) => Some(i as int),
                None => None,
            },
        },
        _ => None,
    }
}

/// A number read from a document has the `i64` and `u64` readings a parser
/// gives one: the same integer wherever both fit, an `i64` alone only below
/// zero, and a `u64` alone only above `i64::MAX`.
pub open spec fn number_consistent(j: JsonModel) -> bool {
    match j {
        JsonModel::Number(x) => match (x.as_i64, x.as_u64) {
            (Some(i), Some(u)) => i as int == u as int,
            (Some(i), None) => i < 0,
            (None, Some(u)) => u > i64::MAX,
            (None, None) => true,
        },
        _ => true,
    }
}

/// The tag of each integer type and the integers it holds.
pub open spec fn int_range(tag: Seq<char>) -> Option<(int, int)> {
    if tag == "i64"@ {
        Some((i64::MIN as int, i64::MAX as int))
    } else if tag == "i32"@ {
        Some((i32::MIN as int, i32::MAX as int))
    } else if tag == "i8"@ {
        Some((i8::MIN as int, i8::MAX as int))
    } else if tag == "u64"@ {
        Some((0, u64::MAX as int))
    } else if tag == "u32"@ {
        Some((0, u32::MAX as int))
    } else if tag == "u8"@ {
        Some((0, u8::MAX as int))
    } else {
        None
    }
}

/// The tag and the number of an integer value.
pub open spec fn int_of(v: ValueModel) -> Option<(Seq<char>, int)> {
    match v {
        ValueModel::I64(n) => Some(("i64"@, n as int)),
        ValueModel::I32(n) => Some(("i32"@, n as int)),
        ValueModel::I8(n) => Some(("i8"@, n as int)),
        ValueModel::UInt64(n) => Some(("u64"@, n as int)),
        ValueModel::UInt32(n) => Some(("u32"@, n as int)),
        ValueModel::UInt8(n) => Some(("u8"@, n as int)),
        _ => None,
    }
}

/// An integer value is written as the object `{tag: n}` whose body is the
/// number itself: the same integer, sign included.
pub proof fn lemma_integer_written_as_itself(v: ValueModel)
    ensures
        int_of(v) matches Some((tag, n)) ==> {
            &&& doc_tag(encoded(v)) == Some(tag)
            &&& doc_body(encoded(v)) is Some
            &&& integer_value(doc_body(encoded(v))->Some_0) == Some(n)
        },
{
}

/// An object tagged with an integer type reads as a value of that type
/// exactly when its body is an integer in the type's range, and then as
/// that very integer: no number is wrapped, widened or narrowed.
pub proof fn lemma_integer_read_as_itself(j: JsonModel)
    ensures
        doc_tag(j) matches Some(tag) ==> int_range(tag) matches Some((lo, hi)) ==> doc_body(j) matches Some(body)
            ==> number_consistent(body) ==> {
            &&& decoded(j) is Some <==> (integer_value(body) matches Some(x) && lo <= x <= hi)
            &&& decoded(j) matches Some(v) ==> int_of(v) == Some((tag, integer_value(body)->0))
        },
{
    lemma_literals();
}

/// Text and characters are written as JSON strings holding exactly their
/// characters, and a finite float as the number with its bits.
pub proof fn lemma_text_written_as_itself(v: ValueModel)
    ensures
        v matches ValueModel::Text(t) ==> doc_tag(encoded(v)) == Some("text"@) && doc_body(encoded(v)) == Some(
            JsonModel::Str(t),
        ),
        v matches ValueModel::Char(c) ==> doc_tag(encoded(v)) == Some("char"@) && doc_body(encoded(v)) == Some(
            JsonModel::Str(seq![c]),
        ),
        v matches ValueModel::F64(b) ==> !is_nan_64(b) && b != INF_64 && b != NEG_INF_64 ==> doc_body(encoded(v))
            == Some(JsonModel::F64(b)),
        v matches ValueModel::F32(b) ==> !is_nan_32(b) && b != INF_32 && b != NEG_INF_32 ==> doc_body(encoded(v))
            == Some(JsonModel::F32(b)),
{
}

/// The tag names and float strings, spelled out.
proof fn lemma_literals()
    ensures
        "i64"@ == seq!['i', '6', '4'],
        "i32"@ == seq!['i', '3', '2'],
        "i8"@ == seq!['i', '8'],
        "u64"@ == seq!['u', '6', '4'],
        "u32"@ == seq!['u', '3', '2'],
        "u8"@ == seq!['u', '8'],
        "f64"@ == seq!['f', '6', '4'],
        "f32"@ == seq!['f', '3', '2'],
        "char"@ == seq!['c', 'h', 'a', 'r'],
        "text"@ == seq!['t', 'e', 'x', 't'],
        "bytes"@ == seq!['b', 'y', 't', 'e', 's'],
        "list"@ == seq!['l', 'i', 's', 't'],
        "multi"@ == seq!['m', 'u', 'l', 't', 'i'],
        "pair"@ == seq!['p', 'a', 'i', 'r'],
        "nan"@ == seq!['n', 'a', 'n'],
        "inf"@ == seq!['i', 'n', 'f'],
        "-inf"@ == seq!['-', 'i', 'n', 'f'],
{
    reveal_strlit("i64");
    reveal_strlit("i32");
    reveal_strlit("i8");
    reveal_strlit("u64");
    reveal_strlit("u32");
    reveal_strlit("u8");
    reveal_strlit("f64");
    reveal_strlit("f32");
    reveal_strlit("char");
    reveal_strlit("text");
    reveal_strlit("bytes");
    reveal_strlit("list");
    reveal_strlit("multi");
    reveal_strlit("pair");
    reveal_strlit("nan");
    reveal_strlit("inf");
    reveal_strlit("-inf");
}

/// A hex digit reads back as the value it spells.
proof fn lemma_hex_char(n: int)
    requires
        0 <= n < 16,
    ensures
        hex_value(hex_char(n)) == Some(n as u8),
        hex_char(n) != '+',
        '\0' <= hex_char(n) <= '\u{7f}',
{
}

/// The hex spelling of a byte string is two ASCII digits per byte.
proof fn lemma_hex_of(bytes: Seq<u8>)
    ensures
        hex_of(bytes).len() == 2 * bytes.len(),
        vstd::utf8::is_ascii_chars(hex_of(bytes)),
        hex_pairs(hex_of(bytes)) == Some(bytes),
    decreases bytes.len(),
{
    if bytes.len() > 0 {
        let b = bytes.last();
        let rest = bytes.drop_last();
        lemma_hex_of(rest);
        lemma_hex_char(b as int / 16);
        lemma_hex_char(b as int % 16);
        let h = hex_of(bytes);
        let n = h.len() as int;
        assert(h == hex_of(rest) + seq![hex_char(b as int / 16), hex_char(b as int % 16)]);
        assert(h.subrange(0, n - 2) == hex_of(rest));
        assert(h[n - 2] == hex_char(b as int / 16));
        assert(h[n - 1] == hex_char(b as int % 16));
        assert((b as int / 16) * 16 + b as int % 16 == b as int);
        assert(hex_pair(h[n - 2], h[n - 1]) == Some(b));
        assert(rest.push(b) == bytes);
        assert forall|i: int| 0 <= i < h.len() implies '\0' <= #[trigger] h[i] <= '\u{7f}' by {
            if i < n - 2 {
                assert(h[i] == hex_of(rest)[i]);
            }
        }
    }
}

/// Reading back the hex spelling of a byte string gives the bytes.
pub proof fn lemma_hex_round_trip(bytes: Seq<u8>)
    ensures
        from_hex_spec(hex_of(bytes)) == Some(bytes),
{
    lemma_hex_of(bytes);
}

/// Untagging the tagged document of a canonical model gives the model back.
pub proof fn lemma_round_trip_model(m: ValueModel)
    requires
        canonical(m),
    ensures
        decoded(encoded(m)) == Some(m),
    decreases m,
{
    lemma_literals();
    match m {
        ValueModel::F64(b) => {
            assert(is_nan_64(CANONICAL_NAN_64));
            assert(!is_nan_64(INF_64));
            assert(!is_nan_64(NEG_INF_64));
        },
        ValueModel::F32(b) => {
            assert(is_nan_32(CANONICAL_NAN_32));
            assert(!is_nan_32(INF_32));
            assert(!is_nan_32(NEG_INF_32));
        },
        ValueModel::Bytes(b) => {
            lemma_hex_round_trip(b);
        },
        ValueModel::List(s) => {
            lemma_round_trip_all(s);
        },
        ValueModel::Multi(s) => {
            lemma_round_trip_all(s);
        },
        ValueModel::Pair(l, r) => {
            lemma_round_trip_all(l);
            lemma_round_trip_all(r);
            let two = seq![JsonModel::Array(encoded_all(l)), JsonModel::Array(encoded_all(r))];
            assert(two[0] == JsonModel::Array(encoded_all(l)));
            assert(two[1] == JsonModel::Array(encoded_all(r)));
        },
        _ => {},
    }
}

/// Untagging the tagged documents of canonical models gives the models back.
pub proof fn lemma_round_trip_all(s: Seq<ValueModel>)
    requires
        canonical_all(s),
    ensures
        decoded_all(encoded_all(s)) == Some(s),
    decreases s,
{
    if s.len() > 0 {
        lemma_round_trip_all(s.drop_last());
        lemma_round_trip_model(s.last());
        let e = encoded_all(s);
        assert(e.drop_last() == encoded_all(s.drop_last()));
        assert(e.last() == encoded(s.last()));
        assert(s.drop_last().push(s.last()) == s);
    }
}

/// Tagging then untagging gives every value back: decoding what
/// [`encode`] writes for a value yields a value equal to it, every NaN
/// being equal to every other.
pub proof fn lemma_json_round_trip(v: Value)
    ensures
        decoded(encoded(v@)) == Some(v@),
{
    lemma_canonical(v);
    lemma_round_trip_model(v@);
}

/// A list and the accumulator of repeated `put`s are told apart on the
/// wire: the same values tagged as a `List` and as a `Multi` are different
/// documents.
pub proof fn lemma_list_is_not_multi(s: Seq<ValueModel>)
    ensures
        encoded(ValueModel::List(s)) != encoded(ValueModel::Multi(s)),
{
    lemma_literals();
    let a = encoded(ValueModel::List(s));
    let b = encoded(ValueModel::Multi(s));
    if a == b {
        assert(a->Object_0[0].0 == b->Object_0[0].0);
        assert("list"@[0] == "multi"@[0]);
    }
}

/// A [`ValueError::Decode`] from this format.
pub fn err(message: String) -> (r: ValueError)
    ensures
        r == (ValueError::Decode { codec: NAME, message }),
{
    ValueError::decode(NAME, message)
}

} // verus!
