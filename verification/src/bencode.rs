//! Bencode: the values, a decoder that reads them from bytes and an encoder
//! that writes them, with the grammar both follow stated as spec functions.
use vstd::prelude::*;
use vstd::slice::{slice_subrange, slice_to_vec};

use crate::text::{
    all_ascii, int_decimal, int_error_message, int_error_text, is_digit, lemma_ascii_valid_utf8,
    lemma_int_decimal_ascii, lemma_nat_decimal_digits, lemma_read_i64_decimal,
    lemma_read_usize_decimal, nat_decimal, read_i64, read_integer_exec, read_usize, i64_decimal,
    u64_decimal, utf8_error_text, utf8_text,
};
use crate::strings::{debug_quote, debug_text, push_str};
use crate::torrent::TorrentError;


verus! {

/// The mathematical value that a bencoded item stands for.
pub enum BVal {
    Int(int),
    Bytes(Seq<u8>),
    List(Seq<BVal>),
    Dict(Seq<(Seq<u8>, BVal)>),
}

/// A decoded bencode value.
#[derive(Debug, PartialEq)]
pub enum BencodeValue {
    Integer(i64),
    ByteString(Vec<u8>),
    List(Vec<BencodeValue>),
    Dictionary(BencodeDict),
}

/// The entries of a bencode dictionary, kept sorted by key with no key twice.
#[derive(Debug, PartialEq)]
pub struct BencodeDict {
    pub(crate) entries: Vec<(Vec<u8>, BencodeValue)>,
}

/// Errors that can occur during Bencode decoding.
#[derive(Debug)]
pub enum BencodeDecoderError {
    InvalidFormat,
    UnexpectedEndOfInput,
    ParseIntError(String),
    Utf8Error(String),
}

/// The mathematical view of a [`BencodeDecoderError`].
pub enum DecodeError {
    InvalidFormat,
    UnexpectedEnd,
    ParseInt(Seq<char>),
    Utf8(Seq<char>),
}

/// What the decoder makes of the input from a position on: a value and the
/// position after it, or an error and the position where decoding stopped.
pub enum Decoded {
    Value(BVal, int),
    Failure(DecodeError, int),
}

impl BencodeDecoderError {
    pub open spec fn model(self) -> DecodeError {
        match self {
            BencodeDecoderError::InvalidFormat => DecodeError::InvalidFormat,
            BencodeDecoderError::UnexpectedEndOfInput => DecodeError::UnexpectedEnd,
            BencodeDecoderError::ParseIntError(m) => DecodeError::ParseInt(m@),
            BencodeDecoderError::Utf8Error(m) => DecodeError::Utf8(m@),
        }
    }
}

/// How `{:?}` writes a decoding error.
pub open spec fn decode_error_debug(e: DecodeError) -> Seq<char> {
    match e {
        DecodeError::InvalidFormat => "InvalidFormat"@,
        DecodeError::UnexpectedEnd => "UnexpectedEndOfInput"@,
        DecodeError::ParseInt(m) => "ParseIntError("@ + debug_text(m) + ")"@,
        DecodeError::Utf8(m) => "Utf8Error("@ + debug_text(m) + ")"@,
    }
}

impl BencodeDecoderError {
    /// The error as `{:?}` writes it.
    pub fn debug_string(&self) -> (r: String)
        ensures
            r@ == decode_error_debug(self.model()),
    {
        match self {
            BencodeDecoderError::InvalidFormat => String::from_str("InvalidFormat"),
            BencodeDecoderError::UnexpectedEndOfInput => String::from_str("UnexpectedEndOfInput"),
            BencodeDecoderError::ParseIntError(m) => {
                let mut r = String::from_str("ParseIntError(");
                let q = debug_quote(m.as_str());
                push_str(&mut r, q.as_str());
                push_str(&mut r, ")");
                r
            },
            BencodeDecoderError::Utf8Error(m) => {
                let mut r = String::from_str("Utf8Error(");
                let q = debug_quote(m.as_str());
                push_str(&mut r, q.as_str());
                push_str(&mut r, ")");
                r
            },
        }
    }
}

impl BencodeValue {
    pub open spec fn model(self) -> BVal
        decreases self,
    {
        match self {
            BencodeValue::Integer(i) => BVal::Int(i as int),
            BencodeValue::ByteString(b) => BVal::Bytes(b@),
            BencodeValue::List(l) => BVal::List(model_seq(l@)),
            BencodeValue::Dictionary(d) => BVal::Dict(d.model()),
        }
    }
}

impl BencodeDict {
    /// The entries, in the order they are kept.
    pub closed spec fn model(self) -> Seq<(Seq<u8>, BVal)>
        decreases self,
    {
        model_entries(self.entries@)
    }
}

/// The model of a dictionary is the model of its entries.
pub(crate) proof fn lemma_dict_model(d: BencodeDict)
    ensures
        d.model() == model_entries(d.entries@),
{
}

pub open spec fn model_seq(s: Seq<BencodeValue>) -> Seq<BVal>
    decreases s,
{
    if s.len() == 0 {
        Seq::empty()
    } else {
        model_seq(s.subrange(0, s.len() - 1)).push(s[s.len() - 1].model())
    }
}

pub open spec fn model_entries(s: Seq<(Vec<u8>, BencodeValue)>) -> Seq<(Seq<u8>, BVal)>
    decreases s,
{
    if s.len() == 0 {
        Seq::empty()
    } else {
        model_entries(s.subrange(0, s.len() - 1)).push((s[s.len() - 1].0@, s[s.len() - 1].1.model()))
    }
}

pub proof fn lemma_model_seq(s: Seq<BencodeValue>)
    ensures
        model_seq(s).len() == s.len(),
        forall|i: int| 0 <= i < s.len() ==> #[trigger] model_seq(s)[i] == s[i].model(),
    decreases s.len(),
{
    if s.len() > 0 {
        lemma_model_seq(s.subrange(0, s.len() - 1));
    }
}

pub proof fn lemma_model_entries(s: Seq<(Vec<u8>, BencodeValue)>)
    ensures
        model_entries(s).len() == s.len(),
        forall|i: int| 0 <= i < s.len() ==> #[trigger] model_entries(s)[i] == (s[i].0@, s[i].1.model()),
    decreases s.len(),
{
    if s.len() > 0 {
        lemma_model_entries(s.subrange(0, s.len() - 1));
    }
}

/* ---------- order of byte strings ---------- */

/// `a` comes before `b` in the lexicographic order of byte strings (a proper
/// prefix comes first).
pub open spec fn bytes_lt(a: Seq<u8>, b: Seq<u8>) -> bool
    decreases a.len(),
{
    if a.len() == 0 {
        b.len() > 0
    } else if b.len() == 0 {
        false
    } else if a[0] != b[0] {
        a[0] < b[0]
    } else {
        bytes_lt(a.drop_first(), b.drop_first())
    }
}

pub proof fn lemma_bytes_lt_irreflexive(a: Seq<u8>)
    ensures
        !bytes_lt(a, a),
    decreases a.len(),
{
    if a.len() > 0 {
        lemma_bytes_lt_irreflexive(a.drop_first());
    }
}

pub proof fn lemma_bytes_lt_total(a: Seq<u8>, b: Seq<u8>)
    ensures
        a == b || bytes_lt(a, b) || bytes_lt(b, a),
        !(bytes_lt(a, b) && bytes_lt(b, a)),
    decreases a.len(),
{
    if a.len() > 0 && b.len() > 0 {
        lemma_bytes_lt_total(a.drop_first(), b.drop_first());
        if a[0] == b[0] && a.drop_first() == b.drop_first() {
            assert(a =~= seq![a[0]] + a.drop_first());
            assert(b =~= seq![b[0]] + b.drop_first());
        }
    } else if a.len() == 0 && b.len() == 0 {
        assert(a =~= b);
    }
}

pub proof fn lemma_bytes_lt_transitive(a: Seq<u8>, b: Seq<u8>, c: Seq<u8>)
    requires
        bytes_lt(a, b),
        bytes_lt(b, c),
    ensures
        bytes_lt(a, c),
    decreases a.len(),
{
    if a.len() > 0 && b.len() > 0 && c.len() > 0 && a[0] == b[0] && b[0] == c[0] {
        lemma_bytes_lt_transitive(a.drop_first(), b.drop_first(), c.drop_first());
    }
}

/* ---------- dictionaries ---------- */

/// The keys of `es` are strictly increasing.
pub open spec fn keys_sorted(es: Seq<(Seq<u8>, BVal)>) -> bool {
    forall|i: int, j: int| 0 <= i < j < es.len() ==> bytes_lt(#[trigger] es[i].0, #[trigger] es[j].0)
}

/// What inserting `(k, v)` into a sorted dictionary gives: the value of an
/// equal key is replaced, otherwise the entry goes before the first greater key.
pub open spec fn dict_insert(es: Seq<(Seq<u8>, BVal)>, k: Seq<u8>, v: BVal) -> Seq<(Seq<u8>, BVal)>
    decreases es.len(),
{
    if es.len() == 0 {
        seq![(k, v)]
    } else if es[0].0 == k {
        seq![(k, v)] + es.drop_first()
    } else if bytes_lt(k, es[0].0) {
        seq![(k, v)] + es
    } else {
        seq![es[0]] + dict_insert(es.drop_first(), k, v)
    }
}

/// The value of the first entry whose key is `k`.
pub open spec fn dict_lookup(es: Seq<(Seq<u8>, BVal)>, k: Seq<u8>) -> Option<BVal>
    decreases es.len(),
{
    if es.len() == 0 {
        None
    } else if es[0].0 == k {
        Some(es[0].1)
    } else {
        dict_lookup(es.drop_first(), k)
    }
}

/// Reading a dictionary after inserting `(k, v)` gives `v` under `k` and
/// what was there before under any other key.
pub proof fn lemma_lookup_after_insert(es: Seq<(Seq<u8>, BVal)>, k: Seq<u8>, v: BVal, other: Seq<u8>)
    ensures
        dict_lookup(dict_insert(es, k, v), k) == Some(v),
        other != k ==> dict_lookup(dict_insert(es, k, v), other) == dict_lookup(es, other),
    decreases es.len(),
{
    if es.len() == 0 {
    } else if es[0].0 == k {
        assert((seq![(k, v)] + es.drop_first()).drop_first() =~= es.drop_first());
    } else if bytes_lt(k, es[0].0) {
        assert((seq![(k, v)] + es).drop_first() =~= es);
    } else {
        lemma_lookup_after_insert(es.drop_first(), k, v, other);
        assert((seq![es[0]] + dict_insert(es.drop_first(), k, v)).drop_first() =~= dict_insert(es.drop_first(), k, v));
    }
}

pub proof fn lemma_keys_sorted_drop_first(es: Seq<(Seq<u8>, BVal)>)
    requires
        keys_sorted(es),
        es.len() > 0,
    ensures
        keys_sorted(es.drop_first()),
{
    let t = es.drop_first();
    assert forall|i: int, j: int| 0 <= i < j < t.len() implies bytes_lt(#[trigger] t[i].0, #[trigger] t[j].0) by {
        assert(t[i] == es[i + 1] && t[j] == es[j + 1]);
    }
}

/// Inserting into a sorted dictionary keeps it sorted, and every key of the
/// result is either `k` or a key of `es`.
pub proof fn lemma_dict_insert_sorted(es: Seq<(Seq<u8>, BVal)>, k: Seq<u8>, v: BVal)
    requires
        keys_sorted(es),
    ensures
        keys_sorted(dict_insert(es, k, v)),
        dict_insert(es, k, v).len() > 0,
        forall|i: int| 0 <= i < dict_insert(es, k, v).len() ==>
            (#[trigger] dict_insert(es, k, v)[i].0 == k || exists|j: int| 0 <= j < es.len() && es[j].0 == dict_insert(es, k, v)[i].0),
        dict_insert(es, k, v)[0].0 == k || (es.len() > 0 && dict_insert(es, k, v)[0].0 == es[0].0),
    decreases es.len(),
{
    let r = dict_insert(es, k, v);
    if es.len() == 0 {
    } else if es[0].0 == k {
        assert forall|i: int, j: int| 0 <= i < j < r.len() implies bytes_lt(#[trigger] r[i].0, #[trigger] r[j].0) by {
            assert(r[j] == es[j]);
            if i > 0 {
                assert(r[i] == es[i]);
            }
        }
        assert forall|i: int| 0 <= i < r.len() implies
            (#[trigger] r[i].0 == k || exists|j: int| 0 <= j < es.len() && es[j].0 == r[i].0) by {
            if i > 0 {
                assert(r[i] == es[i]);
            }
        }
    } else if bytes_lt(k, es[0].0) {
        assert forall|i: int, j: int| 0 <= i < j < r.len() implies bytes_lt(#[trigger] r[i].0, #[trigger] r[j].0) by {
            assert(r[j] == es[j - 1]);
            if i > 0 {
                assert(r[i] == es[i - 1]);
            } else if j > 1 {
                lemma_bytes_lt_transitive(k, es[0].0, es[j - 1].0);
            }
        }
        assert forall|i: int| 0 <= i < r.len() implies
            (#[trigger] r[i].0 == k || exists|j: int| 0 <= j < es.len() && es[j].0 == r[i].0) by {
            if i > 0 {
                assert(r[i] == es[i - 1]);
            }
        }
    } else {
        let t = es.drop_first();
        lemma_keys_sorted_drop_first(es);
        lemma_dict_insert_sorted(t, k, v);
        let rt = dict_insert(t, k, v);
        lemma_bytes_lt_total(k, es[0].0);
        assert(bytes_lt(es[0].0, k));
        assert forall|i: int| 0 <= i < r.len() implies
            (#[trigger] r[i].0 == k || exists|j: int| 0 <= j < es.len() && es[j].0 == r[i].0) by {
            if i > 0 {
                assert(r[i] == rt[i - 1]);
                if rt[i - 1].0 != k {
                    let j = choose|j: int| 0 <= j < t.len() && t[j].0 == rt[i - 1].0;
                    assert(es[j + 1] == t[j]);
                }
            } else {
                assert(r[0] == es[0]);
            }
        }
        assert forall|i: int, j: int| 0 <= i < j < r.len() implies bytes_lt(#[trigger] r[i].0, #[trigger] r[j].0) by {
            assert(r[j] == rt[j - 1]);
            if i > 0 {
                assert(r[i] == rt[i - 1]);
            } else {
                assert(r[0] == es[0]);
                if rt[j - 1].0 != k {
                    let m = choose|m: int| 0 <= m < t.len() && t[m].0 == rt[j - 1].0;
                    assert(t[m] == es[m + 1]);
                }
            }
        }
    }
}

/// Inserting a key greater than every key appends the entry.
pub proof fn lemma_dict_insert_greatest(es: Seq<(Seq<u8>, BVal)>, k: Seq<u8>, v: BVal)
    requires
        forall|i: int| 0 <= i < es.len() ==> bytes_lt(#[trigger] es[i].0, k),
    ensures
        dict_insert(es, k, v) == es.push((k, v)),
    decreases es.len(),
{
    if es.len() > 0 {
        let t = es.drop_first();
        assert forall|i: int| 0 <= i < t.len() implies bytes_lt(#[trigger] t[i].0, k) by {
            assert(t[i] == es[i + 1]);
        }
        lemma_dict_insert_greatest(t, k, v);
        lemma_bytes_lt_irreflexive(k);
        lemma_bytes_lt_total(k, es[0].0);
        assert(es[0].0 != k);
        assert(!bytes_lt(k, es[0].0));
        assert(dict_insert(es, k, v) =~= es.push((k, v)));
    }
}

/* ---------- well-formed values ---------- */

/// Every integer fits an `i64` and the keys of every dictionary are strictly increasing.
pub open spec fn canonical(v: BVal) -> bool
    decreases v,
{
    match v {
        BVal::Int(n) => i64::MIN <= n <= i64::MAX,
        BVal::Bytes(b) => true,
        BVal::List(items) => canonical_items(items),
        BVal::Dict(es) => keys_sorted(es) && canonical_entries(es),
    }
}

pub open spec fn canonical_items(items: Seq<BVal>) -> bool
    decreases items,
{
    if items.len() == 0 {
        true
    } else {
        canonical_items(items.subrange(0, items.len() - 1)) && canonical(items[items.len() - 1])
    }
}

pub open spec fn canonical_entries(es: Seq<(Seq<u8>, BVal)>) -> bool
    decreases es,
{
    if es.len() == 0 {
        true
    } else {
        canonical_entries(es.subrange(0, es.len() - 1)) && canonical(es[es.len() - 1].1)
    }
}

/* ---------- the encoding ---------- */

/// The bencoding of a byte string: its length in decimal, `:`, then the bytes.
pub open spec fn encode_bytes(b: Seq<u8>) -> Seq<u8> {
    nat_decimal(b.len()) + seq![58u8] + b
}

/// The bencoding of `v`: `i<n>e`, `<length>:<bytes>`, `l<items>e`, `d<key><value>...e`.
pub open spec fn encode(v: BVal) -> Seq<u8>
    decreases v,
{
    match v {
        BVal::Int(n) => seq![105u8] + int_decimal(n) + seq![101u8],
        BVal::Bytes(b) => encode_bytes(b),
        BVal::List(items) => seq![108u8] + encode_items(items) + seq![101u8],
        BVal::Dict(es) => seq![100u8] + encode_entries(es) + seq![101u8],
    }
}

pub open spec fn encode_items(items: Seq<BVal>) -> Seq<u8>
    decreases items,
{
    if items.len() == 0 {
        Seq::empty()
    } else {
        encode_items(items.subrange(0, items.len() - 1)) + encode(items[items.len() - 1])
    }
}

pub open spec fn encode_entries(es: Seq<(Seq<u8>, BVal)>) -> Seq<u8>
    decreases es,
{
    if es.len() == 0 {
        Seq::empty()
    } else {
        encode_entries(es.subrange(0, es.len() - 1)) + encode_bytes(es[es.len() - 1].0)
            + encode(es[es.len() - 1].1)
    }
}

/* ---------- the decoding ---------- */

/// The first index at or after `from` that holds `d`.
pub open spec fn find_byte(data: Seq<u8>, from: int, d: u8) -> Option<int>
    decreases data.len() - from,
{
    if from < 0 || from >= data.len() {
        None
    } else if data[from] == d {
        Some(from)
    } else {
        find_byte(data, from + 1, d)
    }
}

/// `i<digits>e` at `pos` (where `data[pos]` is `i`).
pub open spec fn decode_integer_at(data: Seq<u8>, pos: int) -> Decoded {
    match find_byte(data, pos + 1, 101u8) {
        None => Decoded::Failure(DecodeError::UnexpectedEnd, data.len() as int),
        Some(e) => {
            let text = data.subrange(pos + 1, e);
            if !vstd::utf8::valid_utf8(text) {
                Decoded::Failure(DecodeError::Utf8(utf8_error_text(text)), e + 1)
            } else {
                match read_i64(text) {
                    Ok(n) => Decoded::Value(BVal::Int(n), e + 1),
                    Err(k) => Decoded::Failure(DecodeError::ParseInt(int_error_message(k)), e + 1),
                }
            }
        },
    }
}

/// `<length>:<bytes>` at `pos`.
pub open spec fn decode_byte_string_at(data: Seq<u8>, pos: int) -> Decoded {
    match find_byte(data, pos, 58u8) {
        None => Decoded::Failure(DecodeError::UnexpectedEnd, data.len() as int),
        Some(c) => {
            let text = data.subrange(pos, c);
            if !vstd::utf8::valid_utf8(text) {
                Decoded::Failure(DecodeError::Utf8(utf8_error_text(text)), c + 1)
            } else {
                match read_usize(text) {
                    Err(k) => Decoded::Failure(DecodeError::ParseInt(int_error_message(k)), c + 1),
                    Ok(n) => if c + 1 + n > data.len() {
                        Decoded::Failure(DecodeError::UnexpectedEnd, c + 1)
                    } else {
                        Decoded::Value(BVal::Bytes(data.subrange(c + 1, c + 1 + n)), c + 1 + n)
                    },
                }
            }
        },
    }
}

/// The value that starts at `pos`.
pub open spec fn decode_at(data: Seq<u8>, pos: int) -> Decoded
    decreases data.len() - pos, 0int,
{
    if pos < 0 || pos >= data.len() {
        Decoded::Failure(DecodeError::UnexpectedEnd, pos)
    } else if data[pos] == 105u8 {
        decode_integer_at(data, pos)
    } else if is_digit(data[pos]) {
        decode_byte_string_at(data, pos)
    } else if data[pos] == 108u8 {
        decode_list_at(data, pos + 1, Seq::empty())
    } else if data[pos] == 100u8 {
        decode_dict_at(data, pos + 1, Seq::empty())
    } else {
        Decoded::Failure(DecodeError::InvalidFormat, pos)
    }
}

/// The rest of a list, from `pos`, after the items `items`.
pub open spec fn decode_list_at(data: Seq<u8>, pos: int, items: Seq<BVal>) -> Decoded
    decreases data.len() - pos, 1int,
{
    if pos < 0 || pos >= data.len() {
        Decoded::Failure(DecodeError::UnexpectedEnd, pos)
    } else if data[pos] == 101u8 {
        Decoded::Value(BVal::List(items), pos + 1)
    } else {
        match decode_at(data, pos) {
            Decoded::Value(v, q) => if pos < q <= data.len() {
                decode_list_at(data, q, items.push(v))
            } else {
                Decoded::Failure(DecodeError::InvalidFormat, q)
            },
            other => other,
        }
    }
}

/// The rest of a dictionary, from `pos`, after the entries `es`.
pub open spec fn decode_dict_at(data: Seq<u8>, pos: int, es: Seq<(Seq<u8>, BVal)>) -> Decoded
    decreases data.len() - pos, 1int,
{
    if pos < 0 || pos >= data.len() {
        Decoded::Failure(DecodeError::UnexpectedEnd, pos)
    } else if data[pos] == 101u8 {
        Decoded::Value(BVal::Dict(es), pos + 1)
    } else {
        match decode_byte_string_at(data, pos) {
            Decoded::Value(kv, q) => match kv {
                BVal::Bytes(k) => if pos < q <= data.len() {
                    match decode_at(data, q) {
                        Decoded::Value(v, r) => if q < r <= data.len() {
                            decode_dict_at(data, r, dict_insert(es, k, v))
                        } else {
                            Decoded::Failure(DecodeError::InvalidFormat, r)
                        },
                        other => other,
                    }
                } else {
                    Decoded::Failure(DecodeError::InvalidFormat, q)
                },
                _ => Decoded::Failure(DecodeError::InvalidFormat, q),
            },
            other => other,
        }
    }
}


/* ---------- decoding an encoding gives the value back ---------- */

pub proof fn lemma_find_byte_found(data: Seq<u8>, from: int, d: u8)
    ensures
        find_byte(data, from, d) matches Some(e) ==> from <= e < data.len() && data[e] == d,
    decreases data.len() - from,
{
    if 0 <= from < data.len() && data[from] != d {
        lemma_find_byte_found(data, from + 1, d);
    }
}

proof fn lemma_find_byte(data: Seq<u8>, from: int, to: int, d: u8)
    requires
        0 <= from <= to < data.len(),
        forall|i: int| from <= i < to ==> #[trigger] data[i] != d,
        data[to] == d,
    ensures
        find_byte(data, from, d) == Some(to),
    decreases to - from,
{
    if from < to {
        lemma_find_byte(data, from + 1, to, d);
    }
}

/// The bytes of `data` from `pos` on are those of `e`.
pub open spec fn holds_at(data: Seq<u8>, pos: int, e: Seq<u8>) -> bool {
    0 <= pos && pos + e.len() <= data.len() && data.subrange(pos, pos + e.len()) == e
}

proof fn lemma_holds_at_index(data: Seq<u8>, pos: int, e: Seq<u8>, i: int)
    requires
        holds_at(data, pos, e),
        0 <= i < e.len(),
    ensures
        data[pos + i] == e[i],
{
    assert(data.subrange(pos, pos + e.len())[i] == data[pos + i]);
}

proof fn lemma_holds_at_split(data: Seq<u8>, pos: int, a: Seq<u8>, b: Seq<u8>)
    requires
        holds_at(data, pos, a + b),
    ensures
        holds_at(data, pos, a),
        holds_at(data, pos + a.len(), b),
{
    assert forall|i: int| 0 <= i < a.len() implies data.subrange(pos, pos + a.len())[i] == a[i] by {
        lemma_holds_at_index(data, pos, a + b, i);
    }
    assert(data.subrange(pos, pos + a.len()) =~= a);
    assert forall|i: int| 0 <= i < b.len() implies data.subrange(pos + a.len(), pos + a.len() + b.len())[i] == b[i] by {
        lemma_holds_at_index(data, pos, a + b, a.len() + i);
    }
    assert(data.subrange(pos + a.len(), pos + a.len() + b.len()) =~= b);
}

pub proof fn lemma_canonical_items(items: Seq<BVal>)
    requires
        canonical_items(items),
    ensures
        forall|i: int| 0 <= i < items.len() ==> canonical(#[trigger] items[i]),
    decreases items.len(),
{
    if items.len() > 0 {
        let init = items.subrange(0, items.len() - 1);
        lemma_canonical_items(init);
        assert forall|i: int| 0 <= i < items.len() implies canonical(#[trigger] items[i]) by {
            if i < items.len() - 1 {
                assert(init[i] == items[i]);
            }
        }
    }
}

pub proof fn lemma_canonical_entries(es: Seq<(Seq<u8>, BVal)>)
    requires
        canonical_entries(es),
    ensures
        forall|i: int| 0 <= i < es.len() ==> canonical(#[trigger] es[i].1),
    decreases es.len(),
{
    if es.len() > 0 {
        let init = es.subrange(0, es.len() - 1);
        lemma_canonical_entries(init);
        assert forall|i: int| 0 <= i < es.len() implies canonical(#[trigger] es[i].1) by {
            if i < es.len() - 1 {
                assert(init[i] == es[i]);
            }
        }
    }
}

proof fn lemma_encode_first_byte(v: BVal)
    ensures
        encode(v).len() >= 1,
        encode(v)[0] != 101u8,
{
    match v {
        BVal::Bytes(b) => {
            lemma_nat_decimal_digits(b.len());
            assert(encode(v)[0] == nat_decimal(b.len())[0]);
        },
        _ => {},
    }
}

/// `encode_items` of a prefix is a prefix of `encode_items`.
proof fn lemma_encode_items_prefix(items: Seq<BVal>, k: int)
    requires
        0 <= k < items.len(),
    ensures
        encode_items(items.subrange(0, k + 1)) == encode_items(items.subrange(0, k)) + encode(items[k]),
        encode_items(items.subrange(0, items.len() as int)) == encode_items(items),
{
    let t = items.subrange(0, k + 1);
    assert(t.subrange(0, t.len() - 1) =~= items.subrange(0, k));
    assert(items.subrange(0, items.len() as int) =~= items);
}

proof fn lemma_encode_entries_prefix(es: Seq<(Seq<u8>, BVal)>, k: int)
    requires
        0 <= k < es.len(),
    ensures
        encode_entries(es.subrange(0, k + 1)) == encode_entries(es.subrange(0, k)) + encode_bytes(es[k].0) + encode(es[k].1),
        encode_entries(es.subrange(0, es.len() as int)) == encode_entries(es),
{
    let t = es.subrange(0, k + 1);
    assert(t.subrange(0, t.len() - 1) =~= es.subrange(0, k));
    assert(es.subrange(0, es.len() as int) =~= es);
}

/// Where `data` holds `encode_items(items[..m])` at `start`, it holds the one of every shorter prefix too.
proof fn lemma_items_holds_prefix(items: Seq<BVal>, data: Seq<u8>, start: int, k: int, m: int)
    requires
        0 <= k <= m <= items.len(),
        holds_at(data, start, encode_items(items.subrange(0, m))),
    ensures
        holds_at(data, start, encode_items(items.subrange(0, k))),
        k < m ==> holds_at(data, start + encode_items(items.subrange(0, k)).len(), encode(items[k])),
    decreases m - k,
{
    if k < m {
        lemma_encode_items_prefix(items, m - 1);
        lemma_holds_at_split(data, start, encode_items(items.subrange(0, m - 1)), encode(items[m - 1]));
        if k < m - 1 {
            lemma_items_holds_prefix(items, data, start, k, m - 1);
        }
    }
}

proof fn lemma_entries_holds_prefix(es: Seq<(Seq<u8>, BVal)>, data: Seq<u8>, start: int, k: int, m: int)
    requires
        0 <= k <= m <= es.len(),
        holds_at(data, start, encode_entries(es.subrange(0, m))),
    ensures
        holds_at(data, start, encode_entries(es.subrange(0, k))),
        k < m ==> holds_at(data, start + encode_entries(es.subrange(0, k)).len(), encode_bytes(es[k].0) + encode(es[k].1)),
    decreases m - k,
{
    if k < m {
        lemma_encode_entries_prefix(es, m - 1);
        assert(encode_entries(es.subrange(0, m - 1)) + encode_bytes(es[m - 1].0) + encode(es[m - 1].1)
            =~= encode_entries(es.subrange(0, m - 1)) + (encode_bytes(es[m - 1].0) + encode(es[m - 1].1)));
        lemma_holds_at_split(data, start, encode_entries(es.subrange(0, m - 1)), encode_bytes(es[m - 1].0) + encode(es[m - 1].1));
        if k < m - 1 {
            lemma_entries_holds_prefix(es, data, start, k, m - 1);
        }
    }
}

proof fn lemma_decode_encoded_bytes(b: Seq<u8>, data: Seq<u8>, pos: int)
    requires
        holds_at(data, pos, encode_bytes(b)),
        data.len() <= usize::MAX,
    ensures
        decode_byte_string_at(data, pos) == Decoded::Value(BVal::Bytes(b), pos + encode_bytes(b).len()),
        is_digit(data[pos]),
{
    let dec = nat_decimal(b.len());
    lemma_nat_decimal_digits(b.len());
    assert(encode_bytes(b) =~= dec + (seq![58u8] + b));
    lemma_holds_at_split(data, pos, dec, seq![58u8] + b);
    lemma_holds_at_split(data, pos + dec.len(), seq![58u8], b);
    lemma_holds_at_index(data, pos + dec.len(), seq![58u8], 0);
    assert forall|i: int| pos <= i < pos + dec.len() implies #[trigger] data[i] != 58u8 by {
        lemma_holds_at_index(data, pos, dec, i - pos);
        assert(is_digit(dec[i - pos]));
    }
    lemma_find_byte(data, pos, pos + dec.len(), 58u8);
    lemma_holds_at_index(data, pos, dec, 0);
    assert(all_ascii(dec));
    lemma_ascii_valid_utf8(dec);
    lemma_read_usize_decimal(b.len());
}

/// Decoding, at `pos`, the encoding of a canonical value that `data` holds there
/// gives the value and the position right after its encoding.
pub proof fn lemma_decode_encoded(v: BVal, data: Seq<u8>, pos: int)
    requires
        canonical(v),
        holds_at(data, pos, encode(v)),
        data.len() <= usize::MAX,
    ensures
        decode_at(data, pos) == Decoded::Value(v, pos + encode(v).len()),
    decreases v, 0int,
{
    match v {
        BVal::Int(n) => {
            let dec = int_decimal(n);
            lemma_int_decimal_ascii(n);
            assert(encode(v) =~= seq![105u8] + (dec + seq![101u8]));
            lemma_holds_at_split(data, pos, seq![105u8], dec + seq![101u8]);
            lemma_holds_at_split(data, pos + 1, dec, seq![101u8]);
            lemma_holds_at_index(data, pos, seq![105u8], 0);
            lemma_holds_at_index(data, pos + 1 + dec.len(), seq![101u8], 0);
            assert forall|i: int| pos + 1 <= i < pos + 1 + dec.len() implies #[trigger] data[i] != 101u8 by {
                lemma_holds_at_index(data, pos + 1, dec, i - pos - 1);
            }
            lemma_find_byte(data, pos + 1, pos + 1 + dec.len(), 101u8);
            assert(all_ascii(dec));
            lemma_ascii_valid_utf8(dec);
            lemma_read_i64_decimal(n);
        },
        BVal::Bytes(b) => {
            lemma_decode_encoded_bytes(b, data, pos);
        },
        BVal::List(items) => {
            let body = encode_items(items);
            assert(encode(v) =~= seq![108u8] + (body + seq![101u8]));
            lemma_holds_at_split(data, pos, seq![108u8], body + seq![101u8]);
            lemma_holds_at_split(data, pos + 1, body, seq![101u8]);
            lemma_holds_at_index(data, pos, seq![108u8], 0);
            lemma_holds_at_index(data, pos + 1 + body.len(), seq![101u8], 0);
            assert(items.subrange(0, 0) =~= Seq::<BVal>::empty());
            lemma_decode_items(items, data, pos + 1, 0);
        },
        BVal::Dict(es) => {
            let body = encode_entries(es);
            assert(encode(v) =~= seq![100u8] + (body + seq![101u8]));
            lemma_holds_at_split(data, pos, seq![100u8], body + seq![101u8]);
            lemma_holds_at_split(data, pos + 1, body, seq![101u8]);
            lemma_holds_at_index(data, pos, seq![100u8], 0);
            lemma_holds_at_index(data, pos + 1 + body.len(), seq![101u8], 0);
            assert(es.subrange(0, 0) =~= Seq::<(Seq<u8>, BVal)>::empty());
            lemma_decode_entries(es, data, pos + 1, 0);
        },
    }
}

proof fn lemma_decode_items(items: Seq<BVal>, data: Seq<u8>, start: int, k: int)
    requires
        canonical_items(items),
        0 <= k <= items.len(),
        holds_at(data, start, encode_items(items)),
        start + encode_items(items).len() < data.len() <= usize::MAX,
        data[start + encode_items(items).len()] == 101u8,
    ensures
        decode_list_at(data, start + encode_items(items.subrange(0, k)).len(), items.subrange(0, k))
            == Decoded::Value(BVal::List(items), start + encode_items(items).len() + 1),
    decreases items, items.len() - k,
{
    let p = start + encode_items(items.subrange(0, k)).len();
    assert(items.subrange(0, items.len() as int) =~= items);
    if k == items.len() {
    } else {
        lemma_encode_items_prefix(items, k);
        lemma_items_holds_prefix(items, data, start, k, items.len() as int);
        lemma_items_holds_prefix(items, data, start, k + 1, items.len() as int);
        lemma_canonical_items(items);
        let x = items[k];
        lemma_encode_first_byte(x);
        lemma_holds_at_index(data, p, encode(x), 0);
        lemma_decode_encoded(x, data, p);
        assert(items.subrange(0, k).push(x) =~= items.subrange(0, k + 1));
        lemma_decode_items(items, data, start, k + 1);
    }
}

proof fn lemma_decode_entries(es: Seq<(Seq<u8>, BVal)>, data: Seq<u8>, start: int, k: int)
    requires
        keys_sorted(es),
        canonical_entries(es),
        0 <= k <= es.len(),
        holds_at(data, start, encode_entries(es)),
        start + encode_entries(es).len() < data.len() <= usize::MAX,
        data[start + encode_entries(es).len()] == 101u8,
    ensures
        decode_dict_at(data, start + encode_entries(es.subrange(0, k)).len(), es.subrange(0, k))
            == Decoded::Value(BVal::Dict(es), start + encode_entries(es).len() + 1),
    decreases es, es.len() - k,
{
    let p = start + encode_entries(es.subrange(0, k)).len();
    assert(es.subrange(0, es.len() as int) =~= es);
    if k == es.len() {
    } else {
        lemma_encode_entries_prefix(es, k);
        lemma_entries_holds_prefix(es, data, start, k, es.len() as int);
        lemma_entries_holds_prefix(es, data, start, k + 1, es.len() as int);
        lemma_canonical_entries(es);
        let key = es[k].0;
        let val = es[k].1;
        lemma_holds_at_split(data, p, encode_bytes(key), encode(val));
        lemma_decode_encoded_bytes(key, data, p);
        let q = p + encode_bytes(key).len();
        assert(data[p] != 101u8);
        lemma_decode_encoded(val, data, q);
        lemma_encode_first_byte(val);
        let prefix = es.subrange(0, k);
        assert forall|i: int| 0 <= i < prefix.len() implies bytes_lt(#[trigger] prefix[i].0, key) by {
            assert(prefix[i] == es[i]);
        }
        lemma_dict_insert_greatest(prefix, key, val);
        assert(prefix.push((key, val)) =~= es.subrange(0, k + 1));
        lemma_decode_entries(es, data, start, k + 1);
    }
}

/// Decoding the encoding of a canonical value, followed by any bytes, gives the
/// value back and stops right after its encoding.
pub proof fn lemma_decode_of_encoding(v: BVal, rest: Seq<u8>)
    requires
        canonical(v),
        encode(v).len() + rest.len() <= usize::MAX,
    ensures
        decode_at(encode(v) + rest, 0) == Decoded::Value(v, encode(v).len() as int),
{
    let data = encode(v) + rest;
    assert(data.subrange(0, encode(v).len() as int) =~= encode(v));
    lemma_decode_encoded(v, data, 0);
}


/// Two encodings written one after the other decode one after the other:
/// the first value from the start, the second from where the first ends,
/// and nothing from the end of both.
pub proof fn lemma_decode_consecutive(v1: BVal, v2: BVal)
    requires
        canonical(v1),
        canonical(v2),
        encode(v1).len() + encode(v2).len() <= usize::MAX,
    ensures
        decode_at(encode(v1) + encode(v2), 0) == Decoded::Value(v1, encode(v1).len() as int),
        decode_at(encode(v1) + encode(v2), encode(v1).len() as int)
            == Decoded::Value(v2, (encode(v1).len() + encode(v2).len()) as int),
        decode_at(encode(v1) + encode(v2), (encode(v1).len() + encode(v2).len()) as int)
            == Decoded::Failure(DecodeError::UnexpectedEnd, (encode(v1).len() + encode(v2).len()) as int),
{
    let data = encode(v1) + encode(v2);
    let n1 = encode(v1).len() as int;
    assert(data.subrange(0, n1) =~= encode(v1));
    lemma_decode_encoded(v1, data, 0);
    assert(data.subrange(n1, n1 + encode(v2).len()) =~= encode(v2));
    lemma_decode_encoded(v2, data, n1);
}

/* ---------- dictionaries ---------- */

/// How two byte strings compare.
#[derive(Debug, Clone, Copy, PartialEq, Eq, Structural)]
pub enum KeyOrder {
    Less,
    Equal,
    Greater,
}

/// Compares two byte strings in lexicographic order.
pub fn compare_bytes(a: &[u8], b: &[u8]) -> (r: KeyOrder)
    ensures
        r == KeyOrder::Equal <==> a@ == b@,
        r == KeyOrder::Less <==> bytes_lt(a@, b@),
        r == KeyOrder::Greater <==> bytes_lt(b@, a@),
{
    proof {
        lemma_bytes_lt_total(a@, b@);
        lemma_bytes_lt_irreflexive(a@);
    }
    let mut i: usize = 0;
    assert(a@.subrange(0, a@.len() as int) =~= a@);
    assert(b@.subrange(0, b@.len() as int) =~= b@);
    assert(a@.subrange(0, 0) =~= b@.subrange(0, 0));
    while i < a.len() && i < b.len()
        invariant
            i <= a@.len(),
            i <= b@.len(),
            a@.subrange(0, i as int) == b@.subrange(0, i as int),
            bytes_lt(a@, b@) == bytes_lt(a@.subrange(i as int, a@.len() as int), b@.subrange(i as int, b@.len() as int)),
            bytes_lt(b@, a@) == bytes_lt(b@.subrange(i as int, b@.len() as int), a@.subrange(i as int, a@.len() as int)),
        decreases a@.len() - i,
    {
        let ghost sa = a@.subrange(i as int, a@.len() as int);
        let ghost sb = b@.subrange(i as int, b@.len() as int);
        if a[i] < b[i] {
            return KeyOrder::Less;
        }
        if a[i] > b[i] {
            return KeyOrder::Greater;
        }
        proof {
            assert(sa.drop_first() =~= a@.subrange(i as int + 1, a@.len() as int));
            assert(sb.drop_first() =~= b@.subrange(i as int + 1, b@.len() as int));
            assert(a@.subrange(0, i as int + 1) =~= a@.subrange(0, i as int).push(a@[i as int]));
            assert(b@.subrange(0, i as int + 1) =~= b@.subrange(0, i as int).push(b@[i as int]));
        }
        i = i + 1;
    }
    if a.len() == b.len() {
        assert(a@ =~= a@.subrange(0, i as int));
        assert(b@ =~= b@.subrange(0, i as int));
        KeyOrder::Equal
    } else if a.len() < b.len() {
        proof {
            assert(a@ =~= a@.subrange(0, i as int));
            assert(a@ != b@);
        }
        KeyOrder::Less
    } else {
        proof {
            assert(b@ =~= b@.subrange(0, i as int));
            assert(a@ != b@);
        }
        KeyOrder::Greater
    }
}

impl BencodeDict {
    /// The keys are strictly increasing.
    pub open spec fn wf(self) -> bool {
        keys_sorted(self.model())
    }

    #[verifier::type_invariant]
    spec fn keys_in_order(self) -> bool {
        self.wf()
    }

    /// An empty dictionary.
    pub fn new() -> (d: Self)
        ensures
            d.model() == Seq::<(Seq<u8>, BVal)>::empty(),
            d.wf(),
    {
        BencodeDict { entries: Vec::new() }
    }

    /// The number of entries.
    pub fn len(&self) -> (n: usize)
        ensures
            n == self.model().len(),
    {
        proof { lemma_model_entries(self.entries@); }
        self.entries.len()
    }

    /// Inserts `value` under `key`, replacing the value of an equal key, and
    /// returns the value that was replaced.
    pub fn insert(&mut self, key: Vec<u8>, value: BencodeValue) -> (r: Option<BencodeValue>)
        ensures
            final(self).model() == dict_insert(old(self).model(), key@, value.model()),
            old(self).wf() ==> final(self).wf(),
            r matches Some(x) ==> dict_lookup(old(self).model(), key@) == Some(x.model()),
            old(self).wf() ==> (r is None <==> dict_lookup(old(self).model(), key@) is None),
    {
        proof { use_type_invariant(&*self); }
        let mut entries: Vec<(Vec<u8>, BencodeValue)> = Vec::new();
        std::mem::swap(&mut entries, &mut self.entries);
        let r = insert_entry(&mut entries, key, value);
        self.entries = entries;
        r
    }

    /// The value under `key`.
    pub fn get(&self, key: &[u8]) -> (r: Option<&BencodeValue>)
        ensures
            match r {
                Some(x) => dict_lookup(self.model(), key@) == Some(x.model()),
                None => dict_lookup(self.model(), key@) is None,
            },
    {
        let ghost m = self.model();
        proof {
            lemma_model_entries(self.entries@);
            assert(m.subrange(0, m.len() as int) =~= m);
        }
        let mut i: usize = 0;
        while i < self.entries.len()
            invariant
                i <= self.entries@.len(),
                m == self.model(),
                m.len() == self.entries@.len(),
                forall|j: int| 0 <= j < m.len() ==> #[trigger] m[j] == (self.entries@[j].0@, self.entries@[j].1.model()),
                dict_lookup(m, key@) == dict_lookup(m.subrange(i as int, m.len() as int), key@),
            decreases self.entries@.len() - i,
        {
            let ghost rest = m.subrange(i as int, m.len() as int);
            proof { assert(rest[0] == m[i as int]); }
            let entry = &self.entries[i];
            if compare_bytes(key, entry.0.as_slice()) == KeyOrder::Equal {
                return Some(&entry.1);
            }
            proof { assert(rest.drop_first() =~= m.subrange(i as int + 1, m.len() as int)); }
            i = i + 1;
        }
        None
    }
}

/// Inserts `(key, value)` into sorted entries (see [`dict_insert`]).
fn insert_entry(entries: &mut Vec<(Vec<u8>, BencodeValue)>, key: Vec<u8>, value: BencodeValue) -> (r: Option<BencodeValue>)
    ensures
        model_entries(final(entries)@) == dict_insert(model_entries(old(entries)@), key@, value.model()),
        keys_sorted(model_entries(old(entries)@)) ==> keys_sorted(model_entries(final(entries)@)),
        r matches Some(x) ==> dict_lookup(model_entries(old(entries)@), key@) == Some(x.model()),
        keys_sorted(model_entries(old(entries)@)) ==> (r is None <==> dict_lookup(model_entries(old(entries)@), key@) is None),
{
    let ghost m = model_entries(entries@);
    let ghost k = key@;
    let ghost v = value.model();
    proof {
        lemma_model_entries(entries@);
        assert(m.subrange(0, 0) + m.subrange(0, m.len() as int) =~= m);
    }
    let mut i: usize = 0;
    while i < entries.len()
        invariant
            i <= entries@.len(),
            model_entries(entries@) == m,
            model_entries(old(entries)@) == m,
            m.len() == entries@.len(),
            forall|j: int| 0 <= j < m.len() ==> #[trigger] m[j] == (entries@[j].0@, entries@[j].1.model()),
            forall|j: int| 0 <= j < i ==> bytes_lt(#[trigger] m[j].0, k),
            dict_insert(m, k, v) == m.subrange(0, i as int) + dict_insert(m.subrange(i as int, m.len() as int), k, v),
            dict_lookup(m, k) == dict_lookup(m.subrange(i as int, m.len() as int), k),
            k == key@,
            v == value.model(),
        decreases entries@.len() - i,
    {
        let ghost rest = m.subrange(i as int, m.len() as int);
        let order = compare_bytes(key.as_slice(), entries[i].0.as_slice());
        match order {
            KeyOrder::Equal => {
                let ghost before = entries@;
                let old_entry = entries.remove(i);
                entries.insert(i, (key, value));
                proof {
                    lemma_model_entries(entries@);
                    assert(rest[0] == m[i as int]);
                    assert(model_entries(entries@) =~= dict_insert(m, k, v));
                    if keys_sorted(m) {
                        lemma_dict_insert_sorted(m, k, v);
                    }
                }
                return Some(old_entry.1);
            },
            KeyOrder::Less => {
                entries.insert(i, (key, value));
                proof {
                    lemma_model_entries(entries@);
                    assert(rest[0] == m[i as int]);
                    assert(model_entries(entries@) =~= dict_insert(m, k, v));
                    if keys_sorted(m) {
                        lemma_dict_insert_sorted(m, k, v);
                        assert forall|j: int| 0 <= j < rest.len() implies rest[j].0 != k by {
                            if j > 0 {
                                assert(keys_sorted(m));
                                assert(bytes_lt(m[i as int].0, m[i as int + j].0));
                                lemma_bytes_lt_transitive(k, m[i as int].0, m[i as int + j].0);
                                lemma_bytes_lt_irreflexive(k);
                            }
                            lemma_bytes_lt_irreflexive(k);
                        }
                        lemma_lookup_absent(rest, k);
                    }
                }
                return None;
            },
            KeyOrder::Greater => {
                proof {
                    assert(rest[0] == m[i as int]);
                    assert(rest.drop_first() =~= m.subrange(i as int + 1, m.len() as int));
                    lemma_bytes_lt_irreflexive(k);
                    lemma_bytes_lt_total(k, m[i as int].0);
                    assert(m.subrange(0, i as int + 1) =~= m.subrange(0, i as int).push(m[i as int]));
                    assert(m.subrange(0, i as int) + dict_insert(rest, k, v)
                        =~= m.subrange(0, i as int + 1) + dict_insert(rest.drop_first(), k, v));
                }
                i = i + 1;
            },
        }
    }
    entries.push((key, value));
    proof {
        lemma_model_entries(entries@);
        assert(m.subrange(i as int, m.len() as int) =~= Seq::<(Seq<u8>, BVal)>::empty());
        assert(m.subrange(0, i as int) =~= m);
        assert(model_entries(entries@) =~= dict_insert(m, k, v));
        if keys_sorted(m) {
            lemma_dict_insert_sorted(m, k, v);
        }
    }
    None
}

proof fn lemma_lookup_absent(es: Seq<(Seq<u8>, BVal)>, k: Seq<u8>)
    requires
        forall|j: int| 0 <= j < es.len() ==> es[j].0 != k,
    ensures
        dict_lookup(es, k) is None,
    decreases es.len(),
{
    if es.len() > 0 {
        let t = es.drop_first();
        assert forall|j: int| 0 <= j < t.len() implies t[j].0 != k by {
            assert(t[j] == es[j + 1]);
        }
        lemma_lookup_absent(t, k);
    }
}


/* ---------- the decoder ---------- */

/// The decoder's result agrees with what [`decode_at`] gives, and `p` is the
/// position where it stopped.
pub open spec fn outcome_matches(d: Decoded, r: Result<BencodeValue, BencodeDecoderError>, p: int) -> bool {
    match d {
        Decoded::Value(v, q) => r matches Ok(x) && x.model() == v && p == q,
        Decoded::Failure(e, q) => r matches Err(x) && x.model() == e && p == q,
    }
}

/// A Bencode decoder.
pub struct BencodeDecoder<'a> {
    data: &'a [u8],
    position: usize,
}

impl<'a> BencodeDecoder<'a> {
    #[verifier::type_invariant]
    spec fn position_in_data(self) -> bool {
        self.position <= self.data@.len()
    }

    /// The bytes being decoded.
    pub closed spec fn input(self) -> Seq<u8> {
        self.data@
    }

    /// The position of the next byte to read.
    pub closed spec fn pos(self) -> int {
        self.position as int
    }

    /// Creates a new decoder with the provided Bencode data.
    pub fn new(data: &'a [u8]) -> (d: Self)
        ensures
            d.input() == data@,
            d.pos() == 0,
    {
        BencodeDecoder { data, position: 0 }
    }

    /// A decoder over `data` that starts at `pos`.
    pub fn at(data: &'a [u8], pos: usize) -> (d: Self)
        requires
            pos <= data@.len(),
        ensures
            d.input() == data@,
            d.pos() == pos,
    {
        BencodeDecoder { data, position: pos }
    }

    /// The position of the next byte to read.
    pub fn position(&self) -> (p: usize)
        ensures
            p == self.pos(),
    {
        self.position
    }

    /// Decodes the byte string at the current position, as a dictionary key.
    pub fn decode_key(&mut self) -> (r: Result<Vec<u8>, BencodeDecoderError>)
        ensures
            final(self).input() == old(self).input(),
            match decode_byte_string_at(old(self).input(), old(self).pos()) {
                Decoded::Value(v, q) => r matches Ok(k) && v == BVal::Bytes(k@) && final(self).pos() == q,
                Decoded::Failure(e, q) => r matches Err(x) && x.model() == e && final(self).pos() == q,
            },
    {
        match self.decode_byte_string() {
            Ok(BencodeValue::ByteString(k)) => Ok(k),
            Ok(_) => {
                proof {
                    assert(false);
                }
                Err(BencodeDecoderError::InvalidFormat)
            },
            Err(e) => Err(e),
        }
    }

    /// Decodes the next Bencode value from the input.
    pub fn decode(&mut self) -> (r: Result<BencodeValue, BencodeDecoderError>)
        ensures
            final(self).input() == old(self).input(),
            outcome_matches(decode_at(old(self).input(), old(self).pos()), r, final(self).pos()),
            r matches Ok(v) ==> canonical(v.model()),
    {
        self.decode_value()
    }

    /// The value at the current position, or why there is none.
    fn decode_value(&mut self) -> (r: Result<BencodeValue, BencodeDecoderError>)
        ensures
            final(self).input() == old(self).input(),
            outcome_matches(decode_at(old(self).input(), old(self).pos()), r, final(self).pos()),
            r is Ok ==> final(self).pos() > old(self).pos(),
            r matches Ok(v) ==> canonical(v.model()),
        decreases old(self).data@.len() - old(self).position, 1int,
    {
        proof { use_type_invariant(&*self); }
        match self.peek_byte() {
            None => Err(BencodeDecoderError::UnexpectedEndOfInput),
            Some(byte) => {
                if byte == 105u8 {
                    match self.decode_integer() {
                        Ok(v) => Ok(v),
                        Err(e) => Err(e),
                    }
                } else if 48u8 <= byte && byte <= 57u8 {
                    self.decode_byte_string()
                } else if byte == 108u8 {
                    self.decode_list()
                } else if byte == 100u8 {
                    self.decode_dictionary()
                } else {
                    Err(BencodeDecoderError::InvalidFormat)
                }
            },
        }
    }

    /// Peeks at the current byte without advancing the position.
    fn peek_byte(&self) -> (r: Option<u8>)
        ensures
            r == (if self.pos() < self.input().len() { Some(self.input()[self.pos()]) } else { None::<u8> }),
    {
        proof { use_type_invariant(self); }
        if self.position < self.data.len() {
            Some(self.data[self.position])
        } else {
            None
        }
    }

    /// Advances the position and returns the current byte.
    fn consume_byte(&mut self) -> (r: Option<u8>)
        ensures
            final(self).input() == old(self).input(),
            old(self).pos() < old(self).input().len() ==> r == Some(old(self).input()[old(self).pos()])
                && final(self).pos() == old(self).pos() + 1,
            old(self).pos() >= old(self).input().len() ==> r is None && final(self).pos() == old(self).pos(),
    {
        proof { use_type_invariant(&*self); }
        if self.position < self.data.len() {
            let byte = self.data[self.position];
            self.position = self.position + 1;
            Some(byte)
        } else {
            None
        }
    }

    /// Reads until the next `delimiter` and returns the slice of data before it.
    /// Advances the position past the delimiter.
    fn read_until(&mut self, delimiter: u8) -> (r: Result<&'a [u8], BencodeDecoderError>)
        ensures
            final(self).input() == old(self).input(),
            match find_byte(old(self).input(), old(self).pos(), delimiter) {
                Some(e) => r matches Ok(s) && s@ == old(self).input().subrange(old(self).pos(), e)
                    && final(self).pos() == e + 1,
                None => r matches Err(BencodeDecoderError::UnexpectedEndOfInput)
                    && final(self).pos() == old(self).input().len(),
            },
    {
        proof { use_type_invariant(&*self); }
        let start = self.position;
        while self.position < self.data.len()
            invariant
                start <= self.position <= self.data@.len(),
                self.data == old(self).data,
                start == old(self).position,
                find_byte(self.data@, start as int, delimiter) == find_byte(self.data@, self.position as int, delimiter),
            decreases self.data@.len() - self.position,
        {
            if self.data[self.position] == delimiter {
                let slice = slice_subrange(self.data, start, self.position);
                self.position = self.position + 1;
                return Ok(slice);
            }
            self.position = self.position + 1;
        }
        Err(BencodeDecoderError::UnexpectedEndOfInput)
    }

    /// Decodes an integer value (i<integer>e).
    fn decode_integer(&mut self) -> (r: Result<BencodeValue, BencodeDecoderError>)
        requires
            old(self).pos() < old(self).input().len(),
            old(self).input()[old(self).pos()] == 105u8,
        ensures
            final(self).input() == old(self).input(),
            outcome_matches(decode_integer_at(old(self).input(), old(self).pos()), r, final(self).pos()),
            r is Ok ==> final(self).pos() > old(self).pos(),
            r matches Ok(v) ==> canonical(v.model()),
    {
        self.consume_byte();
        proof { lemma_find_byte_found(self.data@, self.pos(), 101u8); }
        let num_slice = match self.read_until(101u8) {
            Ok(s) => s,
            Err(e) => return Err(e),
        };
        match utf8_text(num_slice) {
            Ok(_) => {},
            Err(m) => return Err(BencodeDecoderError::Utf8Error(m)),
        }
        match read_integer_exec(num_slice, true, i64::MIN as i128, i64::MAX as i128) {
            Ok(n) => Ok(BencodeValue::Integer(n as i64)),
            Err(k) => Err(BencodeDecoderError::ParseIntError(int_error_text(k))),
        }
    }

    /// Decodes a byte string (<length>:<string>).
    fn decode_byte_string(&mut self) -> (r: Result<BencodeValue, BencodeDecoderError>)
        ensures
            final(self).input() == old(self).input(),
            outcome_matches(decode_byte_string_at(old(self).input(), old(self).pos()), r, final(self).pos()),
            r is Ok ==> final(self).pos() > old(self).pos(),
            r matches Ok(v) ==> v is ByteString,
    {
        proof {
            use_type_invariant(&*self);
            lemma_find_byte_found(self.data@, self.pos(), 58u8);
        }
        let len_slice = match self.read_until(58u8) {
            Ok(s) => s,
            Err(e) => return Err(e),
        };
        match utf8_text(len_slice) {
            Ok(_) => {},
            Err(m) => return Err(BencodeDecoderError::Utf8Error(m)),
        }
        let len: usize = match read_integer_exec(len_slice, false, 0, usize::MAX as i128) {
            Ok(n) => n as usize,
            Err(k) => return Err(BencodeDecoderError::ParseIntError(int_error_text(k))),
        };
        proof { use_type_invariant(&*self); }
        if len > self.data.len() - self.position {
            return Err(BencodeDecoderError::UnexpectedEndOfInput);
        }
        let start = self.position;
        self.position = self.position + len;
        Ok(BencodeValue::ByteString(slice_to_vec(slice_subrange(self.data, start, self.position))))
    }

    /// Decodes a list (l<element1><element2>...e).
    fn decode_list(&mut self) -> (r: Result<BencodeValue, BencodeDecoderError>)
        requires
            old(self).pos() < old(self).input().len(),
            old(self).input()[old(self).pos()] == 108u8,
        ensures
            final(self).input() == old(self).input(),
            outcome_matches(decode_list_at(old(self).input(), old(self).pos() + 1, Seq::empty()), r, final(self).pos()),
            r is Ok ==> final(self).pos() > old(self).pos(),
            r matches Ok(v) ==> canonical(v.model()),
        decreases old(self).data@.len() - old(self).position, 0int,
    {
        let ghost d = self.data@;
        let ghost start = self.position as int;
        self.consume_byte();
        let mut list: Vec<BencodeValue> = Vec::new();
        loop
            invariant
                self.data@ == d,
                start < self.pos() <= d.len(),
                decode_list_at(d, start + 1, Seq::empty()) == decode_list_at(d, self.pos(), model_seq(list@)),
                canonical_items(model_seq(list@)),
                start == old(self).position,
                d == old(self).data@,
            ensures
                self.pos() < d.len(),
                d[self.pos()] == 101u8,
            decreases d.len() - self.pos(),
        {
            proof { use_type_invariant(&*self); }
            match self.peek_byte() {
                None => {
                    return Err(BencodeDecoderError::UnexpectedEndOfInput);
                },
                Some(b) => {
                    if b == 101u8 {
                        break;
                    }
                },
            }
            let ghost p = self.pos();
            let ghost items = model_seq(list@);
            let res = self.decode_value();
            proof { use_type_invariant(&*self); }
            match res {
                Ok(item) => {
                    proof {
                        assert(list@.push(item).subrange(0, list@.len() as int) =~= list@);
                        assert(model_seq(list@.push(item)) == items.push(item.model()));
                        assert(items.push(item.model()).subrange(0, items.len() as int) =~= items);
                    }
                    list.push(item);
                },
                Err(f) => {
                    return Err(f);
                },
            }
        }
        self.consume_byte();
        Ok(BencodeValue::List(list))
    }

    /// Decodes a dictionary (d<key1><value1><key2><value2>...e).
    fn decode_dictionary(&mut self) -> (r: Result<BencodeValue, BencodeDecoderError>)
        requires
            old(self).pos() < old(self).input().len(),
            old(self).input()[old(self).pos()] == 100u8,
        ensures
            final(self).input() == old(self).input(),
            outcome_matches(decode_dict_at(old(self).input(), old(self).pos() + 1, Seq::empty()), r, final(self).pos()),
            r is Ok ==> final(self).pos() > old(self).pos(),
            r matches Ok(v) ==> canonical(v.model()),
        decreases old(self).data@.len() - old(self).position, 0int,
    {
        let ghost d = self.data@;
        let ghost start = self.position as int;
        self.consume_byte();
        let mut dict = BencodeDict::new();
        loop
            invariant
                self.data@ == d,
                start < self.pos() <= d.len(),
                decode_dict_at(d, start + 1, Seq::empty()) == decode_dict_at(d, self.pos(), dict.model()),
                dict.wf(),
                canonical_entries(dict.model()),
                start == old(self).position,
                d == old(self).data@,
            ensures
                self.pos() < d.len(),
                d[self.pos()] == 101u8,
            decreases d.len() - self.pos(),
        {
            proof { use_type_invariant(&*self); }
            match self.peek_byte() {
                None => {
                    return Err(BencodeDecoderError::UnexpectedEndOfInput);
                },
                Some(b) => {
                    if b == 101u8 {
                        break;
                    }
                },
            }
            let ghost p = self.pos();
            let kres = self.decode_byte_string();
            proof { use_type_invariant(&*self); }
            let key = match kres {
                Ok(BencodeValue::ByteString(k)) => k,
                Ok(_) => {
                    return Err(BencodeDecoderError::InvalidFormat);
                },
                Err(f) => {
                    return Err(f);
                },
            };
            let ghost q = self.pos();
            proof { use_type_invariant(&*self); }
            let res = self.decode_value();
            proof { use_type_invariant(&*self); }
            let value = match res {
                Ok(v) => v,
                Err(f) => {
                    return Err(f);
                },
            };
            proof {
                lemma_dict_insert_canonical(dict.model(), key@, value.model());
            }
            dict.insert(key, value);
        }
        self.consume_byte();
        Ok(BencodeValue::Dictionary(dict))
    }
}

proof fn lemma_canonical_entries_from(es: Seq<(Seq<u8>, BVal)>)
    requires
        forall|i: int| 0 <= i < es.len() ==> canonical(#[trigger] es[i].1),
    ensures
        canonical_entries(es),
    decreases es.len(),
{
    if es.len() > 0 {
        let init = es.subrange(0, es.len() - 1);
        assert forall|i: int| 0 <= i < init.len() implies canonical(#[trigger] init[i].1) by {
            assert(init[i] == es[i]);
        }
        lemma_canonical_entries_from(init);
    }
}

proof fn lemma_dict_insert_values(es: Seq<(Seq<u8>, BVal)>, k: Seq<u8>, v: BVal)
    ensures
        forall|i: int| 0 <= i < dict_insert(es, k, v).len() ==>
            (#[trigger] dict_insert(es, k, v)[i] == (k, v) || exists|j: int| 0 <= j < es.len() && es[j] == dict_insert(es, k, v)[i]),
    decreases es.len(),
{
    let r = dict_insert(es, k, v);
    if es.len() > 0 {
        let t = es.drop_first();
        lemma_dict_insert_values(t, k, v);
        assert forall|i: int| 0 <= i < r.len() implies
            (#[trigger] r[i] == (k, v) || exists|j: int| 0 <= j < es.len() && es[j] == r[i]) by {
            if es[0].0 == k {
                if i > 0 { assert(r[i] == es[i]); }
            } else if bytes_lt(k, es[0].0) {
                if i > 0 { assert(r[i] == es[i - 1]); }
            } else {
                if i > 0 {
                    let rt = dict_insert(t, k, v);
                    assert(r[i] == rt[i - 1]);
                    if rt[i - 1] != (k, v) {
                        let j = choose|j: int| 0 <= j < t.len() && t[j] == rt[i - 1];
                        assert(es[j + 1] == t[j]);
                    }
                } else {
                    assert(r[0] == es[0]);
                }
            }
        }
    }
}

proof fn lemma_dict_insert_canonical(es: Seq<(Seq<u8>, BVal)>, k: Seq<u8>, v: BVal)
    requires
        keys_sorted(es),
        canonical_entries(es),
        canonical(v),
    ensures
        keys_sorted(dict_insert(es, k, v)),
        canonical_entries(dict_insert(es, k, v)),
{
    lemma_dict_insert_sorted(es, k, v);
    lemma_dict_insert_values(es, k, v);
    lemma_canonical_entries(es);
    let r = dict_insert(es, k, v);
    assert forall|i: int| 0 <= i < r.len() implies canonical(#[trigger] r[i].1) by {
        if r[i] != (k, v) {
            let j = choose|j: int| 0 <= j < es.len() && es[j] == r[i];
            assert(canonical(es[j].1));
        }
    }
    lemma_canonical_entries_from(r);
}

/* ---------- the encoder ---------- */

fn append_bytes(buffer: &mut Vec<u8>, bytes: &[u8])
    ensures
        final(buffer)@ == old(buffer)@ + bytes@,
{
    let ghost start = buffer@;
    let mut i: usize = 0;
    while i < bytes.len()
        invariant
            i <= bytes@.len(),
            buffer@ == start + bytes@.subrange(0, i as int),
        decreases bytes@.len() - i,
    {
        buffer.push(bytes[i]);
        proof {
            assert(bytes@.subrange(0, i as int + 1) =~= bytes@.subrange(0, i as int).push(bytes@[i as int]));
        }
        i = i + 1;
    }
    assert(bytes@.subrange(0, bytes@.len() as int) =~= bytes@);
}

/// Appends the bencoding of `value` to `buffer`. Dictionaries are written in
/// the order of their entries, which is the order of their keys.
pub fn encode_bencode_value(value: &BencodeValue, buffer: &mut Vec<u8>) -> (r: Result<(), TorrentError>)
    ensures
        r is Ok,
        final(buffer)@ == old(buffer)@ + encode(value.model()),
        canonical(value.model()),
        decode_at(final(buffer)@, old(buffer)@.len() as int)
            == Decoded::Value(value.model(), final(buffer)@.len() as int),
    decreases value,
{
    let ghost start = buffer@;
    match value {
        BencodeValue::Integer(i) => {
            buffer.push(105u8);
            let digits = i64_decimal(*i);
            append_bytes(buffer, digits.as_slice());
            buffer.push(101u8);
            assert(buffer@ =~= start + encode(value.model()));
        },
        BencodeValue::ByteString(s) => {
            let digits = u64_decimal(s.len() as u64);
            append_bytes(buffer, digits.as_slice());
            buffer.push(58u8);
            append_bytes(buffer, s.as_slice());
            assert(buffer@ =~= start + encode(value.model()));
        },
        BencodeValue::List(list) => {
            assert(model_seq(list@.subrange(0, 0)) =~= Seq::<BVal>::empty());
            buffer.push(108u8);
            let mut i: usize = 0;
            while i < list.len()
                invariant
                    i <= list@.len(),
                    buffer@ == start + seq![108u8] + encode_items(model_seq(list@.subrange(0, i as int))),
                    canonical_items(model_seq(list@.subrange(0, i as int))),
                    value == BencodeValue::List(*list),
                decreases list@.len() - i,
            {
                let ghost before = buffer@;
                proof {
                    assert(decreases_to!(value => list@[i as int]));
                }
                match encode_bencode_value(&list[i], buffer) {
                    Ok(()) => {},
                    Err(e) => {
                        return Err(e);
                    },
                }
                proof {
                    let pre = list@.subrange(0, i as int);
                    let next = list@.subrange(0, i as int + 1);
                    assert(next.subrange(0, i as int) =~= pre);
                    assert(model_seq(next) == model_seq(pre).push(list@[i as int].model()));
                    assert(model_seq(next).subrange(0, i as int) =~= model_seq(pre)) by {
                        lemma_model_seq(pre);
                    }
                    lemma_model_seq(pre);
                    assert(encode_items(model_seq(next)) == encode_items(model_seq(pre)) + encode(list@[i as int].model()));
                    assert(buffer@ =~= start + seq![108u8] + encode_items(model_seq(next)));
                    assert(canonical_items(model_seq(next)));
                }
                i = i + 1;
            }
            buffer.push(101u8);
            proof {
                assert(list@.subrange(0, list@.len() as int) =~= list@);
            }
            assert(buffer@ =~= start + encode(value.model()));
        },
        BencodeValue::Dictionary(dict) => {
            proof {
                use_type_invariant(dict);
                assert(model_entries(dict.entries@.subrange(0, 0)) =~= Seq::<(Seq<u8>, BVal)>::empty());
            }
            buffer.push(100u8);
            let mut i: usize = 0;
            while i < dict.entries.len()
                invariant
                    i <= dict.entries@.len(),
                    buffer@ == start + seq![100u8] + encode_entries(model_entries(dict.entries@.subrange(0, i as int))),
                    canonical_entries(model_entries(dict.entries@.subrange(0, i as int))),
                    value == BencodeValue::Dictionary(*dict),
                decreases dict.entries@.len() - i,
            {
                let entry = &dict.entries[i];
                let digits = u64_decimal(entry.0.len() as u64);
                append_bytes(buffer, digits.as_slice());
                buffer.push(58u8);
                append_bytes(buffer, entry.0.as_slice());
                proof {
                    assert(decreases_to!(value => dict.entries@[i as int].1));
                }
                match encode_bencode_value(&entry.1, buffer) {
                    Ok(()) => {},
                    Err(e) => {
                        return Err(e);
                    },
                }
                proof {
                    let pre = dict.entries@.subrange(0, i as int);
                    let next = dict.entries@.subrange(0, i as int + 1);
                    assert(next.subrange(0, i as int) =~= pre);
                    lemma_model_entries(pre);
                    assert(model_entries(next) == model_entries(pre).push((entry.0@, entry.1.model())));
                    assert(model_entries(next).subrange(0, i as int) =~= model_entries(pre));
                    assert(encode_entries(model_entries(next)) == encode_entries(model_entries(pre))
                        + encode_bytes(entry.0@) + encode(entry.1.model()));
                    assert(buffer@ =~= start + seq![100u8] + encode_entries(model_entries(next)));
                    assert(canonical_entries(model_entries(next)));
                }
                i = i + 1;
            }
            buffer.push(101u8);
            proof {
                assert(dict.entries@.subrange(0, dict.entries@.len() as int) =~= dict.entries@);
            }
            assert(buffer@ =~= start + encode(value.model()));
        },
    }
    let n = buffer.len();
    proof {
        let data = buffer@;
        let pos = old(buffer)@.len() as int;
        assert(data.subrange(pos, pos + encode(value.model()).len()) =~= encode(value.model()));
        lemma_decode_encoded(value.model(), data, pos);
    }
    Ok(())
}


/* ---------- the entries of a dictionary, as written ---------- */

/// An entry of a dictionary as it is written: its key, its value, and the
/// span `[start, end)` of the value's bytes in the input.
#[derive(Debug)]
pub struct RawEntry {
    pub key: Vec<u8>,
    pub value: BencodeValue,
    pub start: usize,
    pub end: usize,
}

pub struct RawEntryView {
    pub key: Seq<u8>,
    pub value: BVal,
    pub start: int,
    pub end: int,
}

impl RawEntry {
    pub open spec fn model(self) -> RawEntryView {
        RawEntryView { key: self.key@, value: self.value.model(), start: self.start as int, end: self.end as int }
    }
}

pub open spec fn raw_model(s: Seq<RawEntry>) -> Seq<RawEntryView> {
    s.map_values(|e: RawEntry| e.model())
}

/// What walking the entries of a dictionary gives, from `pos` on, after the
/// entries `acc`.
pub enum RawWalk {
    Entries(Seq<RawEntryView>),
    Failure(DecodeError, int),
}

/// The entries of the dictionary whose body goes on at `pos`, in the order
/// they are written (duplicates kept), each with the span of its value. The
/// steps are those of [`decode_dict_at`].
pub open spec fn raw_entries_at(data: Seq<u8>, pos: int, acc: Seq<RawEntryView>) -> RawWalk
    decreases data.len() - pos,
{
    if pos < 0 || pos >= data.len() {
        RawWalk::Failure(DecodeError::UnexpectedEnd, pos)
    } else if data[pos] == 101u8 {
        RawWalk::Entries(acc)
    } else {
        match decode_byte_string_at(data, pos) {
            Decoded::Value(kv, q) => match kv {
                BVal::Bytes(k) => if pos < q <= data.len() {
                    match decode_at(data, q) {
                        Decoded::Value(v, r) => if q < r <= data.len() {
                            raw_entries_at(data, r, acc.push(RawEntryView { key: k, value: v, start: q, end: r }))
                        } else {
                            RawWalk::Failure(DecodeError::InvalidFormat, r)
                        },
                        Decoded::Failure(e, p) => RawWalk::Failure(e, p),
                    }
                } else {
                    RawWalk::Failure(DecodeError::InvalidFormat, q)
                },
                _ => RawWalk::Failure(DecodeError::InvalidFormat, q),
            },
            Decoded::Failure(e, p) => RawWalk::Failure(e, p),
        }
    }
}

/// Walking the entries fails exactly where decoding the dictionary does.
pub proof fn lemma_raw_entries_agree(data: Seq<u8>, pos: int, acc: Seq<RawEntryView>, es: Seq<(Seq<u8>, BVal)>)
    ensures
        raw_entries_at(data, pos, acc) matches RawWalk::Failure(e, p) ==> decode_dict_at(data, pos, es) == Decoded::Failure(e, p),
        decode_dict_at(data, pos, es) matches Decoded::Failure(e, p) ==> raw_entries_at(data, pos, acc) == RawWalk::Failure(e, p),
        raw_entries_at(data, pos, acc) is Entries <==> decode_dict_at(data, pos, es) is Value,
    decreases data.len() - pos,
{
    if pos < 0 || pos >= data.len() {
    } else if data[pos] == 101u8 {
    } else {
        match decode_byte_string_at(data, pos) {
            Decoded::Value(kv, q) => match kv {
                BVal::Bytes(k) => if pos < q <= data.len() {
                    match decode_at(data, q) {
                        Decoded::Value(v, r) => if q < r <= data.len() {
                            lemma_raw_entries_agree(data, r, acc.push(RawEntryView { key: k, value: v, start: q, end: r }), dict_insert(es, k, v));
                        },
                        _ => {},
                    }
                },
                _ => {},
            },
            _ => {},
        }
    }
}

/// The entries of the dictionary that `data` starts with, in the order they
/// are written, each with the span of its value; the decoding error when the
/// dictionary is not well formed.
pub fn dictionary_entries(data: &[u8]) -> (r: Result<Vec<RawEntry>, BencodeDecoderError>)
    requires
        data@.len() > 0,
        data@[0] == 100u8,
    ensures
        match raw_entries_at(data@, 1, Seq::empty()) {
            RawWalk::Entries(es) => r matches Ok(v) && raw_model(v@) == es,
            RawWalk::Failure(e, _) => r matches Err(x) && x.model() == e,
        },
        r matches Ok(v) ==> forall|j: int| 0 <= j < v@.len() ==> #[trigger] v@[j].start < v@[j].end <= data@.len(),
{
    proof {
        lemma_raw_entries_agree(data@, 1, Seq::empty(), Seq::empty());
    }
    let mut decoder = BencodeDecoder::at(data, 1);
    let mut entries: Vec<RawEntry> = Vec::new();
    let ghost d = data@;
    assert(raw_model(entries@) =~= Seq::<RawEntryView>::empty());
    loop
        invariant
            decoder.input() == d,
            d == data@,
            0 < decoder.pos() <= d.len(),
            raw_entries_at(d, 1, Seq::empty()) == raw_entries_at(d, decoder.pos(), raw_model(entries@)),
            forall|j: int| 0 <= j < entries@.len() ==> #[trigger] entries@[j].start < entries@[j].end <= d.len(),
        decreases d.len() - decoder.pos(),
    {
        let p = decoder.position();
        if p >= data.len() {
            return Err(BencodeDecoderError::UnexpectedEndOfInput);
        }
        if data[p] == 101u8 {
            return Ok(entries);
        }
        let key = match decoder.decode_key() {
            Ok(k) => k,
            Err(e) => {
                return Err(e);
            },
        };
        let start = decoder.position();
        if !(p < start && start <= data.len()) {
            return Err(BencodeDecoderError::InvalidFormat);
        }
        let value = match decoder.decode() {
            Ok(v) => v,
            Err(e) => {
                return Err(e);
            },
        };
        let end = decoder.position();
        if !(start < end && end <= data.len()) {
            return Err(BencodeDecoderError::InvalidFormat);
        }
        let entry = RawEntry { key, value, start, end };
        proof {
            assert(raw_model(entries@.push(entry)) =~= raw_model(entries@).push(entry.model()));
        }
        entries.push(entry);
    }
}

} // verus!
