//! The mathematical model of the encoding: values, what a byte sequence
//! decodes to, and the canonical encoding of a value.

use vstd::prelude::*;
use vstd::string::StringSliceAdditionalSpecFns;
use crate::decimal::{i64_of_text, int_text, is_digit, nat_digits, usize_of_text};
use crate::order::ascending;
use crate::symbols::{CLOSE, COLON, OPEN_DICTIONARY, OPEN_INTEGER, OPEN_LIST};

verus! {

/// An encoded value: an integer, a byte string, a list, or a map from byte
/// strings to values.
pub enum Value {
    Integer(i64),
    ByteString(Seq<u8>),
    List(Seq<Value>),
    Dictionary(Map<Seq<u8>, Value>),
}

/// Why a byte sequence is not an encoding.
#[derive(Debug, Clone, Copy, PartialEq, Eq, Structural)]
pub enum FormatError {
    /// The input is empty, or its first byte opens no value.
    UnknownType,
    /// An integer has no closing `e`.
    UnterminatedInteger,
    /// The text of an integer is not a sign and digits, or does not fit in 64 bits.
    InvalidInteger,
    /// The length of a byte string has no closing `:`.
    UnterminatedLength,
    /// The length of a byte string is not digits, or is larger than any length.
    InvalidLength,
    /// A byte string is declared longer than what is left of the input.
    TruncatedByteString,
    /// The input ends inside a list.
    UnterminatedList,
    /// The input ends inside a dictionary.
    UnterminatedDictionary,
}

/// What decoding gives: the decoded item and the bytes behind it, or the error.
pub type Decoded<T> = Result<(T, Seq<u8>), FormatError>;

impl Value {
    /// The value can be held in memory: byte strings and keys are no longer
    /// than the largest length, and dictionaries are finite.
    pub open spec fn representable(self) -> bool
        decreases self,
    {
        match self {
            Value::Integer(_) => true,
            Value::ByteString(b) => b.len() <= usize::MAX,
            Value::List(items) => forall|i: int|
                #![trigger items[i]]
                0 <= i < items.len() ==> items[i].representable(),
            Value::Dictionary(m) => {
                &&& m.dom().finite()
                &&& forall|k: Seq<u8>| #[trigger]
                    m.dom().contains(k) ==> k.len() <= usize::MAX && m[k].representable()
            },
        }
    }
}

/// The value under the key `name`, if the dictionary has that key.
pub open spec fn entry(m: Map<Seq<u8>, Value>, name: &str) -> Option<Value> {
    if m.dom().contains(name.spec_bytes()) {
        Some(m[name.spec_bytes()])
    } else {
        None
    }
}

/// The place of the first `b` in `s`, or the length of `s` if there is none.
pub open spec fn find_byte(s: Seq<u8>, b: u8) -> int
    decreases s.len(),
{
    if s.len() == 0 {
        0
    } else if s[0] == b {
        0
    } else {
        1 + find_byte(s.drop_first(), b)
    }
}

/// Decodes the text of an integer up to its closing `e`; `s` starts behind the `i`.
pub open spec fn decode_integer(s: Seq<u8>) -> Decoded<Value> {
    let end = find_byte(s, CLOSE);
    if end >= s.len() {
        Err(FormatError::UnterminatedInteger)
    } else {
        match i64_of_text(s.subrange(0, end)) {
            Some(i) => Ok((Value::Integer(i), s.skip(end + 1))),
            None => Err(FormatError::InvalidInteger),
        }
    }
}

/// Decodes a length, a `:` and that many bytes.
pub open spec fn decode_bytes(s: Seq<u8>) -> Decoded<Seq<u8>> {
    let colon = find_byte(s, COLON);
    if colon >= s.len() {
        Err(FormatError::UnterminatedLength)
    } else {
        match usize_of_text(s.subrange(0, colon)) {
            None => Err(FormatError::InvalidLength),
            Some(n) => if colon + 1 + n > s.len() {
                Err(FormatError::TruncatedByteString)
            } else {
                Ok((s.subrange(colon + 1, colon + 1 + n), s.skip(colon + 1 + n)))
            },
        }
    }
}

/// Decodes a byte string as a value.
pub open spec fn decode_byte_string(s: Seq<u8>) -> Decoded<Value> {
    match decode_bytes(s) {
        Ok((b, rest)) => Ok((Value::ByteString(b), rest)),
        Err(e) => Err(e),
    }
}

/// Decodes one value from the front of `s`. The first byte decides the shape:
/// a digit opens a byte string, `i` an integer, `l` a list, `d` a dictionary.
pub open spec fn decode_value(s: Seq<u8>) -> Decoded<Value>
    decreases s.len(), 0nat,
{
    if s.len() == 0 {
        Err(FormatError::UnknownType)
    } else if s[0] == OPEN_INTEGER {
        decode_integer(s.skip(1))
    } else if is_digit(s[0]) {
        decode_byte_string(s)
    } else if s[0] == OPEN_LIST {
        match decode_list(s.skip(1)) {
            Ok((items, rest)) => Ok((Value::List(items), rest)),
            Err(e) => Err(e),
        }
    } else if s[0] == OPEN_DICTIONARY {
        match decode_dictionary(s.skip(1)) {
            Ok((m, rest)) => Ok((Value::Dictionary(m), rest)),
            Err(e) => Err(e),
        }
    } else {
        Err(FormatError::UnknownType)
    }
}

/// Decodes the elements of a list up to its closing `e`; `s` starts behind the `l`.
/// (What is left behind a value is always shorter than what the value was
/// decoded from, by `lemma_decode_value_rest`; the test on the lengths is
/// there for the proof that decoding ends, and never fails.)
pub open spec fn decode_list(s: Seq<u8>) -> Decoded<Seq<Value>>
    decreases s.len(), 1nat,
{
    if s.len() == 0 {
        Err(FormatError::UnterminatedList)
    } else if s[0] == CLOSE {
        Ok((Seq::empty(), s.skip(1)))
    } else {
        match decode_value(s) {
            Err(e) => Err(e),
            Ok((v, rest)) => if rest.len() < s.len() {
                match decode_list(rest) {
                    Err(e) => Err(e),
                    Ok((items, after)) => Ok((seq![v] + items, after)),
                }
            } else {
                Err(FormatError::UnterminatedList)
            },
        }
    }
}

/// Decodes the entries of a dictionary up to its closing `e`; `s` starts
/// behind the `d`. Each entry is a byte string and a value. Keys may come in
/// any order, and of two entries with one key the later one counts. (The
/// tests on the lengths never fail, as in `decode_list`.)
pub open spec fn decode_dictionary(s: Seq<u8>) -> Decoded<Map<Seq<u8>, Value>>
    decreases s.len(), 1nat,
{
    if s.len() == 0 {
        Err(FormatError::UnterminatedDictionary)
    } else if s[0] == CLOSE {
        Ok((Map::empty(), s.skip(1)))
    } else {
        match decode_bytes(s) {
            Err(e) => Err(e),
            Ok((key, behind_key)) => if behind_key.len() < s.len() {
                match decode_value(behind_key) {
                    Err(e) => Err(e),
                    Ok((v, rest)) => if rest.len() < s.len() {
                        match decode_dictionary(rest) {
                            Err(e) => Err(e),
                            Ok((m, after)) => Ok((map![key => v].union_prefer_right(m), after)),
                        }
                    } else {
                        Err(FormatError::UnterminatedDictionary)
                    },
                }
            } else {
                Err(FormatError::UnterminatedDictionary)
            },
        }
    }
}

/// The encoding of a byte string: its length in digits, a `:`, the bytes.
pub open spec fn encode_bytes(b: Seq<u8>) -> Seq<u8> {
    nat_digits(b.len()) + seq![COLON] + b
}

/// The canonical encoding of a value. A dictionary's entries stand in the
/// ascending order of their keys, whatever order they were put in.
pub open spec fn encode_value(v: Value) -> Seq<u8>
    decreases v, 0nat,
{
    match v {
        Value::Integer(i) => seq![OPEN_INTEGER] + int_text(i as int) + seq![CLOSE],
        Value::ByteString(b) => encode_bytes(b),
        Value::List(items) => seq![OPEN_LIST] + encode_list(items) + seq![CLOSE],
        Value::Dictionary(m) => encode_dictionary(m, ascending(m.dom())),
    }
}

/// The bytes of a dictionary with its entries written in the order of `keys`.
pub open spec fn encode_dictionary(m: Map<Seq<u8>, Value>, keys: Seq<Seq<u8>>) -> Seq<u8>
    decreases m, keys.len() + 1,
{
    seq![OPEN_DICTIONARY] + encode_entries(m, keys) + seq![CLOSE]
}

/// The encodings of the elements of a list, one after the other.
pub open spec fn encode_list(items: Seq<Value>) -> Seq<u8>
    decreases items, 0nat,
{
    if items.len() == 0 {
        Seq::empty()
    } else {
        encode_list(items.drop_last()) + encode_value(items.last())
    }
}

/// The encodings of the entries of `m` under `keys`, one after the other: each
/// key as a byte string, then its value.
pub open spec fn encode_entries(m: Map<Seq<u8>, Value>, keys: Seq<Seq<u8>>) -> Seq<u8>
    decreases m, keys.len(),
{
    if keys.len() == 0 {
        Seq::empty()
    } else {
        encode_entries(m, keys.drop_last()) + encode_entry(m, keys.last())
    }
}

/// The encoding of one entry of `m`: the key as a byte string, then its value.
pub open spec fn encode_entry(m: Map<Seq<u8>, Value>, key: Seq<u8>) -> Seq<u8>
    decreases m, 0nat,
{
    if m.dom().finite() && m.dom().contains(key) {
        encode_bytes(key) + encode_value(m[key])
    } else {
        encode_bytes(key)
    }
}

/// `find_byte` gives a place in `s` or its length; no byte before that place
/// is `b`, and the byte at it is.
pub proof fn lemma_find_byte(s: Seq<u8>, b: u8)
    ensures
        0 <= find_byte(s, b) <= s.len(),
        find_byte(s, b) < s.len() ==> s[find_byte(s, b)] == b,
        forall|j: int| 0 <= j < find_byte(s, b) ==> s[j] != b,
    decreases s.len(),
{
    if s.len() > 0 && s[0] != b {
        let t = s.drop_first();
        lemma_find_byte(t, b);
        assert forall|j: int| 0 <= j < find_byte(s, b) implies s[j] != b by {
            if j > 0 {
                assert(s[j] == t[j - 1]);
            }
        }
    }
}

/// The first place of `b` is `p` if no byte before `p` is `b` and the byte at
/// `p` is, or `p` is the length of `s`.
pub proof fn lemma_find_byte_is(s: Seq<u8>, b: u8, p: int)
    requires
        0 <= p <= s.len(),
        forall|j: int| 0 <= j < p ==> s[j] != b,
        p < s.len() ==> s[p] == b,
    ensures
        find_byte(s, b) == p,
{
    lemma_find_byte(s, b);
}

/// What is left behind a decoded byte string is a proper end of the input.
pub proof fn lemma_decode_bytes_rest(s: Seq<u8>)
    ensures
        decode_bytes(s) matches Ok((_, rest)) ==> rest.len() < s.len() && rest == s.skip(
            s.len() - rest.len(),
        ),
{
    lemma_find_byte(s, COLON);
}

/// What is left behind a decoded value is a proper end of the input.
pub proof fn lemma_decode_value_rest(s: Seq<u8>)
    ensures
        decode_value(s) matches Ok((_, rest)) ==> rest.len() < s.len() && rest == s.skip(
            s.len() - rest.len(),
        ),
    decreases s.len(), 0nat,
{
    if s.len() == 0 {
    } else if s[0] == OPEN_INTEGER {
        lemma_find_byte(s.skip(1), CLOSE);
        if let Ok((_, rest)) = decode_value(s) {
            assert(rest =~= s.skip(s.len() - rest.len()));
        }
    } else if is_digit(s[0]) {
        lemma_decode_bytes_rest(s);
    } else if s[0] == OPEN_LIST {
        lemma_decode_list_rest(s.skip(1));
        if let Ok((_, rest)) = decode_value(s) {
            assert(rest =~= s.skip(s.len() - rest.len()));
        }
    } else if s[0] == OPEN_DICTIONARY {
        lemma_decode_dictionary_rest(s.skip(1));
        if let Ok((_, rest)) = decode_value(s) {
            assert(rest =~= s.skip(s.len() - rest.len()));
        }
    }
}

/// What is left behind a decoded list is a proper end of the input.
pub proof fn lemma_decode_list_rest(s: Seq<u8>)
    ensures
        decode_list(s) matches Ok((_, rest)) ==> rest.len() < s.len() && rest == s.skip(
            s.len() - rest.len(),
        ),
    decreases s.len(), 1nat,
{
    if s.len() > 0 && s[0] != CLOSE {
        lemma_decode_value_rest(s);
        if let Ok((_, mid)) = decode_value(s) {
            lemma_decode_list_rest(mid);
            if let Ok((_, rest)) = decode_list(mid) {
                assert(rest =~= s.skip(s.len() - rest.len()));
            }
        }
    }
}

/// What is left behind a decoded dictionary is a proper end of the input.
pub proof fn lemma_decode_dictionary_rest(s: Seq<u8>)
    ensures
        decode_dictionary(s) matches Ok((_, rest)) ==> rest.len() < s.len() && rest == s.skip(
            s.len() - rest.len(),
        ),
    decreases s.len(), 1nat,
{
    if s.len() > 0 && s[0] != CLOSE {
        lemma_decode_bytes_rest(s);
        if let Ok((_, behind_key)) = decode_bytes(s) {
            lemma_decode_value_rest(behind_key);
            if let Ok((_, mid)) = decode_value(behind_key) {
                lemma_decode_dictionary_rest(mid);
                if let Ok((_, rest)) = decode_dictionary(mid) {
                    assert(rest =~= s.skip(s.len() - rest.len()));
                }
            }
        }
    }
}

} // verus!
