//! What holds of the codec as a whole: decoding undoes encoding.

use vstd::prelude::*;
use crate::bencode::{lemma_view_representable, BencodeValue};
use crate::decimal::{
    is_digit, lemma_i64_text_round_trip, lemma_nat_digits, lemma_usize_text_round_trip,
    nat_digits,
};
use crate::model::{
    decode_bytes, decode_dictionary, decode_list, decode_value, encode_bytes, encode_dictionary,
    encode_entries, encode_entry, encode_list, encode_value, lemma_find_byte, lemma_find_byte_is,
    FormatError, Value,
};
use crate::order::{
    arranges, ascending, lemma_ascending_enumerates, lemma_enumeration_arranges,
    strictly_ascending,
};
use crate::symbols::{CLOSE, COLON, OPEN_DICTIONARY, OPEN_INTEGER, OPEN_LIST};

verus! {

/// The part of `m` under the keys that `keys` lists.
pub open spec fn under_keys(m: Map<Seq<u8>, Value>, keys: Seq<Seq<u8>>) -> Map<Seq<u8>, Value> {
    Map::new(|k: Seq<u8>| keys.contains(k), |k: Seq<u8>| m[k])
}

/// An encoding is not empty, and its first byte opens a value: it is never
/// the `e` that closes a list or a dictionary.
pub proof fn lemma_encoding_opens(v: Value)
    ensures
        encode_value(v).len() > 0,
        encode_value(v)[0] == OPEN_INTEGER || is_digit(encode_value(v)[0]) || encode_value(v)[0]
            == OPEN_LIST || encode_value(v)[0] == OPEN_DICTIONARY,
{
    match v {
        Value::ByteString(b) => {
            lemma_nat_digits(b.len());
            assert(is_digit(nat_digits(b.len())[0]));
        },
        _ => {},
    }
}

/// The encoding of a list is the encoding of its first element, then the
/// encoding of the others.
pub proof fn lemma_encode_list_head(items: Seq<Value>)
    requires
        items.len() > 0,
    ensures
        encode_list(items) == encode_value(items[0]) + encode_list(items.drop_first()),
    decreases items.len(),
{
    reveal_with_fuel(encode_list, 2);
    if items.len() == 1 {
        assert(items.drop_last() =~= Seq::<Value>::empty());
        assert(items.drop_first() =~= Seq::<Value>::empty());
        assert(encode_list(items) =~= encode_value(items[0]) + encode_list(items.drop_first()));
    } else {
        lemma_encode_list_head(items.drop_last());
        assert(items.drop_last().drop_first() =~= items.drop_first().drop_last());
        assert(items.drop_first().last() == items.last());
        assert(encode_list(items) =~= encode_value(items[0]) + encode_list(items.drop_first()));
    }
}

/// The encoding of entries is the encoding of the first, then the encoding of
/// the others.
pub proof fn lemma_encode_entries_head(m: Map<Seq<u8>, Value>, keys: Seq<Seq<u8>>)
    requires
        keys.len() > 0,
    ensures
        encode_entries(m, keys) == encode_entry(m, keys[0]) + encode_entries(
            m,
            keys.drop_first(),
        ),
    decreases keys.len(),
{
    reveal_with_fuel(encode_entries, 2);
    if keys.len() == 1 {
        assert(keys.drop_last() =~= Seq::<Seq<u8>>::empty());
        assert(keys.drop_first() =~= Seq::<Seq<u8>>::empty());
        assert(encode_entries(m, keys) =~= encode_entry(m, keys[0]) + encode_entries(
            m,
            keys.drop_first(),
        ));
    } else {
        lemma_encode_entries_head(m, keys.drop_last());
        assert(keys.drop_last().drop_first() =~= keys.drop_first().drop_last());
        assert(keys.drop_first().last() == keys.last());
        assert(encode_entries(m, keys) =~= encode_entry(m, keys[0]) + encode_entries(
            m,
            keys.drop_first(),
        ));
    }
}

/// Decoding the encoding of a byte string, whatever follows it, gives the
/// byte string and what follows.
pub proof fn lemma_decode_encoded_bytes(b: Seq<u8>, rest: Seq<u8>)
    requires
        b.len() <= usize::MAX,
    ensures
        decode_bytes(encode_bytes(b) + rest) == Ok::<_, FormatError>((b, rest)),
{
    let digits = nat_digits(b.len());
    let s = encode_bytes(b) + rest;
    let n = b.len() as usize;
    lemma_usize_text_round_trip(n);
    assert forall|j: int| 0 <= j < digits.len() implies s[j] != COLON by {
        assert(s[j] == digits[j]);
    }
    assert(s[digits.len() as int] == COLON);
    lemma_find_byte_is(s, COLON, digits.len() as int);
    assert(s.subrange(0, digits.len() as int) =~= digits);
    let from: int = digits.len() as int + 1;
    assert(s.subrange(from, from + n) =~= b);
    assert(s.skip(from + n) =~= rest);
}

/// Decoding the encoding of a value, whatever follows it, gives the value and
/// what follows.
pub proof fn lemma_decode_encoded_value(v: Value, rest: Seq<u8>)
    requires
        v.representable(),
    ensures
        decode_value(encode_value(v) + rest) == Ok::<_, FormatError>((v, rest)),
    decreases v, 0nat,
{
    let s = encode_value(v) + rest;
    lemma_encoding_opens(v);
    match v {
        Value::Integer(i) => {
            let text = crate::decimal::int_text(i as int);
            lemma_i64_text_round_trip(i);
            let t = s.skip(1);
            assert(t =~= text + seq![CLOSE] + rest);
            assert forall|j: int| 0 <= j < text.len() implies t[j] != CLOSE by {
                assert(t[j] == text[j]);
            }
            assert(t[text.len() as int] == CLOSE);
            lemma_find_byte_is(t, CLOSE, text.len() as int);
            assert(t.subrange(0, text.len() as int) =~= text);
            assert(t.skip(text.len() as int + 1) =~= rest);
        },
        Value::ByteString(b) => {
            lemma_decode_encoded_bytes(b, rest);
            lemma_nat_digits(b.len());
            assert(s[0] == nat_digits(b.len())[0]);
            assert(is_digit(s[0]));
        },
        Value::List(items) => {
            lemma_decode_encoded_list(items, rest);
            assert(s.skip(1) =~= encode_list(items) + seq![CLOSE] + rest);
        },
        Value::Dictionary(m) => {
            let keys = ascending(m.dom());
            lemma_ascending_enumerates(m.dom());
            lemma_enumeration_arranges(keys, m.dom());
            lemma_decode_encoded_entries(m, keys, rest);
            assert(s.skip(1) =~= encode_entries(m, keys) + seq![CLOSE] + rest);
            assert forall|k: Seq<u8>| m.dom().contains(k) implies keys.contains(k) by {
                let i = choose|i: int| 0 <= i < keys.len() && #[trigger] keys[i] == k;
            }
            assert(under_keys(m, keys) =~= m);
        },
    }
}

/// Decoding the encodings of the elements of a list and the closing `e`,
/// whatever follows, gives the elements and what follows.
pub proof fn lemma_decode_encoded_list(items: Seq<Value>, rest: Seq<u8>)
    requires
        forall|i: int| 0 <= i < items.len() ==> (#[trigger] items[i]).representable(),
    ensures
        decode_list(encode_list(items) + seq![CLOSE] + rest) == Ok::<_, FormatError>(
            (items, rest),
        ),
    decreases items, 1nat,
{
    let s = encode_list(items) + seq![CLOSE] + rest;
    if items.len() == 0 {
        assert(s.skip(1) =~= rest);
        assert(items =~= Seq::<Value>::empty());
    } else {
        let head = items[0];
        let tail = items.drop_first();
        let behind = encode_list(tail) + seq![CLOSE] + rest;
        lemma_encode_list_head(items);
        lemma_encoding_opens(head);
        assert(s =~= encode_value(head) + behind);
        assert(s[0] == encode_value(head)[0]);
        lemma_decode_encoded_value(head, behind);
        assert forall|i: int| 0 <= i < tail.len() implies (#[trigger] tail[i]).representable() by {
            assert(tail[i] == items[i + 1]);
        }
        lemma_decode_encoded_list(tail, rest);
        assert(seq![head] + tail =~= items);
    }
}

/// Decoding the encodings of entries, no key twice, and the closing `e`,
/// whatever follows, gives the map under those keys and what follows.
pub proof fn lemma_decode_encoded_entries(
    m: Map<Seq<u8>, Value>,
    keys: Seq<Seq<u8>>,
    rest: Seq<u8>,
)
    requires
        Value::Dictionary(m).representable(),
        keys.no_duplicates(),
        forall|i: int| 0 <= i < keys.len() ==> m.dom().contains(#[trigger] keys[i]),
    ensures
        decode_dictionary(encode_entries(m, keys) + seq![CLOSE] + rest) == Ok::<_, FormatError>(
            (under_keys(m, keys), rest),
        ),
    decreases m, keys.len(),
{
    let s = encode_entries(m, keys) + seq![CLOSE] + rest;
    if keys.len() == 0 {
        assert(s.skip(1) =~= rest);
        assert(under_keys(m, keys) =~= Map::<Seq<u8>, Value>::empty());
    } else {
        let key = keys[0];
        let others = keys.drop_first();
        let behind = encode_entries(m, others) + seq![CLOSE] + rest;
        let behind_key = encode_value(m[key]) + behind;
        assert(m.dom().contains(key));
        lemma_encode_entries_head(m, keys);
        lemma_nat_digits(key.len());
        assert(s =~= encode_bytes(key) + behind_key);
        assert(s[0] == nat_digits(key.len())[0]);
        assert(is_digit(s[0]));
        lemma_decode_encoded_bytes(key, behind_key);
        lemma_encoding_opens(m[key]);
        lemma_decode_encoded_value(m[key], behind);
        assert forall|i: int, j: int|
            0 <= i < others.len() && 0 <= j < others.len() && i != j implies others[i]
            != others[j] by {
            assert(others[i] == keys[i + 1]);
            assert(others[j] == keys[j + 1]);
        }
        assert forall|i: int| 0 <= i < others.len() implies m.dom().contains(
            #[trigger] others[i],
        ) by {
            assert(others[i] == keys[i + 1]);
        }
        lemma_decode_encoded_entries(m, others, rest);
        assert(!others.contains(key)) by {
            if others.contains(key) {
                let i = choose|i: int| 0 <= i < others.len() && others[i] == key;
                assert(others[i] == keys[i + 1]);
            }
        }
        assert forall|k: Seq<u8>| keys.contains(k) <==> (k == key || others.contains(k)) by {
            if keys.contains(k) {
                let i = choose|i: int| 0 <= i < keys.len() && keys[i] == k;
                if i > 0 {
                    assert(others[i - 1] == k);
                }
            }
            if others.contains(k) {
                let i = choose|i: int| 0 <= i < others.len() && others[i] == k;
                assert(keys[i + 1] == k);
            }
            if k == key {
                assert(keys[0] == k);
            }
        }
        assert(map![key => m[key]].union_prefer_right(under_keys(m, others)) =~= under_keys(
            m,
            keys,
        ));
    }
}

/// Round trip: the encoding of a value decodes to that value, with nothing
/// left over. Values are compared as maps, so the order in which the entries
/// of a dictionary were put in plays no part.
pub proof fn lemma_round_trip(v: Value)
    requires
        v.representable(),
    ensures
        decode_value(encode_value(v)) == Ok::<_, FormatError>((v, Seq::<u8>::empty())),
{
    lemma_decode_encoded_value(v, Seq::empty());
    assert(encode_value(v) + Seq::<u8>::empty() =~= encode_value(v));
}

/// Encoding is canonical: a value encoded, decoded and encoded again gives
/// the bytes of the first encoding.
pub proof fn lemma_encode_idempotent(v: Value)
    requires
        v.representable(),
    ensures
        decode_value(encode_value(v)) matches Ok((w, _)) && encode_value(w) == encode_value(v),
{
    lemma_round_trip(v);
}

/// Round trip, of a value in memory: its encoding decodes to what it stands
/// for, with nothing left over.
pub proof fn lemma_round_trip_in_memory(v: BencodeValue)
    ensures
        decode_value(encode_value(v@)) == Ok::<_, FormatError>((v@, Seq::<u8>::empty())),
{
    lemma_view_representable(v);
    lemma_round_trip(v@);
}

/// What decodes from bytes can be held in memory.
pub proof fn lemma_decoded_representable(s: Seq<u8>)
    ensures
        decode_value(s) matches Ok((v, _)) ==> v.representable(),
    decreases s.len(), 0nat,
{
    if s.len() > 0 {
        if s[0] == OPEN_INTEGER {
        } else if is_digit(s[0]) {
            lemma_find_byte(s, COLON);
        } else if s[0] == OPEN_LIST {
            lemma_decoded_list_representable(s.skip(1));
        } else if s[0] == OPEN_DICTIONARY {
            lemma_decoded_dictionary_representable(s.skip(1));
        }
    }
}

/// The elements that decode from bytes can be held in memory.
pub proof fn lemma_decoded_list_representable(s: Seq<u8>)
    ensures
        decode_list(s) matches Ok((items, _)) ==> Value::List(items).representable(),
    decreases s.len(), 1nat,
{
    if s.len() > 0 && s[0] != CLOSE {
        lemma_decoded_representable(s);
        if let Ok((v, rest)) = decode_value(s) {
            if rest.len() < s.len() {
                lemma_decoded_list_representable(rest);
                if let Ok((items, _)) = decode_list(rest) {
                    let all = seq![v] + items;
                    let tail = Value::List(items);
                    assert(tail.representable());
                    assert(tail->List_0 == items);
                    assert(forall|i: int|
                        #![trigger items[i]]
                        0 <= i < items.len() ==> items[i].representable());
                    assert forall|i: int| 0 <= i < all.len() implies (
                    #[trigger] all[i]).representable() by {
                        if i > 0 {
                            assert(all[i] == items[i - 1]);
                            assert(items[i - 1].representable());
                        } else {
                            assert(all[i] == v);
                        }
                    }
                    assert(Value::List(all).representable());
                }
            }
        }
    } else if s.len() > 0 {
        assert(Value::List(Seq::<Value>::empty()).representable());
    }
}

/// The dictionary that decodes from bytes can be held in memory.
pub proof fn lemma_decoded_dictionary_representable(s: Seq<u8>)
    ensures
        decode_dictionary(s) matches Ok((m, _)) ==> Value::Dictionary(m).representable(),
    decreases s.len(), 1nat,
{
    if s.len() > 0 && s[0] != CLOSE {
        lemma_find_byte(s, COLON);
        if let Ok((key, behind_key)) = decode_bytes(s) {
            if behind_key.len() < s.len() {
                lemma_decoded_representable(behind_key);
                if let Ok((v, rest)) = decode_value(behind_key) {
                    if rest.len() < s.len() {
                        lemma_decoded_dictionary_representable(rest);
                        if let Ok((m, _)) = decode_dictionary(rest) {
                            let all = map![key => v].union_prefer_right(m);
                            assert(Value::Dictionary(m).representable());
                            assert(all.dom() =~= m.dom().insert(key));
                            assert forall|k: Seq<u8>| #[trigger]
                                all.dom().contains(k) implies k.len() <= usize::MAX
                                && all[k].representable() by {
                                if m.dom().contains(k) {
                                    assert(all[k] == m[k]);
                                } else {
                                    assert(k == key);
                                    assert(all[k] == v);
                                }
                            }
                            assert(Value::Dictionary(all).representable());
                        }
                    }
                }
            }
        }
    } else if s.len() > 0 {
        assert(Value::Dictionary(Map::<Seq<u8>, Value>::empty()).representable());
    }
}

/// The encodings of entries tell their keys: two runs of entries of one
/// dictionary, each closed by `e`, that are the same bytes have the same keys
/// in the same order.
pub proof fn lemma_entries_tell_their_keys(
    m: Map<Seq<u8>, Value>,
    first: Seq<Seq<u8>>,
    second: Seq<Seq<u8>>,
    behind_first: Seq<u8>,
    behind_second: Seq<u8>,
)
    requires
        Value::Dictionary(m).representable(),
        forall|i: int| 0 <= i < first.len() ==> m.dom().contains(#[trigger] first[i]),
        forall|i: int| 0 <= i < second.len() ==> m.dom().contains(#[trigger] second[i]),
        encode_entries(m, first) + seq![CLOSE] + behind_first == encode_entries(m, second)
            + seq![CLOSE] + behind_second,
    ensures
        first == second,
    decreases first.len(),
{
    let left = encode_entries(m, first) + seq![CLOSE] + behind_first;
    let right = encode_entries(m, second) + seq![CLOSE] + behind_second;
    if first.len() == 0 || second.len() == 0 {
        if first.len() > 0 {
            lemma_entries_open_with_a_digit(m, first, seq![CLOSE] + behind_first);
            assert(left =~= encode_entries(m, first) + (seq![CLOSE] + behind_first));
            assert(right[0] == CLOSE);
        } else if second.len() > 0 {
            lemma_entries_open_with_a_digit(m, second, seq![CLOSE] + behind_second);
            assert(right =~= encode_entries(m, second) + (seq![CLOSE] + behind_second));
            assert(left[0] == CLOSE);
        } else {
            assert(first =~= second);
        }
    } else {
        let a = first[0];
        let b = second[0];
        let tail_a = encode_entries(m, first.drop_first()) + seq![CLOSE] + behind_first;
        let tail_b = encode_entries(m, second.drop_first()) + seq![CLOSE] + behind_second;
        lemma_encode_entries_head(m, first);
        lemma_encode_entries_head(m, second);
        assert(m.dom().contains(a));
        assert(m.dom().contains(b));
        assert(left =~= encode_bytes(a) + (encode_value(m[a]) + tail_a));
        assert(right =~= encode_bytes(b) + (encode_value(m[b]) + tail_b));
        lemma_decode_encoded_bytes(a, encode_value(m[a]) + tail_a);
        lemma_decode_encoded_bytes(b, encode_value(m[b]) + tail_b);
        assert(a == b);
        lemma_decode_encoded_value(m[a], tail_a);
        lemma_decode_encoded_value(m[b], tail_b);
        assert(tail_a == tail_b);
        assert forall|i: int| 0 <= i < first.drop_first().len() implies m.dom().contains(
            #[trigger] first.drop_first()[i],
        ) by {
            assert(first.drop_first()[i] == first[i + 1]);
        }
        assert forall|i: int| 0 <= i < second.drop_first().len() implies m.dom().contains(
            #[trigger] second.drop_first()[i],
        ) by {
            assert(second.drop_first()[i] == second[i + 1]);
        }
        lemma_entries_tell_their_keys(
            m,
            first.drop_first(),
            second.drop_first(),
            behind_first,
            behind_second,
        );
        assert(first =~= seq![a] + first.drop_first());
        assert(second =~= seq![b] + second.drop_first());
    }
}

/// The encodings of entries, if there are any, start with a digit.
proof fn lemma_entries_open_with_a_digit(
    m: Map<Seq<u8>, Value>,
    keys: Seq<Seq<u8>>,
    behind: Seq<u8>,
)
    requires
        keys.len() > 0,
    ensures
        is_digit((encode_entries(m, keys) + behind)[0]),
{
    lemma_encode_entries_head(m, keys);
    lemma_nat_digits(keys[0].len());
    let digits = nat_digits(keys[0].len());
    assert(is_digit(digits[0]));
    assert(encode_entry(m, keys[0])[0] == digits[0]);
    assert((encode_entries(m, keys) + behind)[0] == encode_entry(m, keys[0])[0]);
}

/// Keys out of order are not canonical: the entries of a dictionary, written
/// with its keys each once in an order that is not the ascending one, decode
/// to the dictionary, but are not its encoding.
pub proof fn lemma_keys_out_of_order_are_not_canonical(
    m: Map<Seq<u8>, Value>,
    keys: Seq<Seq<u8>>,
)
    requires
        Value::Dictionary(m).representable(),
        arranges(keys, m.dom()),
        !strictly_ascending(keys),
    ensures
        decode_value(encode_dictionary(m, keys)) == Ok::<_, FormatError>(
            (Value::Dictionary(m), Seq::<u8>::empty()),
        ),
        encode_value(Value::Dictionary(m)) != encode_dictionary(m, keys),
{
    let bytes = encode_dictionary(m, keys);
    let nothing = Seq::<u8>::empty();
    lemma_decode_encoded_entries(m, keys, nothing);
    assert(bytes.skip(1) =~= encode_entries(m, keys) + seq![CLOSE] + nothing);
    assert forall|k: Seq<u8>| m.dom().contains(k) implies keys.contains(k) by {
        let i = choose|i: int| 0 <= i < keys.len() && #[trigger] keys[i] == k;
    }
    assert(under_keys(m, keys) =~= m);
    let sorted = ascending(m.dom());
    lemma_ascending_enumerates(m.dom());
    if encode_value(Value::Dictionary(m)) == bytes {
        let canonical = encode_dictionary(m, sorted);
        assert(canonical.skip(1) =~= encode_entries(m, sorted) + seq![CLOSE] + nothing);
        lemma_entries_tell_their_keys(m, keys, sorted, nothing, nothing);
    }
}

} // verus!
