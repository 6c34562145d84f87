//! Encoded values in memory, the decoder and the canonical encoder.

use vstd::prelude::*;
use vstd::slice::{slice_subrange, slice_to_vec};
use crate::decimal::{nat_digits, parse_i64, parse_usize, push_digits, push_int_text};
use crate::model::{
    decode_byte_string, decode_bytes, decode_dictionary, decode_integer, decode_list,
    decode_value, encode_bytes, encode_entries, encode_entry, encode_list, encode_value,
    entry, find_byte, lemma_decode_bytes_rest, lemma_decode_value_rest, lemma_find_byte_is, Decoded,
    FormatError, Value,
};
use crate::order::{
    ascending, bytes_equal, bytes_less, enumerates, lemma_enumeration_is_ascending,
    lemma_lex_total, lemma_lex_transitive, lex_less,
};
use crate::symbols::{CLOSE, COLON, NINE, OPEN_DICTIONARY, OPEN_INTEGER, OPEN_LIST, ZERO};

verus! {

/// A map from byte strings to values. It keeps its entries in the order in
/// which their keys first came, each key once.
#[derive(Debug)]
pub struct Dictionary {
    entries: Vec<(Vec<u8>, BencodeValue)>,
}

/// An encoded value.
#[derive(Debug)]
pub enum BencodeValue {
    Integer(i64),
    ByteString(Vec<u8>),
    List(Vec<BencodeValue>),
    Dictionary(Dictionary),
}

/// The values that a sequence of values in memory stands for.
pub open spec fn list_view(items: Seq<BencodeValue>) -> Seq<Value>
    decreases items, 0nat,
{
    if items.len() == 0 {
        Seq::empty()
    } else {
        list_view(items.drop_last()).push(value_view(items.last()))
    }
}

/// The map that a sequence of entries stands for; of two entries with one key
/// the later one counts.
pub open spec fn entries_view(entries: Seq<(Vec<u8>, BencodeValue)>) -> Map<Seq<u8>, Value>
    decreases entries, 0nat,
{
    if entries.len() == 0 {
        Map::empty()
    } else {
        entries_view(entries.drop_last()).insert(entries.last().0@, value_view(entries.last().1))
    }
}

/// No two entries have the same key.
pub open spec fn keys_distinct(entries: Seq<(Vec<u8>, BencodeValue)>) -> bool {
    forall|i: int, j: int|
        0 <= i < j < entries.len() ==> (#[trigger] entries[i]).0@ != (#[trigger] entries[j]).0@
}

/// The value that a value in memory stands for.
pub open spec fn value_view(v: BencodeValue) -> Value
    decreases v, 1nat,
{
    match v {
        BencodeValue::Integer(i) => Value::Integer(i),
        BencodeValue::ByteString(b) => Value::ByteString(b@),
        BencodeValue::List(items) => Value::List(list_view(items@)),
        BencodeValue::Dictionary(d) => Value::Dictionary(d.map()),
    }
}

impl View for BencodeValue {
    type V = Value;

    open spec fn view(&self) -> Value {
        value_view(*self)
    }
}

impl View for Dictionary {
    type V = Map<Seq<u8>, Value>;

    open spec fn view(&self) -> Map<Seq<u8>, Value> {
        self.map()
    }
}

impl Dictionary {
    /// The map that the dictionary stands for.
    pub closed spec fn map(self) -> Map<Seq<u8>, Value>
        decreases self, 0nat,
    {
        entries_view(self.entries@)
    }
}

/// The view of a list has the list's length and is the view of each element.
pub proof fn lemma_list_view(items: Seq<BencodeValue>)
    ensures
        list_view(items).len() == items.len(),
        forall|i: int| 0 <= i < items.len() ==> #[trigger] list_view(items)[i] == items[i]@,
    decreases items.len(),
{
    if items.len() > 0 {
        lemma_list_view(items.drop_last());
    }
}

/// The keys of the map of a sequence of entries are the keys of the entries,
/// and the map is finite.
pub proof fn lemma_entries_view_dom(entries: Seq<(Vec<u8>, BencodeValue)>)
    ensures
        entries_view(entries).dom().finite(),
        forall|i: int|
            0 <= i < entries.len() ==> entries_view(entries).dom().contains(
                (#[trigger] entries[i]).0@,
            ),
        forall|k: Seq<u8>|
            entries_view(entries).dom().contains(k) ==> exists|i: int|
                0 <= i < entries.len() && (#[trigger] entries[i]).0@ == k,
    decreases entries.len(),
{
    if entries.len() > 0 {
        let front = entries.drop_last();
        lemma_entries_view_dom(front);
        assert forall|i: int| 0 <= i < entries.len() implies entries_view(entries).dom().contains(
            (#[trigger] entries[i]).0@,
        ) by {
            if i < entries.len() - 1 {
                assert(front[i] == entries[i]);
            }
        }
        assert forall|k: Seq<u8>| entries_view(entries).dom().contains(k) implies exists|i: int|
            0 <= i < entries.len() && (#[trigger] entries[i]).0@ == k by {
            if k == entries.last().0@ {
                assert(entries[entries.len() - 1].0@ == k);
            } else {
                let i = choose|i: int| 0 <= i < front.len() && (#[trigger] front[i]).0@ == k;
                assert(entries[i].0@ == k);
            }
        }
    }
}

/// Where no key comes twice, the map gives each entry's key the entry's value.
pub proof fn lemma_entries_view_value(entries: Seq<(Vec<u8>, BencodeValue)>, i: int)
    requires
        keys_distinct(entries),
        0 <= i < entries.len(),
    ensures
        entries_view(entries).dom().contains(entries[i].0@),
        entries_view(entries)[entries[i].0@] == entries[i].1@,
    decreases entries.len(),
{
    let front = entries.drop_last();
    if i < entries.len() - 1 {
        assert forall|a: int, b: int| 0 <= a < b < front.len() implies (#[trigger] front[a]).0@ != (
        #[trigger] front[b]).0@ by {
            assert(front[a] == entries[a]);
            assert(front[b] == entries[b]);
        }
        lemma_entries_view_value(front, i);
        assert(front[i] == entries[i]);
        assert(entries[i].0@ != entries[entries.len() - 1].0@);
    }
}

/// Every value in memory stands for a representable value.
pub proof fn lemma_view_representable(v: BencodeValue)
    ensures
        v@.representable(),
    decreases v, 1nat,
{
    match v {
        BencodeValue::Integer(_) => {},
        BencodeValue::ByteString(b) => {
            assert(b@.len() == b.len());
        },
        BencodeValue::List(items) => {
            lemma_list_representable(items@);
            let l = list_view(items@);
            assert forall|i: int| 0 <= i < l.len() implies (#[trigger] l[i]).representable() by {}
        },
        BencodeValue::Dictionary(d) => {
            lemma_entries_representable(d.entries@);
        },
    }
}

/// Every list of values in memory stands for representable values.
pub proof fn lemma_list_representable(items: Seq<BencodeValue>)
    ensures
        forall|i: int| 0 <= i < list_view(items).len() ==> (#[trigger] list_view(
            items,
        )[i]).representable(),
    decreases items, 0nat,
{
    lemma_list_view(items);
    assert forall|i: int| 0 <= i < list_view(items).len() implies (#[trigger] list_view(
        items,
    )[i]).representable() by {
        lemma_view_representable(items[i]);
    }
}

/// Every sequence of entries in memory stands for a representable dictionary.
pub proof fn lemma_entries_representable(entries: Seq<(Vec<u8>, BencodeValue)>)
    ensures
        Value::Dictionary(entries_view(entries)).representable(),
    decreases entries, 0nat,
{
    lemma_entries_view_dom(entries);
    if entries.len() > 0 {
        let front = entries_view(entries.drop_last());
        let last = entries.last();
        lemma_entries_representable(entries.drop_last());
        lemma_view_representable(last.1);
        assert(last.0@.len() == last.0.len());
        assert forall|k: Seq<u8>| #[trigger]
            entries_view(entries).dom().contains(k) implies k.len() <= usize::MAX && entries_view(
            entries,
        )[k].representable() by {
            if k != last.0@ {
                assert(front.dom().contains(k));
            }
        }
    }
}

/// Where no key comes twice, the map has as many keys as there are entries.
pub proof fn lemma_entries_view_len(entries: Seq<(Vec<u8>, BencodeValue)>)
    requires
        keys_distinct(entries),
    ensures
        entries_view(entries).dom().len() == entries.len(),
    decreases entries.len(),
{
    if entries.len() > 0 {
        let front = entries.drop_last();
        assert forall|a: int, b: int| 0 <= a < b < front.len() implies (#[trigger] front[a]).0@ != (
        #[trigger] front[b]).0@ by {
            assert(front[a] == entries[a]);
            assert(front[b] == entries[b]);
        }
        lemma_entries_view_len(front);
        lemma_entries_view_dom(front);
        let key = entries.last().0@;
        if entries_view(front).dom().contains(key) {
            let i = choose|i: int| 0 <= i < front.len() && (#[trigger] front[i]).0@ == key;
            assert(entries[i].0@ == entries[entries.len() - 1].0@);
        }
    }
}

impl Dictionary {
    #[verifier::type_invariant]
    spec fn well_formed(self) -> bool {
        keys_distinct(self.entries@)
    }

    /// The empty dictionary.
    pub fn new() -> (r: Self)
        ensures
            r@ == Map::<Seq<u8>, Value>::empty(),
    {
        Dictionary { entries: Vec::new() }
    }

    /// The place of the entry under `key`, if there is one.
    fn position(&self, key: &[u8]) -> (r: Option<usize>)
        ensures
            match r {
                Some(i) => i < self.entries@.len() && self.entries@[i as int].0@ == key@,
                None => forall|j: int|
                    0 <= j < self.entries@.len() ==> (#[trigger] self.entries@[j]).0@ != key@,
            },
    {
        let mut i: usize = 0;
        while i < self.entries.len()
            invariant
                i <= self.entries@.len(),
                forall|j: int| 0 <= j < i ==> (#[trigger] self.entries@[j]).0@ != key@,
            decreases self.entries@.len() - i,
        {
            if bytes_equal(self.entries[i].0.as_slice(), key) {
                return Some(i);
            }
            i = i + 1;
        }
        None
    }

    /// The value under `key`, if the dictionary has that key.
    pub fn get(&self, key: &[u8]) -> (r: Option<&BencodeValue>)
        ensures
            match r {
                Some(v) => self@.dom().contains(key@) && v@ == self@[key@],
                None => !self@.dom().contains(key@),
            },
    {
        proof {
            use_type_invariant(self);
            lemma_entries_view_dom(self.entries@);
        }
        match self.position(key) {
            Some(i) => {
                proof {
                    lemma_entries_view_value(self.entries@, i as int);
                }
                Some(&self.entries[i].1)
            },
            None => None,
        }
    }

    /// The number of keys.
    pub fn len(&self) -> (r: usize)
        ensures
            r == self@.dom().len(),
    {
        proof {
            use_type_invariant(self);
            lemma_entries_view_len(self.entries@);
        }
        self.entries.len()
    }

    /// Whether the dictionary has no key.
    pub fn is_empty(&self) -> (r: bool)
        ensures
            r == (self@.dom().len() == 0),
    {
        self.len() == 0
    }

    /// Whether the dictionary has the key `key`.
    pub fn contains_key(&self, key: &[u8]) -> (r: bool)
        ensures
            r == self@.dom().contains(key@),
    {
        self.get(key).is_some()
    }

    /// Puts `value` under `key`, in place of the value that was there, if any.
    pub fn insert(&mut self, key: Vec<u8>, value: BencodeValue)
        ensures
            final(self)@ == old(self)@.insert(key@, value@),
    {
        proof {
            use_type_invariant(&*self);
        }
        let found = self.position(key.as_slice());
        let mut taken = Dictionary { entries: Vec::new() };
        core::mem::swap(self, &mut taken);
        let mut entries = taken.entries;
        let ghost before = entries@;
        let ghost k = key@;
        let ghost v = value@;
        match found {
            Some(i) => {
                entries.set(i, (key, value));
                proof {
                    lemma_entries_view_replace(before, i as int, entries@[i as int]);
                }
            },
            None => {
                entries.push((key, value));
                proof {
                    let after = entries@;
                    assert(after.drop_last() =~= before);
                    assert forall|a: int, b: int| 0 <= a < b < after.len() implies (
                    #[trigger] after[a]).0@ != (#[trigger] after[b]).0@ by {
                        assert(after[a] == before[a]);
                        if b < before.len() {
                            assert(after[b] == before[b]);
                        }
                    }
                }
            },
        }
        *self = Dictionary { entries };
    }
}

/// Replacing an entry by one with the same key keeps the keys distinct and
/// puts the new value under that key.
proof fn lemma_entries_view_replace(
    before: Seq<(Vec<u8>, BencodeValue)>,
    i: int,
    entry: (Vec<u8>, BencodeValue),
)
    requires
        keys_distinct(before),
        0 <= i < before.len(),
        before[i].0@ == entry.0@,
    ensures
        keys_distinct(before.update(i, entry)),
        entries_view(before.update(i, entry)) == entries_view(before).insert(entry.0@, entry.1@),
{
    let after = before.update(i, entry);
    let k = entry.0@;
    let v = entry.1@;
    assert forall|a: int, b: int| 0 <= a < b < after.len() implies (#[trigger] after[a]).0@ != (
    #[trigger] after[b]).0@ by {
        assert(after[a].0@ == before[a].0@);
        assert(after[b].0@ == before[b].0@);
    }
    lemma_entries_view_dom(before);
    lemma_entries_view_dom(after);
    assert forall|x: Seq<u8>|
        entries_view(after).dom().contains(x) <==> entries_view(before).dom().insert(k).contains(
            x,
        ) by {
        if entries_view(after).dom().contains(x) {
            let j = choose|j: int| 0 <= j < after.len() && (#[trigger] after[j]).0@ == x;
            assert(before[j].0@ == x);
        }
        if entries_view(before).dom().contains(x) {
            let j = choose|j: int| 0 <= j < before.len() && (#[trigger] before[j]).0@ == x;
            assert(after[j].0@ == x);
        }
        if x == k {
            assert(after[i].0@ == x);
        }
    }
    assert forall|x: Seq<u8>| entries_view(after).dom().contains(x) implies (
    #[trigger] entries_view(after)[x]) == entries_view(before).insert(k, v)[x] by {
        let j = choose|j: int| 0 <= j < after.len() && (#[trigger] after[j]).0@ == x;
        lemma_entries_view_value(after, j);
        if j != i {
            assert(after[j] == before[j]);
            lemma_entries_view_value(before, j);
        }
    }
    assert(entries_view(after) =~= entries_view(before).insert(k, v));
}

/// The value under the key `name`, if the dictionary has that key.
pub fn lookup<'a>(d: &'a Dictionary, name: &str) -> (r: Option<&'a BencodeValue>)
    ensures
        match r {
            Some(v) => entry(d@, name) == Some(v@),
            None => entry(d@, name) is None,
        },
{
    d.get(name.as_bytes())
}

/// What a decoder's result stands for: the decoded value and the bytes behind
/// it, or the error.
pub open spec fn decoded(r: Result<(BencodeValue, &[u8]), FormatError>) -> Decoded<Value> {
    match r {
        Ok((v, rest)) => Ok((v@, rest@)),
        Err(e) => Err(e),
    }
}

/// The place of the first `b` in `s`, or the length of `s` if there is none.
fn position_of(s: &[u8], b: u8) -> (r: usize)
    ensures
        r == find_byte(s@, b),
{
    let mut i: usize = 0;
    while i < s.len() && s[i] != b
        invariant
            i <= s.len(),
            forall|j: int| 0 <= j < i ==> s@[j] != b,
        decreases s.len() - i,
    {
        i = i + 1;
    }
    proof {
        lemma_find_byte_is(s@, b, i as int);
    }
    i
}

/// Decodes an integer; `input` starts behind the `i` that opened it. The text
/// up to the closing `e` is an optional sign and digits, and the number fits
/// in 64 bits.
pub fn parse_integer<'a>(input: &'a [u8]) -> (r: Result<(BencodeValue, &'a [u8]), FormatError>)
    ensures
        decoded(r) == decode_integer(input@),
{
    let end = position_of(input, CLOSE);
    if end >= input.len() {
        return Err(FormatError::UnterminatedInteger);
    }
    match parse_i64(slice_subrange(input, 0, end)) {
        Some(i) => Ok((BencodeValue::Integer(i), slice_subrange(input, end + 1, input.len()))),
        None => Err(FormatError::InvalidInteger),
    }
}

/// Decodes a length, a `:` and that many bytes. Gives the bytes and what is
/// left behind them.
pub fn parse_bytes<'a>(input: &'a [u8]) -> (r: Result<(Vec<u8>, &'a [u8]), FormatError>)
    ensures
        match r {
            Ok((b, rest)) => decode_bytes(input@) == Ok::<_, FormatError>((b@, rest@)),
            Err(e) => decode_bytes(input@) == Err::<(Seq<u8>, Seq<u8>), _>(e),
        },
{
    let colon = position_of(input, COLON);
    if colon >= input.len() {
        return Err(FormatError::UnterminatedLength);
    }
    match parse_usize(slice_subrange(input, 0, colon)) {
        None => Err(FormatError::InvalidLength),
        Some(n) => {
            if n > input.len() - colon - 1 {
                Err(FormatError::TruncatedByteString)
            } else {
                let start = colon + 1;
                let content = slice_to_vec(slice_subrange(input, start, start + n));
                Ok((content, slice_subrange(input, start + n, input.len())))
            }
        },
    }
}

/// Decodes a byte string.
pub fn parse_byte_string<'a>(input: &'a [u8]) -> (r: Result<
    (BencodeValue, &'a [u8]),
    FormatError,
>)
    ensures
        decoded(r) == decode_byte_string(input@),
{
    match parse_bytes(input) {
        Ok((content, rest)) => Ok((BencodeValue::ByteString(content), rest)),
        Err(e) => Err(e),
    }
}

/// Decodes one value from the front of `input`, and gives it with the bytes
/// behind it. The first byte decides the shape: a digit opens a byte string,
/// `i` an integer, `l` a list, `d` a dictionary; any other, or no byte at all,
/// is an error.
pub fn parse_bencode<'a>(input: &'a [u8]) -> (r: Result<(BencodeValue, &'a [u8]), FormatError>)
    ensures
        decoded(r) == decode_value(input@),
    decreases input@.len(), 0nat,
{
    if input.len() == 0 {
        return Err(FormatError::UnknownType);
    }
    let first: u8 = input[0];
    if first == OPEN_INTEGER {
        parse_integer(slice_subrange(input, 1, input.len()))
    } else if ZERO <= first && first <= NINE {
        parse_byte_string(input)
    } else if first == OPEN_LIST {
        parse_list(slice_subrange(input, 1, input.len()))
    } else if first == OPEN_DICTIONARY {
        parse_dictionary(slice_subrange(input, 1, input.len()))
    } else {
        Err(FormatError::UnknownType)
    }
}

/// Decodes the elements of a list up to its closing `e`; `input` starts behind
/// the `l` that opened it.
pub fn parse_list<'a>(input: &'a [u8]) -> (r: Result<(BencodeValue, &'a [u8]), FormatError>)
    ensures
        match r {
            Ok((v, rest)) => v@ is List && decode_list(input@) == Ok::<_, FormatError>(
                (v@->List_0, rest@),
            ),
            Err(e) => decode_list(input@) == Err::<(Seq<Value>, Seq<u8>), _>(e),
        },
    decreases input@.len(), 1nat,
{
    let mut result: Vec<BencodeValue> = Vec::new();
    let mut remaining: &[u8] = input;
    while remaining.len() > 0 && remaining[0] != CLOSE
        invariant
            remaining@.len() <= input@.len(),
            decode_list(input@) == match decode_list(remaining@) {
                Ok((items, rest)) => Ok::<_, FormatError>((list_view(result@) + items, rest)),
                Err(e) => Err(e),
            },
        decreases remaining@.len(),
    {
        let ghost before = result@;
        match parse_bencode(remaining) {
            Err(e) => {
                return Err(e);
            },
            Ok((value, rest)) => {
                proof {
                    lemma_decode_value_rest(remaining@);
                }
                result.push(value);
                proof {
                    assert(result@.drop_last() =~= before);
                    if let Ok((items, after)) = decode_list(rest@) {
                        let with_value = seq![value@] + items;
                        assert(list_view(result@) + items =~= list_view(before) + with_value);
                    }
                }
                remaining = rest;
            },
        }
    }
    if remaining.len() == 0 {
        return Err(FormatError::UnterminatedList);
    }
    proof {
        assert(list_view(result@) + Seq::<Value>::empty() =~= list_view(result@));
    }
    Ok((BencodeValue::List(result), slice_subrange(remaining, 1, remaining.len())))
}

/// Decodes the entries of a dictionary up to its closing `e`; `input` starts
/// behind the `d` that opened it. Each key is a byte string. The keys may
/// stand in any order, and of two entries with one key the later one counts.
pub fn parse_dictionary<'a>(input: &'a [u8]) -> (r: Result<(BencodeValue, &'a [u8]), FormatError>)
    ensures
        match r {
            Ok((v, rest)) => v@ is Dictionary && decode_dictionary(input@) == Ok::<_, FormatError>(
                (v@->Dictionary_0, rest@),
            ),
            Err(e) => decode_dictionary(input@) == Err::<(Map<Seq<u8>, Value>, Seq<u8>), _>(e),
        },
    decreases input@.len(), 1nat,
{
    let mut result = Dictionary::new();
    let mut remaining: &[u8] = input;
    proof {
        if let Ok((m, rest)) = decode_dictionary(input@) {
            assert(result@.union_prefer_right(m) =~= m);
        }
    }
    while remaining.len() > 0 && remaining[0] != CLOSE
        invariant
            remaining@.len() <= input@.len(),
            decode_dictionary(input@) == match decode_dictionary(remaining@) {
                Ok((m, rest)) => Ok::<_, FormatError>((result@.union_prefer_right(m), rest)),
                Err(e) => Err(e),
            },
        decreases remaining@.len(),
    {
        let ghost before = result@;
        let (key, behind_key) = match parse_bytes(remaining) {
            Err(e) => {
                return Err(e);
            },
            Ok(found) => found,
        };
        proof {
            lemma_decode_bytes_rest(remaining@);
        }
        match parse_bencode(behind_key) {
            Err(e) => {
                return Err(e);
            },
            Ok((value, rest)) => {
                proof {
                    lemma_decode_value_rest(behind_key@);
                }
                let ghost k = key@;
                result.insert(key, value);
                proof {
                    if let Ok((m, after)) = decode_dictionary(rest@) {
                        assert(result@.union_prefer_right(m) =~= before.union_prefer_right(
                            map![k => value@].union_prefer_right(m),
                        ));
                    }
                }
                remaining = rest;
            },
        }
    }
    if remaining.len() == 0 {
        return Err(FormatError::UnterminatedDictionary);
    }
    proof {
        assert(result@.union_prefer_right(Map::<Seq<u8>, Value>::empty()) =~= result@);
    }
    Ok((BencodeValue::Dictionary(result), slice_subrange(remaining, 1, remaining.len())))
}

/// `order` names the place `j`.
pub open spec fn names_place(order: Seq<usize>, j: int) -> bool {
    exists|p: int| 0 <= p < order.len() && #[trigger] order[p] == j
}

/// The keys of the entries at the places that `order` names.
pub open spec fn keys_at(entries: Seq<(Vec<u8>, BencodeValue)>, order: Seq<usize>) -> Seq<Seq<u8>> {
    Seq::new(order.len(), |p: int| entries[order[p] as int].0@)
}

impl Dictionary {
    /// The places of the entries, in the ascending order of their keys.
    fn places_by_key(&self) -> (order: Vec<usize>)
        ensures
            order@.len() == self.entries@.len(),
            forall|p: int| 0 <= p < order@.len() ==> (#[trigger] order@[p]) < self.entries@.len(),
            forall|p: int, q: int|
                #![trigger order@[p], order@[q]]
                0 <= p < q < order@.len() ==> lex_less(
                    self.entries@[order@[p] as int].0@,
                    self.entries@[order@[q] as int].0@,
                ),
            forall|j: int| 0 <= j < self.entries@.len() ==> #[trigger] names_place(order@, j),
    {
        proof {
            use_type_invariant(self);
        }
        let n = self.entries.len();
        let ghost entries = self.entries@;
        let mut order: Vec<usize> = Vec::new();
        let mut k: usize = 0;
        while k < n
            invariant
                n == entries.len(),
                entries == self.entries@,
                keys_distinct(entries),
                k <= n,
                order@.len() == k,
                forall|p: int| 0 <= p < order@.len() ==> (#[trigger] order@[p]) < k,
                forall|p: int, q: int|
                    #![trigger order@[p], order@[q]]
                    0 <= p < q < order@.len() ==> lex_less(
                        entries[order@[p] as int].0@,
                        entries[order@[q] as int].0@,
                    ),
                forall|j: int| 0 <= j < k ==> #[trigger] names_place(order@, j),
            decreases n - k,
        {
            let key = self.entries[k].0.as_slice();
            let mut at: usize = 0;
            while at < order.len() && !bytes_less(key, self.entries[order[at]].0.as_slice())
                invariant
                    n == entries.len(),
                    entries == self.entries@,
                    keys_distinct(entries),
                    k < n,
                    key@ == entries[k as int].0@,
                    at <= order@.len(),
                    forall|p: int| 0 <= p < order@.len() ==> (#[trigger] order@[p]) < k,
                    forall|p: int|
                        0 <= p < at ==> lex_less(
                            entries[(#[trigger] order@[p]) as int].0@,
                            key@,
                        ),
                decreases order@.len() - at,
            {
                proof {
                    let other = order@[at as int];
                    assert(other < k);
                    assert(entries[other as int].0@ != entries[k as int].0@);
                    lemma_lex_total(key@, entries[other as int].0@);
                }
                at = at + 1;
            }
            let ghost before = order@;
            order.insert(at, k);
            proof {
                let after = order@;
                assert forall|p: int| 0 <= p < after.len() implies (#[trigger] after[p]) < k + 1 by {
                    if p < at {
                        assert(after[p] == before[p]);
                    } else if p > at {
                        assert(after[p] == before[p - 1]);
                    }
                }
                assert forall|p: int, q: int|
                    #![trigger after[p], after[q]]
                    0 <= p < q < after.len() implies lex_less(
                    entries[after[p] as int].0@,
                    entries[after[q] as int].0@,
                ) by {
                    if q < at {
                        assert(after[p] == before[p]);
                        assert(after[q] == before[q]);
                    } else if q == at {
                        assert(after[p] == before[p]);
                    } else if p < at {
                        assert(after[p] == before[p]);
                        assert(after[q] == before[q - 1]);
                    } else if p == at {
                        assert(after[q] == before[q - 1]);
                        assert(lex_less(key@, entries[before[at as int] as int].0@));
                        if q - 1 > at {
                            assert(lex_less(
                                entries[before[at as int] as int].0@,
                                entries[before[q - 1] as int].0@,
                            ));
                            lemma_lex_transitive(
                                key@,
                                entries[before[at as int] as int].0@,
                                entries[before[q - 1] as int].0@,
                            );
                        }
                    } else {
                        assert(after[p] == before[p - 1]);
                        assert(after[q] == before[q - 1]);
                    }
                }
                assert forall|j: int| 0 <= j < k + 1 implies #[trigger] names_place(after, j) by {
                    if j == k {
                        assert(after[at as int] == j);
                    } else {
                        assert(names_place(before, j));
                        let p = choose|p: int| 0 <= p < before.len() && #[trigger] before[p] == j;
                        if p < at {
                            assert(after[p] == j);
                        } else {
                            assert(after[p + 1] == j);
                        }
                    }
                }
            }
            k = k + 1;
        }
        order
    }

    /// The keys, in ascending order.
    pub fn keys(&self) -> (r: Vec<Vec<u8>>)
        ensures
            r@.map_values(|k: Vec<u8>| k@) == ascending(self@.dom()),
    {
        proof {
            use_type_invariant(self);
        }
        let order = self.places_by_key();
        let mut keys: Vec<Vec<u8>> = Vec::new();
        let mut p: usize = 0;
        while p < order.len()
            invariant
                p <= order@.len(),
                keys@.len() == p,
                forall|q: int| 0 <= q < order@.len() ==> (#[trigger] order@[q]) < self.entries@.len(),
                forall|q: int|
                    0 <= q < p ==> (#[trigger] keys@[q])@ == self.entries@[order@[q] as int].0@,
            decreases order@.len() - p,
        {
            keys.push(copy_bytes(&self.entries[order[p]].0));
            p = p + 1;
        }
        proof {
            self.lemma_places_enumerate(order@);
            assert(keys@.map_values(|k: Vec<u8>| k@) =~= keys_at(self.entries@, order@));
        }
        keys
    }

    /// The keys at the places that `places_by_key` gives are the ascending
    /// enumeration of the keys of the map.
    proof fn lemma_places_enumerate(self, order: Seq<usize>)
        requires
            keys_distinct(self.entries@),
            order.len() == self.entries@.len(),
            forall|p: int| 0 <= p < order.len() ==> (#[trigger] order[p]) < self.entries@.len(),
            forall|p: int, q: int|
                #![trigger order[p], order[q]]
                0 <= p < q < order.len() ==> lex_less(
                    self.entries@[order[p] as int].0@,
                    self.entries@[order[q] as int].0@,
                ),
            forall|j: int| 0 <= j < self.entries@.len() ==> #[trigger] names_place(order, j),
        ensures
            keys_at(self.entries@, order) == ascending(self@.dom()),
    {
        let entries = self.entries@;
        let keys = keys_at(entries, order);
        lemma_entries_view_dom(entries);
        assert forall|k: Seq<u8>| self@.dom().contains(k) implies exists|i: int|
            0 <= i < keys.len() && #[trigger] keys[i] == k by {
            let j = choose|j: int| 0 <= j < entries.len() && (#[trigger] entries[j]).0@ == k;
            assert(names_place(order, j));
            let p = choose|p: int| 0 <= p < order.len() && #[trigger] order[p] == j;
            assert(keys[p] == k);
        }
        assert forall|a: int, b: int| 0 <= a < b < keys.len() implies lex_less(
            #[trigger] keys[a],
            #[trigger] keys[b],
        ) by {
            assert(lex_less(entries[order[a] as int].0@, entries[order[b] as int].0@));
        }
        assert forall|i: int| 0 <= i < keys.len() implies self@.dom().contains(
            #[trigger] keys[i],
        ) by {
            assert(self@.dom().contains(entries[order[i] as int].0@));
        }
        assert(enumerates(keys, self@.dom()));
        lemma_enumeration_is_ascending(keys, self@.dom());
    }

    /// Appends the encodings of the entries, in the ascending order of their keys.
    fn encode_entries_into(&self, out: &mut Vec<u8>)
        ensures
            final(out)@ == old(out)@ + encode_entries(self@, ascending(self@.dom())),
        decreases self, 0nat,
    {
        proof {
            use_type_invariant(self);
        }
        let order = self.places_by_key();
        let ghost entries = self.entries@;
        let ghost keys = keys_at(entries, order@);
        let ghost start = out@;
        proof {
            lemma_entries_view_dom(entries);
            self.lemma_places_enumerate(order@);
            assert(keys.subrange(0, 0) =~= Seq::<Seq<u8>>::empty());
            assert(start + encode_entries(self@, keys.subrange(0, 0)) =~= start);
        }
        let mut p: usize = 0;
        while p < order.len()
            invariant
                p <= order@.len(),
                entries == self.entries@,
                keys == keys_at(entries, order@),
                keys_distinct(entries),
                entries_view(entries) == self@,
                entries_view(entries).dom().finite(),
                forall|q: int| 0 <= q < order@.len() ==> (#[trigger] order@[q]) < entries.len(),
                out@ == start + encode_entries(self@, keys.subrange(0, p as int)),
            decreases order@.len() - p,
        {
            let ghost so_far = out@;
            let place = order[p];
            let entry = &self.entries[place];
            push_bytes(out, entry.0.as_slice());
            encode_into(&entry.1, out);
            proof {
                let upto = keys.subrange(0, p + 1);
                assert(upto.drop_last() =~= keys.subrange(0, p as int));
                assert(upto.last() == entries[place as int].0@);
                lemma_entries_view_value(entries, place as int);
                assert(encode_entry(self@, upto.last()) == encode_bytes(entry.0@) + encode_value(
                    entry.1@,
                ));
                assert(out@ =~= start + encode_entries(self@, upto));
            }
            p = p + 1;
        }
        proof {
            assert(keys.subrange(0, p as int) =~= keys);
        }
    }
}

/// Appends the encoding of a byte string: its length in digits, a `:`, the bytes.
fn push_bytes(out: &mut Vec<u8>, b: &[u8])
    ensures
        final(out)@ == old(out)@ + encode_bytes(b@),
{
    push_digits(out, b.len() as u64);
    out.push(COLON);
    let mut i: usize = 0;
    while i < b.len()
        invariant
            i <= b@.len(),
            out@ == old(out)@ + nat_digits(b@.len()) + seq![COLON] + b@.subrange(0, i as int),
        decreases b@.len() - i,
    {
        out.push(b[i]);
        i = i + 1;
        proof {
            assert(b@.subrange(0, i as int) =~= b@.subrange(0, i - 1).push(b@[i - 1]));
        }
    }
    proof {
        assert(b@.subrange(0, i as int) =~= b@);
        assert(out@ =~= old(out)@ + encode_bytes(b@));
    }
}

/// Appends the canonical encoding of `value` to `out`.
fn encode_into(value: &BencodeValue, out: &mut Vec<u8>)
    ensures
        final(out)@ == old(out)@ + encode_value(value@),
    decreases value, 1nat,
{
    let ghost start = out@;
    match value {
        BencodeValue::Integer(i) => {
            out.push(OPEN_INTEGER);
            push_int_text(out, *i);
            out.push(CLOSE);
            proof {
                assert(out@ =~= start + encode_value(value@));
            }
        },
        BencodeValue::ByteString(b) => {
            push_bytes(out, b.as_slice());
        },
        BencodeValue::List(items) => {
            out.push(OPEN_LIST);
            let mut i: usize = 0;
            proof {
                assert(items@.subrange(0, 0) =~= Seq::<BencodeValue>::empty());
                assert(out@ =~= start + seq![OPEN_LIST] + encode_list(
                    list_view(items@.subrange(0, 0)),
                ));
            }
            while i < items.len()
                invariant
                    i <= items@.len(),
                    value == BencodeValue::List(*items),
                    out@ == start + seq![OPEN_LIST] + encode_list(
                        list_view(items@.subrange(0, i as int)),
                    ),
                decreases items@.len() - i,
            {
                proof {
                    assert(value->List_0 == *items);
                    assert(decreases_to!(*value => value->List_0));
                    assert(decreases_to!(*value => items@[i as int]));
                }
                encode_into(&items[i], out);
                proof {
                    let upto = items@.subrange(0, i + 1);
                    assert(upto.drop_last() =~= items@.subrange(0, i as int));
                    assert(upto.last() == items@[i as int]);
                    assert(list_view(upto).drop_last() =~= list_view(upto.drop_last()));
                    assert(out@ =~= start + seq![OPEN_LIST] + encode_list(list_view(upto)));
                }
                i = i + 1;
            }
            out.push(CLOSE);
            proof {
                assert(items@.subrange(0, i as int) =~= items@);
                assert(out@ =~= start + encode_value(value@));
            }
        },
        BencodeValue::Dictionary(d) => {
            out.push(OPEN_DICTIONARY);
            d.encode_entries_into(out);
            out.push(CLOSE);
            proof {
                assert(out@ =~= start + encode_value(value@));
            }
        },
    }
}

/// The canonical encoding of a value. The entries of a dictionary come out in
/// the ascending order of their keys, whatever order they were put in.
pub fn encode(value: &BencodeValue) -> (r: Vec<u8>)
    ensures
        r@ == encode_value(value@),
{
    let mut out: Vec<u8> = Vec::new();
    encode_into(value, &mut out);
    out
}

/// A copy of a byte string.
fn copy_bytes(b: &Vec<u8>) -> (r: Vec<u8>)
    ensures
        r@ == b@,
{
    slice_to_vec(b.as_slice())
}

/// A copy of a value.
pub fn copy_value(value: &BencodeValue) -> (r: BencodeValue)
    ensures
        r@ == value@,
    decreases value, 1nat,
{
    match value {
        BencodeValue::Integer(i) => BencodeValue::Integer(*i),
        BencodeValue::ByteString(b) => BencodeValue::ByteString(copy_bytes(b)),
        BencodeValue::List(items) => {
            let mut copies: Vec<BencodeValue> = Vec::new();
            let mut i: usize = 0;
            proof {
                lemma_list_view(items@);
            }
            while i < items.len()
                invariant
                    i <= items@.len(),
                    value->List_0 == *items,
                    value is List,
                    copies@.len() == i,
                    forall|j: int| 0 <= j < i ==> (#[trigger] copies@[j])@ == items@[j]@,
                decreases items@.len() - i,
            {
                proof {
                    assert(decreases_to!(*value => value->List_0));
                    assert(decreases_to!(*value => items@[i as int]));
                }
                copies.push(copy_value(&items[i]));
                i = i + 1;
            }
            proof {
                lemma_list_view(items@);
                lemma_list_view(copies@);
                assert(list_view(copies@) =~= list_view(items@));
            }
            BencodeValue::List(copies)
        },
        BencodeValue::Dictionary(d) => BencodeValue::Dictionary(copy_dictionary(d)),
    }
}

/// A copy of a dictionary.
pub fn copy_dictionary(d: &Dictionary) -> (r: Dictionary)
    ensures
        r@ == d@,
    decreases d, 0nat,
{
    proof {
        use_type_invariant(d);
    }
    let mut copies: Vec<(Vec<u8>, BencodeValue)> = Vec::new();
    let mut i: usize = 0;
    while i < d.entries.len()
        invariant
            i <= d.entries@.len(),
            copies@.len() == i,
            forall|j: int|
                0 <= j < i ==> (#[trigger] copies@[j]).0@ == d.entries@[j].0@ && copies@[j].1@
                    == d.entries@[j].1@,
        decreases d.entries@.len() - i,
    {
        let entry = &d.entries[i];
        copies.push((copy_bytes(&entry.0), copy_value(&entry.1)));
        i = i + 1;
    }
    proof {
        lemma_entries_view_same(copies@, d.entries@);
        assert forall|a: int, b: int| 0 <= a < b < copies@.len() implies (#[trigger] copies@[a]).0@
            != (#[trigger] copies@[b]).0@ by {
            assert(copies@[a].0@ == d.entries@[a].0@);
            assert(copies@[b].0@ == d.entries@[b].0@);
        }
    }
    Dictionary { entries: copies }
}

/// Entries that stand for the same keys and values, place by place, stand for
/// the same map.
proof fn lemma_entries_view_same(
    first: Seq<(Vec<u8>, BencodeValue)>,
    second: Seq<(Vec<u8>, BencodeValue)>,
)
    requires
        first.len() == second.len(),
        forall|j: int|
            0 <= j < first.len() ==> (#[trigger] first[j]).0@ == second[j].0@ && first[j].1@
                == second[j].1@,
    ensures
        entries_view(first) == entries_view(second),
    decreases first.len(),
{
    if first.len() > 0 {
        let a = first.drop_last();
        let b = second.drop_last();
        assert forall|j: int| 0 <= j < a.len() implies (#[trigger] a[j]).0@ == b[j].0@ && a[j].1@
            == b[j].1@ by {
            assert(a[j] == first[j]);
            assert(b[j] == second[j]);
        }
        lemma_entries_view_same(a, b);
        assert(first[first.len() - 1].0@ == second[first.len() - 1].0@);
    }
}

/// Whether two values are the same. Dictionaries are the same where they
/// have the same keys with the same values, in whatever order they hold them.
pub fn values_equal(first: &BencodeValue, second: &BencodeValue) -> (r: bool)
    ensures
        r == (first@ == second@),
    decreases first, 1nat,
{
    match (first, second) {
        (BencodeValue::Integer(a), BencodeValue::Integer(b)) => *a == *b,
        (BencodeValue::ByteString(a), BencodeValue::ByteString(b)) => bytes_equal(
            a.as_slice(),
            b.as_slice(),
        ),
        (BencodeValue::List(a), BencodeValue::List(b)) => {
            proof {
                lemma_list_view(a@);
                lemma_list_view(b@);
            }
            if a.len() != b.len() {
                return false;
            }
            let mut i: usize = 0;
            while i < a.len()
                invariant
                    i <= a@.len(),
                    a@.len() == b@.len(),
                    first->List_0 == *a,
                    first is List,
                    second->List_0 == *b,
                    second is List,
                    list_view(a@).len() == a@.len(),
                    list_view(b@).len() == b@.len(),
                    forall|j: int| 0 <= j < a@.len() ==> #[trigger] list_view(a@)[j] == a@[j]@,
                    forall|j: int| 0 <= j < b@.len() ==> #[trigger] list_view(b@)[j] == b@[j]@,
                    forall|j: int| 0 <= j < i ==> (#[trigger] a@[j])@ == b@[j]@,
                decreases a@.len() - i,
            {
                proof {
                    assert(decreases_to!(*first => first->List_0));
                    assert(decreases_to!(*first => a@[i as int]));
                }
                if !values_equal(&a[i], &b[i]) {
                    proof {
                        assert(list_view(a@)[i as int] != list_view(b@)[i as int]);
                    }
                    return false;
                }
                i = i + 1;
            }
            proof {
                assert(list_view(a@) =~= list_view(b@));
            }
            true
        },
        (BencodeValue::Dictionary(a), BencodeValue::Dictionary(b)) => dictionaries_equal(a, b),
        _ => false,
    }
}

/// Whether two dictionaries have the same keys with the same values.
pub fn dictionaries_equal(first: &Dictionary, second: &Dictionary) -> (r: bool)
    ensures
        r == (first@ == second@),
    decreases first, 0nat,
{
    proof {
        use_type_invariant(first);
        use_type_invariant(second);
        lemma_entries_view_dom(first.entries@);
        lemma_entries_view_dom(second.entries@);
    }
    if first.len() != second.len() {
        return false;
    }
    let mut i: usize = 0;
    while i < first.entries.len()
        invariant
            i <= first.entries@.len(),
            keys_distinct(first.entries@),
            first@ == entries_view(first.entries@),
            first@.dom().len() == second@.dom().len(),
            forall|j: int|
                0 <= j < i ==> second@.dom().contains((#[trigger] first.entries@[j]).0@)
                    && second@[first.entries@[j].0@] == first.entries@[j].1@,
        decreases first.entries@.len() - i,
    {
        let entry = &first.entries[i];
        proof {
            lemma_entries_view_value(first.entries@, i as int);
        }
        match second.get(entry.0.as_slice()) {
            None => {
                return false;
            },
            Some(other) => {
                if !values_equal(&entry.1, other) {
                    return false;
                }
            },
        }
        i = i + 1;
    }
    proof {
        assert forall|k: Seq<u8>| first@.dom().contains(k) implies second@.dom().contains(k)
            && second@[k] == first@[k] by {
            let j = choose|j: int|
                0 <= j < first.entries@.len() && (#[trigger] first.entries@[j]).0@ == k;
            lemma_entries_view_value(first.entries@, j);
        }
        assert(first@.dom().subset_of(second@.dom()));
        vstd::set_lib::lemma_subset_equality(first@.dom(), second@.dom());
        assert(first@ =~= second@);
    }
    true
}

} // verus!
